use vstd::prelude::*;
use vstd::string::*;
use crate::json::{JsonValue, Json, jm, jm_obj, ser};
use crate::parse::{parse_text, parse_document};
use crate::store::{Store, upsert_model};
use crate::aggregate::{LspFileMessage, msgs_model, project_model, format_for_lsp_message};
use crate::envelope::{envelope_model, now_rfc3339};
use crate::keyer::blake3_hex_of;

verus! {

/// What a stored value is for a given analyzer text: the parsed document
/// where the text is one, else the raw text wrapped under a fallback key.
pub open spec fn decode_model(s: Seq<char>) -> Json {
    match parse_text(s) {
        Some(v) => v,
        None => Json::Obj(seq![("raw"@, Json::Str(s))]),
    }
}

/// Turns what the analyzer printed into the value to store. Never discards
/// the event: text that is no document is kept raw.
pub fn decode_analyzer_output(s: String) -> (r: JsonValue)
    ensures
        jm(r) == decode_model(s@),
{
    match parse_document(s.as_str()) {
        Some(v) => v,
        None => {
            let mut fields: Vec<(String, JsonValue)> = Vec::new();
            fields.push((String::from_str("raw"), JsonValue::Str(s)));
            proof {
                reveal_with_fuel(jm_obj, 3);
                assert(jm_obj(fields@) =~= seq![("raw"@, Json::Str(fields@[0].1->Str_0@))]);
            }
            JsonValue::Obj(fields)
        },
    }
}

/// How one save event ends, and what the host must still do for it.
#[derive(Debug, PartialEq, Eq)]
pub enum SaveOutcome {
    /// The saved file was not on disk: report, and touch nothing.
    NotFound,
    /// The analyzer failed: report its message, and touch nothing.
    AnalyzerFailed { message: String },
    /// The store was updated: notify with the payload, then attempt the
    /// atomic write (temporary sibling, then rename onto the target), then
    /// report how the write went.
    Processed { payload: Vec<LspFileMessage>, target: String, tmp: String, content: String },
}

/// One save event, from the decision side: everything but the I/O. The store
/// is mutated exactly when the file exists and the analyzer succeeded, and
/// the outcome says what to send and write.
pub fn did_save_step(
    store: &mut Store,
    file_exists: bool,
    path: String,
    analysis: Result<String, String>,
    workspace_root: &str,
    analyzed_at: &str,
) -> (r: SaveOutcome)
    requires
        old(store).wf(),
    ensures
        final(store).wf(),
        !file_exists ==> (r matches SaveOutcome::NotFound && *final(store) == *old(store)),
        file_exists && analysis is Err ==> (r matches SaveOutcome::AnalyzerFailed { message }
            && message@ == analysis->Err_0@ && *final(store) == *old(store)),
        file_exists && analysis is Ok ==> ({
            let stored = decode_model(analysis->Ok_0@);
            &&& final(store).view_entries() == upsert_model(
                old(store).view_entries(),
                path@,
                stored,
            )
            &&& r matches SaveOutcome::Processed { payload, target, tmp, content }
                && msgs_model(payload@) == project_model(final(store).view_entries()) && target@
                == workspace_root@ + "/.analysis-cache/files/"@ + blake3_hex_of(path@) + ".json"@
                && tmp@ == target@ + ".tmp"@ && content@ == ser(
                envelope_model(path@, analyzed_at@, stored),
            )
        }),
{
    if !file_exists {
        return SaveOutcome::NotFound;
    }
    match analysis {
        Err(message) => SaveOutcome::AnalyzerFailed { message },
        Ok(text) => {
            let value = decode_analyzer_output(text);
            let plan = crate::disk::persist_analysis_plan(
                workspace_root,
                path.as_str(),
                &value,
                analyzed_at,
            );
            store.upsert_store_value(path, value);
            let payload = format_for_lsp_message(store.entries());
            SaveOutcome::Processed { payload, target: plan.0, tmp: plan.1, content: plan.2 }
        },
    }
}

/// `did_save_step` with the wall clock read here: the envelope's timestamp
/// is whatever the clock said, and everything else is as the exact step.
pub fn did_save_step_now(
    store: &mut Store,
    file_exists: bool,
    path: String,
    analysis: Result<String, String>,
    workspace_root: &str,
) -> (r: SaveOutcome)
    requires
        old(store).wf(),
    ensures
        final(store).wf(),
        !file_exists ==> (r matches SaveOutcome::NotFound && *final(store) == *old(store)),
        file_exists && analysis is Err ==> (r matches SaveOutcome::AnalyzerFailed { message }
            && message@ == analysis->Err_0@ && *final(store) == *old(store)),
        file_exists && analysis is Ok ==> ({
            let stored = decode_model(analysis->Ok_0@);
            &&& final(store).view_entries() == upsert_model(
                old(store).view_entries(),
                path@,
                stored,
            )
            &&& r matches SaveOutcome::Processed { payload, target, tmp, content }
                && msgs_model(payload@) == project_model(final(store).view_entries()) && target@
                == workspace_root@ + "/.analysis-cache/files/"@ + blake3_hex_of(path@) + ".json"@
                && tmp@ == target@ + ".tmp"@ && (exists|ts: Seq<char>|
                content@ == ser(envelope_model(path@, ts, stored)))
        }),
{
    let now = now_rfc3339();
    did_save_step(store, file_exists, path, analysis, workspace_root, now.as_str())
}

} // verus!
