use vstd::prelude::*;
use vstd::string::*;
use crate::json::{JsonValue, Json, jm, jm_obj};

verus! {

/// The shape identifier written into every persisted envelope; bumped only on
/// a deliberate format change.
pub const SCHEMA_VERSION: i64 = 1;

/// The envelope a result is persisted in: schema version, the original path,
/// the moment of analysis, and the raw result.
pub open spec fn envelope_model(path: Seq<char>, analyzed_at: Seq<char>, data: Json) -> Json {
    Json::Obj(
        seq![
            ("schema_version"@, Json::Int(1)),
            ("original_path"@, Json::Str(path)),
            ("analyzed_at"@, Json::Str(analyzed_at)),
            ("data"@, data),
        ],
    )
}

/// Wraps a raw result with its persistence metadata. Pure: the timestamp is
/// an argument, so the envelope is a function of what is passed in.
pub fn wrap_with_metadata(original_path: &str, analyzed_at: &str, raw: JsonValue) -> (r: JsonValue)
    ensures
        jm(r) == envelope_model(original_path@, analyzed_at@, jm(raw)),
{
    let ghost raw_model = jm(raw);
    let mut fields: Vec<(String, JsonValue)> = Vec::new();
    fields.push((String::from_str("schema_version"), JsonValue::Int(SCHEMA_VERSION)));
    fields.push((String::from_str("original_path"), JsonValue::Str(String::from_str(original_path))));
    fields.push((String::from_str("analyzed_at"), JsonValue::Str(String::from_str(analyzed_at))));
    fields.push((String::from_str("data"), raw));
    proof {
        reveal_with_fuel(jm_obj, 6);
        assert(jm_obj(fields@) =~= envelope_model(original_path@, analyzed_at@, raw_model)->Obj_0);
    }
    JsonValue::Obj(fields)
}

/// Relies on chrono::Utc::now and chrono::DateTime::to_rfc3339 for the
/// wall-clock reading; nothing is assumed about the text that comes back,
/// and every caller's contract holds whatever it is.
#[verifier::external_body]
pub fn now_rfc3339() -> (r: String) {
    chrono::Utc::now().to_rfc3339()
}

} // verus!
