use vstd::prelude::*;
use crate::json::{JsonValue, Json, jm, ser};
use crate::envelope::envelope_model;
use crate::keyer::blake3_hex_of;
use crate::paths::lemma_tmp_differs_from_target;

verus! {

/// A model of the cache files on disk: each path's complete content. A
/// half-written temporary file is modeled too; what matters is what a reader
/// of any path observes.
pub struct DiskModel {
    pub files: Map<Seq<char>, Seq<char>>,
}

/// Writing a file replaces that path's content, wholesale.
pub open spec fn fs_write(fs: DiskModel, path: Seq<char>, content: Seq<char>) -> DiskModel {
    DiskModel { files: fs.files.insert(path, content) }
}

/// Renaming moves one path's content onto another, atomically: afterwards the
/// source is gone and the destination holds exactly the source's content.
pub open spec fn fs_rename(fs: DiskModel, from: Seq<char>, to: Seq<char>) -> DiskModel {
    if fs.files.dom().contains(from) {
        DiskModel { files: fs.files.remove(from).insert(to, fs.files[from]) }
    } else {
        fs
    }
}

/// The two steps of one atomic write, run to completion: write the temporary
/// sibling, then rename it onto the target.
pub open spec fn atomic_write(fs: DiskModel, target: Seq<char>, content: Seq<char>) -> DiskModel {
    fs_rename(fs_write(fs, target + ".tmp"@, content), target + ".tmp"@, target)
}

/// Crash safety: a write that stops between the temporary write and the
/// rename leaves the target exactly as it was — same presence, same content.
pub proof fn lemma_crash_before_rename_preserves_target(
    fs: DiskModel,
    target: Seq<char>,
    content: Seq<char>,
)
    ensures
        fs_write(fs, target + ".tmp"@, content).files.dom().contains(target) == fs.files.dom().contains(target),
        fs.files.dom().contains(target) ==> fs_write(fs, target + ".tmp"@, content).files[target]
            == fs.files[target],
{
    lemma_tmp_differs_from_target(target);
}

/// A completed atomic write leaves the whole content at the target, removes
/// the temporary sibling, and touches no other path.
pub proof fn lemma_atomic_write_complete(fs: DiskModel, target: Seq<char>, content: Seq<char>)
    ensures
        atomic_write(fs, target, content).files.dom().contains(target),
        atomic_write(fs, target, content).files[target] == content,
        !atomic_write(fs, target, content).files.dom().contains(target + ".tmp"@),
        forall|p: Seq<char>|
            p != target && p != target + ".tmp"@ ==> #[trigger] atomic_write(
                fs,
                target,
                content,
            ).files.dom().contains(p) == fs.files.dom().contains(p),
        forall|p: Seq<char>|
            p != target && p != target + ".tmp"@ && fs.files.dom().contains(p)
                ==> #[trigger] atomic_write(fs, target, content).files[p] == fs.files[p],
{
    lemma_tmp_differs_from_target(target);
}

/// Persisting an envelope and reading the target back yields exactly the
/// envelope's text: the raw result under `data`, the path under
/// `original_path`.
pub proof fn lemma_read_back_after_persist(
    fs: DiskModel,
    target: Seq<char>,
    path: Seq<char>,
    analyzed_at: Seq<char>,
    data: Json,
)
    ensures
        ({
            let content = ser(envelope_model(path, analyzed_at, data));
            let fs2 = atomic_write(fs, target, content);
            fs2.files.dom().contains(target) && fs2.files[target] == content
        }),
{
    let content = ser(envelope_model(path, analyzed_at, data));
    lemma_atomic_write_complete(fs, target, content);
}

/// Everything app code needs to persist one result: the target path, the
/// temporary sibling to write, and the exact text to write there. The write
/// itself is the `atomic_write` step on the disk.
pub fn persist_analysis_plan(
    workspace_root: &str,
    original_path: &str,
    raw: &JsonValue,
    analyzed_at: &str,
) -> (r: (String, String, String))
    ensures
        r.0@ == workspace_root@ + "/.analysis-cache/files/"@ + blake3_hex_of(original_path@)
            + ".json"@,
        r.1@ == r.0@ + ".tmp"@,
        r.2@ == ser(envelope_model(original_path@, analyzed_at@, jm(*raw))),
{
    let target = crate::paths::target_path_for(workspace_root, original_path);
    let tmp = crate::paths::tmp_path_for(target.as_str());
    let env = crate::envelope::wrap_with_metadata(
        original_path,
        analyzed_at,
        crate::json::clone_value(raw),
    );
    let content = crate::json::to_text(&env);
    (target, tmp, content)
}

} // verus!
