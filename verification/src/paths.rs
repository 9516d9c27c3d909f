use vstd::prelude::*;
use vstd::string::*;
use crate::keyer::blake3_hex_of;
use crate::keyer::hash_path;

verus! {

/// The directory that holds every persisted result of a workspace.
pub fn cache_root_for_workspace(workspace_root: &str) -> (r: String)
    ensures
        r@ == workspace_root@ + "/.analysis-cache/files"@,
{
    let mut s = String::from_str(workspace_root);
    s.append("/.analysis-cache/files");
    s
}

/// The file a path's result is persisted at: the cache directory, the path's
/// key as the stem, and a fixed extension.
pub fn target_path_for(workspace_root: &str, original_path: &str) -> (r: String)
    ensures
        r@ == workspace_root@ + "/.analysis-cache/files/"@ + blake3_hex_of(original_path@)
            + ".json"@,
{
    let mut s = String::from_str(workspace_root);
    s.append("/.analysis-cache/files/");
    let key = hash_path(original_path);
    s.append(key.as_str());
    s.append(".json");
    s
}

/// The temporary sibling that an atomic write goes through.
pub fn tmp_path_for(target: &str) -> (r: String)
    ensures
        r@ == target@ + ".tmp"@,
{
    let mut s = String::from_str(target);
    s.append(".tmp");
    s
}

/// The temporary sibling is never the target itself: a write that stops
/// before the rename cannot have touched the target.
pub proof fn lemma_tmp_differs_from_target(target: Seq<char>)
    ensures
        target + ".tmp"@ != target,
{
    reveal_strlit(".tmp");
    assert((target + ".tmp"@).len() == target.len() + 4);
}

/// The workspace root, resolved as the session demands it: an explicit root
/// location when the initialization context carries one, else the first
/// workspace folder, else the process's working directory.
pub fn resolve_workspace_root(
    root_uri_path: Option<String>,
    first_folder_path: Option<String>,
    cwd: String,
) -> (r: String)
    ensures
        root_uri_path is Some ==> r@ == root_uri_path->0@,
        root_uri_path is None && first_folder_path is Some ==> r@ == first_folder_path->0@,
        root_uri_path is None && first_folder_path is None ==> r@ == cwd@,
{
    match root_uri_path {
        Some(p) => p,
        None => match first_folder_path {
            Some(p) => p,
            None => cwd,
        },
    }
}

} // verus!
