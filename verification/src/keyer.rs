use vstd::prelude::*;

verus! {

/// The digest that the key of a path is built from: a function of the path's
/// characters alone, the same in every process and on every run.
pub uninterp spec fn blake3_hex_of(s: Seq<char>) -> Seq<char>;

/// A character that may appear in a cache key: a lowercase hexadecimal digit,
/// so a key never holds a path separator or any other reserved character.
pub open spec fn is_hex_char(c: char) -> bool {
    c == '0' || c == '1' || c == '2' || c == '3' || c == '4' || c == '5' || c == '6' || c == '7'
        || c == '8' || c == '9' || c == 'a' || c == 'b' || c == 'c' || c == 'd' || c == 'e' || c
        == 'f'
}

/// Relies on blake3::hash and blake3::Hash::to_hex: the 256-bit digest of the
/// bytes of `s`, printed as 64 lowercase hexadecimal characters.
#[verifier::external_body]
fn blake3_hex(s: &str) -> (r: String)
    ensures
        r@ == blake3_hex_of(s@),
        r@.len() == 64,
        forall|i: int| 0 <= i < r@.len() ==> is_hex_char(#[trigger] r@[i]),
{
    blake3::hash(s.as_bytes()).to_hex().to_string()
}

/// The cache key of a path: deterministic across runs, collision-resistant,
/// and safe to use as a file name stem whatever characters the path holds.
pub fn hash_path(path: &str) -> (r: String)
    ensures
        r@ == blake3_hex_of(path@),
        r@.len() == 64,
        forall|i: int| 0 <= i < r@.len() ==> is_hex_char(#[trigger] r@[i]),
{
    blake3_hex(path)
}

/// Keying is deterministic: equal paths always get equal keys, in this run
/// and in any other.
pub proof fn lemma_key_deterministic(p1: Seq<char>, p2: Seq<char>)
    requires
        p1 == p2,
    ensures
        blake3_hex_of(p1) == blake3_hex_of(p2),
{
}

} // verus!
