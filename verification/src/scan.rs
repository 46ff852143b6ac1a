//! The scan-side logic: the included/excluded substring filters, the
//! exclusion of the engine's own reserved paths, the derivation of a
//! remote key from a canonical path, and the content fingerprint of a
//! candidate file.

use vstd::prelude::*;

use crate::text::{
    has_component, last_component_is, spec_contains, spec_has_component, spec_last_component_is,
    spec_starts_with, starts_with, str_contains,
};
use crate::PlanEntry;

verus! {

/// Some pattern in the list occurs in the path.
pub open spec fn spec_matches_any(p: Seq<char>, list: Seq<Seq<char>>) -> bool {
    exists|i: int| 0 <= i < list.len() && spec_contains(p, list[i])
}

/// The filter rule: a path is kept when no excluded pattern occurs in
/// it, and the included list is empty or some included pattern occurs in
/// it.
pub open spec fn spec_keep_path(
    p: Seq<char>,
    included: Seq<Seq<char>>,
    excluded: Seq<Seq<char>>,
) -> bool {
    !spec_matches_any(p, excluded) && (included.len() == 0 || spec_matches_any(p, included))
}

/// Whether some pattern in the list occurs in the path.
pub fn matches_any(p: &String, list: &Vec<String>) -> (r: bool)
    ensures
        r == spec_matches_any(p@, crate::classify::strings_view(list@)),
{
    let ghost lv = crate::classify::strings_view(list@);
    let mut i: usize = 0;
    while i < list.len()
        invariant
            lv == crate::classify::strings_view(list@),
            lv.len() == list@.len(),
            0 <= i <= list@.len(),
            forall|k: int| 0 <= k < i ==> !spec_contains(p@, lv[k]),
        decreases list@.len() - i,
    {
        proof {
            assert(lv[i as int] == list@[i as int]@);
        }
        if str_contains(p.as_str(), list[i].as_str()) {
            return true;
        }
        i = i + 1;
    }
    false
}

/// Applies the filter rule to one path.
pub fn keep_path(p: &String, included: &Vec<String>, excluded: &Vec<String>) -> (r: bool)
    ensures
        r == spec_keep_path(
            p@,
            crate::classify::strings_view(included@),
            crate::classify::strings_view(excluded@),
        ),
{
    if matches_any(p, excluded) {
        return false;
    }
    if included.len() == 0 {
        return true;
    }
    matches_any(p, included)
}

/// A path the scanner must always ignore: anything inside the manifest
/// working directory, and the plan artifact itself.
pub open spec fn spec_reserved(p: Seq<char>) -> bool {
    spec_has_component(p, "_s3b_db"@) || spec_last_component_is(p, "s3b_plan.bin"@)
}

/// Whether the path is one of the engine's own and must be ignored by
/// the scan, whatever the filters say.
pub fn is_reserved_path(p: &String) -> (r: bool)
    ensures
        r == spec_reserved(p@),
{
    if has_component(p.as_str(), "_s3b_db") {
        return true;
    }
    last_component_is(p.as_str(), "s3b_plan.bin")
}

/// The remote key derived from a canonical path under the canonical
/// base: the path with the base and its separator stripped. Nothing
/// when the path does not sit under the base.
pub open spec fn spec_key_of(base: Seq<char>, path: Seq<char>) -> Option<Seq<char>> {
    if path.len() >= base.len() + 1 && spec_starts_with(path, base) && path[base.len() as int]
        == '/' {
        Some(path.skip(base.len() as int + 1))
    } else {
        None
    }
}

/// Derives the remote key of `path` under `base`.
pub fn derive_key(base: &String, path: &String) -> (r: Option<String>)
    ensures
        match r {
            Some(k) => spec_key_of(base@, path@) == Some(k@),
            None => spec_key_of(base@, path@) is None,
        },
{
    let blen = base.as_str().unicode_len();
    let plen = path.as_str().unicode_len();
    if plen <= blen {
        return None;
    }
    if !starts_with(path.as_str(), base.as_str()) {
        return None;
    }
    if path.as_str().get_char(blen) != '/' {
        return None;
    }
    let tail = path.as_str().substring_char(blen + 1, plen);
    let k = String::from_str(tail);
    proof {
        assert(k@ =~= path@.skip(base@.len() as int + 1));
    }
    Some(k)
}

/// What blake3's hash function returns for the given bytes, rendered
/// as lowercase hexadecimal. The digest depends on the bytes alone.
pub uninterp spec fn blake3_hex_of(data: Seq<u8>) -> Seq<char>;

/// A lowercase hexadecimal digit, the only characters a rendered
/// fingerprint holds.
pub open spec fn spec_is_hex_char(c: char) -> bool {
    ('0' <= c && c <= '9') || ('a' <= c && c <= 'f')
}

/// Relies on blake3::hash: the content digest of the bytes, a function
/// of the bytes alone; its hexadecimal rendering is 64 lowercase hex
/// characters, two per digest byte.
#[verifier::external_body]
fn blake3_hex(data: &Vec<u8>) -> (r: String)
    ensures
        r@ == blake3_hex_of(data@),
        r@.len() == 64,
        forall|i: int| 0 <= i < r@.len() ==> spec_is_hex_char(#[trigger] r@[i]),
{
    blake3::hash(data.as_slice()).to_string()
}

/// Builds the candidate for one scanned file from its canonical path,
/// its bytes and its modification time: the key is derived from the
/// base, the hash is the content fingerprint. Nothing when the path
/// does not sit under the base.
pub fn make_candidate(base: &String, path: &String, contents: &Vec<u8>, modified: u64) -> (r:
    Option<PlanEntry>)
    ensures
        match r {
            Some(e) => spec_key_of(base@, path@) == Some(e@.key) && e@.path == path@ && e@.hash
                == blake3_hex_of(contents@) && e@.hash.len() == 64 && (forall|i: int|
                0 <= i < e@.hash.len() ==> spec_is_hex_char(#[trigger] e@.hash[i]))
                && e@.modified == modified,
            None => spec_key_of(base@, path@) is None,
        },
{
    match derive_key(base, path) {
        Some(key) => {
            let hash = blake3_hex(contents);
            Some(PlanEntry { key, path: path.clone(), hash, modified })
        },
        None => None,
    }
}

} // verus!
