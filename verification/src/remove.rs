//! The delete operation's scoping rules: a path with a trailing
//! separator names every stored object under that prefix, any other
//! path names exactly the one object at that key. Only keys the store
//! confirms as deleted are then pruned from the manifest.

use vstd::prelude::*;

use crate::classify::strings_view;
use crate::manifest::{spec_remove_key, spec_remove_keys, lemma_remove_key_membership};
use crate::text::{ends_with, starts_with, spec_ends_with, spec_starts_with};
use crate::EntriesRowV;

verus! {

/// A trailing separator makes the path a prefix delete.
pub open spec fn spec_prefix_drop(path: Seq<char>) -> bool {
    spec_ends_with(path, seq!['/'])
}

/// The listed keys among the first `n` that fall under the prefix, in
/// listed order.
pub open spec fn spec_keys_under_prefix_upto(
    path: Seq<char>,
    listed: Seq<Seq<char>>,
    n: int,
) -> Seq<Seq<char>>
    decreases n,
{
    if n <= 0 {
        Seq::empty()
    } else {
        let pre = spec_keys_under_prefix_upto(path, listed, n - 1);
        if spec_starts_with(listed[n - 1], path) {
            pre.push(listed[n - 1])
        } else {
            pre
        }
    }
}

/// The keys a drop of `path` targets: every listed key under the
/// prefix when the path ends in a separator, exactly the path itself
/// otherwise.
pub open spec fn spec_keys_to_drop(path: Seq<char>, listed: Seq<Seq<char>>) -> Seq<Seq<char>> {
    if spec_prefix_drop(path) {
        spec_keys_under_prefix_upto(path, listed, listed.len() as int)
    } else {
        seq![path]
    }
}

/// Selects the keys a drop of `path` targets from the store's listing.
pub fn keys_to_drop(path: &String, listed: &Vec<String>) -> (r: Vec<String>)
    ensures
        strings_view(r@) == spec_keys_to_drop(path@, strings_view(listed@)),
{
    let ghost lv = strings_view(listed@);
    proof {
        reveal_strlit("/");
        assert("/"@ =~= seq!['/']);
    }
    if ends_with(path.as_str(), "/") {
        let mut r: Vec<String> = Vec::new();
        let mut i: usize = 0;
        while i < listed.len()
            invariant
                lv == strings_view(listed@),
                lv.len() == listed@.len(),
                0 <= i <= listed@.len(),
                spec_prefix_drop(path@),
                strings_view(r@) == spec_keys_under_prefix_upto(path@, lv, i as int),
            decreases listed@.len() - i,
        {
            proof {
                assert(lv[i as int] == listed@[i as int]@);
            }
            if starts_with(listed[i].as_str(), path.as_str()) {
                r.push(listed[i].clone());
            }
            proof {
                assert(strings_view(r@) =~= spec_keys_under_prefix_upto(path@, lv, i + 1));
            }
            i = i + 1;
        }
        r
    } else {
        let mut r: Vec<String> = Vec::new();
        r.push(path.clone());
        proof {
            assert(strings_view(r@) =~= seq![path@]);
        }
        r
    }
}

/// Law: with a trailing separator, the targeted keys are exactly the
/// listed keys under the prefix; without one, the single named key.
pub proof fn lemma_drop_scoping(path: Seq<char>, listed: Seq<Seq<char>>, k: Seq<char>)
    ensures
        spec_prefix_drop(path) ==> (spec_keys_to_drop(path, listed).contains(k) <==> (
        listed.contains(k) && spec_starts_with(k, path))),
        !spec_prefix_drop(path) ==> spec_keys_to_drop(path, listed) == seq![path],
{
    if spec_prefix_drop(path) {
        lemma_keys_under_prefix_membership(path, listed, listed.len() as int, k);
    }
}

/// Membership in the prefix selection, over the first `n` listed keys.
proof fn lemma_keys_under_prefix_membership(
    path: Seq<char>,
    listed: Seq<Seq<char>>,
    n: int,
    k: Seq<char>,
)
    requires
        n <= listed.len(),
    ensures
        spec_keys_under_prefix_upto(path, listed, n).contains(k) <==> exists|i: int|
            0 <= i < n && listed[i] == k && spec_starts_with(k, path),
    decreases n,
{
    if n > 0 {
        lemma_keys_under_prefix_membership(path, listed, n - 1, k);
        let pre = spec_keys_under_prefix_upto(path, listed, n - 1);
        if spec_starts_with(listed[n - 1], path) {
            let cur = pre.push(listed[n - 1]);
            if cur.contains(k) {
                let i = choose|i: int| 0 <= i < cur.len() && cur[i] == k;
                if i < pre.len() {
                    assert(pre[i] == k);
                    assert(pre.contains(k));
                } else {
                    assert(k == listed[n - 1]);
                }
            }
            if pre.contains(k) {
                let i = choose|i: int| 0 <= i < pre.len() && pre[i] == k;
                assert(cur[i] == k);
                assert(cur.contains(k));
            }
            if k == listed[n - 1] {
                assert(cur[cur.len() - 1] == k);
                assert(cur.contains(k));
            }
        }
    }
}

/// Law: pruning the manifest by the deleted keys removes exactly the
/// rows whose key was deleted — a row survives if and only if it was
/// there before and its key is not among the deleted ones.
pub proof fn lemma_prune_exactly(m: Seq<EntriesRowV>, ks: Seq<Seq<char>>, r: EntriesRowV)
    ensures
        spec_remove_keys(m, ks).contains(r) <==> (m.contains(r) && !ks.contains(r.key)),
    decreases ks.len(),
{
    if ks.len() == 0 {
        if ks.contains(r.key) {
            let i = choose|i: int| 0 <= i < ks.len() && ks[i] == r.key;
        }
    } else {
        let m2 = spec_remove_key(m, ks[0]);
        lemma_prune_exactly(m2, ks.drop_first(), r);
        lemma_remove_key_membership(m, ks[0], r);
        assert(ks.contains(r.key) <==> (r.key == ks[0] || ks.drop_first().contains(r.key))) by {
            if ks.contains(r.key) {
                let i = choose|i: int| 0 <= i < ks.len() && ks[i] == r.key;
                if i > 0 {
                    assert(ks.drop_first()[i - 1] == r.key);
                }
            }
            if ks.drop_first().contains(r.key) {
                let i = choose|i: int|
                    0 <= i < ks.drop_first().len() && ks.drop_first()[i] == r.key;
                assert(ks[i + 1] == r.key);
            }
        }
    }
}

} // verus!
