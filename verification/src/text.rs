//! Verified text helpers: substring search, prefix and suffix tests, and
//! the slash-delimited component tests that the scan filters rely on.

use vstd::prelude::*;

verus! {

/// The needle `n` occurs in `h` at position `i`.
pub open spec fn spec_matches_at(h: Seq<char>, n: Seq<char>, i: int) -> bool {
    0 <= i && i + n.len() <= h.len() && h.subrange(i, i + n.len()) == n
}

/// The needle `n` occurs somewhere in `h`.
pub open spec fn spec_contains(h: Seq<char>, n: Seq<char>) -> bool {
    exists|i: int| spec_matches_at(h, n, i)
}

/// `h` begins with `n`.
pub open spec fn spec_starts_with(h: Seq<char>, n: Seq<char>) -> bool {
    spec_matches_at(h, n, 0)
}

/// `h` ends with `n`.
pub open spec fn spec_ends_with(h: Seq<char>, n: Seq<char>) -> bool {
    n.len() <= h.len() && spec_matches_at(h, n, h.len() - n.len())
}

/// Whether `n` occurs in `h` at position `i`, by comparing character by
/// character.
pub fn matches_at(h: &str, n: &str, i: usize) -> (r: bool)
    requires
        i + n@.len() <= h@.len(),
    ensures
        r == spec_matches_at(h@, n@, i as int),
{
    let hlen = h.unicode_len();
    let nlen = n.unicode_len();
    let mut j: usize = 0;
    while j < nlen
        invariant
            hlen == h@.len(),
            nlen == n@.len(),
            i + nlen <= hlen,
            0 <= j <= nlen,
            forall|k: int| 0 <= k < j ==> h@[i + k] == n@[k],
        decreases nlen - j,
    {
        if h.get_char(i + j) != n.get_char(j) {
            proof {
                assert(h@.subrange(i as int, i + n@.len())[j as int] != n@[j as int]);
            }
            return false;
        }
        j = j + 1;
    }
    proof {
        assert(h@.subrange(i as int, i + n@.len()) =~= n@);
    }
    true
}

/// Whether `n` occurs anywhere in `h`.
pub fn str_contains(h: &str, n: &str) -> (r: bool)
    ensures
        r == spec_contains(h@, n@),
{
    let hlen = h.unicode_len();
    let nlen = n.unicode_len();
    if nlen > hlen {
        proof {
            assert(forall|i: int| !spec_matches_at(h@, n@, i));
        }
        return false;
    }
    if nlen == 0 {
        proof {
            assert(h@.subrange(0, 0) =~= n@);
            assert(spec_matches_at(h@, n@, 0));
        }
        return true;
    }
    let mut i: usize = 0;
    while i <= hlen - nlen
        invariant
            hlen == h@.len(),
            nlen == n@.len(),
            1 <= nlen <= hlen,
            0 <= i <= hlen - nlen + 1,
            forall|k: int| 0 <= k < i ==> !spec_matches_at(h@, n@, k),
        decreases hlen - nlen - i + 1,
    {
        if matches_at(h, n, i) {
            return true;
        }
        i = i + 1;
    }
    proof {
        assert(forall|k: int| spec_matches_at(h@, n@, k) ==> 0 <= k <= hlen - nlen);
    }
    false
}

/// Whether `h` begins with `n`.
pub fn starts_with(h: &str, n: &str) -> (r: bool)
    ensures
        r == spec_starts_with(h@, n@),
{
    let hlen = h.unicode_len();
    let nlen = n.unicode_len();
    if nlen > hlen {
        return false;
    }
    matches_at(h, n, 0)
}

/// Whether `h` ends with `n`.
pub fn ends_with(h: &str, n: &str) -> (r: bool)
    ensures
        r == spec_ends_with(h@, n@),
{
    let hlen = h.unicode_len();
    let nlen = n.unicode_len();
    if nlen > hlen {
        return false;
    }
    matches_at(h, n, hlen - nlen)
}

/// `s` bracketed by one `/` on each side. A slash-delimited component of
/// `s` is exactly an occurrence of the bracketed component inside the
/// bracketed string.
pub open spec fn spec_padded(s: Seq<char>) -> Seq<char> {
    seq!['/'] + s + seq!['/']
}

/// `c` is one of the `/`-separated components of `s`.
pub open spec fn spec_has_component(s: Seq<char>, c: Seq<char>) -> bool {
    spec_contains(spec_padded(s), spec_padded(c))
}

/// `c` is the last `/`-separated component of `s`.
pub open spec fn spec_last_component_is(s: Seq<char>, c: Seq<char>) -> bool {
    spec_ends_with(spec_padded(s), spec_padded(c))
}

/// Builds `/s/`, the bracketed form that the component tests search in.
pub fn padded(s: &str) -> (r: String)
    ensures
        r@ == spec_padded(s@),
{
    let mut r = String::from_str("/");
    r.append(s);
    r.append("/");
    proof {
        reveal_strlit("/");
        assert(r@ =~= spec_padded(s@));
    }
    r
}

/// Whether `c` is one of the `/`-separated components of `s`.
pub fn has_component(s: &str, c: &str) -> (r: bool)
    ensures
        r == spec_has_component(s@, c@),
{
    let ps = padded(s);
    let pc = padded(c);
    str_contains(ps.as_str(), pc.as_str())
}

/// Whether `c` is the last `/`-separated component of `s`.
pub fn last_component_is(s: &str, c: &str) -> (r: bool)
    ensures
        r == spec_last_component_is(s@, c@),
{
    let ps = padded(s);
    let pc = padded(c);
    ends_with(ps.as_str(), pc.as_str())
}

} // verus!
