//! The plan's binary encoding and its decoder, with the round-trip
//! guarantee: decoding the encoding of any plan yields exactly that
//! plan — same entries, same order, same field values.
//!
//! The format is length-prefixed throughout: a string is its character
//! count as eight little-endian bytes followed by one little-endian
//! 32-bit scalar value per character; an entry is its four fields in
//! order; a plan is the store identifier, the base path, the entry
//! count, and the entries in order.

use vstd::prelude::*;

use vstd::bytes::{
    lemma_auto_spec_u32_to_from_le_bytes, lemma_auto_spec_u64_to_from_le_bytes,
    spec_u32_from_le_bytes, spec_u32_to_le_bytes, spec_u64_to_le_bytes,
    u32_from_le_bytes, u32_to_le_bytes, u64_from_le_bytes, u64_to_le_bytes,
};
use vstd::slice::slice_subrange;

use crate::{entries_view, Plan, PlanEntry, PlanEntryV, PlanV};

verus! {

/// The encoding of one 64-bit count or timestamp: eight bytes, little
/// endian.
pub open spec fn enc_u64(x: u64) -> Seq<u8> {
    spec_u64_to_le_bytes(x)
}

/// The encoding of one character: its scalar value, four bytes, little
/// endian.
pub open spec fn enc_char(c: char) -> Seq<u8> {
    spec_u32_to_le_bytes(c as u32)
}

/// The encoding of a string's characters, in order.
pub open spec fn enc_chars(s: Seq<char>) -> Seq<u8>
    decreases s.len(),
{
    if s.len() == 0 {
        Seq::empty()
    } else {
        enc_char(s[0]) + enc_chars(s.drop_first())
    }
}

/// The encoding of a string: its character count, then its characters.
pub open spec fn enc_str(s: Seq<char>) -> Seq<u8> {
    enc_u64(s.len() as u64) + enc_chars(s)
}

/// The encoding of one plan entry: key, path, hash, modification time.
pub open spec fn enc_entry(e: PlanEntryV) -> Seq<u8> {
    enc_str(e.key) + enc_str(e.path) + enc_str(e.hash) + enc_u64(e.modified)
}

/// The encoding of the entries, in order.
pub open spec fn enc_entries(es: Seq<PlanEntryV>) -> Seq<u8>
    decreases es.len(),
{
    if es.len() == 0 {
        Seq::empty()
    } else {
        enc_entry(es[0]) + enc_entries(es.drop_first())
    }
}

/// The encoding of a whole plan.
pub open spec fn enc_plan(p: PlanV) -> Seq<u8> {
    enc_str(p.bucket_name) + enc_str(p.base_path) + enc_u64(p.entries.len() as u64) + enc_entries(
        p.entries,
    )
}

/// The length prefix is faithful only when the count fits in 64 bits;
/// every string that exists in a running program does.
pub open spec fn str_bounded(s: Seq<char>) -> bool {
    s.len() <= u64::MAX
}

/// All three string fields fit their length prefixes.
pub open spec fn entry_bounded(e: PlanEntryV) -> bool {
    str_bounded(e.key) && str_bounded(e.path) && str_bounded(e.hash)
}

/// Every field and the entry count fit their length prefixes.
pub open spec fn plan_bounded(p: PlanV) -> bool {
    str_bounded(p.bucket_name) && str_bounded(p.base_path) && p.entries.len() <= u64::MAX
        && forall|i: int| 0 <= i < p.entries.len() ==> entry_bounded(#[trigger] p.entries[i])
}

/// A character encoding spans four bytes.
proof fn lemma_enc_char_len(c: char)
    ensures
        enc_char(c).len() == 4,
{
    lemma_auto_spec_u32_to_from_le_bytes();
}

/// A string's characters encode to four bytes each.
proof fn lemma_enc_chars_len(s: Seq<char>)
    ensures
        enc_chars(s).len() == 4 * s.len(),
    decreases s.len(),
{
    if s.len() > 0 {
        lemma_enc_char_len(s[0]);
        lemma_enc_chars_len(s.drop_first());
    }
}

/// Appending one character appends its encoding.
proof fn lemma_enc_chars_snoc(s: Seq<char>, c: char)
    ensures
        enc_chars(s.push(c)) == enc_chars(s) + enc_char(c),
    decreases s.len(),
{
    if s.len() == 0 {
        assert(s.push(c).drop_first() =~= Seq::<char>::empty());
        assert(enc_chars(s.push(c)) == enc_char(c) + enc_chars(Seq::<char>::empty()));
        assert(enc_char(c) + Seq::<u8>::empty() =~= enc_char(c));
        assert(enc_chars(s) + enc_char(c) =~= enc_char(c));
    } else {
        assert(s.push(c)[0] == s[0]);
        assert(s.push(c).drop_first() =~= s.drop_first().push(c));
        lemma_enc_chars_snoc(s.drop_first(), c);
        assert(enc_chars(s.push(c)) == enc_char(s[0]) + (enc_chars(s.drop_first()) + enc_char(c)));
        assert(enc_char(s[0]) + (enc_chars(s.drop_first()) + enc_char(c)) =~= (enc_char(s[0])
            + enc_chars(s.drop_first())) + enc_char(c));
    }
}

/// Appending one entry appends its encoding.
proof fn lemma_enc_entries_snoc(es: Seq<PlanEntryV>, e: PlanEntryV)
    ensures
        enc_entries(es.push(e)) == enc_entries(es) + enc_entry(e),
    decreases es.len(),
{
    if es.len() == 0 {
        assert(es.push(e).drop_first() =~= Seq::<PlanEntryV>::empty());
        assert(enc_entries(es.push(e)) == enc_entry(e) + enc_entries(Seq::<PlanEntryV>::empty()));
        assert(enc_entry(e) + Seq::<u8>::empty() =~= enc_entry(e));
        assert(enc_entries(es) + enc_entry(e) =~= enc_entry(e));
    } else {
        assert(es.push(e)[0] == es[0]);
        assert(es.push(e).drop_first() =~= es.drop_first().push(e));
        lemma_enc_entries_snoc(es.drop_first(), e);
        assert(enc_entries(es.push(e)) == enc_entry(es[0]) + (enc_entries(es.drop_first())
            + enc_entry(e)));
        assert(enc_entry(es[0]) + (enc_entries(es.drop_first()) + enc_entry(e)) =~= (enc_entry(
            es[0],
        ) + enc_entries(es.drop_first())) + enc_entry(e));
    }
}

/// Appends the eight-byte encoding of `x`.
fn encode_u64(out: &mut Vec<u8>, x: u64)
    ensures
        final(out)@ == old(out)@ + enc_u64(x),
{
    let mut b = u64_to_le_bytes(x);
    out.append(&mut b);
}

/// Appends the encoding of the string: count, then characters.
fn encode_str(out: &mut Vec<u8>, s: &str)
    ensures
        final(out)@ == old(out)@ + enc_str(s@),
        str_bounded(s@),
{
    let ghost base = out@;
    let n = s.unicode_len();
    encode_u64(out, n as u64);
    let mut i: usize = 0;
    while i < n
        invariant
            n == s@.len(),
            0 <= i <= n,
            out@ == base + enc_u64(n as u64) + enc_chars(s@.take(i as int)),
        decreases n - i,
    {
        let c = s.get_char(i);
        let mut b = u32_to_le_bytes(c as u32);
        out.append(&mut b);
        proof {
            lemma_enc_chars_snoc(s@.take(i as int), c);
            assert(s@.take(i + 1) =~= s@.take(i as int).push(s@[i as int]));
            assert(out@ =~= base + enc_u64(n as u64) + enc_chars(s@.take(i + 1)));
        }
        i = i + 1;
    }
    proof {
        assert(s@.take(n as int) =~= s@);
    }
}

/// Appends the encoding of one entry: key, path, hash, time.
fn encode_entry(out: &mut Vec<u8>, e: &PlanEntry)
    ensures
        final(out)@ == old(out)@ + enc_entry(e@),
        entry_bounded(e@),
{
    let ghost base = out@;
    encode_str(out, e.key.as_str());
    encode_str(out, e.path.as_str());
    encode_str(out, e.hash.as_str());
    encode_u64(out, e.modified);
    proof {
        assert(out@ =~= base + enc_entry(e@));
    }
}

/// Encodes a whole plan: identifiers, entry count, entries in order.
pub fn encode_plan(p: &Plan) -> (r: Vec<u8>)
    ensures
        r@ == enc_plan(p@),
        plan_bounded(p@),
{
    let ghost pv = p@;
    let mut out: Vec<u8> = Vec::new();
    encode_str(&mut out, p.bucket_name.as_str());
    encode_str(&mut out, p.base_path.as_str());
    let m = p.entries.len();
    encode_u64(&mut out, m as u64);
    let ghost head = out@;
    let mut i: usize = 0;
    while i < m
        invariant
            pv == p@,
            m == p.entries@.len(),
            0 <= i <= m,
            head == enc_str(pv.bucket_name) + enc_str(pv.base_path) + enc_u64(m as u64),
            out@ == head + enc_entries(pv.entries.take(i as int)),
            forall|k: int| 0 <= k < i ==> entry_bounded(#[trigger] pv.entries[k]),
        decreases m - i,
    {
        proof {
            assert(pv.entries[i as int] == p.entries@[i as int]@);
        }
        encode_entry(&mut out, &p.entries[i]);
        proof {
            lemma_enc_entries_snoc(pv.entries.take(i as int), pv.entries[i as int]);
            assert(pv.entries.take(i + 1) =~= pv.entries.take(i as int).push(
                pv.entries[i as int],
            ));
            assert(out@ =~= head + enc_entries(pv.entries.take(i + 1)));
        }
        i = i + 1;
    }
    proof {
        assert(pv.entries.take(m as int) =~= pv.entries);
        assert(pv.entries.len() == m);
        assert(out@ =~= enc_plan(pv));
    }
    out
}

/// The pattern occurs in `b` at position `i`.
pub open spec fn starts_at(b: Seq<u8>, i: int, pat: Seq<u8>) -> bool {
    0 <= i && i + pat.len() <= b.len() && b.subrange(i, i + pat.len()) == pat
}

/// A 32-bit scalar value that names a character: not a surrogate, not
/// beyond the last code point.
pub open spec fn is_unicode_scalar(x: u32) -> bool {
    x < 0xD800 || (0xE000 <= x && x <= 0x10FFFF)
}

/// Every character's scalar value is valid: at most the last code
/// point and never a surrogate.
proof fn lemma_char_scalar(c: char)
    ensures
        is_unicode_scalar(c as u32),
{
    let tmp = c;
    assert(tmp as u32 <= 0x10FFFF && !(0xD800 <= tmp as u32 && tmp as u32 <= 0xDFFF));
}

/// Relies on char::from_u32: a character for every valid scalar value,
/// nothing for any other input.
#[verifier::external_body]
fn char_from_u32(x: u32) -> (r: Option<char>)
    ensures
        match r {
            Some(c) => c as u32 == x,
            None => !is_unicode_scalar(x),
        },
        is_unicode_scalar(x) ==> r is Some,
{
    char::from_u32(x)
}

/// Relies on String::push: appends the one character to the string.
#[verifier::external_body]
fn push_char(s: &mut String, c: char)
    ensures
        final(s)@ == old(s)@.push(c),
{
    s.push(c);
}

/// The bytes of character `k` inside a string's character encoding.
proof fn lemma_enc_chars_index(s: Seq<char>, k: int)
    requires
        0 <= k < s.len(),
    ensures
        enc_chars(s).len() == 4 * s.len(),
        enc_chars(s).subrange(4 * k, 4 * k + 4) == enc_char(s[k]),
    decreases k,
{
    lemma_enc_chars_len(s);
    lemma_enc_char_len(s[k]);
    if k == 0 {
        lemma_enc_chars_len(s.drop_first());
        assert(enc_chars(s).subrange(0, 4) =~= enc_char(s[0]));
    } else {
        lemma_enc_chars_index(s.drop_first(), k - 1);
        lemma_enc_char_len(s[0]);
        assert(s.drop_first()[k - 1] == s[k]);
        assert(enc_chars(s).subrange(4 * k, 4 * k + 4) =~= enc_chars(s.drop_first()).subrange(
            4 * (k - 1),
            4 * (k - 1) + 4,
        ));
    }
}

/// Reads the eight-byte count or timestamp at position `i`; fails
/// exactly when fewer than eight bytes remain.
fn decode_u64_at(b: &Vec<u8>, i: usize) -> (r: Option<(u64, usize)>)
    ensures
        match r {
            Some((x, j)) => j == i + 8 && starts_at(b@, i as int, enc_u64(x)),
            None => b@.len() < i + 8,
        },
{
    proof {
        lemma_auto_spec_u64_to_from_le_bytes();
    }
    if b.len() < 8 || i > b.len() - 8 {
        return None;
    }
    let s = slice_subrange(b.as_slice(), i, i + 8);
    let x = u64_from_le_bytes(s);
    proof {
        assert(enc_u64(x) == b@.subrange(i as int, i + 8));
    }
    Some((x, i + 8))
}

/// Reads one character at position `i`; fails exactly when no
/// character encoding sits there.
fn decode_char_at(b: &Vec<u8>, i: usize) -> (r: Option<(char, usize)>)
    ensures
        match r {
            Some((c, j)) => j == i + 4 && starts_at(b@, i as int, enc_char(c)),
            None => forall|c: char| !starts_at(b@, i as int, #[trigger] enc_char(c)),
        },
{
    proof {
        lemma_auto_spec_u32_to_from_le_bytes();
    }
    if b.len() < 4 || i > b.len() - 4 {
        proof {
            assert forall|c: char| !starts_at(b@, i as int, #[trigger] enc_char(c)) by {
                lemma_enc_char_len(c);
            }
        }
        return None;
    }
    let s = slice_subrange(b.as_slice(), i, i + 4);
    let x = u32_from_le_bytes(s);
    match char_from_u32(x) {
        Some(c) => {
            proof {
                assert(enc_char(c) == b@.subrange(i as int, i + 4));
            }
            Some((c, i + 4))
        },
        None => {
            proof {
                assert forall|c: char| !starts_at(b@, i as int, #[trigger] enc_char(c)) by {
                    lemma_enc_char_len(c);
                    if starts_at(b@, i as int, enc_char(c)) {
                        assert(spec_u32_from_le_bytes(b@.subrange(i as int, i + 4)) == c as u32);
                        lemma_char_scalar(c);
                    }
                }
            }
            None
        },
    }
}

/// Reads `n` characters at position `i`; fails exactly when no
/// `n`-character encoding sits there.
fn decode_chars_at(b: &Vec<u8>, i: usize, n: u64) -> (r: Option<(String, usize)>)
    ensures
        match r {
            Some((s, j)) => s@.len() == n && j == i + 4 * (n as int) && starts_at(
                b@,
                i as int,
                enc_chars(s@),
            ),
            None => forall|s: Seq<char>|
                s.len() == n ==> !starts_at(b@, i as int, #[trigger] enc_chars(s)),
        },
{
    if i > b.len() {
        proof {
            assert forall|s: Seq<char>|
                s.len() == n implies !starts_at(b@, i as int, #[trigger] enc_chars(s)) by {
                lemma_enc_chars_len(s);
            }
        }
        return None;
    }
    let remaining = b.len() - i;
    if n > (remaining / 4) as u64 {
        proof {
            assert forall|s: Seq<char>|
                s.len() == n implies !starts_at(b@, i as int, #[trigger] enc_chars(s)) by {
                lemma_enc_chars_len(s);
            }
        }
        return None;
    }
    let cnt = n as usize;
    let mut s = String::new();
    let mut cur: usize = i;
    let mut k: usize = 0;
    while k < cnt
        invariant
            cnt == n,
            i + 4 * (n as int) <= b@.len(),
            0 <= k <= cnt,
            cur == i + 4 * k,
            s@.len() == k,
            b@.subrange(i as int, cur as int) == enc_chars(s@),
        decreases cnt - k,
    {
        proof {
            lemma_enc_chars_len(s@);
        }
        match decode_char_at(b, cur) {
            Some((c, j)) => {
                let ghost prev = s@;
                push_char(&mut s, c);
                proof {
                    assert(s@ == prev.push(c));
                    lemma_enc_chars_snoc(prev, c);
                    lemma_enc_char_len(c);
                    assert(b@.subrange(i as int, j as int) =~= enc_chars(prev) + enc_char(c));
                    assert(b@.subrange(i as int, j as int) == enc_chars(s@));
                }
                cur = j;
            },
            None => {
                proof {
                    assert forall|sq: Seq<char>|
                        sq.len() == n implies !starts_at(b@, i as int, #[trigger] enc_chars(
                        sq,
                    )) by {
                        lemma_enc_chars_len(sq);
                        if starts_at(b@, i as int, enc_chars(sq)) {
                            lemma_enc_chars_index(sq, k as int);
                            assert(b@.subrange(
                                i + 4 * k,
                                i + 4 * k + 4,
                            ) =~= enc_chars(sq).subrange(4 * (k as int), 4 * (k as int) + 4));
                            lemma_enc_char_len(sq[k as int]);
                            assert(starts_at(b@, cur as int, enc_char(sq[k as int])));
                        }
                    }
                }
                return None;
            },
        }
        k = k + 1;
    }
    Some((s, cur))
}

/// Two equal eight-byte encodings come from the same value.
proof fn lemma_enc_u64_inj(x1: u64, x2: u64)
    requires
        enc_u64(x1) == enc_u64(x2),
    ensures
        x1 == x2,
{
    lemma_auto_spec_u64_to_from_le_bytes();
}

/// Two characters with the same scalar value are the same character.
proof fn lemma_char_cast_inj(c1: char, c2: char)
    requires
        c1 as u32 == c2 as u32,
    ensures
        c1 == c2,
{
}

/// Two equally long strings with equal character encodings are equal.
proof fn lemma_enc_chars_inj(s1: Seq<char>, s2: Seq<char>)
    requires
        s1.len() == s2.len(),
        enc_chars(s1) == enc_chars(s2),
    ensures
        s1 == s2,
{
    assert forall|k: int| 0 <= k < s1.len() implies s1[k] == s2[k] by {
        lemma_enc_chars_index(s1, k);
        lemma_enc_chars_index(s2, k);
        assert(enc_char(s1[k]) == enc_char(s2[k]));
        lemma_enc_char_inj(s1[k], s2[k]);
    }
    assert(s1 =~= s2);
}

/// Two equal four-byte encodings come from the same character.
proof fn lemma_enc_char_inj(c1: char, c2: char)
    requires
        enc_char(c1) == enc_char(c2),
    ensures
        c1 == c2,
{
    lemma_auto_spec_u32_to_from_le_bytes();
    let x1 = c1 as u32;
    let x2 = c2 as u32;
    assert(enc_char(c1) == spec_u32_to_le_bytes(x1));
    assert(enc_char(c2) == spec_u32_to_le_bytes(x2));
    assert(spec_u32_from_le_bytes(spec_u32_to_le_bytes(x1)) == x1);
    assert(spec_u32_from_le_bytes(spec_u32_to_le_bytes(x2)) == x2);
    lemma_char_cast_inj(c1, c2);
}

/// A concatenation occurring at `i` is its pieces occurring in order.
proof fn lemma_starts_at_split(b: Seq<u8>, i: int, x: Seq<u8>, y: Seq<u8>)
    requires
        starts_at(b, i, x + y),
    ensures
        starts_at(b, i, x),
        starts_at(b, i + x.len(), y),
{
    assert(b.subrange(i, i + (x + y).len() as int) == x + y);
    assert forall|p: int| 0 <= p < x.len() implies b.subrange(i, i + x.len() as int)[p]
        == x[p] by {
        assert((x + y)[p] == x[p]);
        assert(b.subrange(i, i + (x + y).len() as int)[p] == (x + y)[p]);
    }
    assert(b.subrange(i, i + x.len() as int) =~= x);
    assert forall|p: int|
        0 <= p < y.len() implies b.subrange(
        i + x.len(),
        i + x.len() + y.len() as int,
    )[p] == y[p] by {
        assert((x + y)[x.len() + p] == y[p]);
        assert(b.subrange(i, i + (x + y).len() as int)[x.len() + p] == (x + y)[x.len() + p]);
    }
    assert(b.subrange(i + x.len(), i + x.len() + y.len() as int) =~= y);
}

/// The positions of an entry encoding's four fields.
proof fn lemma_entry_fields_at(b: Seq<u8>, i: int, e: PlanEntryV)
    requires
        starts_at(b, i, enc_entry(e)),
    ensures
        starts_at(b, i, enc_str(e.key)),
        starts_at(b, i + enc_str(e.key).len(), enc_str(e.path)),
        starts_at(b, i + enc_str(e.key).len() + enc_str(e.path).len(), enc_str(e.hash)),
        starts_at(
            b,
            i + enc_str(e.key).len() + enc_str(e.path).len() + enc_str(e.hash).len(),
            enc_u64(e.modified),
        ),
        i + enc_entry(e).len() == i + enc_str(e.key).len() + enc_str(e.path).len() + enc_str(
            e.hash,
        ).len() + 8,
{
    lemma_auto_spec_u64_to_from_le_bytes();
    assert(enc_entry(e) =~= enc_str(e.key) + (enc_str(e.path) + (enc_str(e.hash) + enc_u64(
        e.modified,
    ))));
    assert(starts_at(
        b,
        i,
        enc_str(e.key) + (enc_str(e.path) + (enc_str(e.hash) + enc_u64(e.modified))),
    ));
    lemma_starts_at_split(
        b,
        i,
        enc_str(e.key),
        enc_str(e.path) + (enc_str(e.hash) + enc_u64(e.modified)),
    );
    lemma_starts_at_split(
        b,
        i + enc_str(e.key).len(),
        enc_str(e.path),
        enc_str(e.hash) + enc_u64(e.modified),
    );
    lemma_starts_at_split(
        b,
        i + enc_str(e.key).len() + enc_str(e.path).len(),
        enc_str(e.hash),
        enc_u64(e.modified),
    );
}

/// Two string encodings occurring at the same position encode the same
/// string: the length prefix fixes the span, the spans coincide, and
/// equal character encodings mean equal characters.
proof fn lemma_enc_str_at_unique(b: Seq<u8>, i: int, s1: Seq<char>, s2: Seq<char>)
    requires
        starts_at(b, i, enc_str(s1)),
        starts_at(b, i, enc_str(s2)),
        str_bounded(s1),
        str_bounded(s2),
    ensures
        s1 == s2,
{
    lemma_auto_spec_u64_to_from_le_bytes();
    lemma_enc_chars_len(s1);
    lemma_enc_chars_len(s2);
    lemma_starts_at_split(b, i, enc_u64(s1.len() as u64), enc_chars(s1));
    lemma_starts_at_split(b, i, enc_u64(s2.len() as u64), enc_chars(s2));
    assert(b.subrange(i, i + 8) == enc_u64(s1.len() as u64));
    assert(b.subrange(i, i + 8) == enc_u64(s2.len() as u64));
    lemma_enc_u64_inj(s1.len() as u64, s2.len() as u64);
    assert(s1.len() == s2.len());
    assert(b.subrange(i + 8, i + 8 + 4 * s1.len()) == enc_chars(s1));
    assert(b.subrange(i + 8, i + 8 + 4 * s2.len()) == enc_chars(s2));
    lemma_enc_chars_inj(s1, s2);
}

/// Two entry encodings occurring at the same position encode the same
/// entry, field by field.
proof fn lemma_enc_entry_at_unique(b: Seq<u8>, i: int, e1: PlanEntryV, e2: PlanEntryV)
    requires
        starts_at(b, i, enc_entry(e1)),
        starts_at(b, i, enc_entry(e2)),
        entry_bounded(e1),
        entry_bounded(e2),
    ensures
        e1 == e2,
{
    lemma_entry_fields_at(b, i, e1);
    lemma_entry_fields_at(b, i, e2);
    lemma_enc_str_at_unique(b, i, e1.key, e2.key);
    let i2 = i + enc_str(e1.key).len();
    lemma_enc_str_at_unique(b, i2, e1.path, e2.path);
    let i3 = i2 + enc_str(e1.path).len();
    lemma_enc_str_at_unique(b, i3, e1.hash, e2.hash);
    let i4 = i3 + enc_str(e1.hash).len();
    lemma_auto_spec_u64_to_from_le_bytes();
    assert(b.subrange(i4, i4 + 8) == enc_u64(e1.modified));
    assert(b.subrange(i4, i4 + 8) == enc_u64(e2.modified));
    lemma_enc_u64_inj(e1.modified, e2.modified);
}

/// Every entry in the sequence fits its length prefixes.
pub open spec fn entries_bounded(es: Seq<PlanEntryV>) -> bool {
    forall|i: int| 0 <= i < es.len() ==> entry_bounded(#[trigger] es[i])
}

/// When two entry-sequence encodings occur at one position, the
/// shorter sequence is a prefix of the longer, and the longer's
/// remainder occurs right after it.
proof fn lemma_enc_entries_agree(b: Seq<u8>, i: int, evs: Seq<PlanEntryV>, ds: Seq<PlanEntryV>)
    requires
        starts_at(b, i, enc_entries(evs)),
        starts_at(b, i, enc_entries(ds)),
        ds.len() <= evs.len(),
        entries_bounded(evs),
        entries_bounded(ds),
    ensures
        ds == evs.take(ds.len() as int),
        starts_at(b, i + enc_entries(ds).len(), enc_entries(evs.skip(ds.len() as int))),
    decreases ds.len(),
{
    if ds.len() == 0 {
        assert(ds =~= evs.take(0));
        assert(evs.skip(0) =~= evs);
        assert(enc_entries(ds).len() == 0);
    } else {
        lemma_starts_at_split(b, i, enc_entry(evs[0]), enc_entries(evs.drop_first()));
        lemma_starts_at_split(b, i, enc_entry(ds[0]), enc_entries(ds.drop_first()));
        assert(evs[0] == ds[0]) by {
            assert(entry_bounded(evs[0]));
            assert(entry_bounded(ds[0]));
            lemma_enc_entry_at_unique(b, i, evs[0], ds[0]);
        }
        let i2 = i + enc_entry(ds[0]).len();
        assert(entries_bounded(evs.drop_first())) by {
            assert(forall|k: int|
                0 <= k < evs.drop_first().len() ==> evs.drop_first()[k] == evs[k + 1]);
        }
        assert(entries_bounded(ds.drop_first())) by {
            assert(forall|k: int|
                0 <= k < ds.drop_first().len() ==> ds.drop_first()[k] == ds[k + 1]);
        }
        lemma_enc_entries_agree(b, i2, evs.drop_first(), ds.drop_first());
        assert(ds.drop_first() == evs.drop_first().take(ds.len() - 1));
        assert(ds =~= evs.take(ds.len() as int)) by {
            assert(forall|k: int|
                1 <= k < ds.len() ==> ds[k] == ds.drop_first()[k - 1] && evs.take(
                    ds.len() as int,
                )[k] == evs.drop_first().take(ds.len() - 1)[k - 1]);
        }
        assert(evs.drop_first().skip(ds.len() - 1) =~= evs.skip(ds.len() as int));
        assert(enc_entries(ds).len() == enc_entry(ds[0]).len() + enc_entries(
            ds.drop_first(),
        ).len());
    }
}

/// Reads one length-prefixed string at position `i`; fails exactly
/// when no string encoding sits there.
fn decode_str_at(b: &Vec<u8>, i: usize) -> (r: Option<(String, usize)>)
    ensures
        match r {
            Some((s, j)) => str_bounded(s@) && j == i + enc_str(s@).len() && starts_at(
                b@,
                i as int,
                enc_str(s@),
            ),
            None => forall|s: Seq<char>|
                str_bounded(s) ==> !starts_at(b@, i as int, #[trigger] enc_str(s)),
        },
{
    proof {
        lemma_auto_spec_u64_to_from_le_bytes();
    }
    match decode_u64_at(b, i) {
        None => {
            proof {
                assert forall|s: Seq<char>|
                    str_bounded(s) implies !starts_at(b@, i as int, #[trigger] enc_str(s)) by {
                    lemma_enc_chars_len(s);
                }
            }
            None
        },
        Some((n, j)) => {
            match decode_chars_at(b, j, n) {
                None => {
                    proof {
                        assert forall|s: Seq<char>|
                            str_bounded(s) implies !starts_at(b@, i as int, #[trigger] enc_str(
                            s,
                        )) by {
                            lemma_enc_chars_len(s);
                            if starts_at(b@, i as int, enc_str(s)) {
                                lemma_starts_at_split(
                                    b@,
                                    i as int,
                                    enc_u64(s.len() as u64),
                                    enc_chars(s),
                                );
                                assert(b@.subrange(i as int, i + 8) == enc_u64(s.len() as u64));
                                assert(b@.subrange(i as int, i + 8) == enc_u64(n));
                                lemma_enc_u64_inj(s.len() as u64, n);
                                assert(s.len() == n);
                            }
                        }
                    }
                    None
                },
                Some((s, j2)) => {
                    proof {
                        lemma_enc_chars_len(s@);
                        assert(s@.len() as u64 == n);
                        assert(b@.subrange(i as int, j2 as int) =~= enc_u64(n) + enc_chars(s@));
                        assert(starts_at(b@, i as int, enc_str(s@)));
                    }
                    Some((s, j2))
                },
            }
        },
    }
}

/// Reads one entry at position `i`; fails exactly when no entry
/// encoding sits there.
fn decode_entry_at(b: &Vec<u8>, i: usize) -> (r: Option<(PlanEntry, usize)>)
    ensures
        match r {
            Some((e, j)) => entry_bounded(e@) && j == i + enc_entry(e@).len() && starts_at(
                b@,
                i as int,
                enc_entry(e@),
            ),
            None => forall|ev: PlanEntryV|
                entry_bounded(ev) ==> !starts_at(b@, i as int, #[trigger] enc_entry(ev)),
        },
{
    let key = match decode_str_at(b, i) {
        Some(v) => v,
        None => {
            proof {
                assert forall|ev: PlanEntryV|
                    entry_bounded(ev) implies !starts_at(b@, i as int, #[trigger] enc_entry(
                    ev,
                )) by {
                    if starts_at(b@, i as int, enc_entry(ev)) {
                        lemma_entry_fields_at(b@, i as int, ev);
                    }
                }
            }
            return None;
        },
    };
    let (key_s, c1) = key;
    let path = match decode_str_at(b, c1) {
        Some(v) => v,
        None => {
            proof {
                assert forall|ev: PlanEntryV|
                    entry_bounded(ev) implies !starts_at(b@, i as int, #[trigger] enc_entry(
                    ev,
                )) by {
                    if starts_at(b@, i as int, enc_entry(ev)) {
                        lemma_entry_fields_at(b@, i as int, ev);
                        lemma_enc_str_at_unique(b@, i as int, ev.key, key_s@);
                    }
                }
            }
            return None;
        },
    };
    let (path_s, c2) = path;
    let hash = match decode_str_at(b, c2) {
        Some(v) => v,
        None => {
            proof {
                assert forall|ev: PlanEntryV|
                    entry_bounded(ev) implies !starts_at(b@, i as int, #[trigger] enc_entry(
                    ev,
                )) by {
                    if starts_at(b@, i as int, enc_entry(ev)) {
                        lemma_entry_fields_at(b@, i as int, ev);
                        lemma_enc_str_at_unique(b@, i as int, ev.key, key_s@);
                        lemma_enc_str_at_unique(b@, c1 as int, ev.path, path_s@);
                    }
                }
            }
            return None;
        },
    };
    let (hash_s, c3) = hash;
    match decode_u64_at(b, c3) {
        Some((modified, c4)) => {
            let e = PlanEntry { key: key_s, path: path_s, hash: hash_s, modified };
            proof {
                lemma_auto_spec_u64_to_from_le_bytes();
                assert(b@.subrange(i as int, c1 as int) == enc_str(e@.key));
                assert(b@.subrange(c1 as int, c2 as int) == enc_str(e@.path));
                assert(b@.subrange(c2 as int, c3 as int) == enc_str(e@.hash));
                assert(b@.subrange(c3 as int, c4 as int) == enc_u64(e@.modified));
                assert(b@.subrange(i as int, c4 as int) =~= enc_str(e@.key) + enc_str(e@.path)
                    + enc_str(e@.hash) + enc_u64(e@.modified));
            }
            Some((e, c4))
        },
        None => {
            proof {
                assert forall|ev: PlanEntryV|
                    entry_bounded(ev) implies !starts_at(b@, i as int, #[trigger] enc_entry(
                    ev,
                )) by {
                    if starts_at(b@, i as int, enc_entry(ev)) {
                        lemma_entry_fields_at(b@, i as int, ev);
                        lemma_enc_str_at_unique(b@, i as int, ev.key, key_s@);
                        lemma_enc_str_at_unique(b@, c1 as int, ev.path, path_s@);
                        lemma_enc_str_at_unique(b@, c2 as int, ev.hash, hash_s@);
                        lemma_auto_spec_u64_to_from_le_bytes();
                        assert(starts_at(b@, c3 as int, enc_u64(ev.modified)));
                    }
                }
            }
            None
        },
    }
}

/// Reads `m` entries at position `i`; fails exactly when no
/// `m`-entry encoding sits there.
fn decode_entries_at(b: &Vec<u8>, i: usize, m: u64) -> (r: Option<(Vec<PlanEntry>, usize)>)
    ensures
        match r {
            Some((es, j)) => es@.len() == m && entries_bounded(entries_view(es@)) && j == i
                + enc_entries(entries_view(es@)).len() && starts_at(
                b@,
                i as int,
                enc_entries(entries_view(es@)),
            ),
            None => forall|evs: Seq<PlanEntryV>|
                evs.len() == m && entries_bounded(evs) ==> !starts_at(
                    b@,
                    i as int,
                    #[trigger] enc_entries(evs),
                ),
        },
{
    if i > b.len() {
        return None;
    }
    let mut out: Vec<PlanEntry> = Vec::new();
    let mut cur: usize = i;
    let mut k: u64 = 0;
    proof {
        assert(entries_view(out@) =~= Seq::<PlanEntryV>::empty());
        assert(b@.subrange(i as int, i as int) =~= Seq::<u8>::empty());
        assert(starts_at(b@, i as int, enc_entries(entries_view(out@))));
    }
    while k < m
        invariant
            0 <= k <= m,
            out@.len() == k,
            entries_bounded(entries_view(out@)),
            cur == i + enc_entries(entries_view(out@)).len(),
            starts_at(b@, i as int, enc_entries(entries_view(out@))),
        decreases m - k,
    {
        match decode_entry_at(b, cur) {
            Some((e, j)) => {
                let ghost prev = entries_view(out@);
                out.push(e);
                proof {
                    assert(entries_view(out@) =~= prev.push(e@));
                    lemma_enc_entries_snoc(prev, e@);
                    assert(b@.subrange(i as int, j as int) =~= enc_entries(prev) + enc_entry(e@));
                    assert(forall|p: int|
                        0 <= p < out@.len() - 1 ==> entries_view(out@)[p] == prev[p]);
                }
                cur = j;
            },
            None => {
                proof {
                    let ds = entries_view(out@);
                    assert forall|evs: Seq<PlanEntryV>|
                        evs.len() == m && entries_bounded(evs) implies !starts_at(
                        b@,
                        i as int,
                        #[trigger] enc_entries(evs),
                    ) by {
                        if starts_at(b@, i as int, enc_entries(evs)) {
                            lemma_enc_entries_agree(b@, i as int, evs, ds);
                            let rest = evs.skip(ds.len() as int);
                            assert(rest.len() > 0);
                            lemma_starts_at_split(
                                b@,
                                cur as int,
                                enc_entry(rest[0]),
                                enc_entries(rest.drop_first()),
                            );
                            assert(rest[0] == evs[ds.len() as int]);
                            assert(entry_bounded(rest[0]));
                        }
                    }
                }
                return None;
            },
        }
        k = k + 1;
    }
    Some((out, cur))
}

/// What a decode of `b` may return: a plan whose encoding is exactly
/// `b`, or nothing — and nothing only when no plan encodes to `b`.
pub open spec fn decode_post(b: Seq<u8>, r: Option<PlanV>) -> bool {
    match r {
        Some(pv) => plan_bounded(pv) && b == enc_plan(pv),
        None => forall|pv: PlanV| plan_bounded(pv) ==> b != #[trigger] enc_plan(pv),
    }
}

/// The positions of a plan encoding's four parts.
proof fn lemma_plan_fields_at(b: Seq<u8>, pv: PlanV)
    requires
        b == enc_plan(pv),
    ensures
        starts_at(b, 0, enc_str(pv.bucket_name)),
        starts_at(b, enc_str(pv.bucket_name).len() as int, enc_str(pv.base_path)),
        starts_at(
            b,
            enc_str(pv.bucket_name).len() + enc_str(pv.base_path).len() as int,
            enc_u64(pv.entries.len() as u64),
        ),
        starts_at(
            b,
            enc_str(pv.bucket_name).len() + enc_str(pv.base_path).len() as int + 8,
            enc_entries(pv.entries),
        ),
        b.len() == enc_str(pv.bucket_name).len() + enc_str(pv.base_path).len() + 8 + enc_entries(
            pv.entries,
        ).len(),
{
    lemma_auto_spec_u64_to_from_le_bytes();
    assert(starts_at(b, 0, b)) by {
        assert(b.subrange(0, b.len() as int) =~= b);
    }
    assert(b =~= enc_str(pv.bucket_name) + (enc_str(pv.base_path) + (enc_u64(
        pv.entries.len() as u64,
    ) + enc_entries(pv.entries))));
    lemma_starts_at_split(
        b,
        0,
        enc_str(pv.bucket_name),
        enc_str(pv.base_path) + (enc_u64(pv.entries.len() as u64) + enc_entries(pv.entries)),
    );
    lemma_starts_at_split(
        b,
        enc_str(pv.bucket_name).len() as int,
        enc_str(pv.base_path),
        enc_u64(pv.entries.len() as u64) + enc_entries(pv.entries),
    );
    lemma_starts_at_split(
        b,
        enc_str(pv.bucket_name).len() + enc_str(pv.base_path).len() as int,
        enc_u64(pv.entries.len() as u64),
        enc_entries(pv.entries),
    );
}

/// Decodes a plan from its binary encoding. Succeeds exactly on the
/// encodings the encoder produces, and then returns the one plan that
/// encodes to these bytes.
pub fn decode_plan(b: &Vec<u8>) -> (r: Option<Plan>)
    ensures
        decode_post(
            b@,
            match r {
                Some(p) => Some(p@),
                None => None,
            },
        ),
{
    let bucket = match decode_str_at(b, 0) {
        Some(v) => v,
        None => {
            proof {
                assert forall|pv: PlanV| plan_bounded(pv) implies b@ != #[trigger] enc_plan(
                    pv,
                ) by {
                    if b@ == enc_plan(pv) {
                        lemma_plan_fields_at(b@, pv);
                    }
                }
            }
            return None;
        },
    };
    let (bucket_s, c1) = bucket;
    let base = match decode_str_at(b, c1) {
        Some(v) => v,
        None => {
            proof {
                assert forall|pv: PlanV| plan_bounded(pv) implies b@ != #[trigger] enc_plan(
                    pv,
                ) by {
                    if b@ == enc_plan(pv) {
                        lemma_plan_fields_at(b@, pv);
                        lemma_enc_str_at_unique(b@, 0, pv.bucket_name, bucket_s@);
                    }
                }
            }
            return None;
        },
    };
    let (base_s, c2) = base;
    let count = match decode_u64_at(b, c2) {
        Some(v) => v,
        None => {
            proof {
                assert forall|pv: PlanV| plan_bounded(pv) implies b@ != #[trigger] enc_plan(
                    pv,
                ) by {
                    if b@ == enc_plan(pv) {
                        lemma_plan_fields_at(b@, pv);
                        lemma_enc_str_at_unique(b@, 0, pv.bucket_name, bucket_s@);
                        lemma_enc_str_at_unique(b@, c1 as int, pv.base_path, base_s@);
                        assert(starts_at(b@, c2 as int, enc_u64(pv.entries.len() as u64)));
                        assert(b@.len() >= c2 + 8) by {
                            lemma_auto_spec_u64_to_from_le_bytes();
                        }
                    }
                }
            }
            return None;
        },
    };
    let (m, c3) = count;
    let decoded = match decode_entries_at(b, c3, m) {
        Some(v) => v,
        None => {
            proof {
                assert forall|pv: PlanV| plan_bounded(pv) implies b@ != #[trigger] enc_plan(
                    pv,
                ) by {
                    if b@ == enc_plan(pv) {
                        lemma_plan_fields_at(b@, pv);
                        lemma_enc_str_at_unique(b@, 0, pv.bucket_name, bucket_s@);
                        lemma_enc_str_at_unique(b@, c1 as int, pv.base_path, base_s@);
                        lemma_auto_spec_u64_to_from_le_bytes();
                        assert(b@.subrange(c2 as int, c2 + 8) == enc_u64(pv.entries.len() as u64));
                        assert(b@.subrange(c2 as int, c2 + 8) == enc_u64(m));
                        lemma_enc_u64_inj(pv.entries.len() as u64, m);
                        assert(pv.entries.len() == m);
                    }
                }
            }
            return None;
        },
    };
    let (entries, c4) = decoded;
    if c4 != b.len() {
        proof {
            let ds = entries_view(entries@);
            assert forall|pv: PlanV| plan_bounded(pv) implies b@ != #[trigger] enc_plan(pv) by {
                if b@ == enc_plan(pv) {
                    lemma_plan_fields_at(b@, pv);
                    lemma_enc_str_at_unique(b@, 0, pv.bucket_name, bucket_s@);
                    lemma_enc_str_at_unique(b@, c1 as int, pv.base_path, base_s@);
                    lemma_auto_spec_u64_to_from_le_bytes();
                    assert(b@.subrange(c2 as int, c2 + 8) == enc_u64(pv.entries.len() as u64));
                    assert(b@.subrange(c2 as int, c2 + 8) == enc_u64(m));
                    lemma_enc_u64_inj(pv.entries.len() as u64, m);
                    lemma_enc_entries_agree(b@, c3 as int, pv.entries, ds);
                    assert(ds == pv.entries.take(ds.len() as int));
                    assert(pv.entries.take(pv.entries.len() as int) =~= pv.entries);
                    assert(enc_entries(ds) == enc_entries(pv.entries));
                }
            }
        }
        return None;
    }
    let p = Plan { bucket_name: bucket_s, base_path: base_s, entries };
    proof {
        lemma_auto_spec_u64_to_from_le_bytes();
        assert(b@.subrange(0, c1 as int) == enc_str(p@.bucket_name));
        assert(b@.subrange(c1 as int, c2 as int) == enc_str(p@.base_path));
        assert(b@.subrange(c2 as int, c3 as int) == enc_u64(m));
        assert(b@.subrange(c3 as int, c4 as int) == enc_entries(p@.entries));
        assert(b@.subrange(0, c4 as int) =~= b@);
        assert(b@ =~= enc_str(p@.bucket_name) + enc_str(p@.base_path) + enc_u64(m) + enc_entries(
            p@.entries,
        ));
        assert(p@.entries.len() as u64 == m);
    }
    Some(p)
}

/// Law: decoding is the inverse of encoding — any result that a
/// correct decode may return for a plan's encoding is that plan
/// itself, entries, order and fields alike.
pub proof fn lemma_plan_round_trip(p: PlanV, r: Option<PlanV>)
    requires
        plan_bounded(p),
        decode_post(enc_plan(p), r),
    ensures
        r == Some(p),
{
    match r {
        None => {
            assert(enc_plan(p) != enc_plan(p));
        },
        Some(q) => {
            assert(enc_plan(q) == enc_plan(p));
            lemma_enc_plan_inj(p, q);
        },
    }
}

/// Two bounded plans with the same encoding are the same plan.
proof fn lemma_enc_plan_inj(p: PlanV, q: PlanV)
    requires
        plan_bounded(p),
        plan_bounded(q),
        enc_plan(p) == enc_plan(q),
    ensures
        p == q,
{
    let b = enc_plan(p);
    lemma_plan_fields_at(b, p);
    lemma_plan_fields_at(b, q);
    lemma_enc_str_at_unique(b, 0, p.bucket_name, q.bucket_name);
    lemma_enc_str_at_unique(
        b,
        enc_str(p.bucket_name).len() as int,
        p.base_path,
        q.base_path,
    );
    let i3: int = enc_str(p.bucket_name).len() + enc_str(p.base_path).len() as int;
    assert(b.subrange(i3, i3 + 8) == enc_u64(p.entries.len() as u64));
    assert(b.subrange(i3, i3 + 8) == enc_u64(q.entries.len() as u64));
    lemma_enc_u64_inj(p.entries.len() as u64, q.entries.len() as u64);
    assert(p.entries.len() == q.entries.len());
    lemma_enc_entries_agree(b, i3 + 8, p.entries, q.entries);
    assert(p.entries.take(q.entries.len() as int) =~= p.entries);
    assert(p.entries == q.entries);
}

} // verus!
