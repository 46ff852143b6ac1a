//! The upload sizing policy: objects up to the fixed threshold go up in
//! one put; larger objects are cut into fixed-size parts, the final
//! part holding the remainder. The layout is exact: part count, part
//! sizes, and the fact that the parts in order reassemble the original
//! bytes are all stated and proved.

use vstd::prelude::*;

verus! {

/// The fixed engine constant: the single-put limit and the size of
/// every part but the last in a chunked transfer, in bytes.
pub const PART_SIZE: u64 = 50000000;

/// How many parts a payload of `len` bytes is cut into.
pub open spec fn spec_chunk_count(len: int) -> int {
    if len <= 0 {
        0
    } else {
        (len - 1) / (PART_SIZE as int) + 1
    }
}

/// Where part `i` of a payload of `len` bytes ends.
pub open spec fn spec_chunk_end(len: int, i: int) -> int {
    if (i + 1) * (PART_SIZE as int) < len {
        (i + 1) * (PART_SIZE as int)
    } else {
        len
    }
}

/// Whether a payload of `len` bytes goes up as one atomic put.
pub fn single_put(len: u64) -> (r: bool)
    ensures
        r == (len <= PART_SIZE),
{
    len <= PART_SIZE
}

/// How many parts a payload of `len` bytes is cut into.
pub fn chunk_count(len: u64) -> (n: u64)
    ensures
        n as int == spec_chunk_count(len as int),
{
    if len == 0 {
        0
    } else {
        (len - 1) / PART_SIZE + 1
    }
}

/// The part layout for a payload of `len` bytes: for each part, its
/// offset and its size. Every part but the last spans exactly
/// `PART_SIZE` bytes; the last spans the remainder.
pub fn chunk_spans(len: u64) -> (r: Vec<(u64, u64)>)
    ensures
        r@.len() == spec_chunk_count(len as int),
        forall|i: int|
            0 <= i < r@.len() ==> (#[trigger] r@[i]).0 == i * (PART_SIZE as int) && r@[i].1
                == spec_chunk_end(len as int, i) - i * (PART_SIZE as int),
{
    let mut r: Vec<(u64, u64)> = Vec::new();
    let mut off: u64 = 0;
    while off < len
        invariant
            0 <= off <= len,
            off == r@.len() * (PART_SIZE as int) || (off == len && r@.len() == spec_chunk_count(
                len as int,
            )),
            off < len ==> off == r@.len() * (PART_SIZE as int),
            r@.len() <= spec_chunk_count(len as int),
            forall|i: int|
                0 <= i < r@.len() ==> (#[trigger] r@[i]).0 == i * (PART_SIZE as int) && r@[i].1
                    == spec_chunk_end(len as int, i) - i * (PART_SIZE as int),
        decreases len - off,
    {
        let part = if len - off < PART_SIZE {
            len - off
        } else {
            PART_SIZE
        };
        proof {
            let k = r@.len() as int;
            assert(off + part == spec_chunk_end(len as int, k));
            if off + part < len {
                assert(spec_chunk_end(len as int, k) == (k + 1) * (PART_SIZE as int));
                assert(k + 1 <= spec_chunk_count(len as int)) by {
                    assert(off + part == (k + 1) * (PART_SIZE as int) <= len - 1);
                    assert(k + 1 <= (len - 1) / (PART_SIZE as int)) by (nonlinear_arith)
                        requires
                            (k + 1) * (PART_SIZE as int) <= len - 1,
                            PART_SIZE as int > 0,
                            k + 1 >= 0,
                    ;
                }
            } else {
                assert(off + part == len);
                assert(k + 1 == spec_chunk_count(len as int)) by {
                    assert(k * (PART_SIZE as int) <= len - 1 < (k + 1) * (PART_SIZE as int));
                    assert((len - 1) / (PART_SIZE as int) == k) by (nonlinear_arith)
                        requires
                            k * (PART_SIZE as int) <= len - 1,
                            len - 1 < (k + 1) * (PART_SIZE as int),
                            PART_SIZE as int > 0,
                            k >= 0,
                    ;
                }
            }
        }
        r.push((off, part));
        off = off + part;
    }
    proof {
        if len == 0 {
            assert(r@.len() == 0);
        }
    }
    r
}

/// Part `i` of the payload `data`: the bytes between its offset and its
/// end in the layout.
pub open spec fn spec_chunk_of(data: Seq<u8>, i: int) -> Seq<u8> {
    data.subrange(i * (PART_SIZE as int), spec_chunk_end(data.len() as int, i))
}

/// The concatenation of byte sequences, in order.
pub open spec fn spec_concat(parts: Seq<Seq<u8>>) -> Seq<u8>
    decreases parts.len(),
{
    if parts.len() == 0 {
        Seq::empty()
    } else {
        parts[0] + spec_concat(parts.drop_first())
    }
}

/// Cuts the payload into its parts: one per layout span, each holding
/// exactly the bytes of its span.
pub fn split_chunks(data: &Vec<u8>) -> (r: Vec<Vec<u8>>)
    ensures
        r@.len() == spec_chunk_count(data@.len() as int),
        forall|i: int| 0 <= i < r@.len() ==> (#[trigger] r@[i])@ == spec_chunk_of(data@, i),
{
    let spans = chunk_spans(data.len() as u64);
    let mut r: Vec<Vec<u8>> = Vec::new();
    let mut k: usize = 0;
    while k < spans.len()
        invariant
            spans@.len() == spec_chunk_count(data@.len() as int),
            forall|i: int|
                0 <= i < spans@.len() ==> (#[trigger] spans@[i]).0 == i * (PART_SIZE as int)
                    && spans@[i].1 == spec_chunk_end(data@.len() as int, i) - i * (
                PART_SIZE as int),
            0 <= k <= spans@.len(),
            r@.len() == k,
            forall|i: int| 0 <= i < k ==> (#[trigger] r@[i])@ == spec_chunk_of(data@, i),
        decreases spans@.len() - k,
    {
        let (off, sz) = spans[k];
        let dlen = data.len();
        proof {
            assert(spans@[k as int].0 == k * (PART_SIZE as int));
            assert(off + sz == spec_chunk_end(data@.len() as int, k as int));
            assert(off + sz <= dlen);
        }
        let off_us = off as usize;
        let sz_us = sz as usize;
        let mut part: Vec<u8> = Vec::new();
        let mut j: usize = 0;
        while j < sz_us
            invariant
                dlen == data@.len(),
                off_us + sz_us <= dlen,
                off_us == off && sz_us == sz,
                0 <= j <= sz_us,
                part@.len() == j,
                forall|p: int| 0 <= p < j ==> part@[p] == data@[off_us + p],
            decreases sz_us - j,
        {
            part.push(data[off_us + j]);
            j = j + 1;
        }
        proof {
            assert(part@ =~= spec_chunk_of(data@, k as int));
        }
        r.push(part);
        k = k + 1;
    }
    r
}

/// Law: for a payload larger than the threshold, the part count is the
/// ceiling of `len / PART_SIZE`, every part but the last spans exactly
/// `PART_SIZE` bytes, and the last part spans `len % PART_SIZE` bytes —
/// or a full `PART_SIZE` when the length divides evenly.
pub proof fn lemma_chunk_sizes(len: int)
    requires
        len > PART_SIZE,
    ensures
        spec_chunk_count(len) == if len % (PART_SIZE as int) == 0 {
            len / (PART_SIZE as int)
        } else {
            len / (PART_SIZE as int) + 1
        },
        spec_chunk_end(len, spec_chunk_count(len) - 1) - (spec_chunk_count(len) - 1) * (
        PART_SIZE as int) == if len % (PART_SIZE as int) == 0 {
            PART_SIZE as int
        } else {
            len % (PART_SIZE as int)
        },
        forall|i: int|
            0 <= i < spec_chunk_count(len) - 1 ==> spec_chunk_end(len, i) - i * (PART_SIZE as int)
                == PART_SIZE as int,
{
    let p = PART_SIZE as int;
    let q = len / p;
    let m = len % p;
    vstd::arithmetic::div_mod::lemma_fundamental_div_mod(len, p);
    assert(len == p * q + m);
    if m == 0 {
        vstd::arithmetic::div_mod::lemma_fundamental_div_mod_converse(len - 1, p, q - 1, p - 1);
        assert(spec_chunk_count(len) == q);
    } else {
        vstd::arithmetic::div_mod::lemma_fundamental_div_mod_converse(len - 1, p, q, m - 1);
        assert(spec_chunk_count(len) == q + 1);
    }
    let n = spec_chunk_count(len);
    assert(spec_chunk_end(len, n - 1) == len);
    assert forall|i: int| 0 <= i < n - 1 implies spec_chunk_end(len, i) - i * p == p by {
        assert((i + 1) * p <= (n - 1) * p) by (nonlinear_arith)
            requires
                i + 1 <= n - 1,
                p > 0,
        ;
        assert((n - 1) * p < len);
    }
}

/// Law: the parts of a payload, concatenated in order, are exactly the
/// payload's bytes.
pub proof fn lemma_chunks_reassemble(data: Seq<u8>, parts: Seq<Seq<u8>>)
    requires
        parts.len() == spec_chunk_count(data.len() as int),
        forall|i: int| 0 <= i < parts.len() ==> #[trigger] parts[i] == spec_chunk_of(data, i),
    ensures
        spec_concat(parts) == data,
    decreases parts.len(),
{
    let p = PART_SIZE as int;
    let len = data.len() as int;
    if parts.len() == 0 {
        assert(len == 0);
        assert(spec_concat(parts) =~= data);
    } else {
        let m = spec_chunk_end(len, 0);
        assert(parts[0] == spec_chunk_of(data, 0));
        let rest_data = data.skip(m);
        let rest = parts.drop_first();
        if parts.len() == 1 {
            assert(m == len) by {
                if p < len {
                    assert(spec_chunk_count(len) >= 2) by {
                        assert((len - 1) / p >= 1) by {
                            vstd::arithmetic::div_mod::lemma_fundamental_div_mod(len - 1, p);
                            let q = (len - 1) / p;
                            assert(len - 1 == p * q + (len - 1) % p);
                            if q <= 0 {
                                assert(p * q <= 0) by (nonlinear_arith)
                                    requires
                                        q <= 0,
                                        p > 0,
                                ;
                            }
                        }
                    }
                }
            }
            assert(rest_data.len() == 0);
            assert(spec_concat(rest) =~= Seq::<u8>::empty());
            assert(parts[0] =~= data);
            assert(spec_concat(parts) =~= data);
        } else {
            assert(m == p) by {
                assert(spec_chunk_count(len) >= 2);
                if len <= p {
                    assert(spec_chunk_count(len) <= 1) by {
                        if len > 0 {
                            vstd::arithmetic::div_mod::lemma_fundamental_div_mod_converse(
                                len - 1,
                                p,
                                0,
                                len - 1,
                            );
                        }
                    }
                }
            }
            assert(rest.len() == spec_chunk_count(rest_data.len() as int)) by {
                let q = (len - p - 1) / p;
                let r = (len - p - 1) % p;
                vstd::arithmetic::div_mod::lemma_fundamental_div_mod(len - p - 1, p);
                assert(len - p - 1 == p * q + r);
                vstd::arithmetic::div_mod::lemma_fundamental_div_mod_converse(
                    len - 1,
                    p,
                    q + 1,
                    r,
                );
                assert((len - 1) / p == q + 1);
            }
            assert forall|i: int| 0 <= i < rest.len() implies #[trigger] rest[i]
                == spec_chunk_of(rest_data, i) by {
                assert(rest[i] == parts[i + 1]);
                assert(parts[i + 1] == spec_chunk_of(data, i + 1));
                assert((i + 1) * p == i * p + p);
                assert(spec_chunk_end(len, i + 1) - p == spec_chunk_end(rest_data.len() as int, i));
                assert(spec_chunk_of(data, i + 1) =~= spec_chunk_of(rest_data, i));
            }
            lemma_chunks_reassemble(rest_data, rest);
            assert(spec_concat(parts) == parts[0] + spec_concat(rest));
            assert(parts[0] + rest_data =~= data);
        }
    }
}

} // verus!
