//! The plan artifact's byte stream: the verified binary encoding,
//! whole-stream compressed. Writing produces the compressed encoding;
//! reading inverts it, and the round trip is exact: reading what was
//! written for a plan yields that plan.

use std::io::Write;

use vstd::prelude::*;

use crate::codec::{decode_plan, decode_post, enc_plan, encode_plan, plan_bounded};
use crate::{Plan, PlanV};

verus! {

/// What the compressor returns for the given bytes. With the fixed
/// quality and window settings the stream depends on the bytes alone.
pub uninterp spec fn compressed_form(data: Seq<u8>) -> Seq<u8>;

/// Relies on brotli::CompressorWriter: compresses the bytes with fixed
/// settings; the output is a function of the input bytes alone.
#[verifier::external_body]
fn compress(data: &Vec<u8>) -> (r: Vec<u8>)
    ensures
        r@ == compressed_form(data@),
{
    let mut out: Vec<u8> = Vec::new();
    {
        let mut w = brotli::CompressorWriter::new(&mut out, 4096, 11, 22);
        w.write_all(data.as_slice()).unwrap();
    }
    out
}

/// The decompressor's result inverts the compressor: whenever the
/// input is the compressed form of some byte sequence, the result is
/// exactly that sequence.
pub open spec fn spec_inverts_compression(data: Seq<u8>, r: Option<Seq<u8>>) -> bool {
    forall|s: Seq<u8>|
        data == #[trigger] compressed_form(s) ==> (r matches Some(v) && v == s)
}

/// Relies on brotli::BrotliDecompress: the format is lossless, so
/// decompressing the compressed form of any byte sequence yields that
/// sequence back.
#[verifier::external_body]
fn decompress(data: &Vec<u8>) -> (r: Option<Vec<u8>>)
    ensures
        spec_inverts_compression(
            data@,
            match r {
                Some(v) => Some(v@),
                None => None,
            },
        ),
{
    let mut input = data.as_slice();
    let mut out: Vec<u8> = Vec::new();
    match brotli::BrotliDecompress(&mut input, &mut out) {
        Ok(()) => Some(out),
        Err(_) => None,
    }
}

/// The bytes of the plan artifact: the plan's encoding, compressed.
/// The embedding program writes them to the artifact file as they are.
pub fn write_plan(p: &Plan) -> (r: Vec<u8>)
    ensures
        plan_bounded(p@),
        r@ == compressed_form(enc_plan(p@)),
{
    let encoded = encode_plan(p);
    compress(&encoded)
}

/// Reads a plan back from artifact bytes. For the bytes written for
/// any plan, this returns exactly that plan — the round trip loses
/// nothing; on bytes that are no plan artifact it returns nothing.
pub fn read_plan(data: &Vec<u8>) -> (r: Option<Plan>)
    ensures
        forall|pv: PlanV|
            plan_bounded(pv) && data@ == compressed_form(#[trigger] enc_plan(pv)) ==> (r matches
            Some(p) && p@ == pv),
        r matches Some(p) ==> plan_bounded(p@),
{
    match decompress(data) {
        None => {
            proof {
                assert forall|pv: PlanV|
                    plan_bounded(pv) && data@ == compressed_form(#[trigger] enc_plan(pv))
                    implies false by {}
            }
            None
        },
        Some(decoded_bytes) => {
            let r = decode_plan(&decoded_bytes);
            proof {
                assert forall|pv: PlanV|
                    plan_bounded(pv) && data@ == compressed_form(#[trigger] enc_plan(pv))
                    implies (match r {
                    Some(p) => p@ == pv,
                    None => false,
                }) by {
                    assert(decoded_bytes@ == enc_plan(pv));
                    crate::codec::lemma_plan_round_trip(
                        pv,
                        match r {
                            Some(p) => Some(p@),
                            None => None,
                        },
                    );
                }
            }
            r
        },
    }
}

} // verus!
