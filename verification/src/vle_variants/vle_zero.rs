//! Variant whose first byte behaves like any continuation byte: seven data
//! bits and the continuation flag in bit seven.

use vstd::prelude::*;

use crate::vle_variants::vle_decode_tail;
use crate::vle_variants::vle_encode_tail;
use crate::vle_variants::vle_tail;
use crate::vle_variants::vle_tail_dec;

verus! {

/// Encodes `input` as a plain continuation-byte stream.
pub fn encode_0(input: u64) -> (out: Vec<u8>)
    ensures
        out@ == vle_tail(input as nat),
{
    let mut out = Vec::new();
    vle_encode_tail(input, &mut out);
    proof {
        assert(out@ =~= vle_tail(input as nat));
    }
    out
}

/// Decodes a continuation-byte stream from the front of `input`, returning
/// the value and the number of bytes consumed; `None` when the stream is
/// truncated or the value does not fit in 64 bits.
pub fn decode_0(input: &[u8]) -> (r: Option<(u64, usize)>)
    ensures
        match vle_tail_dec(input@) {
            Some(vc) => if vc.0 <= u64::MAX as nat {
                r == Some((vc.0 as u64, vc.1 as usize))
            } else {
                r is None
            },
            None => r is None,
        },
{
    proof {
        assert(input@.skip(0) =~= input@);
    }
    vle_decode_tail(input, 0)
}

} // verus!
