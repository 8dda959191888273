//! Variant whose first byte carries a single data bit. One data bit leaves
//! no room for a continuation flag, so a continuation stream always follows;
//! a value that fits in that bit is still followed by an all-zero byte.

use vstd::prelude::*;

use crate::vle_variants::vle_decode_tail;
use crate::vle_variants::vle_encode_tail;
use crate::vle_variants::vle_one_dec;
use crate::vle_variants::vle_one_enc;

verus! {

/// Encodes `input` with one data bit in the first byte.
pub fn encode_1(input: u64) -> (out: Vec<u8>)
    ensures
        out@ == vle_one_enc(input as nat),
{
    let mut out = Vec::new();
    out.push((input % 2) as u8);
    vle_encode_tail(input / 2, &mut out);
    proof {
        assert(out@ =~= vle_one_enc(input as nat));
    }
    out
}

/// Decodes a one-data-bit stream from the front of `input`, returning the
/// value and the number of bytes consumed; `None` when the stream is
/// truncated or the value does not fit in 64 bits.
pub fn decode_1(input: &[u8]) -> (r: Option<(u64, usize)>)
    ensures
        match vle_one_dec(input@) {
            Some(vc) => if vc.0 <= u64::MAX as nat {
                r == Some((vc.0 as u64, vc.1 as usize))
            } else {
                r is None
            },
            None => r is None,
        },
{
    if input.len() == 0 {
        return None;
    }
    let bit = (input[0] % 2) as u64;
    match vle_decode_tail(input, 1) {
        None => None,
        Some((v, c)) => {
            proof {
                crate::vle_variants::lemma_vle_tail_dec_bounds(input@.skip(1));
                assert(input@.drop_first() =~= input@.skip(1));
            }
            if v > (u64::MAX - bit) / 2 {
                proof {
                    assert(2 * v as nat > (u64::MAX - bit) as nat) by (nonlinear_arith)
                        requires v as nat > ((u64::MAX - bit) as nat) / 2;
                }
                return None;
            }
            proof {
                assert(2 * v as nat <= (u64::MAX - bit) as nat) by (nonlinear_arith)
                    requires v as nat <= ((u64::MAX - bit) as nat) / 2;
            }
            Some((bit + 2 * v, c + 1))
        },
    }
}

} // verus!
