//! Variants whose first byte carries three, four or five data bits with the
//! continuation flag in the bit right above them. The variant names give the
//! total number of first-byte bits used, flag included.

use vstd::prelude::*;

use crate::vle_variants::lemma_vle_tail_dec_bounds;
use crate::vle_variants::vle_decode_tail;
use crate::vle_variants::vle_encode_tail;
use crate::vle_variants::vle_head;
use crate::vle_variants::vle_head_dec;

verus! {

/// Appends the head-byte encoding of `input` with `m` first-byte data
/// values.
fn encode_head(input: u64, m: u64, out: &mut Vec<u8>)
    requires
        m == 8 || m == 16 || m == 32,
    ensures
        final(out)@ == old(out)@ + vle_head(input as nat, m as nat),
{
    if input < m {
        out.push(input as u8);
        assert(out@ =~= old(out)@ + vle_head(input as nat, m as nat));
    } else {
        out.push((input % m + m) as u8);
        vle_encode_tail(input / m, out);
        assert(out@ =~= old(out)@ + vle_head(input as nat, m as nat));
    }
}

/// Reads a head-byte encoding with `m` first-byte data values from the front
/// of `input`; tag bits above the continuation flag are ignored.
fn decode_head(input: &[u8], m: u64) -> (r: Option<(u64, usize)>)
    requires
        m == 8 || m == 16 || m == 32,
    ensures
        match vle_head_dec(input@, m as nat) {
            Some(vc) => if vc.0 <= u64::MAX as nat {
                r == Some((vc.0 as u64, vc.1 as usize))
            } else {
                r is None
            },
            None => r is None,
        },
{
    if input.len() == 0 {
        return None;
    }
    let b = input[0];
    let val = (b % m as u8) as u64;
    if (b / m as u8) % 2 == 0 {
        return Some((val, 1));
    }
    match vle_decode_tail(input, 1) {
        None => None,
        Some((v, c)) => {
            proof {
                lemma_vle_tail_dec_bounds(input@.skip(1));
                assert(input@.drop_first() =~= input@.skip(1));
            }
            if v > (u64::MAX - val) / m {
                proof {
                    assert(m as nat * v as nat > (u64::MAX - val) as nat) by (nonlinear_arith)
                        requires m >= 1, v as nat > ((u64::MAX - val) as nat) / (m as nat);
                }
                return None;
            }
            proof {
                assert(m as nat * v as nat <= (u64::MAX - val) as nat) by (nonlinear_arith)
                    requires m >= 1, v as nat <= ((u64::MAX - val) as nat) / (m as nat);
            }
            Some((val + m * v, c + 1))
        },
    }
}

/// Encodes `input` with three data bits and the flag in the first byte.
pub fn encode_4(input: u64) -> (out: Vec<u8>)
    ensures
        out@ == vle_head(input as nat, 8),
{
    let mut out = Vec::new();
    encode_head(input, 8, &mut out);
    proof {
        assert(out@ =~= vle_head(input as nat, 8));
    }
    out
}

/// Decodes a three-data-bit head encoding from the front of `input`.
pub fn decode_4(input: &[u8]) -> (r: Option<(u64, usize)>)
    ensures
        match vle_head_dec(input@, 8) {
            Some(vc) => if vc.0 <= u64::MAX as nat {
                r == Some((vc.0 as u64, vc.1 as usize))
            } else {
                r is None
            },
            None => r is None,
        },
{
    decode_head(input, 8)
}

/// Encodes `input` with four data bits and the flag in the first byte.
pub fn encode_5(input: u64) -> (out: Vec<u8>)
    ensures
        out@ == vle_head(input as nat, 16),
{
    let mut out = Vec::new();
    encode_head(input, 16, &mut out);
    proof {
        assert(out@ =~= vle_head(input as nat, 16));
    }
    out
}

/// Decodes a four-data-bit head encoding from the front of `input`.
pub fn decode_5(input: &[u8]) -> (r: Option<(u64, usize)>)
    ensures
        match vle_head_dec(input@, 16) {
            Some(vc) => if vc.0 <= u64::MAX as nat {
                r == Some((vc.0 as u64, vc.1 as usize))
            } else {
                r is None
            },
            None => r is None,
        },
{
    decode_head(input, 16)
}

/// Encodes `input` with five data bits and the flag in the first byte.
pub fn encode_6(input: u64) -> (out: Vec<u8>)
    ensures
        out@ == vle_head(input as nat, 32),
{
    let mut out = Vec::new();
    encode_head(input, 32, &mut out);
    proof {
        assert(out@ =~= vle_head(input as nat, 32));
    }
    out
}

/// Decodes a five-data-bit head encoding from the front of `input`.
pub fn decode_6(input: &[u8]) -> (r: Option<(u64, usize)>)
    ensures
        match vle_head_dec(input@, 32) {
            Some(vc) => if vc.0 <= u64::MAX as nat {
                r == Some((vc.0 as u64, vc.1 as usize))
            } else {
                r is None
            },
            None => r is None,
        },
{
    decode_head(input, 32)
}

} // verus!
