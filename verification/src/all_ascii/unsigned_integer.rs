//! Numeric token codec for records whose numbers are all non-negative
//! integers. The lead byte keeps five data bits under the `11` tag, so
//! values up to 31 fit in a single byte.

use vstd::prelude::*;

use crate::all_ascii::push_head_tagged;
use crate::all_ascii::with_tag;
use crate::digits::dig_seq;
use crate::digits::push_digits;
use crate::vle_variants::vle_head;
use crate::vle_variants::vle_head_dec;
use crate::vle_variants::vle_n::decode_6;

verus! {

/// Whether the encoder declines a value: its literal digits are at least as
/// compact as the token (one digit beats a one-byte token; two digits beat
/// the two-byte token needed once the value leaves the five-bit range).
pub open spec fn unsigned_integer_skip(val: u64) -> bool {
    val < 10 || (val > 31 && val < 100)
}

/// The token bytes for a value: a five-data-bit head encoding under the
/// numeric tag.
pub open spec fn unsigned_integer_token(val: u64) -> Seq<u8> {
    with_tag(vle_head(val as nat, 32), 192)
}

/// Appends the token for `val` unless the encoder declines; returns whether
/// it encoded. Sign and decimal places have no place in this mode and are
/// ignored.
pub fn compress_unsigned_integer(
    val: u64,
    _negative: bool,
    _decimal_places: u8,
    out: &mut Vec<u8>,
) -> (r: bool)
    ensures
        r == !unsigned_integer_skip(val),
        r ==> final(out)@ == old(out)@ + unsigned_integer_token(val),
        !r ==> final(out)@ == old(out)@,
{
    if val < 10 || (val > 31 && val < 100) {
        return false;
    }
    push_head_tagged(val, 32, 192, out);
    true
}

/// Reads one token from the front of `input` and appends its digits,
/// returning the bytes consumed; `None` when the token is truncated or its
/// value does not fit in 64 bits, with `out` left unchanged.
pub fn decompress_unsigned_integer(input: &[u8], out: &mut Vec<u8>) -> (r: Option<usize>)
    ensures
        match vle_head_dec(input@, 32) {
            Some(vc) => if vc.0 <= u64::MAX as nat {
                r == Some(vc.1 as usize) && final(out)@ == old(out)@ + dig_seq(vc.0)
            } else {
                r is None && final(out)@ == old(out)@
            },
            None => r is None && final(out)@ == old(out)@,
        },
{
    match decode_6(input) {
        None => None,
        Some((value, len)) => {
            push_digits(value, out);
            Some(len)
        },
    }
}

} // verus!
