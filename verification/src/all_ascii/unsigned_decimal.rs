//! Numeric token codec for records whose numbers are non-negative but
//! include decimals. A token with fractional digits packs a four-bit
//! decimal-place count into the lead byte, leaving one data bit there; a
//! whole number uses a three-data-bit head encoding instead.

use vstd::prelude::*;

use crate::all_ascii::push_head_tagged;
use crate::all_ascii::push_one_tagged;
use crate::all_ascii::with_tag;
use crate::digits::push_digits;
use crate::digits::push_magnitude;
use crate::digits::render_mag;
use crate::vle_variants::vle_head;
use crate::vle_variants::vle_head_dec;
use crate::vle_variants::vle_n::decode_4;
use crate::vle_variants::vle_one::decode_1;
use crate::vle_variants::vle_one_dec;
use crate::vle_variants::vle_one_enc;

verus! {

/// Whether the encoder declines a value: only a whole number below 100,
/// whose literal digits are at least as compact.
pub open spec fn unsigned_decimal_skip(val: u64, decimal_places: u8) -> bool {
    decimal_places == 0 && val < 100
}

/// The token bytes for a value: with fractional digits, a one-data-bit
/// encoding whose lead byte carries the numeric tag, the decimal flag at bit
/// five and the decimal-place count in bits one to four; without, a
/// three-data-bit head encoding under the numeric tag.
pub open spec fn unsigned_decimal_token(val: u64, decimal_places: u8) -> Seq<u8> {
    if decimal_places > 0 {
        with_tag(vle_one_enc(val as nat), (224 + 2 * decimal_places) as u8)
    } else {
        with_tag(vle_head(val as nat, 8), 192)
    }
}

/// The value, decimal-place count and byte count of the token at the front
/// of a stream; `None` when it is truncated.
pub open spec fn parse_unsigned_decimal(s: Seq<u8>) -> Option<(nat, nat, nat)> {
    if s.len() == 0 {
        None
    } else if (s[0] as nat / 32) % 2 == 1 {
        match vle_one_dec(s) {
            Some(vc) => Some((vc.0, (s[0] as nat / 2) % 16, vc.1)),
            None => None,
        }
    } else {
        match vle_head_dec(s, 8) {
            Some(vc) => Some((vc.0, 0, vc.1)),
            None => None,
        }
    }
}

/// Appends the token for `val` with `decimal_places` fractional digits
/// unless the encoder declines; returns whether it encoded. The sign has no
/// place in this mode and is ignored.
pub fn compress_unsigned_decimal(
    val: u64,
    _negative: bool,
    decimal_places: u8,
    out: &mut Vec<u8>,
) -> (r: bool)
    requires
        decimal_places <= 15,
    ensures
        r == !unsigned_decimal_skip(val, decimal_places),
        r ==> final(out)@ == old(out)@ + unsigned_decimal_token(val, decimal_places),
        !r ==> final(out)@ == old(out)@,
{
    if decimal_places == 0 && val < 100 {
        return false;
    }
    if decimal_places > 0 {
        push_one_tagged(val, 224 + 2 * decimal_places, out);
    } else {
        push_head_tagged(val, 8, 192, out);
    }
    true
}

/// Reads one token from the front of `input` and appends its text, with a
/// decimal point when the token carries fractional digits; returns the bytes
/// consumed. `None` when the token is truncated or its value does not fit in
/// 64 bits, with `out` left unchanged.
pub fn decompress_unsigned_decimal(input: &[u8], out: &mut Vec<u8>) -> (r: Option<usize>)
    ensures
        match parse_unsigned_decimal(input@) {
            Some(t) => if t.0 <= u64::MAX as nat {
                r == Some(t.2 as usize) && final(out)@ == old(out)@ + render_mag(t.0, t.1)
            } else {
                r is None && final(out)@ == old(out)@
            },
            None => r is None && final(out)@ == old(out)@,
        },
{
    if input.len() == 0 {
        return None;
    }
    if (input[0] / 32) % 2 == 1 {
        match decode_1(input) {
            None => None,
            Some((value, len)) => {
                let dec = (input[0] / 2) % 16;
                push_magnitude(value, dec, out);
                Some(len)
            },
        }
    } else {
        match decode_4(input) {
            None => None,
            Some((value, len)) => {
                push_digits(value, out);
                assert(render_mag(value as nat, 0) == crate::digits::dig_seq(value as nat));
                Some(len)
            },
        }
    }
}

} // verus!
