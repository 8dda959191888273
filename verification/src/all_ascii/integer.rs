//! Numeric token codec for records whose numbers are integers, some of them
//! negative. The lead byte keeps four data bits under the `11` tag and packs
//! the sign into the bit above the continuation flag.

use vstd::prelude::*;

use crate::all_ascii::push_head_tagged;
use crate::all_ascii::with_tag;
use crate::digits::push_digits;
use crate::digits::render_num;
use crate::vle_variants::vle_head;
use crate::vle_variants::vle_head_dec;
use crate::vle_variants::vle_n::decode_5;

verus! {

/// Whether the encoder declines a value. A negative value is always encoded:
/// its literal form pays for a sign byte. A non-negative one is declined on
/// the same thresholds as the unsigned-integer codec.
pub open spec fn integer_skip(val: u64, negative: bool) -> bool {
    !negative && (val < 10 || (val > 31 && val < 100))
}

/// The token bytes for a value: a four-data-bit head encoding under the
/// numeric tag, with the sign in bit five.
pub open spec fn integer_token(val: u64, negative: bool) -> Seq<u8> {
    with_tag(vle_head(val as nat, 16), if negative { 224u8 } else { 192u8 })
}

/// Whether a token's lead byte carries the sign bit.
pub open spec fn integer_negative(s: Seq<u8>) -> bool {
    s.len() > 0 && (s[0] as nat / 32) % 2 == 1
}

/// Appends the token for `val` unless the encoder declines; returns whether
/// it encoded. Decimal places have no place in this mode and are ignored.
pub fn compress_integer(val: u64, negative: bool, _decimal_places: u8, out: &mut Vec<u8>) -> (r:
    bool)
    ensures
        r == !integer_skip(val, negative),
        r ==> final(out)@ == old(out)@ + integer_token(val, negative),
        !r ==> final(out)@ == old(out)@,
{
    if !negative && (val < 10 || (val > 31 && val < 100)) {
        return false;
    }
    if negative {
        push_head_tagged(val, 16, 224, out);
    } else {
        push_head_tagged(val, 16, 192, out);
    }
    true
}

/// Reads one token from the front of `input`, appends a `'-'` when its sign
/// bit is set and then its digits, returning the bytes consumed; `None` when
/// the token is truncated or its value does not fit in 64 bits, with `out`
/// left unchanged.
pub fn decompress_integer(input: &[u8], out: &mut Vec<u8>) -> (r: Option<usize>)
    ensures
        match vle_head_dec(input@, 16) {
            Some(vc) => if vc.0 <= u64::MAX as nat {
                r == Some(vc.1 as usize) && final(out)@ == old(out)@ + render_num(
                    vc.0,
                    integer_negative(input@),
                    0,
                )
            } else {
                r is None && final(out)@ == old(out)@
            },
            None => r is None && final(out)@ == old(out)@,
        },
{
    match decode_5(input) {
        None => None,
        Some((value, len)) => {
            if (input[0] / 32) % 2 == 1 {
                out.push(45);
            }
            push_digits(value, out);
            proof {
                assert(out@ =~= old(out)@ + render_num(
                    value as nat, integer_negative(input@), 0));
            }
            Some(len)
        },
    }
}

} // verus!
