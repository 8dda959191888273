//! Numeric token codec for records whose numbers include negatives and
//! decimals. A token with fractional digits spends its whole lead byte on
//! metadata — the numeric tag, the sign, the decimal flag and a four-bit
//! decimal-place count — and the magnitude follows as plain continuation
//! bytes; a whole number uses a three-data-bit head encoding with the sign
//! in bit five.

use vstd::prelude::*;

use crate::all_ascii::push_head_tagged;
use crate::all_ascii::with_tag;
use crate::digits::push_digits;
use crate::digits::push_magnitude;
use crate::digits::render_num;
use crate::vle_variants::vle_decode_tail;
use crate::vle_variants::vle_head;
use crate::vle_variants::vle_head_dec;
use crate::vle_variants::vle_n::decode_4;
use crate::vle_variants::vle_tail;
use crate::vle_variants::vle_tail_dec;

verus! {

/// Whether the encoder declines a value: only a non-negative whole number
/// below 100, whose literal digits are at least as compact.
pub open spec fn decimal_skip(val: u64, negative: bool, decimal_places: u8) -> bool {
    !negative && decimal_places == 0 && val < 100
}

/// The token bytes for a value. With fractional digits the lead byte is all
/// metadata: the numeric tag, the sign at bit five, the decimal flag at bit
/// four and the decimal-place count in the low four bits; the magnitude
/// follows as continuation bytes. Without, a three-data-bit head encoding
/// carries the sign at bit five.
pub open spec fn decimal_token(val: u64, negative: bool, decimal_places: u8) -> Seq<u8> {
    if decimal_places > 0 {
        seq![((if negative { 224nat } else { 192nat }) + 16 + decimal_places as nat) as u8]
            + vle_tail(val as nat)
    } else {
        with_tag(vle_head(val as nat, 8), if negative { 224u8 } else { 192u8 })
    }
}

/// The value, sign, decimal-place count and byte count of the token at the
/// front of a stream; `None` when it is truncated.
pub open spec fn parse_decimal(s: Seq<u8>) -> Option<(nat, bool, nat, nat)> {
    if s.len() == 0 {
        None
    } else {
        let neg = (s[0] as nat / 32) % 2 == 1;
        if (s[0] as nat / 16) % 2 == 1 {
            match vle_tail_dec(s.drop_first()) {
                Some(vc) => Some((vc.0, neg, s[0] as nat % 16, vc.1 + 1)),
                None => None,
            }
        } else {
            match vle_head_dec(s, 8) {
                Some(vc) => Some((vc.0, neg, 0, vc.1)),
                None => None,
            }
        }
    }
}

/// Appends the token for `val` with the given sign and `decimal_places`
/// fractional digits unless the encoder declines; returns whether it
/// encoded.
pub fn compress_decimal(val: u64, negative: bool, decimal_places: u8, out: &mut Vec<u8>) -> (r:
    bool)
    requires
        decimal_places <= 15,
    ensures
        r == !decimal_skip(val, negative, decimal_places),
        r ==> final(out)@ == old(out)@ + decimal_token(val, negative, decimal_places),
        !r ==> final(out)@ == old(out)@,
{
    if !negative && decimal_places == 0 && val < 100 {
        return false;
    }
    if decimal_places > 0 {
        let lead = if negative {
            224 + 16 + decimal_places
        } else {
            192 + 16 + decimal_places
        };
        out.push(lead);
        crate::vle_variants::vle_encode_tail(val, out);
        assert(out@ =~= old(out)@ + decimal_token(val, negative, decimal_places));
    } else {
        if negative {
            push_head_tagged(val, 8, 224, out);
        } else {
            push_head_tagged(val, 8, 192, out);
        }
    }
    true
}

/// Reads one token from the front of `input` and appends its text — sign,
/// digits, and a decimal point when the token carries fractional digits —
/// returning the bytes consumed. `None` when the token is truncated or its
/// value does not fit in 64 bits, with `out` left unchanged.
pub fn decompress_decimal(input: &[u8], out: &mut Vec<u8>) -> (r: Option<usize>)
    ensures
        match parse_decimal(input@) {
            Some(t) => if t.0 <= u64::MAX as nat {
                r == Some(t.3 as usize) && final(out)@ == old(out)@ + render_num(t.0, t.1, t.2)
            } else {
                r is None && final(out)@ == old(out)@
            },
            None => r is None && final(out)@ == old(out)@,
        },
{
    if input.len() == 0 {
        return None;
    }
    let negative = (input[0] / 32) % 2 == 1;
    if (input[0] / 16) % 2 == 1 {
        let dec = input[0] % 16;
        proof {
            assert(input@.drop_first() =~= input@.skip(1));
        }
        match vle_decode_tail(input, 1) {
            None => None,
            Some((value, len)) => {
                proof {
                    crate::vle_variants::lemma_vle_tail_dec_bounds(input@.skip(1));
                }
                if negative {
                    out.push(45);
                }
                push_magnitude(value, dec, out);
                proof {
                    assert(out@ =~= old(out)@ + render_num(value as nat, negative, dec as nat));
                }
                Some(len + 1)
            },
        }
    } else {
        match decode_4(input) {
            None => None,
            Some((value, len)) => {
                if negative {
                    out.push(45);
                }
                push_digits(value, out);
                proof {
                    assert(out@ =~= old(out)@ + render_num(value as nat, negative, 0));
                }
                Some(len)
            },
        }
    }
}

} // verus!
