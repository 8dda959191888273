//! Numeric coding of the byte-level all-ASCII scheme, kept for historical
//! reference. The lead byte carries a marker in bit seven, the sign in bit
//! five and, for fractional values, a decimal flag in bit four with the
//! decimal-place count in the low four bits; small whole values pack three
//! data bits into the lead byte instead.

use vstd::prelude::*;

use crate::digits::push_magnitude;
use crate::digits::render_num;
use crate::vle_variants::vle_encode_tail;
use crate::vle_variants::vle_tail;

verus! {

/// The sign of a value in this scheme.
#[derive(Clone, Copy, Debug, PartialEq, Eq, Structural)]
pub enum Sign {
    Positive,
    Negative,
}

/// The bit the sign contributes to the lead byte.
pub open spec fn sign_flag(sign: Sign) -> nat {
    match sign {
        Sign::Positive => 0,
        Sign::Negative => 32,
    }
}

/// The bytes this scheme emits for a value. A whole value below eight packs
/// into the lead byte alone — a quirk of this layout: the sign bit is
/// dropped; a larger whole value keeps three data bits plus a continuation flag
/// in the lead byte; a fractional value spends the lead byte on metadata and
/// the magnitude follows as continuation bytes.
pub open spec fn legacy_numeric_code(value: u64, decimal_cnt: u8, flag: nat) -> Seq<u8> {
    if decimal_cnt == 0 {
        if value < 8 {
            seq![(128 + value) as u8]
        } else {
            seq![(value % 8 + 8 + 128 + flag) as u8] + vle_tail(value as nat / 8)
        }
    } else {
        seq![(decimal_cnt as nat + 128 + 16 + flag) as u8] + vle_tail(value as nat)
    }
}

/// Appends this scheme's bytes for a value with `decimal_cnt` fractional
/// digits.
pub fn compress_numeric_in_all_ascii(value: u64, decimal_cnt: u8, sign: Sign, out: &mut Vec<u8>)
    requires
        decimal_cnt <= 15,
    ensures
        final(out)@ == old(out)@ + legacy_numeric_code(value, decimal_cnt, sign_flag(sign)),
{
    let flag: u8 = match sign {
        Sign::Positive => 0,
        Sign::Negative => 32,
    };
    if decimal_cnt == 0 {
        if value < 8 {
            out.push(128 + value as u8);
            assert(out@ =~= old(out)@ + legacy_numeric_code(value, 0, sign_flag(sign)));
            return;
        }
        out.push((value % 8) as u8 + 8 + 128 + flag);
        vle_encode_tail(value / 8, out);
        assert(out@ =~= old(out)@ + legacy_numeric_code(value, 0, sign_flag(sign)));
    } else {
        out.push(decimal_cnt + 128 + 16 + flag);
        vle_encode_tail(value, out);
        assert(out@ =~= old(out)@ + legacy_numeric_code(value, decimal_cnt, sign_flag(sign)));
    }
}

/// The decimal-place count a lead byte of this scheme carries.
pub open spec fn legacy_decimal_places(first_byte: u8) -> nat {
    if (first_byte as nat / 16) % 2 == 1 {
        first_byte as nat % 16
    } else {
        0
    }
}

/// Renders a decoded magnitude as text under a lead byte's metadata: a `'-'`
/// when the sign bit is set, then the digits, with a decimal point when the
/// decimal flag is set.
pub fn decompress_numeric_in_all_ascii(value: u64, first_byte: u8, out: &mut Vec<u8>)
    ensures
        final(out)@ == old(out)@ + render_num(
            value as nat,
            (first_byte as nat / 32) % 2 == 1,
            legacy_decimal_places(first_byte),
        ),
{
    if (first_byte / 32) % 2 == 1 {
        out.push(45);
    }
    let dec = if (first_byte / 16) % 2 == 1 {
        first_byte % 16
    } else {
        0
    };
    push_magnitude(value, dec, out);
    assert(out@ =~= old(out)@ + render_num(
        value as nat,
        (first_byte as nat / 32) % 2 == 1,
        legacy_decimal_places(first_byte),
    ));
}

/// Whether coding a whole value of this scheme pays: only above 100, where
/// the code is shorter than the digits.
pub fn should_compress(val: u64) -> (r: bool)
    ensures
        r == (val > 100),
{
    val > 100
}

} // verus!
