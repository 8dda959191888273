//! Per-block codecs of the compressed stream. Every byte of a compressed
//! record body falls in one of three classes by its top two bits: a literal
//! ASCII byte (below 128), a space-run count byte (128 to 191), or the lead
//! byte of a numeric token (192 and above).

use vstd::prelude::*;

pub mod decimal;
pub mod integer;
pub mod space;
pub mod unsigned_decimal;
pub mod unsigned_integer;

verus! {

/// The first byte of an encoding with the tag bits of its byte class added.
pub open spec fn with_tag(s: Seq<u8>, tag: u8) -> Seq<u8> {
    s.update(0, (s[0] + tag) as u8)
}

/// Whether a compressed-stream byte is a space-run count byte (its top two
/// bits are `10`).
pub fn is_space(b: u8) -> (r: bool)
    ensures
        r == (b / 64 == 2),
{
    b / 64 == 2
}

/// Whether a compressed-stream byte is the lead byte of a numeric token (its
/// top two bits are `11`).
pub fn is_numerical(b: u8) -> (r: bool)
    ensures
        r == (b / 64 == 3),
{
    b / 64 == 3
}

/// Appends a head-byte encoding with its first byte tagged. The tag is a
/// multiple of `2 * m`, so it lives above the data bits and the continuation
/// flag and the decoder can ignore it.
pub(crate) fn push_head_tagged(value: u64, m: u64, tag: u8, out: &mut Vec<u8>)
    requires
        m == 8 || m == 16 || m == 32,
        tag as nat + 2 * m as nat <= 256,
    ensures
        final(out)@ == old(out)@ + with_tag(
            crate::vle_variants::vle_head(value as nat, m as nat),
            tag,
        ),
{
    if value < m {
        out.push(value as u8 + tag);
        assert(out@ =~= old(out)@ + with_tag(
            crate::vle_variants::vle_head(value as nat, m as nat), tag));
    } else {
        out.push((value % m) as u8 + m as u8 + tag);
        crate::vle_variants::vle_encode_tail(value / m, out);
        assert(out@ =~= old(out)@ + with_tag(
            crate::vle_variants::vle_head(value as nat, m as nat), tag));
    }
}

/// Appends a one-data-bit encoding with its first byte tagged; the tag is
/// even, so it leaves the data bit alone.
pub(crate) fn push_one_tagged(value: u64, tag: u8, out: &mut Vec<u8>)
    requires
        tag <= 254,
    ensures
        final(out)@ == old(out)@ + with_tag(
            crate::vle_variants::vle_one_enc(value as nat),
            tag,
        ),
{
    out.push((value % 2) as u8 + tag);
    crate::vle_variants::vle_encode_tail(value / 2, out);
    assert(out@ =~= old(out)@ + with_tag(
        crate::vle_variants::vle_one_enc(value as nat), tag));
}

} // verus!
