//! Space run-length coding of the byte-level all-ASCII scheme, kept for
//! historical reference beside the tokenizer-based design. Runs are coded as
//! count bytes whose top two bits are `11` and whose low six bits hold up to
//! 63 spaces each; there is no literal-space shortcut for a run of one.

use vstd::prelude::*;

use crate::digits::push_spaces;
use crate::digits::spaces;

verus! {

/// The count bytes for a space run: full chunks of 63 under the `11` tag,
/// then the remainder, if any.
pub open spec fn legacy_space_chunks(count: nat) -> Seq<u8>
    decreases count,
{
    if count == 0 {
        seq![]
    } else if count < 63 {
        seq![(192 + count) as u8]
    } else {
        seq![255u8] + legacy_space_chunks((count - 63) as nat)
    }
}

/// Appends the count bytes for a run of `count` spaces and resets the count.
pub fn encode_spaces_mode_all_ascii(count: &mut usize, out: &mut Vec<u8>)
    ensures
        *final(count) == 0,
        final(out)@ == old(out)@ + legacy_space_chunks(*old(count) as nat),
{
    let total = *count;
    let mut rem = total;
    let ghost mut emitted: Seq<u8> = Seq::empty();
    while rem >= 63
        invariant
            out@ == old(out)@ + emitted,
            legacy_space_chunks(total as nat) == emitted + legacy_space_chunks(rem as nat),
        decreases rem,
    {
        out.push(255);
        rem -= 63;
        proof {
            emitted = emitted + seq![255u8];
            assert(out@ =~= old(out)@ + emitted);
            assert(legacy_space_chunks(total as nat) =~= emitted + legacy_space_chunks(
                rem as nat));
        }
    }
    if rem > 0 {
        out.push(192 + rem as u8);
        assert(out@ =~= old(out)@ + legacy_space_chunks(total as nat));
    } else {
        assert(out@ =~= old(out)@ + legacy_space_chunks(total as nat));
    }
    *count = 0;
}

/// Expands one count byte: its low six bits give the run length.
pub fn decode_spaces_in_all_ascii(input: u8, out: &mut Vec<u8>)
    ensures
        final(out)@ == old(out)@ + spaces(input as nat % 64),
{
    push_spaces((input % 64) as usize, out);
}

/// Whether a byte is a count byte of this scheme (top two bits `11`).
pub fn is_space_char(input: u8) -> (r: bool)
    ensures
        r == (input / 64 == 3),
{
    input / 64 == 3
}

} // verus!
