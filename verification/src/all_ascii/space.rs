//! Space run-length codec. A run of exactly one space stays a literal space
//! byte; longer runs split into chunks of at most 63, each emitted as a
//! count byte whose top two bits are `10` and whose low six bits hold the
//! chunk's count.

use vstd::prelude::*;

use crate::digits::push_spaces;
use crate::digits::spaces;

verus! {

/// The count bytes for a space run: full chunks of 63 followed by the
/// remainder, if any.
pub open spec fn space_code_chunks(count: nat) -> Seq<u8>
    decreases count,
{
    if count == 0 {
        seq![]
    } else if count < 63 {
        seq![(128 + count) as u8]
    } else {
        seq![191u8] + space_code_chunks((count - 63) as nat)
    }
}

/// The encoding of a space run: a single space is cheapest as the literal
/// space byte; anything else becomes count bytes.
pub open spec fn space_code(count: nat) -> Seq<u8> {
    if count == 1 {
        seq![32u8]
    } else {
        space_code_chunks(count)
    }
}

/// Appends the encoding of a run of `count` spaces.
pub fn compress_space(count: usize, out: &mut Vec<u8>)
    ensures
        final(out)@ == old(out)@ + space_code(count as nat),
{
    if count == 1 {
        out.push(32);
        assert(out@ =~= old(out)@ + space_code(1));
        return;
    }
    let mut rem = count;
    let ghost mut emitted: Seq<u8> = Seq::empty();
    while rem >= 63
        invariant
            out@ == old(out)@ + emitted,
            space_code_chunks(count as nat) == emitted + space_code_chunks(rem as nat),
        decreases rem,
    {
        out.push(191);
        rem -= 63;
        proof {
            emitted = emitted + seq![191u8];
            assert(out@ =~= old(out)@ + emitted);
            assert(space_code_chunks(count as nat)
                =~= emitted + space_code_chunks(rem as nat));
        }
    }
    if rem > 0 {
        out.push(128 + rem as u8);
        assert(out@ =~= old(out)@ + space_code_chunks(count as nat));
    } else {
        assert(out@ =~= old(out)@ + space_code_chunks(count as nat));
    }
    assert(out@ =~= old(out)@ + space_code(count as nat));
}

/// Expands one space-run count byte: its low six bits give the run length,
/// which is appended as spaces and returned.
pub fn decompress_space(input: u8, out: &mut Vec<u8>) -> (r: usize)
    ensures
        r == input as nat % 64,
        final(out)@ == old(out)@ + spaces(input as nat % 64),
{
    let count = (input % 64) as usize;
    push_spaces(count, out);
    count
}

} // verus!
