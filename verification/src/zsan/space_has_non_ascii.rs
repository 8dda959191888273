//! Space run-length coding of the byte-level scheme for records that may
//! hold non-ASCII bytes, kept for historical reference. A run is a space
//! byte used as a marker, then count bytes of up to 255 each; a count of 255
//! says another count byte follows, so the remainder byte may be zero.

use vstd::prelude::*;

use crate::digits::push_spaces;
use crate::digits::spaces;
use crate::zsan::SPACE_BYTE;

verus! {

/// `k` count bytes of 255 spaces each.
pub open spec fn full_count_bytes(k: nat) -> Seq<u8> {
    Seq::new(k, |i| 255u8)
}

/// The encoding of a space run: the marker, the full count bytes, then the
/// remainder count byte (possibly zero).
pub open spec fn legacy_non_ascii_space_code(count: nat) -> Seq<u8> {
    seq![32u8] + full_count_bytes(count / 255) + seq![(count % 255) as u8]
}

/// Appends the marker and count bytes for a run of `count` spaces and resets
/// the count.
pub fn encode_spaces_mode_non_ascii(count: &mut usize, out: &mut Vec<u8>)
    ensures
        *final(count) == 0,
        final(out)@ == old(out)@ + legacy_non_ascii_space_code(*old(count) as nat),
{
    let total = *count;
    out.push(SPACE_BYTE);
    let mut rem = total;
    let ghost mut k: nat = 0;
    while rem >= 255
        invariant
            total as nat == 255 * k + rem as nat,
            out@ == old(out)@ + seq![32u8] + full_count_bytes(k),
        decreases rem,
    {
        out.push(255);
        rem -= 255;
        proof {
            k = k + 1;
            assert(out@ =~= old(out)@ + seq![32u8] + full_count_bytes(k));
        }
    }
    proof {
        assert(k == total as nat / 255 && rem as nat == total as nat % 255) by {
            vstd::arithmetic::div_mod::lemma_fundamental_div_mod_converse(
                total as int, 255, k as int, rem as int);
        }
    }
    out.push(rem as u8);
    assert(out@ =~= old(out)@ + legacy_non_ascii_space_code(total as nat));
    *count = 0;
}

/// The text a byte stream of this scheme decodes to: a marker opens a run,
/// each count byte adds its count of spaces, a count below 255 closes the
/// run, and any other byte is literal.
pub open spec fn legacy_non_ascii_decode(s: Seq<u8>, in_run: bool) -> Seq<u8>
    decreases s.len(),
{
    if s.len() == 0 {
        seq![]
    } else if in_run {
        spaces(s[0] as nat) + legacy_non_ascii_decode(s.drop_first(), s[0] == 255)
    } else if s[0] == 32 {
        legacy_non_ascii_decode(s.drop_first(), true)
    } else {
        seq![s[0]] + legacy_non_ascii_decode(s.drop_first(), false)
    }
}

/// Decodes a whole stream of this scheme, appending the reconstructed text.
pub fn decode_spaces_mode_non_ascii(input: &[u8], out: &mut Vec<u8>)
    ensures
        final(out)@ == old(out)@ + legacy_non_ascii_decode(input@, false),
{
    let n = input.len();
    let mut has_space = false;
    let mut i: usize = 0;
    let ghost mut emitted: Seq<u8> = Seq::empty();
    proof {
        assert(input@.skip(0) =~= input@);
        assert(legacy_non_ascii_decode(input@, false) =~= emitted + legacy_non_ascii_decode(
            input@.skip(0), false));
    }
    while i < n
        invariant
            n == input.len(),
            i <= n,
            out@ == old(out)@ + emitted,
            legacy_non_ascii_decode(input@, false) == emitted + legacy_non_ascii_decode(
                input@.skip(i as int),
                has_space,
            ),
        decreases n - i,
    {
        let val = input[i];
        proof {
            assert(input@.skip(i as int)[0] == input@[i as int]);
            assert(input@.skip(i as int).drop_first() =~= input@.skip(i as int + 1));
        }
        if has_space {
            push_spaces(val as usize, out);
            if val < 255 {
                has_space = false;
            }
            proof {
                emitted = emitted + spaces(val as nat);
            }
        } else if val == SPACE_BYTE {
            has_space = true;
        } else {
            out.push(val);
            proof {
                emitted = emitted + seq![val];
            }
        }
        i += 1;
        proof {
            assert(out@ =~= old(out)@ + emitted);
            assert(legacy_non_ascii_decode(input@, false) =~= emitted + legacy_non_ascii_decode(
                input@.skip(i as int), has_space));
        }
    }
    proof {
        assert(input@.skip(n as int) =~= Seq::<u8>::empty());
        assert(out@ =~= old(out)@ + legacy_non_ascii_decode(input@, false));
    }
}

} // verus!
