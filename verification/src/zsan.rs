//! Document assembler: the record-level compress and decompress entry
//! points. Compression parses a record into blocks, derives one mode for the
//! whole record from its flags, emits a header byte carrying the format
//! marker and the mode, and interleaves literal gap copies, space codes and
//! numeric tokens. Decompression reads the header and walks the stream byte
//! class by byte class.

use vstd::prelude::*;

use crate::all_ascii::decimal::compress_decimal;
use crate::all_ascii::decimal::decimal_skip;
use crate::all_ascii::decimal::decimal_token;
use crate::all_ascii::decimal::decompress_decimal;
use crate::all_ascii::decimal::parse_decimal;
use crate::all_ascii::integer::compress_integer;
use crate::all_ascii::integer::decompress_integer;
use crate::all_ascii::integer::integer_negative;
use crate::all_ascii::integer::integer_skip;
use crate::all_ascii::integer::integer_token;
use crate::all_ascii::space::compress_space;
use crate::all_ascii::space::decompress_space;
use crate::all_ascii::space::space_code;
use crate::all_ascii::unsigned_decimal::compress_unsigned_decimal;
use crate::all_ascii::unsigned_decimal::decompress_unsigned_decimal;
use crate::all_ascii::unsigned_decimal::parse_unsigned_decimal;
use crate::all_ascii::unsigned_decimal::unsigned_decimal_skip;
use crate::all_ascii::unsigned_decimal::unsigned_decimal_token;
use crate::all_ascii::unsigned_integer::compress_unsigned_integer;
use crate::all_ascii::unsigned_integer::decompress_unsigned_integer;
use crate::all_ascii::unsigned_integer::unsigned_integer_skip;
use crate::all_ascii::unsigned_integer::unsigned_integer_token;
use crate::digits::render_num;
use crate::digits::spaces;
use crate::vle_variants::vle_head_dec;
use crate::zsan_parser::blocks_wf;
use crate::zsan_parser::has_dec_block;
use crate::zsan_parser::has_neg_block;
use crate::zsan_parser::lemma_scan_blocks_wf;
use crate::zsan_parser::retrave_blocks;
use crate::zsan_parser::scan_blocks;
use crate::zsan_parser::Block;

pub mod numeric_all_ascii;
pub mod space_all_ascii;
pub mod space_has_non_ascii;

verus! {

/// The space character, which some of the byte-level codecs use as a marker.
pub(crate) const SPACE_BYTE: u8 = 32;

/// How decompression failed: the first byte did not carry the format marker,
/// or the stream broke off inside a token or carried a magnitude too large
/// for 64 bits.
#[derive(Clone, Copy, Debug, PartialEq, Eq, Structural)]
pub enum DecodeError {
    InvalidHeader,
    Malformed,
}

/// The record mode, from the two record-wide flags: bit one for
/// contains-negative, bit zero for contains-decimal.
pub open spec fn mode_of(has_neg: bool, has_dec: bool) -> u8 {
    ((if has_neg {
        2int
    } else {
        0int
    }) + (if has_dec {
        1int
    } else {
        0int
    })) as u8
}

/// The header byte: the format marker (bit six) plus the mode bits.
pub open spec fn header_byte(mode: u8) -> u8 {
    (64 + mode) as u8
}

/// Whether the mode's codec declines a value.
pub open spec fn numeric_skip(mode: u8, base: u64, neg: bool, dec: u8) -> bool {
    if mode == 0 {
        unsigned_integer_skip(base)
    } else if mode == 1 {
        unsigned_decimal_skip(base, dec)
    } else if mode == 2 {
        integer_skip(base, neg)
    } else {
        decimal_skip(base, neg, dec)
    }
}

/// The token bytes the mode's codec emits for a value.
pub open spec fn numeric_token(mode: u8, base: u64, neg: bool, dec: u8) -> Seq<u8> {
    if mode == 0 {
        unsigned_integer_token(base)
    } else if mode == 1 {
        unsigned_decimal_token(base, dec)
    } else if mode == 2 {
        integer_token(base, neg)
    } else {
        decimal_token(base, neg, dec)
    }
}

/// The value, sign, decimal places and byte count of the numeric token at
/// the front of a stream, read with the mode's codec.
pub open spec fn parse_numeric(mode: u8, s: Seq<u8>) -> Option<(nat, bool, nat, nat)> {
    if mode == 0 {
        match vle_head_dec(s, 32) {
            Some(vc) => Some((vc.0, false, 0, vc.1)),
            None => None,
        }
    } else if mode == 1 {
        match parse_unsigned_decimal(s) {
            Some(t) => Some((t.0, false, t.1, t.2)),
            None => None,
        }
    } else if mode == 2 {
        match vle_head_dec(s, 16) {
            Some(vc) => Some((vc.0, integer_negative(s), 0, vc.1)),
            None => None,
        }
    } else {
        parse_decimal(s)
    }
}

/// The body of a compressed record: blocks in order, each preceded by its
/// literal gap, each numeric block either as a token — when its decimal
/// places fit the four-bit field and its codec accepts — or copied verbatim,
/// and the trailing literal gap last.
pub open spec fn compress_blocks(s: Seq<u8>, mode: u8, blocks: Seq<Block>, processed: int) -> Seq<
    u8,
>
    decreases blocks.len(),
{
    if blocks.len() == 0 {
        s.subrange(processed, s.len() as int)
    } else {
        match blocks[0] {
            Block::Space(start, size) => s.subrange(processed, start as int) + space_code(
                size as nat,
            ) + compress_blocks(s, mode, blocks.drop_first(), start as int + size as int),
            Block::Numerical(start, size, nb) => s.subrange(processed, start as int) + (if
                nb.decimal_places <= 15 && !numeric_skip(
                mode,
                nb.base,
                nb.negative,
                nb.decimal_places as u8,
            ) {
                numeric_token(mode, nb.base, nb.negative, nb.decimal_places as u8)
            } else {
                s.subrange(start as int, start as int + size as int)
            }) + compress_blocks(s, mode, blocks.drop_first(), start as int + size as int),
        }
    }
}

/// The whole compressed form of a record: nothing for an empty record,
/// otherwise the header byte followed by the body.
pub open spec fn compress_spec(s: Seq<u8>) -> Seq<u8> {
    if s.len() == 0 {
        seq![]
    } else {
        let blocks = scan_blocks(s, 0);
        let mode = mode_of(has_neg_block(blocks), has_dec_block(blocks));
        seq![header_byte(mode)] + compress_blocks(s, mode, blocks, 0)
    }
}

/// Appends `src[from..to]` verbatim.
fn push_range(src: &[u8], from: usize, to: usize, out: &mut Vec<u8>)
    requires
        from <= to <= src.len(),
    ensures
        final(out)@ == old(out)@ + src@.subrange(from as int, to as int),
{
    let mut i = from;
    while i < to
        invariant
            from <= i <= to <= src.len(),
            out@ == old(out)@ + src@.subrange(from as int, i as int),
        decreases to - i,
    {
        out.push(src[i]);
        i += 1;
        assert(out@ =~= old(out)@ + src@.subrange(from as int, i as int));
    }
}

/// Runs the mode's codec on one numeric payload; returns whether it encoded.
fn compress_block_numeric(mode: u8, base: u64, negative: bool, decimal_places: u8, out: &mut Vec<
    u8,
>) -> (r: bool)
    requires
        mode < 4,
        decimal_places <= 15,
    ensures
        r == !numeric_skip(mode, base, negative, decimal_places),
        r ==> final(out)@ == old(out)@ + numeric_token(mode, base, negative, decimal_places),
        !r ==> final(out)@ == old(out)@,
{
    if mode == 0 {
        compress_unsigned_integer(base, negative, decimal_places, out)
    } else if mode == 1 {
        compress_unsigned_decimal(base, negative, decimal_places, out)
    } else if mode == 2 {
        compress_integer(base, negative, decimal_places, out)
    } else {
        compress_decimal(base, negative, decimal_places, out)
    }
}

/// Compresses one record, appending the result: nothing for an empty record,
/// otherwise a header byte and the interleaved body.
pub fn compress(src: &[u8], out: &mut Vec<u8>)
    ensures
        final(out)@ == old(out)@ + compress_spec(src@),
{
    let n = src.len();
    if n == 0 {
        assert(out@ =~= old(out)@ + compress_spec(src@));
        return;
    }
    let (has_negative, has_decimal, blocks) = retrave_blocks(src);
    let mode: u8 = (if has_negative {
        2
    } else {
        0
    }) + (if has_decimal {
        1
    } else {
        0
    });
    out.push(64 + mode);
    proof {
        lemma_scan_blocks_wf(src@, 0);
        assert(mode == mode_of(has_neg_block(scan_blocks(src@, 0)), has_dec_block(
            scan_blocks(src@, 0))));
    }
    let ghost bseq = blocks@;
    let mut processed: usize = 0;
    let mut k: usize = 0;
    let ghost mut emitted: Seq<u8> = Seq::empty();
    proof {
        assert(bseq.skip(0) =~= bseq);
        assert(compress_blocks(src@, mode, bseq, 0) =~= emitted + compress_blocks(
            src@, mode, bseq.skip(0), 0));
    }
    while k < blocks.len()
        invariant
            n == src.len(),
            bseq == blocks@,
            bseq == scan_blocks(src@, 0),
            mode < 4,
            k <= bseq.len(),
            processed <= n,
            blocks_wf(bseq.skip(k as int), processed as int, n as int),
            out@ == old(out)@ + seq![(64 + mode) as u8] + emitted,
            compress_blocks(src@, mode, bseq, 0) == emitted + compress_blocks(
                src@,
                mode,
                bseq.skip(k as int),
                processed as int,
            ),
        decreases bseq.len() - k,
    {
        proof {
            assert(bseq.skip(k as int)[0] == bseq[k as int]);
            assert(bseq.skip(k as int).drop_first() =~= bseq.skip(k as int + 1));
        }
        let block = blocks[k];
        let ghost piece: Seq<u8>;
        match block {
            Block::Space(start, size) => {
                push_range(src, processed, start, out);
                compress_space(size, out);
                proof {
                    piece = src@.subrange(processed as int, start as int) + space_code(
                        size as nat);
                }
                processed = start + size;
            },
            Block::Numerical(start, size, nb) => {
                push_range(src, processed, start, out);
                let encoded = if nb.decimal_places <= 15 {
                    compress_block_numeric(mode, nb.base, nb.negative, nb.decimal_places as u8, out)
                } else {
                    false
                };
                if !encoded {
                    push_range(src, start, start + size, out);
                    proof {
                        piece = src@.subrange(processed as int, start as int) + src@.subrange(
                            start as int, start as int + size as int);
                    }
                } else {
                    proof {
                        piece = src@.subrange(processed as int, start as int) + numeric_token(
                            mode, nb.base, nb.negative, nb.decimal_places as u8);
                    }
                }
                processed = start + size;
            },
        }
        k += 1;
        proof {
            emitted = emitted + piece;
            assert(out@ =~= old(out)@ + seq![(64 + mode) as u8] + emitted);
            assert(compress_blocks(src@, mode, bseq, 0) =~= emitted + compress_blocks(
                src@, mode, bseq.skip(k as int), processed as int));
        }
    }
    proof {
        assert(bseq.skip(k as int) =~= Seq::<Block>::empty());
    }
    push_range(src, processed, n, out);
    proof {
        assert(out@ =~= old(out)@ + compress_spec(src@));
    }
}

/// The text one compressed body decodes to under a mode, walking it one byte
/// class at a time; `None` when a numeric token is truncated or overflows 64
/// bits.
pub open spec fn decomp_body(s: Seq<u8>, mode: u8) -> Option<Seq<u8>>
    decreases s.len()
        via decomp_body_decreases
{
    if s.len() == 0 {
        Some(seq![])
    } else if s[0] < 128 {
        match decomp_body(s.drop_first(), mode) {
            Some(t) => Some(seq![s[0]] + t),
            None => None,
        }
    } else if s[0] < 192 {
        match decomp_body(s.drop_first(), mode) {
            Some(t) => Some(spaces(s[0] as nat % 64) + t),
            None => None,
        }
    } else {
        match parse_numeric(mode, s) {
            Some(t) => if t.0 <= u64::MAX as nat {
                match decomp_body(s.skip(t.3 as int), mode) {
                    Some(r) => Some(render_num(t.0, t.1, t.2) + r),
                    None => None,
                }
            } else {
                None
            },
            None => None,
        }
    }
}

#[via_fn]
proof fn decomp_body_decreases(s: Seq<u8>, mode: u8) {
    if s.len() > 0 && s[0] >= 192 {
        lemma_parse_numeric_bounds(mode, s);
    }
}

/// A parsed numeric token consumes at least one byte and at most the whole
/// stream.
pub proof fn lemma_parse_numeric_bounds(mode: u8, s: Seq<u8>)
    ensures
        match parse_numeric(mode, s) {
            Some(t) => 1 <= t.3 <= s.len(),
            None => true,
        },
{
    if s.len() > 0 {
        crate::vle_variants::lemma_vle_tail_dec_bounds(s.drop_first());
        assert(s.drop_first().len() == s.len() - 1);
    }
}

/// The text a compressed record decodes to: empty input is empty; otherwise
/// the first byte must carry the format marker and a mode, and the rest is
/// the body.
pub open spec fn decomp_spec(s: Seq<u8>) -> Option<Seq<u8>> {
    if s.len() == 0 {
        Some(seq![])
    } else if 64 <= s[0] && s[0] < 68 {
        decomp_body(s.drop_first(), (s[0] - 64) as u8)
    } else {
        None
    }
}

/// Runs the mode's decoder on the token at the front of `input`.
fn decompress_block_numeric(mode: u8, input: &[u8], out: &mut Vec<u8>) -> (r: Option<usize>)
    requires
        mode < 4,
    ensures
        match parse_numeric(mode, input@) {
            Some(t) => if t.0 <= u64::MAX as nat {
                r == Some(t.3 as usize) && final(out)@ == old(out)@ + render_num(t.0, t.1, t.2)
            } else {
                r is None && final(out)@ == old(out)@
            },
            None => r is None && final(out)@ == old(out)@,
        },
{
    if mode == 0 {
        let r = decompress_unsigned_integer(input, out);
        proof {
            if r is Some {
                let t = parse_numeric(0, input@)->Some_0;
                assert(render_num(t.0, false, 0) =~= crate::digits::dig_seq(t.0));
            }
        }
        r
    } else if mode == 1 {
        let r = decompress_unsigned_decimal(input, out);
        proof {
            if r is Some {
                let t = parse_numeric(1, input@)->Some_0;
                assert(render_num(t.0, false, t.2) =~= crate::digits::render_mag(t.0, t.2));
            }
        }
        r
    } else if mode == 2 {
        decompress_integer(input, out)
    } else {
        decompress_decimal(input, out)
    }
}

/// Decompresses one record, appending the reconstructed text. On any error
/// nothing is appended: `InvalidHeader` when a non-empty input does not open
/// with the format marker, `Malformed` when a numeric token is truncated or
/// overflows 64 bits.
#[verifier::rlimit(60)]
pub fn decompress(input: &[u8], out: &mut Vec<u8>) -> (r: Result<(), DecodeError>)
    ensures
        match decomp_spec(input@) {
            Some(t) => r is Ok && final(out)@ == old(out)@ + t,
            None => r is Err && final(out)@ == old(out)@,
        },
        (input@.len() > 0 && !(64 <= input@[0] && input@[0] < 68)) <==> r == Err::<
            (),
            DecodeError,
        >(DecodeError::InvalidHeader),
        (input@.len() > 0 && 64 <= input@[0] && input@[0] < 68 && decomp_body(
            input@.drop_first(),
            (input@[0] - 64) as u8,
        ) is None) <==> r == Err::<(), DecodeError>(DecodeError::Malformed),
{
    let n = input.len();
    if n == 0 {
        assert(decomp_spec(input@) == Some(Seq::<u8>::empty()));
        assert(out@ =~= old(out)@ + Seq::<u8>::empty());
        return Ok(());
    }
    let h = input[0];
    if h < 64 || h >= 68 {
        return Err(DecodeError::InvalidHeader);
    }
    let mode = h - 64;
    let mut tmp: Vec<u8> = Vec::new();
    let mut i: usize = 1;
    proof {
        assert(input@.skip(1) =~= input@.drop_first());
    }
    while i < n
        invariant
            n == input.len(),
            1 <= i <= n,
            mode < 4,
            mode == input@[0] - 64,
            decomp_body(input@.skip(1), mode) == (match decomp_body(input@.skip(i as int), mode) {
                Some(t) => Some(tmp@ + t),
                None => None::<Seq<u8>>,
            }),
        decreases n - i,
    {
        let b = input[i];
        proof {
            assert(input@.skip(i as int)[0] == input@[i as int]);
            assert(input@.skip(i as int).drop_first() =~= input@.skip(i as int + 1));
        }
        if b < 128 {
            tmp.push(b);
            i += 1;
            proof {
                match decomp_body(input@.skip(i as int), mode) {
                    Some(t) => {
                        assert(tmp@ + t =~= tmp@.drop_last() + (seq![b] + t));
                    },
                    None => {},
                }
            }
        } else if b < 192 {
            let _ = decompress_space(b, &mut tmp);
            i += 1;
            proof {
                match decomp_body(input@.skip(i as int), mode) {
                    Some(t) => {
                        assert(tmp@ + t =~= tmp@.subrange(0, tmp@.len() - (b as int % 64)) + (
                        spaces(b as nat % 64) + t));
                    },
                    None => {},
                }
            }
        } else {
            let rest = vstd::slice::slice_subrange(input, i, n);
            proof {
                assert(rest@ =~= input@.skip(i as int));
            }
            let ghost tmp0 = tmp@;
            match decompress_block_numeric(mode, rest, &mut tmp) {
                None => {
                    return Err(DecodeError::Malformed);
                },
                Some(consumed) => {
                    proof {
                        lemma_parse_numeric_bounds(mode, rest@);
                    }
                    i += consumed;
                    proof {
                        let t = parse_numeric(mode, rest@)->Some_0;
                        assert(input@.skip(i as int) =~= rest@.skip(t.3 as int));
                        match decomp_body(input@.skip(i as int), mode) {
                            Some(t2) => {
                                assert(tmp@ + t2 =~= tmp0 + (render_num(t.0, t.1, t.2) + t2));
                            },
                            None => {},
                        }
                    }
                },
            }
        }
    }
    proof {
        assert(input@.skip(n as int) =~= Seq::<u8>::empty());
        assert(decomp_body(input@.skip(n as int), mode) == Some(Seq::<u8>::empty()));
        assert(tmp@ + Seq::<u8>::empty() =~= tmp@);
    }
    out.append(&mut tmp);
    Ok(())
}

} // verus!
