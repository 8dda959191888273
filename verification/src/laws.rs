//! Record-level guarantees of the codec, proved once and for all: a
//! compressed record decompresses back to the original text, and the mode a
//! record's flags select governs every numeric token in it.

use vstd::prelude::*;

use crate::all_ascii::space::space_code;
use crate::all_ascii::space::space_code_chunks;
use crate::digits::lemma_spaces_concat;
use crate::digits::render_num;
use crate::digits::spaces;
use crate::vle_variants::lemma_vle_head_roundtrip;
use crate::vle_variants::lemma_vle_one_roundtrip;
use crate::vle_variants::lemma_vle_tail_roundtrip;
use crate::vle_variants::vle_head;
use crate::vle_variants::vle_one_enc;
use crate::vle_variants::vle_tail;
use crate::zsan::compress_blocks;
use crate::zsan::compress_spec;
use crate::zsan::decomp_body;
use crate::zsan::decomp_spec;
use crate::zsan::header_byte;
use crate::zsan::mode_of;
use crate::zsan::numeric_skip;
use crate::zsan::numeric_token;
use crate::zsan::parse_numeric;
use crate::zsan_parser::block_has_decimal;
use crate::zsan_parser::block_is_negative;
use crate::zsan_parser::block_size;
use crate::zsan_parser::block_start;
use crate::zsan_parser::blocks_good;
use crate::zsan_parser::blocks_wf;
use crate::zsan_parser::block_good;
use crate::zsan_parser::has_dec_block;
use crate::zsan_parser::has_neg_block;
use crate::zsan_parser::lemma_scan_blocks_good;
use crate::zsan_parser::lemma_scan_blocks_wf;
use crate::zsan_parser::scan_blocks;
use crate::zsan_parser::Block;

verus! {

/// Literal bytes pass through decompression unchanged, whatever follows.
proof fn lemma_decomp_literals(lit: Seq<u8>, rest: Seq<u8>, mode: u8)
    requires
        forall|k: int| 0 <= k < lit.len() ==> #[trigger] lit[k] < 128,
    ensures
        decomp_body(lit + rest, mode) == (match decomp_body(rest, mode) {
            Some(t) => Some(lit + t),
            None => None::<Seq<u8>>,
        }),
    decreases lit.len(),
{
    if lit.len() == 0 {
        assert(lit + rest =~= rest);
        match decomp_body(rest, mode) {
            Some(t) => {
                assert(lit + t =~= t);
            },
            None => {},
        }
    } else {
        let s = lit + rest;
        assert(s[0] == lit[0]);
        assert(s.drop_first() =~= lit.drop_first() + rest);
        assert forall|k: int| 0 <= k < lit.drop_first().len()
            implies #[trigger] lit.drop_first()[k] < 128 by {
            assert(lit.drop_first()[k] == lit[k + 1]);
        }
        lemma_decomp_literals(lit.drop_first(), rest, mode);
        match decomp_body(rest, mode) {
            Some(t) => {
                assert(seq![s[0]] + (lit.drop_first() + t) =~= lit + t);
            },
            None => {},
        }
    }
}

/// Space count bytes decompress to their run, whatever follows.
proof fn lemma_decomp_space_chunks(count: nat, rest: Seq<u8>, mode: u8)
    ensures
        decomp_body(space_code_chunks(count) + rest, mode) == (match decomp_body(rest, mode) {
            Some(t) => Some(spaces(count) + t),
            None => None::<Seq<u8>>,
        }),
    decreases count,
{
    if count == 0 {
        assert(space_code_chunks(0) + rest =~= rest);
        match decomp_body(rest, mode) {
            Some(t) => {
                assert(spaces(0) + t =~= t);
            },
            None => {},
        }
    } else if count < 63 {
        let s = space_code_chunks(count) + rest;
        assert(s[0] == (128 + count) as u8);
        assert(128 <= s[0] < 192);
        assert(s[0] as nat % 64 == count) by {
            vstd::arithmetic::div_mod::lemma_fundamental_div_mod_converse_mod(
                (128 + count) as int, 64, 2, count as int);
        }
        assert(s.drop_first() =~= rest);
    } else {
        let s = space_code_chunks(count) + rest;
        assert(s[0] == 191u8);
        assert(s[0] as nat % 64 == 63);
        assert(s.drop_first() =~= space_code_chunks((count - 63) as nat) + rest);
        lemma_decomp_space_chunks((count - 63) as nat, rest, mode);
        match decomp_body(rest, mode) {
            Some(t) => {
                lemma_spaces_concat(63, (count - 63) as nat);
                assert(spaces(63) + (spaces((count - 63) as nat) + t) =~= spaces(count) + t);
            },
            None => {},
        }
    }
}

/// A space run's code decompresses to the run, whatever follows.
proof fn lemma_decomp_space_code(count: nat, rest: Seq<u8>, mode: u8)
    ensures
        decomp_body(space_code(count) + rest, mode) == (match decomp_body(rest, mode) {
            Some(t) => Some(spaces(count) + t),
            None => None::<Seq<u8>>,
        }),
{
    if count == 1 {
        let s = space_code(1) + rest;
        assert(s[0] == 32u8);
        assert(s.drop_first() =~= rest);
        match decomp_body(rest, mode) {
            Some(t) => {
                assert(seq![32u8] + t =~= spaces(1) + t);
            },
            None => {},
        }
    } else {
        lemma_decomp_space_chunks(count, rest, mode);
    }
}

/// A numeric token decompresses under its own mode to the text it encodes,
/// whatever follows.
#[verifier::rlimit(100)]
#[verifier::spinoff_prover]
proof fn lemma_decomp_token(mode: u8, base: u64, neg: bool, dec: u8, rest: Seq<u8>)
    requires
        mode < 4,
        dec <= 15,
        (mode == 0 || mode == 1) ==> !neg,
        (mode == 0 || mode == 2) ==> dec == 0,
    ensures
        decomp_body(numeric_token(mode, base, neg, dec) + rest, mode) == (match decomp_body(
            rest,
            mode,
        ) {
            Some(t) => Some(render_num(base as nat, neg, dec as nat) + t),
            None => None::<Seq<u8>>,
        }),
{
    let tok = numeric_token(mode, base, neg, dec);
    let s = tok + rest;
    if mode == 0 {
        let e = vle_head(base as nat, 32);
        assert(e[0] < 64);
        assert(192nat % 64 == 0) by {
            vstd::arithmetic::div_mod::lemma_fundamental_div_mod_converse_mod(192, 64, 3, 0);
        }
        lemma_vle_head_roundtrip(base as nat, 32, 192, rest);
        assert(s == e.update(0, (e[0] + 192) as u8) + rest);
        assert(s[0] == (e[0] + 192) as u8);
        assert(s[0] >= 192);
        assert(parse_numeric(0, s) == Some((base as nat, false, 0nat, e.len())));
        assert(tok.len() == e.len());
        assert(s.skip(e.len() as int) =~= rest);
    } else if mode == 2 {
        let e = vle_head(base as nat, 16);
        let tag: u8 = if neg {
            224
        } else {
            192
        };
        assert(e[0] < 32);
        assert(tag as nat % 32 == 0) by {
            vstd::arithmetic::div_mod::lemma_fundamental_div_mod_converse_mod(192, 32, 6, 0);
            vstd::arithmetic::div_mod::lemma_fundamental_div_mod_converse_mod(224, 32, 7, 0);
        }
        lemma_vle_head_roundtrip(base as nat, 16, tag as nat, rest);
        assert(s == e.update(0, (e[0] + tag) as u8) + rest);
        assert(s[0] == (e[0] + tag) as u8);
        assert(s[0] >= 192);
        assert(s[0] as nat / 32 == (if neg { 7nat } else { 6nat })) by {
            vstd::arithmetic::div_mod::lemma_fundamental_div_mod_converse_div(
                (192 + e[0]) as int, 32, 6, e[0] as int);
            vstd::arithmetic::div_mod::lemma_fundamental_div_mod_converse_div(
                (224 + e[0]) as int, 32, 7, e[0] as int);
        }
        assert(crate::all_ascii::integer::integer_negative(s) == neg);
        assert(parse_numeric(2, s) == Some((base as nat, neg, 0nat, e.len())));
        assert(tok.len() == e.len());
        assert(s.skip(e.len() as int) =~= rest);
    } else if mode == 1 {
        if dec == 0 {
            let e = vle_head(base as nat, 8);
            assert(e[0] < 16);
            assert(192nat % 16 == 0) by {
                vstd::arithmetic::div_mod::lemma_fundamental_div_mod_converse_mod(192, 16, 12, 0);
            }
            lemma_vle_head_roundtrip(base as nat, 8, 192, rest);
            assert(s == e.update(0, (e[0] + 192) as u8) + rest);
            assert(s[0] == (e[0] + 192) as u8);
            assert(s[0] >= 192);
            assert(s[0] as nat / 32 == 6) by {
                vstd::arithmetic::div_mod::lemma_fundamental_div_mod_converse_div(
                    (192 + e[0]) as int, 32, 6, e[0] as int);
            }
            assert(parse_numeric(1, s) == Some((base as nat, false, 0nat, e.len())));
            assert(tok.len() == e.len());
            assert(s.skip(e.len() as int) =~= rest);
        } else {
            let e = vle_one_enc(base as nat);
            let tag: u8 = (224 + 2 * dec as int) as u8;
            assert(e[0] < 2);
            assert(tag as nat % 2 == 0) by {
                vstd::arithmetic::div_mod::lemma_fundamental_div_mod_converse_mod(
                    (224 + 2 * dec) as int, 2, (112 + dec) as int, 0);
            }
            lemma_vle_one_roundtrip(base as nat, tag as nat, rest);
            assert(s == e.update(0, (e[0] + tag) as u8) + rest);
            assert(s[0] == (e[0] + tag) as u8);
            assert(s[0] >= 192);
            assert(s[0] as nat / 2 == 112 + dec) by {
                vstd::arithmetic::div_mod::lemma_fundamental_div_mod_converse_div(
                    (224 + 2 * dec + e[0]) as int, 2, (112 + dec) as int, e[0] as int);
            }
            assert(s[0] as nat / 32 == 7) by {
                vstd::arithmetic::div_mod::lemma_fundamental_div_mod_converse_div(
                    (224 + 2 * dec + e[0]) as int, 32, 7, (2 * dec + e[0]) as int);
            }
            assert((112 + dec as nat) % 16 == dec as nat) by {
                vstd::arithmetic::div_mod::lemma_fundamental_div_mod_converse_mod(
                    (112 + dec) as int, 16, 7, dec as int);
            }
            assert(parse_numeric(1, s) == Some((base as nat, false, dec as nat, e.len())));
            assert(tok.len() == e.len());
            assert(s.skip(e.len() as int) =~= rest);
        }
    } else {
        if dec == 0 {
            let e = vle_head(base as nat, 8);
            let tag: u8 = if neg {
                224
            } else {
                192
            };
            assert(e[0] < 16);
            assert(tag as nat % 16 == 0) by {
                vstd::arithmetic::div_mod::lemma_fundamental_div_mod_converse_mod(192, 16, 12, 0);
                vstd::arithmetic::div_mod::lemma_fundamental_div_mod_converse_mod(224, 16, 14, 0);
            }
            lemma_vle_head_roundtrip(base as nat, 8, tag as nat, rest);
            assert(s == e.update(0, (e[0] + tag) as u8) + rest);
            assert(s[0] == (e[0] + tag) as u8);
            assert(s[0] >= 192);
            assert(s[0] as nat / 32 == (if neg { 7nat } else { 6nat })) by {
                vstd::arithmetic::div_mod::lemma_fundamental_div_mod_converse_div(
                    (192 + e[0]) as int, 32, 6, e[0] as int);
                vstd::arithmetic::div_mod::lemma_fundamental_div_mod_converse_div(
                    (224 + e[0]) as int, 32, 7, e[0] as int);
            }
            assert(s[0] as nat / 16 == (if neg { 14nat } else { 12nat })) by {
                vstd::arithmetic::div_mod::lemma_fundamental_div_mod_converse_div(
                    (192 + e[0]) as int, 16, 12, e[0] as int);
                vstd::arithmetic::div_mod::lemma_fundamental_div_mod_converse_div(
                    (224 + e[0]) as int, 16, 14, e[0] as int);
            }
            assert(parse_numeric(3, s) == Some((base as nat, neg, 0nat, e.len())));
            assert(tok.len() == e.len());
            assert(s.skip(e.len() as int) =~= rest);
        } else {
            let lead: nat = (if neg {
                224nat
            } else {
                192nat
            }) + 16 + dec as nat;
            assert(tok == seq![lead as u8] + vle_tail(base as nat));
            assert(s[0] == lead as u8);
            assert(lead < 256);
            assert(s[0] as nat == lead);
            assert(s[0] >= 192);
            assert(s.drop_first() =~= vle_tail(base as nat) + rest);
            lemma_vle_tail_roundtrip(base as nat, rest);
            assert(s[0] as nat / 32 == (if neg { 7nat } else { 6nat })) by {
                vstd::arithmetic::div_mod::lemma_fundamental_div_mod_converse_div(
                    (208 + dec) as int, 32, 6, (16 + dec) as int);
                vstd::arithmetic::div_mod::lemma_fundamental_div_mod_converse_div(
                    (240 + dec) as int, 32, 7, (16 + dec) as int);
            }
            assert(s[0] as nat / 16 == (if neg { 15nat } else { 13nat })) by {
                vstd::arithmetic::div_mod::lemma_fundamental_div_mod_converse_div(
                    (208 + dec) as int, 16, 13, dec as int);
                vstd::arithmetic::div_mod::lemma_fundamental_div_mod_converse_div(
                    (240 + dec) as int, 16, 15, dec as int);
            }
            assert(s[0] as nat % 16 == dec as nat) by {
                vstd::arithmetic::div_mod::lemma_fundamental_div_mod_converse_mod(
                    (208 + dec) as int, 16, 13, dec as int);
                vstd::arithmetic::div_mod::lemma_fundamental_div_mod_converse_mod(
                    (240 + dec) as int, 16, 15, dec as int);
            }
            assert(parse_numeric(3, s) == Some((
                base as nat,
                neg,
                dec as nat,
                vle_tail(base as nat).len() + 1,
            )));
            assert(tok.len() == vle_tail(base as nat).len() + 1);
            assert(s.skip(tok.len() as int) =~= rest);
        }
    }
}

/// The body a record compresses to decompresses back to the record's text
/// from the processed point on.
#[verifier::rlimit(100)]
#[verifier::spinoff_prover]
proof fn lemma_decomp_compress_blocks(s: Seq<u8>, mode: u8, blocks: Seq<Block>, processed: int)
    requires
        mode < 4,
        0 <= processed <= s.len(),
        s.len() <= usize::MAX,
        forall|k: int| 0 <= k < s.len() ==> #[trigger] s[k] < 128,
        blocks_wf(blocks, processed, s.len() as int),
        blocks_good(s, blocks),
        (mode == 0 || mode == 1) ==> (forall|k: int|
            0 <= k < blocks.len() ==> !block_is_negative(#[trigger] blocks[k])),
        (mode == 0 || mode == 2) ==> (forall|k: int|
            0 <= k < blocks.len() ==> !block_has_decimal(#[trigger] blocks[k])),
    ensures
        decomp_body(compress_blocks(s, mode, blocks, processed), mode) == Some(
            s.subrange(processed, s.len() as int),
        ),
    decreases blocks.len(),
{
    if blocks.len() == 0 {
        let lit = s.subrange(processed, s.len() as int);
        assert forall|k: int| 0 <= k < lit.len() implies #[trigger] lit[k] < 128 by {
            assert(lit[k] == s[processed + k]);
        }
        lemma_decomp_literals(lit, Seq::empty(), mode);
        assert(lit + Seq::<u8>::empty() =~= lit);
        assert(decomp_body(Seq::<u8>::empty(), mode) == Some(Seq::<u8>::empty()));
        assert(lit + Seq::<u8>::empty() =~= lit);
    } else {
        let b = blocks[0];
        let start = block_start(b);
        let size = block_size(b);
        let tail = blocks.drop_first();
        assert forall|k: int| 0 <= k < tail.len() implies #[trigger] tail[k] == blocks[k + 1] by {}
        if mode == 0 || mode == 1 {
            assert forall|k: int| 0 <= k < tail.len() implies !block_is_negative(
                #[trigger] tail[k]) by {
                assert(tail[k] == blocks[k + 1]);
            }
        }
        if mode == 0 || mode == 2 {
            assert forall|k: int| 0 <= k < tail.len() implies !block_has_decimal(
                #[trigger] tail[k]) by {
                assert(tail[k] == blocks[k + 1]);
            }
        }
        lemma_decomp_compress_blocks(s, mode, tail, start + size);
        let rest_stream = compress_blocks(s, mode, tail, start + size);
        let subrest = s.subrange(start + size, s.len() as int);
        let gap = s.subrange(processed, start);
        assert forall|k: int| 0 <= k < gap.len() implies #[trigger] gap[k] < 128 by {
            assert(gap[k] == s[processed + k]);
        }
        let span = s.subrange(start, start + size);
        assert forall|k: int| 0 <= k < span.len() implies #[trigger] span[k] < 128 by {
            assert(span[k] == s[start + k]);
        }
        match b {
            Block::Space(bs, bl) => {
                let piece = space_code(bl as nat);
                assert(compress_blocks(s, mode, blocks, processed) =~= gap + (piece
                    + rest_stream));
                lemma_decomp_space_code(bl as nat, rest_stream, mode);
                lemma_decomp_literals(gap, piece + rest_stream, mode);
                assert(block_good(s, b));
                assert(span == spaces(bl as nat));
                assert(gap + (spaces(bl as nat) + subrest) =~= s.subrange(
                    processed, s.len() as int));
            },
            Block::Numerical(bs, bl, nb) => {
                if nb.decimal_places <= 15 && !numeric_skip(
                    mode, nb.base, nb.negative, nb.decimal_places as u8) {
                    let piece = numeric_token(mode, nb.base, nb.negative,
                        nb.decimal_places as u8);
                    assert(compress_blocks(s, mode, blocks, processed) =~= gap + (piece
                        + rest_stream));
                    if mode == 0 || mode == 1 {
                        assert(!block_is_negative(blocks[0]));
                    }
                    if mode == 0 || mode == 2 {
                        assert(!block_has_decimal(blocks[0]));
                    }
                    lemma_decomp_token(mode, nb.base, nb.negative, nb.decimal_places as u8,
                        rest_stream);
                    lemma_decomp_literals(gap, piece + rest_stream, mode);
                    assert(block_good(s, b));
                    assert(span == render_num(nb.base as nat, nb.negative,
                        nb.decimal_places as nat));
                    assert(gap + (render_num(nb.base as nat, nb.negative,
                        nb.decimal_places as nat) + subrest) =~= s.subrange(
                        processed, s.len() as int));
                } else {
                    assert(compress_blocks(s, mode, blocks, processed) =~= gap + (span
                        + rest_stream));
                    lemma_decomp_literals(span, rest_stream, mode);
                    lemma_decomp_literals(gap, span + rest_stream, mode);
                    assert(gap + (span + subrest) =~= s.subrange(processed, s.len() as int));
                }
            },
        }
    }
}

/// A record's negative flag says a negative token exists.
pub proof fn lemma_has_neg_exists(blocks: Seq<Block>)
    ensures
        has_neg_block(blocks) <==> exists|k: int|
            0 <= k < blocks.len() && block_is_negative(#[trigger] blocks[k]),
    decreases blocks.len(),
{
    if blocks.len() > 0 {
        let head = blocks.drop_last();
        lemma_has_neg_exists(head);
        if has_neg_block(blocks) {
            if has_neg_block(head) {
                let k = choose|k: int| 0 <= k < head.len() && block_is_negative(
                    #[trigger] head[k]);
                assert(blocks[k] == head[k]);
                assert(block_is_negative(blocks[k]));
            } else {
                assert(block_is_negative(blocks[blocks.len() - 1]));
            }
        }
        if exists|k: int| 0 <= k < blocks.len() && block_is_negative(#[trigger] blocks[k]) {
            let k = choose|k: int| 0 <= k < blocks.len() && block_is_negative(
                #[trigger] blocks[k]);
            if k < blocks.len() - 1 {
                assert(head[k] == blocks[k]);
                assert(block_is_negative(head[k]));
            } else {
                assert(block_is_negative(blocks.last()));
            }
        }
    }
}

/// A record's decimal flag says a fractional token exists.
pub proof fn lemma_has_dec_exists(blocks: Seq<Block>)
    ensures
        has_dec_block(blocks) <==> exists|k: int|
            0 <= k < blocks.len() && block_has_decimal(#[trigger] blocks[k]),
    decreases blocks.len(),
{
    if blocks.len() > 0 {
        let head = blocks.drop_last();
        lemma_has_dec_exists(head);
        if has_dec_block(blocks) {
            if has_dec_block(head) {
                let k = choose|k: int| 0 <= k < head.len() && block_has_decimal(
                    #[trigger] head[k]);
                assert(blocks[k] == head[k]);
                assert(block_has_decimal(blocks[k]));
            } else {
                assert(block_has_decimal(blocks[blocks.len() - 1]));
            }
        }
        if exists|k: int| 0 <= k < blocks.len() && block_has_decimal(#[trigger] blocks[k]) {
            let k = choose|k: int| 0 <= k < blocks.len() && block_has_decimal(
                #[trigger] blocks[k]);
            if k < blocks.len() - 1 {
                assert(head[k] == blocks[k]);
                assert(block_has_decimal(head[k]));
            } else {
                assert(block_has_decimal(blocks.last()));
            }
        }
    }
}

/// Round trip: decompressing a compressed ASCII record gives back the record
/// exactly, whatever mix of literals, space runs and numeric tokens it held.
pub proof fn lemma_compress_roundtrip(s: Seq<u8>)
    requires
        s.len() <= usize::MAX,
        forall|k: int| 0 <= k < s.len() ==> #[trigger] s[k] < 128,
    ensures
        decomp_spec(compress_spec(s)) == Some(s),
{
    if s.len() == 0 {
        assert(compress_spec(s).len() == 0);
        assert(Seq::<u8>::empty() =~= s);
    } else {
        let blocks = scan_blocks(s, 0);
        let mode = mode_of(has_neg_block(blocks), has_dec_block(blocks));
        assert(mode < 4);
        let body = compress_blocks(s, mode, blocks, 0);
        let c = compress_spec(s);
        assert(c == seq![header_byte(mode)] + body);
        assert(c[0] == (64 + mode) as u8);
        assert(64 <= c[0] < 68);
        assert(c.drop_first() =~= body);
        assert((c[0] - 64) as u8 == mode);
        lemma_scan_blocks_wf(s, 0);
        lemma_scan_blocks_good(s, 0);
        lemma_has_neg_exists(blocks);
        lemma_has_dec_exists(blocks);
        if mode == 0 || mode == 1 {
            assert forall|k: int| 0 <= k < blocks.len() implies !block_is_negative(
                #[trigger] blocks[k]) by {
                if block_is_negative(blocks[k]) {
                    assert(has_neg_block(blocks));
                }
            }
        }
        if mode == 0 || mode == 2 {
            assert forall|k: int| 0 <= k < blocks.len() implies !block_has_decimal(
                #[trigger] blocks[k]) by {
                if block_has_decimal(blocks[k]) {
                    assert(has_dec_block(blocks));
                }
            }
        }
        lemma_decomp_compress_blocks(s, mode, blocks, 0);
        assert(s.subrange(0, s.len() as int) =~= s);
    }
}

/// Single mode per record: as soon as one token is negative and one is
/// fractional — the same token or not — the header carries both flag bits
/// and the whole body is assembled with the signed-decimal codec.
pub proof fn lemma_signed_decimal_mode(s: Seq<u8>)
    requires
        exists|k: int|
            0 <= k < scan_blocks(s, 0).len() && block_is_negative(#[trigger] scan_blocks(s, 0)[k]),
        exists|k: int|
            0 <= k < scan_blocks(s, 0).len() && block_has_decimal(
                #[trigger] scan_blocks(s, 0)[k]),
    ensures
        compress_spec(s).len() > 0,
        compress_spec(s)[0] == 67,
        compress_spec(s) == seq![67u8] + compress_blocks(s, 3, scan_blocks(s, 0), 0),
{
    let blocks = scan_blocks(s, 0);
    assert(s.len() > 0) by {
        if s.len() == 0 {
            assert(blocks.len() == 0);
        }
    }
    lemma_has_neg_exists(blocks);
    lemma_has_dec_exists(blocks);
    assert(mode_of(has_neg_block(blocks), has_dec_block(blocks)) == 3);
}

} // verus!
