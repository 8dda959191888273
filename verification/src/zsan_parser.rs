//! Block parser: a single left-to-right scan of a record that yields its
//! space runs and numeric tokens as blocks, plus two record-wide flags —
//! whether any token is negative and whether any has fractional digits.

use vstd::prelude::*;

use crate::digits::all_digits;
use crate::digits::dig_seq;
use crate::digits::lemma_dig_of_val;
use crate::digits::lemma_pad_mod;
use crate::digits::lemma_pad_of_val;
use crate::digits::lemma_val_pos;
use crate::digits::p10;
use crate::digits::render_num;
use crate::digits::spaces;
use crate::digits::val_digits;

verus! {

/// Largest magnitude a numeric token may carry (eighteen nines). A digit run
/// that would push past it is split: accumulation stops and the remaining
/// digits are re-scanned as a later, independent token.
pub const MAX_MAGNITUDE: u64 = 999_999_999_999_999_999;

/// The payload of a numeric token: its digits as one magnitude, its sign,
/// and how many of its digits are fractional.
#[derive(Clone, Copy, Debug, PartialEq, Eq, Structural)]
pub struct NumericalBlock {
    pub base: u64,
    pub negative: bool,
    pub decimal_places: usize,
}

/// A parsed span of a record, by byte offset and length: a run of spaces or
/// a numeric token. Bytes covered by no block are literal gaps.
#[derive(Clone, Copy, Debug, PartialEq, Eq, Structural)]
pub enum Block {
    Numerical(usize, usize, NumericalBlock),
    Space(usize, usize),
}

pub open spec fn is_digit(b: u8) -> bool {
    48 <= b <= 57
}

pub open spec fn digit_val(b: u8) -> nat {
    (b - 48) as nat
}

/// Length of the space run starting at `i`.
pub open spec fn space_run(s: Seq<u8>, i: int) -> int
    decreases s.len() - i,
{
    if 0 <= i && i < s.len() && s[i] == 32 {
        1 + space_run(s, i + 1)
    } else {
        0
    }
}

/// Greedy digit scan from `i` with accumulator `acc`: consumes digits while
/// the magnitude stays within bounds, returning the stop position and the
/// accumulated value.
pub open spec fn scan_uint(s: Seq<u8>, i: int, acc: u64) -> (int, u64)
    decreases s.len() - i,
{
    if 0 <= i && i < s.len() && is_digit(s[i])
        && acc as nat * 10 + digit_val(s[i]) <= MAX_MAGNITUDE as nat {
        scan_uint(s, i + 1, (acc as nat * 10 + digit_val(s[i])) as u64)
    } else {
        (i, acc)
    }
}

/// Greedy fractional digit scan: like `scan_uint`, but counting the digits
/// consumed as decimal places.
pub open spec fn scan_frac(s: Seq<u8>, i: int, acc: u64, dec: int) -> (int, u64, int)
    decreases s.len() - i,
{
    if 0 <= i && i < s.len() && is_digit(s[i])
        && acc as nat * 10 + digit_val(s[i]) <= MAX_MAGNITUDE as nat {
        scan_frac(s, i + 1, (acc as nat * 10 + digit_val(s[i])) as u64, dec + 1)
    } else {
        (i, acc, dec)
    }
}

/// The numeric block for a token scan, if it yields one: a bare zero with no
/// fractional digits never becomes a block. A fractional token's length also
/// covers the decimal point and the fractional digits.
pub open spec fn block_of(start: int, int_end: int, base: u64, neg: bool, dec: int) -> Option<
    Block,
> {
    if base != 0 || dec != 0 {
        Some(Block::Numerical(
            start as usize,
            (if dec == 0 {
                int_end - start
            } else {
                int_end - start + dec + 1
            }) as usize,
            NumericalBlock { base, negative: neg, decimal_places: dec as usize },
        ))
    } else {
        None
    }
}

/// Fractional half of a token scan: when a decimal point follows the integer
/// part it is consumed along with a fractional digit run; the cursor ends
/// after the fraction even when the token keeps only its integer part.
pub open spec fn scan_token_frac(s: Seq<u8>, start: int, neg: bool, int_end: int, base: u64) -> (
    int,
    Option<Block>,
) {
    if int_end < s.len() && s[int_end] == 46 {
        let f = scan_frac(s, int_end + 1, base, 0);
        (f.0, block_of(start, int_end, f.1, neg, f.2))
    } else {
        (int_end, block_of(start, int_end, base, neg, 0))
    }
}

/// One token attempt at `start`: an optional `'-'`, then digits. A leading
/// `'0'` closes the integer part after that one digit, so further leading
/// zeros stay literal. When no digit follows, the cursor skips one byte past
/// the optional sign and no block is made.
pub open spec fn scan_token(s: Seq<u8>, start: int) -> (int, Option<Block>) {
    let neg = s[start] == 45;
    let i = if neg {
        start + 1
    } else {
        start
    };
    if i < s.len() && s[i] == 48 {
        scan_token_frac(s, start, neg, i + 1, 0)
    } else {
        let u = scan_uint(s, i, 0);
        if u.0 == i {
            (i + 1, None::<Block>)
        } else {
            scan_token_frac(s, start, neg, u.0, u.1)
        }
    }
}

/// The blocks of a record from position `i` on: a maximal space run (a block
/// when non-empty), then a token attempt, then the rest.
pub open spec fn scan_blocks(s: Seq<u8>, i: int) -> Seq<Block>
    decreases s.len() - i
        via scan_blocks_decreases
{
    if i < 0 || i >= s.len() {
        seq![]
    } else {
        let r = space_run(s, i);
        let j = i + r;
        let sp: Seq<Block> = if r > 0 {
            seq![Block::Space(i as usize, r as usize)]
        } else {
            seq![]
        };
        if j >= s.len() {
            sp
        } else {
            let t = scan_token(s, j);
            let next = if t.0 > s.len() {
                s.len() as int
            } else {
                t.0
            };
            sp + (match t.1 {
                Some(b) => seq![b],
                None => seq![],
            }) + scan_blocks(s, next)
        }
    }
}

#[via_fn]
proof fn scan_blocks_decreases(s: Seq<u8>, i: int) {
    if 0 <= i && i < s.len() {
        lemma_space_run_bounds(s, i);
        let j = i + space_run(s, i);
        if j < s.len() {
            lemma_scan_token_advances(s, j);
        }
    }
}

pub proof fn lemma_space_run_bounds(s: Seq<u8>, i: int)
    requires
        0 <= i <= s.len(),
    ensures
        0 <= space_run(s, i),
        i + space_run(s, i) <= s.len(),
    decreases s.len() - i,
{
    if i < s.len() && s[i] == 32 {
        lemma_space_run_bounds(s, i + 1);
    }
}

pub proof fn lemma_scan_uint_bounds(s: Seq<u8>, i: int, acc: u64)
    requires
        0 <= i <= s.len(),
    ensures
        i <= scan_uint(s, i, acc).0 <= s.len(),
        acc <= MAX_MAGNITUDE ==> scan_uint(s, i, acc).1 <= MAX_MAGNITUDE,
    decreases s.len() - i,
{
    if i < s.len() && is_digit(s[i]) && acc as nat * 10 + digit_val(s[i]) <= MAX_MAGNITUDE as nat {
        lemma_scan_uint_bounds(s, i + 1, (acc as nat * 10 + digit_val(s[i])) as u64);
    }
}

pub proof fn lemma_scan_frac_bounds(s: Seq<u8>, i: int, acc: u64, dec: int)
    requires
        0 <= i <= s.len(),
        0 <= dec,
    ensures
        i <= scan_frac(s, i, acc, dec).0 <= s.len(),
        scan_frac(s, i, acc, dec).2 - dec == scan_frac(s, i, acc, dec).0 - i,
        acc <= MAX_MAGNITUDE ==> scan_frac(s, i, acc, dec).1 <= MAX_MAGNITUDE,
    decreases s.len() - i,
{
    if i < s.len() && is_digit(s[i]) && acc as nat * 10 + digit_val(s[i]) <= MAX_MAGNITUDE as nat {
        lemma_scan_frac_bounds(s, i + 1, (acc as nat * 10 + digit_val(s[i])) as u64, dec + 1);
    }
}

/// A token attempt always moves the cursor forward, and at most one past the
/// end of the record.
pub proof fn lemma_scan_token_advances(s: Seq<u8>, start: int)
    requires
        0 <= start < s.len(),
    ensures
        start < scan_token(s, start).0 <= s.len() + 1,
{
    let neg = s[start] == 45;
    let i = if neg {
        start + 1
    } else {
        start
    };
    if i < s.len() && s[i] == 48 {
        if i + 1 < s.len() && s[i + 1] == 46 {
            lemma_scan_frac_bounds(s, i + 2, 0, 0);
        }
    } else {
        lemma_scan_uint_bounds(s, i, 0);
        let u = scan_uint(s, i, 0);
        if u.0 != i {
            if u.0 < s.len() && s[u.0] == 46 {
                lemma_scan_frac_bounds(s, u.0 + 1, u.1, 0);
            }
        }
    }
}

pub open spec fn block_is_negative(b: Block) -> bool {
    match b {
        Block::Numerical(_, _, nb) => nb.negative,
        Block::Space(_, _) => false,
    }
}

pub open spec fn block_has_decimal(b: Block) -> bool {
    match b {
        Block::Numerical(_, _, nb) => nb.decimal_places > 0,
        Block::Space(_, _) => false,
    }
}

/// Whether any block is a negative numeric token.
pub open spec fn has_neg_block(blocks: Seq<Block>) -> bool
    decreases blocks.len(),
{
    if blocks.len() == 0 {
        false
    } else {
        has_neg_block(blocks.drop_last()) || block_is_negative(blocks.last())
    }
}

/// Whether any block is a numeric token with fractional digits.
pub open spec fn has_dec_block(blocks: Seq<Block>) -> bool
    decreases blocks.len(),
{
    if blocks.len() == 0 {
        false
    } else {
        has_dec_block(blocks.drop_last()) || block_has_decimal(blocks.last())
    }
}

/// Whether the digit at `i` can extend a run whose magnitude is `acc`.
fn digit_step(src: &[u8], i: usize, acc: u64) -> (r: bool)
    requires
        i < src.len(),
        acc <= MAX_MAGNITUDE,
    ensures
        r == (is_digit(src@[i as int]) && acc as nat * 10 + digit_val(src@[i as int])
            <= MAX_MAGNITUDE as nat),
{
    let c = src[i];
    if c < 48 || c > 57 {
        return false;
    }
    let d = (c - 48) as u64;
    if acc > (MAX_MAGNITUDE - d) / 10 {
        proof {
            assert(acc as nat * 10 > (MAX_MAGNITUDE - d) as nat) by (nonlinear_arith)
                requires acc as nat > ((MAX_MAGNITUDE - d) as nat) / 10;
        }
        return false;
    }
    proof {
        assert(acc as nat * 10 <= (MAX_MAGNITUDE - d) as nat) by (nonlinear_arith)
            requires acc as nat <= ((MAX_MAGNITUDE - d) as nat) / 10;
    }
    true
}

/// One token attempt starting at `start`: returns the new cursor (capped at
/// the record length) and the numeric block, if the attempt yielded one.
fn scan_token_exec(src: &[u8], start: usize) -> (r: (usize, Option<Block>))
    requires
        start < src.len(),
    ensures
        r.0 <= src.len(),
        ({
            let t = scan_token(src@, start as int);
            r.1 == t.1 && r.0 as int == (if t.0 > src@.len() as int {
                src@.len() as int
            } else {
                t.0
            })
        }),
{
    let n = src.len();
    let mut idx = start;
    let neg = src[idx] == 45;
    if neg {
        idx += 1;
    }
    let mut base: u64 = 0;
    let mut integer_end = idx;
    let mut no_digits = false;
    if idx < n && src[idx] == 48 {
        integer_end = idx + 1;
    } else {
        let ghost u0 = integer_end as int;
        loop
            invariant
                n == src.len(),
                u0 <= integer_end <= n,
                base <= MAX_MAGNITUDE,
                scan_uint(src@, u0, 0) == scan_uint(src@, integer_end as int, base),
            ensures
                n == src.len(),
                u0 <= integer_end <= n,
                base <= MAX_MAGNITUDE,
                scan_uint(src@, u0, 0) == (integer_end as int, base),
            decreases n - integer_end,
        {
            if integer_end >= n {
                break;
            }
            if !digit_step(src, integer_end, base) {
                break;
            }
            let d = (src[integer_end] - 48) as u64;
            base = base * 10 + d;
            integer_end += 1;
        }
        if integer_end == idx {
            no_digits = true;
        }
    }
    if no_digits {
        let next = if idx < n {
            idx + 1
        } else {
            n
        };
        proof {
            assert(scan_token(src@, start as int) == (idx + 1, None::<Block>));
        }
        return (next, None);
    }
    idx = integer_end;
    // fraction
    let mut dec: usize = 0;
    if integer_end < n && src[integer_end] == 46 {
        idx = integer_end + 1;
        let ghost f0 = idx as int;
        let ghost b0 = base;
        loop
            invariant
                n == src.len(),
                0 <= f0 <= idx as int <= n,
                dec == idx as int - f0,
                base <= MAX_MAGNITUDE,
                scan_frac(src@, f0, b0, 0) == scan_frac(src@, idx as int, base, dec as int),
            ensures
                n == src.len(),
                0 <= f0 <= idx as int <= n,
                dec == idx as int - f0,
                base <= MAX_MAGNITUDE,
                scan_frac(src@, f0, b0, 0) == (idx as int, base, dec as int),
            decreases n - idx,
        {
            if idx >= n {
                break;
            }
            if !digit_step(src, idx, base) {
                break;
            }
            let d = (src[idx] - 48) as u64;
            base = base * 10 + d;
            idx += 1;
            dec += 1;
        }
    }
    proof {
        assert(scan_token(src@, start as int) == (
            idx as int,
            block_of(start as int, integer_end as int, base, neg, dec as int),
        ));
    }
    if base != 0 || dec != 0 {
        let size = if dec == 0 {
            integer_end - start
        } else {
            integer_end - start + dec + 1
        };
        let block = Block::Numerical(
            start,
            size,
            NumericalBlock { base, negative: neg, decimal_places: dec },
        );
        (idx, Some(block))
    } else {
        (idx, None)
    }
}

/// Scans a record into its ordered blocks and the two record-wide flags:
/// whether any numeric token is negative, and whether any has fractional
/// digits.
pub fn retrave_blocks(src: &[u8]) -> (r: (bool, bool, Vec<Block>))
    ensures
        r.2@ == scan_blocks(src@, 0),
        r.0 == has_neg_block(scan_blocks(src@, 0)),
        r.1 == has_dec_block(scan_blocks(src@, 0)),
{
    let n = src.len();
    let mut out: Vec<Block> = Vec::new();
    let mut has_negative = false;
    let mut has_decimal = false;
    let mut idx: usize = 0;
    while idx < n
        invariant
            n == src.len(),
            idx <= n,
            scan_blocks(src@, 0) == out@ + scan_blocks(src@, idx as int),
            has_negative == has_neg_block(out@),
            has_decimal == has_dec_block(out@),
        ensures
            n == src.len(),
            idx >= n,
            scan_blocks(src@, 0) == out@ + scan_blocks(src@, idx as int),
            has_negative == has_neg_block(out@),
            has_decimal == has_dec_block(out@),
        decreases n - idx,
    {
        let ghost i0 = idx as int;
        let ghost out0 = out@;
        // maximal space run
        let sp_start = idx;
        loop
            invariant
                n == src.len(),
                sp_start <= idx <= n,
                space_run(src@, sp_start as int) == (idx - sp_start) + space_run(
                    src@,
                    idx as int,
                ),
            ensures
                n == src.len(),
                sp_start <= idx <= n,
                space_run(src@, sp_start as int) == idx - sp_start,
            decreases n - idx,
        {
            if idx >= n {
                break;
            }
            if src[idx] != 32 {
                break;
            }
            idx += 1;
        }
        let ghost sp_seq: Seq<Block> = if idx > sp_start {
            seq![Block::Space(sp_start, ((idx - sp_start) as int) as usize)]
        } else {
            seq![]
        };
        if idx > sp_start {
            let ghost prev = out@;
            out.push(Block::Space(sp_start, idx - sp_start));
            proof {
                assert(out@.drop_last() =~= prev);
                assert(out@.last() == Block::Space(sp_start, ((idx - sp_start) as int) as usize));
                assert(has_neg_block(out@) == has_neg_block(prev));
                assert(has_dec_block(out@) == has_dec_block(prev));
                assert(out@ =~= out0 + sp_seq);
            }
        }
        if idx >= n {
            proof {
                assert(scan_blocks(src@, i0) =~= sp_seq);
                assert(scan_blocks(src@, 0) =~= out@ + scan_blocks(src@, idx as int));
            }
            break;
        }
        let t = scan_token_exec(src, idx);
        let ghost tok_seq: Seq<Block> = match t.1 {
            Some(b) => seq![b],
            None => seq![],
        };
        match t.1 {
            Some(block) => {
                let ghost prev = out@;
                out.push(block);
                match block {
                    Block::Numerical(_, _, nb) => {
                        if nb.negative {
                            has_negative = true;
                        }
                        if nb.decimal_places != 0 {
                            has_decimal = true;
                        }
                    },
                    Block::Space(_, _) => {},
                }
                proof {
                    assert(out@.drop_last() =~= prev);
                    assert(out@.last() == block);
                    assert(has_neg_block(out@) == (has_neg_block(prev)
                        || block_is_negative(block)));
                    assert(has_dec_block(out@) == (has_dec_block(prev)
                        || block_has_decimal(block)));
                    assert(out@ =~= out0 + sp_seq + tok_seq);
                }
            },
            None => {},
        }
        proof {
            lemma_scan_token_advances(src@, idx as int);
            assert(scan_blocks(src@, i0) =~= sp_seq + tok_seq + scan_blocks(
                src@,
                t.0 as int,
            ));
            assert(scan_blocks(src@, 0) =~= out@ + scan_blocks(src@, t.0 as int));
        }
        idx = t.0;
    }
    proof {
        assert(scan_blocks(src@, idx as int) =~= Seq::<Block>::empty());
        assert(out@ =~= scan_blocks(src@, 0));
    }
    (has_negative, has_decimal, out)
}

pub open spec fn block_start(b: Block) -> int {
    match b {
        Block::Numerical(start, _, _) => start as int,
        Block::Space(start, _) => start as int,
    }
}

pub open spec fn block_size(b: Block) -> int {
    match b {
        Block::Numerical(_, size, _) => size as int,
        Block::Space(_, size) => size as int,
    }
}

/// Blocks are ordered left to right, non-empty, non-overlapping, and lie
/// between `lo` and `hi`.
pub open spec fn blocks_wf(blocks: Seq<Block>, lo: int, hi: int) -> bool
    decreases blocks.len(),
{
    if blocks.len() == 0 {
        true
    } else {
        let start = block_start(blocks[0]);
        let size = block_size(blocks[0]);
        lo <= start && 1 <= size && start + size <= hi && blocks_wf(
            blocks.drop_first(),
            start + size,
            hi,
        )
    }
}

pub proof fn lemma_blocks_wf_weaken(blocks: Seq<Block>, lo2: int, lo: int, hi: int)
    requires
        blocks_wf(blocks, lo, hi),
        lo2 <= lo,
    ensures
        blocks_wf(blocks, lo2, hi),
{
    if blocks.len() > 0 {
        assert(blocks_wf(blocks.drop_first(), block_start(blocks[0]) + block_size(blocks[0]), hi));
    }
}

/// The block a token attempt yields starts where the attempt started, is
/// non-empty, lies within the record, and ends no later than the cursor.
pub proof fn lemma_scan_token_block(s: Seq<u8>, start: int)
    requires
        0 <= start < s.len(),
        s.len() <= usize::MAX,
    ensures
        match scan_token(s, start).1 {
            Some(b) => block_start(b) == start && 1 <= block_size(b) && start + block_size(b)
                <= s.len() && start + block_size(b) <= scan_token(s, start).0,
            None => true,
        },
{
    let neg = s[start] == 45;
    let i = if neg {
        start + 1
    } else {
        start
    };
    if i < s.len() && s[i] == 48 {
        if i + 1 < s.len() && s[i + 1] == 46 {
            lemma_scan_frac_bounds(s, i + 2, 0, 0);
        }
    } else {
        lemma_scan_uint_bounds(s, i, 0);
        let u = scan_uint(s, i, 0);
        if u.0 != i {
            if u.0 < s.len() && s[u.0] == 46 {
                lemma_scan_frac_bounds(s, u.0 + 1, u.1, 0);
            }
        }
    }
}

/// The blocks of a scan from `i` are well-formed between `i` and the end of
/// the record.
pub proof fn lemma_scan_blocks_wf(s: Seq<u8>, i: int)
    requires
        0 <= i <= s.len(),
        s.len() <= usize::MAX,
    ensures
        blocks_wf(scan_blocks(s, i), i, s.len() as int),
    decreases s.len() - i,
{
    if i < s.len() {
        lemma_space_run_bounds(s, i);
        let r = space_run(s, i);
        let j = i + r;
        let sp: Seq<Block> = if r > 0 {
            seq![Block::Space(i as usize, r as usize)]
        } else {
            seq![]
        };
        if j >= s.len() {
            if r > 0 {
                assert(blocks_wf(Seq::<Block>::empty(), i + r, s.len() as int));
                assert(blocks_wf(sp, i, s.len() as int)) by {
                    assert(sp.drop_first() =~= Seq::<Block>::empty());
                }
            }
            assert(blocks_wf(scan_blocks(s, i), i, s.len() as int));
        } else {
            let t = scan_token(s, j);
            let next = if t.0 > s.len() {
                s.len() as int
            } else {
                t.0
            };
            lemma_scan_token_advances(s, j);
            lemma_scan_token_block(s, j);
            lemma_scan_blocks_wf(s, next);
            let rest = scan_blocks(s, next);
            match t.1 {
                Some(b) => {
                    let end = block_start(b) + block_size(b);
                    lemma_blocks_wf_weaken(rest, end, next, s.len() as int);
                    assert(blocks_wf(seq![b] + rest, j, s.len() as int)) by {
                        assert((seq![b] + rest).drop_first() =~= rest);
                    }
                    if r > 0 {
                        assert(blocks_wf(sp + seq![b] + rest, i, s.len() as int)) by {
                            assert((sp + seq![b] + rest)[0] == Block::Space(
                                i as usize, r as usize));
                            assert((sp + seq![b] + rest).drop_first() =~= seq![b] + rest);
                        }
                    } else {
                        lemma_blocks_wf_weaken(seq![b] + rest, i, j, s.len() as int);
                        assert(sp + seq![b] + rest =~= seq![b] + rest);
                        assert(blocks_wf(sp + seq![b] + rest, i, s.len() as int));
                    }
                    assert(scan_blocks(s, i) == sp + seq![b] + rest);
                    assert(blocks_wf(scan_blocks(s, i), i, s.len() as int));
                },
                None => {
                    lemma_blocks_wf_weaken(rest, j, next, s.len() as int);
                    if r > 0 {
                        assert(blocks_wf(sp + seq![] + rest, i, s.len() as int)) by {
                            assert((sp + seq![] + rest)[0] == Block::Space(
                                i as usize, r as usize));
                            assert((sp + seq![] + rest).drop_first() =~= rest);
                        }
                    } else {
                        lemma_blocks_wf_weaken(rest, i, j, s.len() as int);
                        assert(sp + seq![] + rest =~= rest);
                        assert(blocks_wf(sp + seq![] + rest, i, s.len() as int));
                    }
                    assert(scan_blocks(s, i) == sp + Seq::<Block>::empty() + rest);
                    assert(blocks_wf(scan_blocks(s, i), i, s.len() as int));
                },
            }
        }
    }
}

/// A space run covers spaces and nothing else.
pub proof fn lemma_space_run_spaces(s: Seq<u8>, i: int)
    requires
        0 <= i <= s.len(),
    ensures
        s.subrange(i, i + space_run(s, i)) == spaces(space_run(s, i) as nat),
    decreases s.len() - i,
{
    lemma_space_run_bounds(s, i);
    let r = space_run(s, i);
    if i < s.len() && s[i] == 32 {
        lemma_space_run_bounds(s, i + 1);
        lemma_space_run_spaces(s, i + 1);
        assert forall|k: int| 0 <= k < r implies #[trigger] s.subrange(i, i + r)[k] == 32u8 by {
            if k > 0 {
                assert(s.subrange(i + 1, i + r)[k - 1] == spaces((r - 1) as nat)[k - 1]);
            }
        }
        assert(s.subrange(i, i + r) =~= spaces(r as nat));
    } else {
        assert(s.subrange(i, i) =~= spaces(0));
    }
}

/// `scan_frac` stops where `scan_uint` stops, accumulates the same value,
/// and counts exactly the digits consumed.
pub proof fn lemma_scan_frac_is_uint(s: Seq<u8>, i: int, acc: u64, dec: int)
    ensures
        scan_frac(s, i, acc, dec).0 == scan_uint(s, i, acc).0,
        scan_frac(s, i, acc, dec).1 == scan_uint(s, i, acc).1,
        scan_frac(s, i, acc, dec).2 == dec + (scan_uint(s, i, acc).0 - i),
    decreases s.len() - i,
{
    if 0 <= i && i < s.len() && is_digit(s[i]) && acc as nat * 10 + digit_val(s[i])
        <= MAX_MAGNITUDE as nat {
        lemma_scan_frac_is_uint(s, i + 1, (acc as nat * 10 + digit_val(s[i])) as u64, dec + 1);
    }
}

/// What a digit scan consumes is a digit span whose value extends the
/// accumulator: the old value shifts up by the span's width and the span's
/// own value fills the low digits.
pub proof fn lemma_scan_uint_val(s: Seq<u8>, i: int, acc: u64)
    requires
        0 <= i <= s.len(),
    ensures
        all_digits(s.subrange(i, scan_uint(s, i, acc).0)),
        scan_uint(s, i, acc).1 as nat == acc as nat * p10((scan_uint(s, i, acc).0 - i) as nat)
            + val_digits(s.subrange(i, scan_uint(s, i, acc).0)),
        val_digits(s.subrange(i, scan_uint(s, i, acc).0)) < p10(
            (scan_uint(s, i, acc).0 - i) as nat,
        ),
    decreases s.len() - i,
{
    lemma_scan_uint_bounds(s, i, acc);
    let end = scan_uint(s, i, acc).0;
    let v = scan_uint(s, i, acc).1;
    if i < s.len() && is_digit(s[i]) && acc as nat * 10 + digit_val(s[i])
        <= MAX_MAGNITUDE as nat {
        let d = digit_val(s[i]);
        let acc1 = (acc as nat * 10 + d) as u64;
        lemma_scan_uint_bounds(s, i + 1, acc1);
        lemma_scan_uint_val(s, i + 1, acc1);
        let span1 = s.subrange(i + 1, end);
        let span = s.subrange(i, end);
        assert(span =~= seq![s[i]] + span1);
        crate::digits::lemma_val_prepend(s[i], span1);
        let k = (end - i - 1) as nat;
        assert(p10((end - i) as nat) == 10 * p10(k));
        assert(val_digits(span) == d * p10(k) + val_digits(span1));
        assert(acc1 as nat * p10(k) == acc as nat * (10 * p10(k)) + d * p10(k))
            by (nonlinear_arith)
            requires acc1 as nat == acc as nat * 10 + d;
        assert(d * p10(k) + val_digits(span1) < 10 * p10(k)) by (nonlinear_arith)
            requires d < 10, val_digits(span1) < p10(k);
        assert(v as nat == acc as nat * p10((end - i) as nat) + val_digits(span))
            by (nonlinear_arith)
            requires
                v as nat == acc1 as nat * p10(k) + val_digits(span1),
                acc1 as nat * p10(k) == acc as nat * (10 * p10(k)) + d * p10(k),
                p10((end - i) as nat) == 10 * p10(k),
                val_digits(span) == d * p10(k) + val_digits(span1);
    } else {
        assert(s.subrange(i, i) =~= Seq::<u8>::empty());
        assert(val_digits(Seq::<u8>::empty()) == 0);
        assert(p10(0) == 1);
        assert(end == i && v == acc);
        assert(acc as nat * p10(0) + 0 == acc as nat) by (nonlinear_arith)
            requires p10(0) == 1;
    }
}

/// A parsed span and its block's payload say the same thing: rendering the
/// payload reproduces the span, byte for byte.
pub open spec fn block_good(s: Seq<u8>, b: Block) -> bool {
    match b {
        Block::Space(start, size) => s.subrange(start as int, start as int + size as int)
            == spaces(size as nat),
        Block::Numerical(start, size, nb) => s.subrange(start as int, start as int + size as int)
            == render_num(nb.base as nat, nb.negative, nb.decimal_places as nat),
    }
}

pub open spec fn blocks_good(s: Seq<u8>, blocks: Seq<Block>) -> bool
    decreases blocks.len(),
{
    if blocks.len() == 0 {
        true
    } else {
        block_good(s, blocks[0]) && blocks_good(s, blocks.drop_first())
    }
}

/// The block a token attempt yields renders back to its span.
#[verifier::rlimit(100)]
#[verifier::spinoff_prover]
pub proof fn lemma_scan_token_good(s: Seq<u8>, start: int)
    requires
        0 <= start < s.len(),
        s.len() <= usize::MAX,
    ensures
        match scan_token(s, start).1 {
            Some(b) => block_good(s, b),
            None => true,
        },
{
    let neg = s[start] == 45;
    let i = if neg {
        start + 1
    } else {
        start
    };
    let sign: Seq<u8> = if neg {
        seq![45u8]
    } else {
        Seq::<u8>::empty()
    };
    if i < s.len() && s[i] == 48 {
        if i + 1 < s.len() && s[i + 1] == 46 {
            let f = scan_frac(s, i + 2, 0, 0);
            lemma_scan_frac_is_uint(s, i + 2, 0, 0);
            lemma_scan_uint_bounds(s, i + 2, 0);
            lemma_scan_uint_val(s, i + 2, 0);
            let dec = f.2;
            let fspan = s.subrange(i + 2, f.0);
            assert(0 * p10(fspan.len()) == 0) by (nonlinear_arith);
            assert(f.1 as nat == val_digits(fspan));
            if dec != 0 {
                crate::digits::lemma_p10_pos(dec as nat);
                vstd::arithmetic::div_mod::lemma_fundamental_div_mod_converse(
                    f.1 as int, p10(dec as nat) as int, 0, f.1 as int);
                assert(f.1 as nat / p10(dec as nat) == 0);
                lemma_pad_of_val(fspan);
                assert(render_num(f.1 as nat, neg, dec as nat) == sign + seq![48u8] + seq![46u8]
                    + fspan);
                assert(s.subrange(start, f.0) =~= sign + seq![48u8] + seq![46u8] + fspan);
            }
        }
    } else {
        let u = scan_uint(s, i, 0);
        lemma_scan_uint_bounds(s, i, 0);
        if u.0 != i {
            lemma_scan_uint_val(s, i, 0);
            let ispan = s.subrange(i, u.0);
            assert(0 * p10(ispan.len()) == 0) by (nonlinear_arith);
            assert(u.1 as nat == val_digits(ispan));
            assert(is_digit(s[i])) by {
                if !is_digit(s[i]) {
                    assert(scan_uint(s, i, 0).0 == i);
                }
            }
            assert(ispan[0] == s[i] && s[i] != 48);
            lemma_dig_of_val(ispan);
            lemma_val_pos(ispan);
            if u.0 < s.len() && s[u.0] == 46 {
                let f = scan_frac(s, u.0 + 1, u.1, 0);
                lemma_scan_frac_is_uint(s, u.0 + 1, u.1, 0);
                lemma_scan_uint_bounds(s, u.0 + 1, u.1);
                lemma_scan_uint_val(s, u.0 + 1, u.1);
                let dec = f.2;
                let fspan = s.subrange(u.0 + 1, f.0);
                if dec == 0 {
                    assert(fspan =~= Seq::<u8>::empty());
                    assert(val_digits(Seq::<u8>::empty()) == 0);
                    assert(p10(0) == 1);
                    assert(f.1 as nat == u.1 as nat * 1 + 0);
                    assert(f.1 as nat == u.1 as nat) by (nonlinear_arith)
                        requires f.1 as nat == u.1 as nat * 1 + 0;
                    assert(render_num(f.1 as nat, neg, 0) == sign + ispan);
                    assert(s.subrange(start, u.0) =~= sign + ispan);
                } else {
                    crate::digits::lemma_p10_pos(dec as nat);
                    assert(f.1 as nat == u.1 as nat * p10(dec as nat) + val_digits(fspan));
                    vstd::arithmetic::div_mod::lemma_fundamental_div_mod_converse(
                        f.1 as int,
                        p10(dec as nat) as int,
                        u.1 as int,
                        val_digits(fspan) as int,
                    );
                    assert(f.1 as nat / p10(dec as nat) == u.1 as nat);
                    lemma_pad_mod(u.1 as nat, val_digits(fspan), dec as nat);
                    lemma_pad_of_val(fspan);
                    assert(crate::digits::pad_seq(f.1 as nat, dec as nat) == fspan);
                    assert(render_num(f.1 as nat, neg, dec as nat) == sign + ispan + seq![46u8]
                        + fspan);
                    assert(s.subrange(start, u.0 + 1 + dec) =~= sign + ispan + seq![46u8]
                        + fspan);
                }
            } else {
                assert(render_num(u.1 as nat, neg, 0) == sign + ispan);
                assert(s.subrange(start, u.0) =~= sign + ispan);
            }
        }
    }
}

/// Every block of a scan renders back to its span.
pub proof fn lemma_scan_blocks_good(s: Seq<u8>, i: int)
    requires
        0 <= i <= s.len(),
        s.len() <= usize::MAX,
    ensures
        blocks_good(s, scan_blocks(s, i)),
    decreases s.len() - i,
{
    if i < s.len() {
        lemma_space_run_bounds(s, i);
        lemma_space_run_spaces(s, i);
        let r = space_run(s, i);
        let j = i + r;
        let sp: Seq<Block> = if r > 0 {
            seq![Block::Space(i as usize, r as usize)]
        } else {
            seq![]
        };
        if j >= s.len() {
            if r > 0 {
                assert(blocks_good(s, Seq::<Block>::empty()));
                assert(blocks_good(s, sp)) by {
                    assert(sp.drop_first() =~= Seq::<Block>::empty());
                }
            }
            assert(blocks_good(s, scan_blocks(s, i)));
        } else {
            let t = scan_token(s, j);
            let next = if t.0 > s.len() {
                s.len() as int
            } else {
                t.0
            };
            lemma_scan_token_advances(s, j);
            lemma_scan_token_good(s, j);
            lemma_scan_blocks_good(s, next);
            let rest = scan_blocks(s, next);
            match t.1 {
                Some(b) => {
                    assert(blocks_good(s, seq![b] + rest)) by {
                        assert((seq![b] + rest).drop_first() =~= rest);
                    }
                    if r > 0 {
                        assert(blocks_good(s, sp + seq![b] + rest)) by {
                            assert((sp + seq![b] + rest)[0] == Block::Space(
                                i as usize, r as usize));
                            assert((sp + seq![b] + rest).drop_first() =~= seq![b] + rest);
                        }
                    } else {
                        assert(sp + seq![b] + rest =~= seq![b] + rest);
                        assert(blocks_good(s, sp + seq![b] + rest));
                    }
                    assert(blocks_good(s, scan_blocks(s, i)));
                },
                None => {
                    if r > 0 {
                        assert(blocks_good(s, sp + seq![] + rest)) by {
                            assert((sp + seq![] + rest)[0] == Block::Space(
                                i as usize, r as usize));
                            assert((sp + seq![] + rest).drop_first() =~= rest);
                        }
                    } else {
                        assert(sp + seq![] + rest =~= rest);
                        assert(blocks_good(s, sp + seq![] + rest));
                    }
                    assert(blocks_good(s, scan_blocks(s, i)));
                },
            }
        }
    }
}

} // verus!
