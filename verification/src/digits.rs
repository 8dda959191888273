//! Decimal digit shaping shared by the numeric token decoders: rendering a
//! magnitude as ASCII digits, with or without an inserted decimal point.

use vstd::prelude::*;

verus! {

/// Powers of ten.
pub open spec fn p10(w: nat) -> nat
    decreases w,
{
    if w == 0 {
        1
    } else {
        10 * p10((w - 1) as nat)
    }
}

/// The decimal digits of `v`, most significant first; zero renders as the
/// empty sequence.
pub open spec fn dig_seq(v: nat) -> Seq<u8>
    decreases v,
{
    if v == 0 {
        seq![]
    } else {
        dig_seq(v / 10) + seq![(v % 10 + 48) as u8]
    }
}

/// The last `w` decimal digits of `v`, left-padded with `'0'` to exactly `w`
/// digits.
pub open spec fn pad_seq(v: nat, w: nat) -> Seq<u8>
    decreases w,
{
    if w == 0 {
        seq![]
    } else {
        pad_seq(v / 10, (w - 1) as nat) + seq![(v % 10 + 48) as u8]
    }
}

/// The digits of `v`, rendering zero as a single `'0'`.
pub open spec fn int_digits(v: nat) -> Seq<u8> {
    if v == 0 {
        seq![48u8]
    } else {
        dig_seq(v)
    }
}

/// The text of a magnitude with `dec` fractional digits: the plain digits
/// when `dec` is zero, otherwise the integer-part digits (at least one, so
/// a purely fractional value gets a leading `'0'`), a `'.'`, and the last
/// `dec` digits zero-padded.
pub open spec fn render_mag(v: nat, dec: nat) -> Seq<u8> {
    if dec == 0 {
        dig_seq(v)
    } else {
        int_digits(v / p10(dec)) + seq![46u8] + pad_seq(v, dec)
    }
}

/// The text of a numeric token: an optional `'-'` before the magnitude.
pub open spec fn render_num(v: nat, neg: bool, dec: nat) -> Seq<u8> {
    (if neg {
        seq![45u8]
    } else {
        Seq::<u8>::empty()
    }) + render_mag(v, dec)
}

/// A run of space bytes.
pub open spec fn spaces(n: nat) -> Seq<u8> {
    Seq::new(n, |i| 32u8)
}

/// Powers of ten do not decrease with the exponent.
pub proof fn lemma_p10_increases(a: nat, b: nat)
    requires
        a <= b,
    ensures
        p10(a) <= p10(b),
    decreases b,
{
    if a < b {
        lemma_p10_increases(a, (b - 1) as nat);
        assert(p10(b) == 10 * p10((b - 1) as nat));
    }
}

/// Every power of ten is positive.
pub proof fn lemma_p10_pos(w: nat)
    ensures
        p10(w) >= 1,
    decreases w,
{
    if w > 0 {
        lemma_p10_pos((w - 1) as nat);
    }
}

/// Computes ten to the `w`.
pub fn pow10(w: u8) -> (r: u64)
    requires
        w <= 19,
    ensures
        r as nat == p10(w as nat),
    decreases w,
{
    proof {
        lemma_p10_increases(w as nat, 19);
        assert(p10(19) == 10_000_000_000_000_000_000) by {
            reveal_with_fuel(p10, 21);
        }
    }
    if w == 0 {
        1
    } else {
        let sub = pow10(w - 1);
        proof {
            lemma_p10_increases(w as nat, 19);
        }
        10 * sub
    }
}

/// Appends the digits of `value`, most significant first; zero appends
/// nothing.
pub fn push_digits(value: u64, out: &mut Vec<u8>)
    ensures
        final(out)@ == old(out)@ + dig_seq(value as nat),
    decreases value,
{
    if value > 0 {
        push_digits(value / 10, out);
        out.push((value % 10) as u8 + 48);
        assert(out@ =~= old(out)@ + dig_seq(value as nat));
    } else {
        assert(out@ =~= old(out)@ + dig_seq(0));
    }
}

/// Appends the last `width` digits of `value`, left-padded with `'0'`.
pub fn push_padded(value: u64, width: u8, out: &mut Vec<u8>)
    ensures
        final(out)@ == old(out)@ + pad_seq(value as nat, width as nat),
    decreases width,
{
    if width > 0 {
        push_padded(value / 10, width - 1, out);
        out.push((value % 10) as u8 + 48);
        assert(out@ =~= old(out)@ + pad_seq(value as nat, width as nat));
    } else {
        assert(out@ =~= old(out)@ + pad_seq(value as nat, 0));
    }
}

/// Appends the text of a magnitude with `decimal_places` fractional digits.
pub fn push_magnitude(value: u64, decimal_places: u8, out: &mut Vec<u8>)
    requires
        decimal_places <= 19,
    ensures
        final(out)@ == old(out)@ + render_mag(value as nat, decimal_places as nat),
{
    if decimal_places == 0 {
        push_digits(value, out);
        return;
    }
    let divisor = pow10(decimal_places);
    proof {
        lemma_p10_pos(decimal_places as nat);
    }
    let int_part = value / divisor;
    if int_part == 0 {
        out.push(48);
    } else {
        push_digits(int_part, out);
    }
    out.push(46);
    push_padded(value, decimal_places, out);
    assert(out@ =~= old(out)@ + render_mag(value as nat, decimal_places as nat));
}

/// Appends `n` space bytes.
pub fn push_spaces(n: usize, out: &mut Vec<u8>)
    ensures
        final(out)@ == old(out)@ + spaces(n as nat),
{
    let mut k: usize = 0;
    while k < n
        invariant
            k <= n,
            out@ == old(out)@ + spaces(k as nat),
        decreases n - k,
    {
        out.push(32);
        k += 1;
        assert(out@ =~= old(out)@ + spaces(k as nat));
    }
    assert(out@ =~= old(out)@ + spaces(n as nat));
}

/// Whether every byte of a span is an ASCII digit.
pub open spec fn all_digits(s: Seq<u8>) -> bool {
    forall|k: int| 0 <= k < s.len() ==> 48 <= #[trigger] s[k] <= 57
}

/// The value of a digit span read as a decimal number.
pub open spec fn val_digits(s: Seq<u8>) -> nat
    decreases s.len(),
{
    if s.len() == 0 {
        0
    } else {
        val_digits(s.drop_last()) * 10 + (s.last() - 48) as nat
    }
}

/// Appending a digit to a positive number appends its character.
pub proof fn lemma_dig_append(v: nat, d: nat)
    requires
        1 <= v,
        d < 10,
    ensures
        dig_seq(v * 10 + d) == dig_seq(v) + seq![(d + 48) as u8],
{
    vstd::arithmetic::div_mod::lemma_fundamental_div_mod_converse(
        (v * 10 + d) as int, 10, v as int, d as int);
    assert((v * 10 + d) / 10 == v && (v * 10 + d) % 10 == d);
}

/// Appending a digit to a padded rendering appends its character.
pub proof fn lemma_pad_append(v: nat, d: nat, w: nat)
    requires
        d < 10,
    ensures
        pad_seq(v * 10 + d, w + 1) == pad_seq(v, w) + seq![(d + 48) as u8],
{
    vstd::arithmetic::div_mod::lemma_fundamental_div_mod_converse(
        (v * 10 + d) as int, 10, v as int, d as int);
    assert((v * 10 + d) / 10 == v && (v * 10 + d) % 10 == d);
}

/// A padded rendering reads only the low `w` digits.
pub proof fn lemma_pad_mod(a: nat, r: nat, w: nat)
    requires
        r < p10(w),
    ensures
        pad_seq(a * p10(w) + r, w) == pad_seq(r, w),
    decreases w,
{
    if w > 0 {
        let x = a * p10(w) + r;
        let w1 = (w - 1) as nat;
        assert(p10(w) == 10 * p10(w1));
        lemma_p10_pos(w1);
        assert(x == (a * p10(w1) + r / 10) * 10 + r % 10) by (nonlinear_arith)
            requires p10(w) == 10 * p10(w1), x == a * p10(w) + r, r == 10 * (r / 10) + r % 10;
        vstd::arithmetic::div_mod::lemma_fundamental_div_mod_converse(
            x as int, 10, (a * p10(w1) + r / 10) as int, (r % 10) as int);
        assert(r / 10 < p10(w1)) by (nonlinear_arith)
            requires r < 10 * p10(w1), p10(w1) >= 1;
        lemma_pad_mod(a, r / 10, w1);
    }
}

/// The padded rendering of a digit span's value is the span itself.
pub proof fn lemma_pad_of_val(ds: Seq<u8>)
    requires
        all_digits(ds),
    ensures
        pad_seq(val_digits(ds), ds.len()) == ds,
    decreases ds.len(),
{
    if ds.len() > 0 {
        let head = ds.drop_last();
        lemma_pad_of_val(head);
        lemma_pad_append(val_digits(head), (ds.last() - 48) as nat, head.len());
        assert(pad_seq(val_digits(ds), ds.len()) =~= ds);
    } else {
        assert(pad_seq(0, 0) =~= ds);
    }
}

/// A digit span without a leading zero has a positive value.
pub proof fn lemma_val_pos(ds: Seq<u8>)
    requires
        all_digits(ds),
        ds.len() >= 1,
        ds[0] != 48,
    ensures
        val_digits(ds) >= 1,
    decreases ds.len(),
{
    if ds.len() > 1 {
        lemma_val_pos(ds.drop_last());
    }
}

/// The plain rendering of a digit span's value is the span itself, provided
/// it has no leading zero.
pub proof fn lemma_dig_of_val(ds: Seq<u8>)
    requires
        all_digits(ds),
        ds.len() >= 1,
        ds[0] != 48,
    ensures
        dig_seq(val_digits(ds)) == ds,
    decreases ds.len(),
{
    let head = ds.drop_last();
    if ds.len() == 1 {
        assert(head =~= Seq::<u8>::empty());
        assert(val_digits(head) == 0);
        assert(val_digits(ds) == (ds.last() - 48) as nat);
        assert(dig_seq(0) == Seq::<u8>::empty());
        assert(val_digits(ds) >= 1 && val_digits(ds) < 10);
        assert(dig_seq(val_digits(ds)) =~= ds);
    } else {
        lemma_dig_of_val(head);
        lemma_val_pos(head);
        lemma_dig_append(val_digits(head), (ds.last() - 48) as nat);
        assert(dig_seq(val_digits(ds)) =~= ds);
    }
}

/// Extending a digit span on the left raises the new digit to the span's
/// length.
pub proof fn lemma_val_prepend(c: u8, ds: Seq<u8>)
    requires
        48 <= c <= 57,
        all_digits(ds),
    ensures
        val_digits(seq![c] + ds) == (c - 48) as nat * p10(ds.len()) + val_digits(ds),
    decreases ds.len(),
{
    if ds.len() == 0 {
        assert(seq![c] + ds =~= seq![c]);
        assert(seq![c].drop_last() =~= Seq::<u8>::empty());
        assert(val_digits(Seq::<u8>::empty()) == 0);
        assert(val_digits(seq![c]) == (c - 48) as nat);
        assert(p10(0) == 1);
    } else {
        let head = ds.drop_last();
        assert((seq![c] + ds).drop_last() =~= seq![c] + head);
        lemma_val_prepend(c, head);
        assert(p10(ds.len()) == 10 * p10(head.len()));
        assert(((c - 48) as nat * p10(head.len()) + val_digits(head)) * 10 + (ds.last()
            - 48) as nat == (c - 48) as nat * (10 * p10(head.len())) + (val_digits(head) * 10 + (
        ds.last() - 48) as nat)) by (nonlinear_arith);
    }
}

/// Runs of spaces concatenate.
pub proof fn lemma_spaces_concat(a: nat, b: nat)
    ensures
        spaces(a) + spaces(b) == spaces(a + b),
{
    assert(spaces(a) + spaces(b) =~= spaces(a + b));
}

} // verus!
