//! Variable-length encoding of unsigned 64-bit values.
//!
//! A value is split into chunks, least significant first. Every byte after
//! the first carries seven data bits plus a continuation flag in bit seven.
//! The first byte comes in variants: it may behave like a continuation byte
//! (`vle_zero`), carry a single data bit and no flag (`vle_one`), or carry
//! three to five data bits with the flag right above them (`vle_n`).

use vstd::prelude::*;

pub mod vle_n;
pub mod vle_one;
pub mod vle_zero;

verus! {

/// Continuation-byte stream for a value: seven data bits per byte, least
/// significant chunk first; bit seven set means more bytes follow.
pub open spec fn vle_tail(v: nat) -> Seq<u8>
    decreases v,
{
    if v < 128 {
        seq![v as u8]
    } else {
        seq![(v % 128 + 128) as u8] + vle_tail(v / 128)
    }
}

/// Encoding whose first byte keeps values below `m` (`m` is 8, 16 or 32 for
/// the 4-, 5- and 6-bit variants): a value below `m` stands alone, otherwise
/// the first byte holds the low chunk plus the continuation flag `m` and the
/// rest follows as continuation bytes.
pub open spec fn vle_head(v: nat, m: nat) -> Seq<u8> {
    if v < m {
        seq![v as u8]
    } else {
        seq![(v % m + m) as u8] + vle_tail(v / m)
    }
}

/// Encoding whose first byte carries one data bit and no continuation flag:
/// a continuation stream always follows, so that a value of zero or one is
/// still two bytes long.
pub open spec fn vle_one_enc(v: nat) -> Seq<u8> {
    seq![(v % 2) as u8] + vle_tail(v / 2)
}

/// Value and byte count read from a continuation-byte stream; `None` when
/// the stream ends before a terminating byte.
pub open spec fn vle_tail_dec(s: Seq<u8>) -> Option<(nat, nat)>
    decreases s.len(),
{
    if s.len() == 0 {
        None
    } else if s[0] < 128 {
        Some((s[0] as nat, 1))
    } else {
        match vle_tail_dec(s.drop_first()) {
            Some(vc) => Some(((s[0] - 128) as nat + 128 * vc.0, vc.1 + 1)),
            None => None,
        }
    }
}

/// Value and byte count read from a stream whose first byte keeps `m`
/// values; only the low data bits and the flag at `m` are inspected, so tag
/// bits above the flag do not disturb the result.
pub open spec fn vle_head_dec(s: Seq<u8>, m: nat) -> Option<(nat, nat)> {
    if s.len() == 0 {
        None
    } else if (s[0] as nat / m) % 2 == 0 {
        Some((s[0] as nat % m, 1))
    } else {
        match vle_tail_dec(s.drop_first()) {
            Some(vc) => Some((s[0] as nat % m + m * vc.0, vc.1 + 1)),
            None => None,
        }
    }
}

/// Value and byte count for the one-data-bit variant: the first byte gives
/// bit zero, continuation bytes always follow.
pub open spec fn vle_one_dec(s: Seq<u8>) -> Option<(nat, nat)> {
    if s.len() == 0 {
        None
    } else {
        match vle_tail_dec(s.drop_first()) {
            Some(vc) => Some((s[0] as nat % 2 + 2 * vc.0, vc.1 + 1)),
            None => None,
        }
    }
}

/// A decoded stream consumes at least one and at most all of its bytes.
pub proof fn lemma_vle_tail_dec_bounds(s: Seq<u8>)
    ensures
        match vle_tail_dec(s) {
            Some(vc) => 1 <= vc.1 <= s.len(),
            None => true,
        },
    decreases s.len(),
{
    if s.len() > 0 && s[0] >= 128 {
        lemma_vle_tail_dec_bounds(s.drop_first());
    }
}

/// Decoding a continuation stream returns the encoded value and consumes
/// exactly the encoded bytes, whatever follows them.
pub proof fn lemma_vle_tail_roundtrip(v: nat, rest: Seq<u8>)
    ensures
        vle_tail_dec(vle_tail(v) + rest) == Some((v, vle_tail(v).len())),
    decreases v,
{
    let s = vle_tail(v) + rest;
    if v < 128 {
        assert(s[0] == v as u8);
    } else {
        assert(s[0] == (v % 128 + 128) as u8);
        assert(s[0] >= 128);
        assert(s.drop_first() =~= vle_tail(v / 128) + rest);
        lemma_vle_tail_roundtrip(v / 128, rest);
        assert((s[0] - 128) as nat + 128 * (v / 128) == v);
    }
}

/// Decoding undoes the `m`-valued first-byte encoding, also when tag bits
/// that are a multiple of `2 * m` have been added to the first byte.
pub proof fn lemma_vle_head_roundtrip(v: nat, m: nat, tag: nat, rest: Seq<u8>)
    requires
        1 <= m <= 64,
        tag % (2 * m) == 0,
        vle_head(v, m)[0] + tag < 256,
    ensures
        vle_head_dec(vle_head(v, m).update(0, (vle_head(v, m)[0] + tag) as u8) + rest, m)
            == Some((v, vle_head(v, m).len())),
{
    let e = vle_head(v, m);
    let s = e.update(0, (e[0] + tag) as u8) + rest;
    let b = s[0] as nat;
    let k = tag / (2 * m);
    assert(tag == (2 * m) * k) by {
        vstd::arithmetic::div_mod::lemma_fundamental_div_mod(tag as int, (2 * m) as int);
    }
    assert((2 * k as int) % 2 == 0 && (2 * k as int + 1) % 2 == 1) by {
        vstd::arithmetic::div_mod::lemma_fundamental_div_mod_converse_mod(
            2 * k as int, 2, k as int, 0);
        vstd::arithmetic::div_mod::lemma_fundamental_div_mod_converse_mod(
            2 * k as int + 1, 2, k as int, 1);
    }
    if v < m {
        assert(e[0] == v as u8);
        assert(b == v + tag);
        assert(b as int == (2 * k as int) * (m as int) + v as int) by (nonlinear_arith)
            requires b == v + tag, tag == (2 * m) * k;
        vstd::arithmetic::div_mod::lemma_fundamental_div_mod_converse_div(
            b as int, m as int, 2 * k as int, v as int);
        vstd::arithmetic::div_mod::lemma_fundamental_div_mod_converse_mod(
            b as int, m as int, 2 * k as int, v as int);
        assert(b / m == 2 * k && b % m == v);
    } else {
        let r0 = v % m;
        assert(e[0] == (r0 + m) as u8);
        assert(r0 + m < 2 * m <= 128);
        assert(b == r0 + m + tag);
        assert(b as int == (2 * k as int + 1) * (m as int) + r0 as int) by (nonlinear_arith)
            requires b == r0 + m + tag, tag == (2 * m) * k;
        vstd::arithmetic::div_mod::lemma_fundamental_div_mod_converse_div(
            b as int, m as int, 2 * k as int + 1, r0 as int);
        vstd::arithmetic::div_mod::lemma_fundamental_div_mod_converse_mod(
            b as int, m as int, 2 * k as int + 1, r0 as int);
        assert(b / m == 2 * k + 1 && b % m == r0);
        assert(s.drop_first() =~= vle_tail(v / m) + rest);
        lemma_vle_tail_roundtrip(v / m, rest);
        assert(v % m + m * (v / m) == v) by {
            vstd::arithmetic::div_mod::lemma_fundamental_div_mod(v as int, m as int);
        }
    }
}

/// Decoding undoes the one-data-bit encoding, also when tag bits that are a
/// multiple of two have been added to the first byte.
pub proof fn lemma_vle_one_roundtrip(v: nat, tag: nat, rest: Seq<u8>)
    requires
        tag % 2 == 0,
        vle_one_enc(v)[0] + tag < 256,
    ensures
        vle_one_dec(vle_one_enc(v).update(0, (vle_one_enc(v)[0] + tag) as u8) + rest)
            == Some((v, vle_one_enc(v).len())),
{
    let e = vle_one_enc(v);
    let s = e.update(0, (e[0] + tag) as u8) + rest;
    assert(e[0] == (v % 2) as u8);
    assert(s[0] as nat == v % 2 + tag);
    assert((v % 2 + tag) % 2 == v % 2);
    assert(s.drop_first() =~= vle_tail(v / 2) + rest);
    lemma_vle_tail_roundtrip(v / 2, rest);
    assert(v % 2 + 2 * (v / 2) == v);
}

/// Appends the continuation-byte stream for `value`.
pub(crate) fn vle_encode_tail(value: u64, out: &mut Vec<u8>)
    ensures
        final(out)@ == old(out)@ + vle_tail(value as nat),
    decreases value,
{
    if value < 128 {
        out.push(value as u8);
        assert(out@ =~= old(out)@ + vle_tail(value as nat));
    } else {
        out.push((value % 128 + 128) as u8);
        vle_encode_tail(value / 128, out);
        assert(out@ =~= old(out)@ + vle_tail(value as nat));
    }
}

/// Reads a continuation-byte stream starting at `start`; `None` when the
/// stream is truncated or the value does not fit in 64 bits.
#[verifier::spinoff_prover]
pub(crate) fn vle_decode_tail(input: &[u8], start: usize) -> (r: Option<(u64, usize)>)
    requires
        start <= input.len(),
    ensures
        match vle_tail_dec(input@.skip(start as int)) {
            Some(vc) => if vc.0 <= u64::MAX as nat {
                r == Some((vc.0 as u64, vc.1 as usize))
            } else {
                r is None
            },
            None => r is None,
        },
{
    let ghost s = input@.skip(start as int);
    let mut i = start;
    let mut acc: u64 = 0;
    let mut scale: u64 = 1;
    let mut big = false;
    let ghost mut p: nat = 1;
    loop
        invariant
            start <= i <= input.len(),
            s == input@.skip(start as int),
            p >= 1,
            big ==> p > u64::MAX as nat,
            !big ==> scale as nat == p,
            (acc as nat) < p,
            vle_tail_dec(s) == (match vle_tail_dec(input@.skip(i as int)) {
                Some(vc) => Some(((acc as nat + p * vc.0) as nat, ((i - start) as nat + vc.1) as nat)),
                None => None::<(nat, nat)>,
            }),
        decreases input.len() - i,
    {
        if i == input.len() {
            proof {
                assert(input@.skip(i as int) =~= Seq::<u8>::empty());
            }
            return None;
        }
        let b = input[i];
        let chunk = b % 128;
        proof {
            assert(input@.skip(i as int)[0] == input@[i as int]);
            assert(input@.skip(i as int).drop_first() =~= input@.skip(i as int + 1));
            if b >= 128 {
                assert((b - 128) as nat == chunk as nat);
            }
        }
        if b < 128 {
            // terminating byte: the whole value is acc + chunk * p
            assert(vle_tail_dec(input@.skip(i as int)) == Some((chunk as nat, 1nat)));
            if big {
                if chunk > 0 {
                    proof {
                        assert(acc as nat + p * chunk as nat >= p) by (nonlinear_arith)
                            requires p >= 1, chunk as nat >= 1;
                    }
                    return None;
                }
                proof {
                    assert(chunk == 0);
                    assert(p * (chunk as nat) == 0) by (nonlinear_arith)
                        requires chunk as nat == 0;
                    assert(acc as nat + p * (chunk as nat) == acc as nat);
                    assert(vle_tail_dec(s) == Some((
                        acc as nat,
                        ((i - start) as nat + 1) as nat,
                    )));
                }
                return Some((acc, i - start + 1));
            }
            if chunk as u64 > (u64::MAX - acc) / scale {
                proof {
                    assert(chunk as nat * scale as nat > (u64::MAX - acc) as nat) by (nonlinear_arith)
                        requires
                            scale as nat >= 1,
                            chunk as nat > ((u64::MAX - acc) as nat) / (scale as nat);
                    assert(acc as nat + p * (chunk as nat) > u64::MAX as nat);
                }
                return None;
            }
            proof {
                assert(chunk as nat * scale as nat <= (u64::MAX - acc) as nat) by (nonlinear_arith)
                    requires
                        scale as nat >= 1,
                        chunk as nat <= ((u64::MAX - acc) as nat) / (scale as nat);
                assert(acc as nat + p * (chunk as nat) == (acc + chunk as u64 * scale) as nat);
                assert(vle_tail_dec(s) == Some((
                    (acc + chunk as u64 * scale) as nat,
                    ((i - start) as nat + 1) as nat,
                )));
            }
            return Some((acc + chunk as u64 * scale, i - start + 1));
        }
        // continuation byte: chunk enters at weight p, the rest at weight 128 * p
        if big || (chunk > 0 && chunk as u64 > (u64::MAX - acc) / scale) {
            if chunk > 0 {
                proof {
                    if big {
                        assert(acc as nat + p * chunk as nat > u64::MAX as nat) by (nonlinear_arith)
                            requires p > u64::MAX as nat, chunk as nat >= 1;
                    } else {
                        assert(chunk as nat * scale as nat > (u64::MAX - acc) as nat) by (nonlinear_arith)
                            requires
                                scale as nat >= 1,
                                chunk as nat > ((u64::MAX - acc) as nat) / (scale as nat);
                    }
                    match vle_tail_dec(input@.skip(i as int + 1)) {
                        Some(vc) => {
                            assert(acc as nat + p * (chunk as nat + 128 * vc.0) > u64::MAX as nat)
                                by (nonlinear_arith)
                                requires
                                    p >= 1,
                                    acc as nat + p * chunk as nat > u64::MAX as nat;
                        },
                        None => {},
                    }
                }
                return None;
            }
            // a zero chunk adds nothing; keep scanning for the terminator
            proof {
                match vle_tail_dec(input@.skip(i as int + 1)) {
                    Some(vc) => {
                        assert(acc as nat + p * (0 + 128 * vc.0) == acc as nat + (p * 128) * vc.0)
                            by (nonlinear_arith);
                    },
                    None => {},
                }
                p = p * 128;
            }
            big = true;
            i += 1;
            continue;
        }
        proof {
            assert(chunk as nat * scale as nat <= (u64::MAX - acc) as nat) by (nonlinear_arith)
            requires
                scale as nat >= 1,
                chunk == 0 || chunk as nat <= ((u64::MAX - acc) as nat) / (scale as nat);
        }
        let ghost acc0 = acc as nat;
        acc = acc + chunk as u64 * scale;
        proof {
            assert((acc as nat) < p * 128) by (nonlinear_arith)
                requires
                    acc as nat == acc0 + (chunk as nat) * p,
                    acc0 < p,
                    chunk < 128,
                    p >= 1;
            match vle_tail_dec(input@.skip(i as int + 1)) {
                Some(vc) => {
                    assert(acc0 + p * (chunk as nat + 128 * vc.0) == acc as nat + (p * 128) * vc.0)
                        by (nonlinear_arith)
                        requires acc as nat == acc0 + (chunk as nat) * p;
                },
                None => {},
            }
        }
        if scale > u64::MAX / 128 {
            big = true;
            proof {
                assert(scale as nat * 128 > u64::MAX as nat) by (nonlinear_arith)
                    requires scale as nat > (u64::MAX as nat) / 128;
            }
        } else {
            scale = scale * 128;
        }
        proof {
            p = p * 128;
        }
        i += 1;
    }
}

} // verus!
