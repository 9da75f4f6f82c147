//! Fixed-point rendering of exact decimals, in the manner of Rust's
//! `{:w.p}` formatting and `f64::round`, applied to the exact decimal value.
//!
//! Rounding to `p` places rounds the exact value half to even (as the
//! standard formatter does for values it holds exactly) or half away from
//! zero (as `f64::round` does). A decimal tie that a binary float cannot
//! hold exactly is rounded here as the decimal, not as its nearest float.

use vstd::prelude::*;
use crate::decimal::DecimalValue;
use crate::text::{
    decimal_text, digit_byte, num_digits, padded_digits, pow10, push_decimal, push_padded_digits,
    lemma_pow10_positive,
};

verus! {

broadcast use vstd::seq::group_seq_axioms;

/// How a value is rounded to a number of places.
#[derive(Clone, Copy, Debug, PartialEq, Eq, Structural)]
pub enum Rounding {
    /// Ties go to the even neighbour.
    HalfEven,
    /// Ties go away from zero.
    HalfAway,
}

/// `m * 10^e * 10^p` rounded to an integer.
pub open spec fn scaled_value(m: nat, e: int, p: nat, mode: Rounding) -> nat {
    let k = e + p;
    if k >= 0 {
        m * pow10(k as nat)
    } else {
        let d = pow10((-k) as nat);
        let q = m / d;
        let r = m % d;
        let up = match mode {
            Rounding::HalfEven => 2 * r > d || (2 * r == d && q % 2 == 1),
            Rounding::HalfAway => 2 * r >= d,
        };
        if up {
            q + 1
        } else {
            q
        }
    }
}

/// `n` zero digits.
pub open spec fn zeros(n: nat) -> Seq<u8> {
    Seq::new(n, |i: int| 0x30u8)
}

/// The digits of `n / 10^p`, a point, and the `p` digits of `n mod 10^p`.
pub open spec fn fixed_digits(n: nat, p: nat) -> Seq<u8> {
    decimal_text(n / pow10(p)) + seq![0x2eu8] + padded_digits(n % pow10(p), p)
}

/// Rust's `{:.p}` rendering of a value (`NaN`, `inf`, `-inf` for the
/// non-finite ones).
pub open spec fn display_fixed(d: DecimalValue, p: nat) -> Seq<u8> {
    match d {
        DecimalValue::Finite { negative, mantissa, exponent } => {
            let body = fixed_digits(
                scaled_value(mantissa as nat, exponent as int, p, Rounding::HalfEven),
                p,
            );
            if negative {
                seq![0x2du8] + body
            } else {
                body
            }
        },
        DecimalValue::Infinite { negative } => if negative {
            seq![0x2du8, 0x69, 0x6e, 0x66]
        } else {
            seq![0x69u8, 0x6e, 0x66]
        },
        DecimalValue::NotANumber { .. } => seq![0x4eu8, 0x61, 0x4e],
    }
}

/// Right-align `s` in a field of `w` columns filled with `fill`.
pub open spec fn pad_left(s: Seq<u8>, w: nat, fill: u8) -> Seq<u8> {
    if s.len() >= w {
        s
    } else {
        Seq::new((w - s.len()) as nat, |i: int| fill) + s
    }
}

/// Number of decimal digits of the mantissa (1 for zero).
pub open spec fn mantissa_digits(d: DecimalValue) -> int {
    match d {
        DecimalValue::Finite { mantissa, .. } => num_digits(mantissa as nat) as int,
        _ => 0,
    }
}

/// The value is zero or its magnitude lies in `[10^-307, 10^308)`, where a
/// binary64 floating-point number holds it without overflow or underflow;
/// non-finite values are included.
pub open spec fn within_f64_range(d: DecimalValue) -> bool {
    match d {
        DecimalValue::Finite { mantissa, exponent, .. } => mantissa == 0 || (-307
            <= mantissa_digits(d) + exponent - 1 && mantissa_digits(d) + exponent <= 308),
        _ => true,
    }
}

/// The value is negative or a negative zero or NaN with its sign set
/// (`f64::is_sign_negative`).
pub open spec fn sign_negative(d: DecimalValue) -> bool {
    match d {
        DecimalValue::Finite { negative, .. } => negative,
        DecimalValue::Infinite { negative } => negative,
        DecimalValue::NotANumber { negative } => negative,
    }
}

/// `(|v| * 10^p).round() as u64`: half away from zero, saturating, NaN to zero.
pub open spec fn abs_scaled_u64(d: DecimalValue, p: nat) -> nat {
    match d {
        DecimalValue::Finite { mantissa, exponent, .. } => {
            let v = scaled_value(mantissa as nat, exponent as int, p, Rounding::HalfAway);
            if v > u64::MAX {
                u64::MAX as nat
            } else {
                v
            }
        },
        DecimalValue::Infinite { .. } => u64::MAX as nat,
        DecimalValue::NotANumber { .. } => 0,
    }
}

/// `(v * 10^p).round() as u64`: negative values saturate to zero.
pub open spec fn scaled_u64(d: DecimalValue, p: nat) -> nat {
    match d {
        DecimalValue::Finite { negative, .. } => if negative {
            0
        } else {
            abs_scaled_u64(d, p)
        },
        DecimalValue::Infinite { negative } => if negative {
            0
        } else {
            u64::MAX as nat
        },
        DecimalValue::NotANumber { .. } => 0,
    }
}

// ---------------------------------------------------------------------------
// Lemmas
// ---------------------------------------------------------------------------

/// `decimal_text(q * 10^j)` is `q`'s numeral followed by `j` zeros.
pub proof fn lemma_decimal_times_pow10(q: nat, j: nat)
    requires
        q > 0,
    ensures
        decimal_text(q * pow10(j)) == decimal_text(q) + zeros(j),
    decreases j,
{
    if j == 0 {
        assert(pow10(0) == 1);
        assert(q * pow10(0) == q);
        assert(decimal_text(q) + zeros(0) =~= decimal_text(q));
    } else {
        lemma_decimal_times_pow10(q, (j - 1) as nat);
        let n = q * pow10(j);
        let n1 = q * pow10((j - 1) as nat);
        lemma_pow10_positive((j - 1) as nat);
        assert(n == n1 * 10) by (nonlinear_arith)
            requires
                n == q * pow10(j),
                n1 == q * pow10((j - 1) as nat),
                pow10(j) == 10 * pow10((j - 1) as nat),
        ;
        assert(n1 >= 1) by (nonlinear_arith)
            requires
                q >= 1,
                pow10((j - 1) as nat) >= 1,
                n1 == q * pow10((j - 1) as nat),
        ;
        assert(n / 10 == n1);
        assert(n % 10 == 0);
        assert(decimal_text(n) == decimal_text(n1).push(digit_byte(0)));
        assert(decimal_text(q) + zeros(j) =~= (decimal_text(q) + zeros((j - 1) as nat)).push(
            0x30,
        ));
    }
}

/// The digits of zero, padded, are all zeros.
pub proof fn lemma_padded_zero(p: nat)
    ensures
        padded_digits(0, p) == zeros(p),
    decreases p,
{
    if p > 0 {
        lemma_padded_zero((p - 1) as nat);
        assert(padded_digits(0, p) =~= zeros(p));
    }
}

// ---------------------------------------------------------------------------
// Executable rendering
// ---------------------------------------------------------------------------

/// Append `n` zero digits.
pub fn push_zeros(out: &mut Vec<u8>, n: usize)
    ensures
        final(out)@ == old(out)@ + zeros(n as nat),
{
    let ghost start = out@;
    let mut i: usize = 0;
    while i < n
        invariant
            i <= n,
            out@ == start + zeros(i as nat),
        decreases n - i,
    {
        out.push(0x30);
        proof {
            assert(out@ =~= start + zeros((i + 1) as nat));
        }
        i = i + 1;
    }
}

/// Append `fixed_digits(q * 10^z, p)`.
fn push_fixed_digits(out: &mut Vec<u8>, q: u64, z: usize, p: usize)
    requires
        p <= 8,
        z <= 400,
    ensures
        final(out)@ == old(out)@ + fixed_digits(q as nat * pow10(z as nat), p as nat),
{
    let ghost n = q as nat * pow10(z as nat);
    proof {
        lemma_pow10_positive(p as nat);
        lemma_pow10_positive(z as nat);
    }
    if q == 0 {
        proof {
            assert(n == 0);
            lemma_padded_zero(p as nat);
            assert(decimal_text(0) == seq![0x30u8]);
        }
        out.push(0x30);
        out.push(0x2e);
        push_zeros(out, p);
        proof {
            assert(0nat / pow10(p as nat) == 0);
        }
        return;
    }
    if z >= p {
        proof {
            let j = (z - p) as nat;
            lemma_pow10_add(p as nat, j);
            assert(n == (q as nat * pow10(j)) * pow10(p as nat)) by (nonlinear_arith)
                requires
                    n == q as nat * pow10(z as nat),
                    pow10(z as nat) == pow10(p as nat) * pow10(j),
            ;
            vstd::arithmetic::div_mod::lemma_div_multiples_vanish(
                (q as nat * pow10(j)) as int,
                pow10(p as nat) as int,
            );
            vstd::arithmetic::div_mod::lemma_mod_multiples_basic(
                (q as nat * pow10(j)) as int,
                pow10(p as nat) as int,
            );
            lemma_decimal_times_pow10(q as nat, j);
            lemma_padded_zero(p as nat);
        }
        push_decimal(out, q);
        push_zeros(out, z - p);
        out.push(0x2e);
        push_zeros(out, p);
        proof {
            assert(final(out)@ =~= old(out)@ + fixed_digits(n, p as nat));
        }
    } else {
        let pz = crate::decimal::pow10_u128(z as u32);
        let pp = crate::decimal::pow10_u128(p as u32);
        proof {
            assert(pz <= pp) by {
                crate::decimal::lemma_pow10_mono(z as nat, p as nat);
            }
            crate::decimal::lemma_pow10_mono(p as nat, 8);
            reveal_with_fuel(pow10, 9);
            assert((q as u128) * pz <= (q as u128) * 100000000) by (nonlinear_arith)
                requires
                    pz <= 100000000,
            ;
        }
        let big: u128 = (q as u128) * pz;
        let hi = big / pp;
        let lo = big % pp;
        proof {
            assert(hi <= big);
            assert(hi as nat <= q as nat) by (nonlinear_arith)
                requires
                    hi == big / pp,
                    big == q * pz,
                    pz <= pp,
                    pp > 0,
            {
                vstd::arithmetic::div_mod::lemma_div_is_ordered(big as int, (q * pp) as int, pp as int);
                vstd::arithmetic::div_mod::lemma_div_multiples_vanish(q as int, pp as int);
            }
            assert(lo < 100000000);
        }
        push_decimal(out, hi as u64);
        out.push(0x2e);
        push_padded_digits(out, lo as u64, p);
        proof {
            assert(final(out)@ =~= old(out)@ + fixed_digits(n, p as nat));
        }
    }
}

/// `10^(a + b) = 10^a * 10^b`.
pub proof fn lemma_pow10_add(a: nat, b: nat)
    ensures
        pow10(a + b) == pow10(a) * pow10(b),
    decreases a,
{
    if a > 0 {
        lemma_pow10_add((a - 1) as nat, b);
        assert(pow10(a + b) == 10 * pow10((a - 1 + b) as nat));
        assert(pow10(a) * pow10(b) == 10 * (pow10((a - 1) as nat) * pow10(b))) by (nonlinear_arith)
            requires
                pow10(a) == 10 * pow10((a - 1) as nat),
        ;
    } else {
        assert(pow10(0) == 1);
        assert(a + b == b);
    }
}


/// `scaled_value(m, e, p, mode)` as `q * 10^z`.
fn scaled_parts(m: u64, e: i64, p: u32, mode: Rounding) -> (r: (u64, usize))
    requires
        p <= 8,
        m == 0 || (-330 <= e <= 310),
    ensures
        r.0 as nat * pow10(r.1 as nat) == scaled_value(m as nat, e as int, p as nat, mode),
        r.1 <= 400,
        m == 0 ==> r.0 == 0,
{
    if m == 0 {
        proof {
            if e + p < 0 {
                let d = pow10((-(e + p)) as nat);
                lemma_pow10_positive((-(e + p)) as nat);
                assert(0nat / d == 0);
                assert(0nat % d == 0);
            }
            assert(0 * pow10(0) == 0);
        }
        return (0, 0);
    }
    let k: i64 = e + p as i64;
    if k >= 0 {
        proof {
            assert(m as nat * pow10(k as nat) == scaled_value(m as nat, e as int, p as nat, mode));
        }
        return (m, k as usize);
    }
    let nk = (0 - k) as u32;
    if nk >= 20 {
        proof {
            let d = pow10(nk as nat);
            crate::decimal::lemma_pow10_mono(20, nk as nat);
            reveal_with_fuel(pow10, 21);
            assert(m as nat / d == 0) by {
                vstd::arithmetic::div_mod::lemma_basic_div(m as int, d as int);
            }
            assert(m as nat % d == m) by {
                vstd::arithmetic::div_mod::lemma_small_mod(m as nat, d);
            }
            assert(0 * pow10(0) == 0);
        }
        return (0, 0);
    }
    let d = crate::decimal::pow10_u128(nk);
    proof {
        lemma_pow10_positive(nk as nat);
        crate::decimal::lemma_pow10_mono(nk as nat, 19);
        reveal_with_fuel(pow10, 20);
    }
    let mm = m as u128;
    let q = mm / d;
    let r = mm % d;
    let up = match mode {
        Rounding::HalfEven => 2 * r > d || (2 * r == d && q % 2 == 1),
        Rounding::HalfAway => 2 * r >= d,
    };
    proof {
        assert(q <= mm);
        crate::decimal::lemma_pow10_mono(1, nk as nat);
        reveal_with_fuel(pow10, 2);
        assert(q <= mm / 10) by {
            vstd::arithmetic::div_mod::lemma_div_is_ordered_by_denominator(mm as int, 10, d as int);
        }
        assert(pow10(0) == 1);
        assert(mm as nat / pow10(nk as nat) == q as nat);
        assert(mm as nat % pow10(nk as nat) == r as nat);
        assert(-(e + p) == nk);
    }
    let res: u64 = if up {
        (q + 1) as u64
    } else {
        q as u64
    };
    proof {
        let dd = pow10(nk as nat);
        let k2 = e + p;
        assert(k2 < 0);
        assert((-k2) as nat == nk as nat);
        let sv = scaled_value(m as nat, e as int, p as nat, mode);
        assert(sv == if up { q as nat + 1 } else { q as nat });
        assert(res as nat * pow10(0) == res as nat);
    }
    (res, 0)
}

/// Append Rust's `{:.p}` rendering of `d`.
pub fn push_display_fixed(out: &mut Vec<u8>, d: DecimalValue, p: u32)
    requires
        p <= 8,
        within_f64_range(d),
    ensures
        final(out)@ == old(out)@ + display_fixed(d, p as nat),
{
    match d {
        DecimalValue::Finite { negative, mantissa, exponent } => {
            proof {
                if mantissa != 0 {
                    crate::text::lemma_num_digits_u64_pub(mantissa as nat);
                    lemma_num_digits_positive(mantissa as nat);
                }
            }
            let (q, z) = scaled_parts(mantissa, exponent, p, Rounding::HalfEven);
            let ghost start = out@;
            if negative {
                out.push(0x2d);
            }
            push_fixed_digits(out, q, z, p as usize);
            proof {
                let body = fixed_digits(
                    scaled_value(mantissa as nat, exponent as int, p as nat, Rounding::HalfEven),
                    p as nat,
                );
                if negative {
                    assert(out@ =~= start + (seq![0x2du8] + body));
                } else {
                    assert(out@ =~= start + body);
                }
            }
        },
        DecimalValue::Infinite { negative } => {
            let ghost start = out@;
            if negative {
                out.push(0x2d);
            }
            out.push(0x69);
            out.push(0x6e);
            out.push(0x66);
            proof {
                assert(out@ =~= start + display_fixed(d, p as nat));
            }
        },
        DecimalValue::NotANumber { .. } => {
            let ghost start = out@;
            out.push(0x4e);
            out.push(0x61);
            out.push(0x4e);
            proof {
                assert(out@ =~= start + display_fixed(d, p as nat));
            }
        },
    }
}

proof fn lemma_num_digits_positive(n: nat)
    ensures
        num_digits(n) >= 1,
    decreases n,
{
    if n >= 10 {
        lemma_num_digits_positive(n / 10);
    }
}

/// `abs_scaled_u64(d, p)`.
pub fn abs_scaled(d: DecimalValue, p: u32) -> (r: u64)
    requires
        p <= 8,
        within_f64_range(d),
    ensures
        r as nat == abs_scaled_u64(d, p as nat),
{
    match d {
        DecimalValue::Finite { mantissa, exponent, .. } => {
            proof {
                if mantissa != 0 {
                    crate::text::lemma_num_digits_u64_pub(mantissa as nat);
                    lemma_num_digits_positive(mantissa as nat);
                }
            }
            let (q, z) = scaled_parts(mantissa, exponent, p, Rounding::HalfAway);
            if q == 0 {
                proof {
                    assert(0 * pow10(z as nat) == 0);
                }
                return 0;
            }
            if z >= 20 {
                proof {
                    crate::decimal::lemma_pow10_mono(20, z as nat);
                    reveal_with_fuel(pow10, 21);
                    assert(q as nat * pow10(z as nat) > u64::MAX) by (nonlinear_arith)
                        requires
                            q >= 1,
                            pow10(z as nat) >= 100000000000000000000,
                    ;
                }
                return u64::MAX;
            }
            let pz = crate::decimal::pow10_u128(z as u32);
            proof {
                crate::decimal::lemma_pow10_mono(z as nat, 19);
                reveal_with_fuel(pow10, 20);
                assert((q as u128) * pz <= (u64::MAX as u128) * 10000000000000000000) by (nonlinear_arith)
                    requires
                        q <= u64::MAX,
                        pz <= 10000000000000000000,
                ;
            }
            let v = (q as u128) * pz;
            if v > u64::MAX as u128 {
                u64::MAX
            } else {
                v as u64
            }
        },
        DecimalValue::Infinite { .. } => u64::MAX,
        DecimalValue::NotANumber { .. } => 0,
    }
}

/// `scaled_u64(d, p)`.
pub fn scaled_nonneg(d: DecimalValue, p: u32) -> (r: u64)
    requires
        p <= 8,
        within_f64_range(d),
    ensures
        r as nat == scaled_u64(d, p as nat),
{
    match d {
        DecimalValue::Finite { negative, .. } => if negative {
            0
        } else {
            abs_scaled(d, p)
        },
        DecimalValue::Infinite { negative } => if negative {
            0
        } else {
            u64::MAX
        },
        DecimalValue::NotANumber { .. } => 0,
    }
}

/// Append `pad_left(s, w, fill)` where `s` is already in `v`.
pub fn push_padded_left(out: &mut Vec<u8>, v: &Vec<u8>, w: usize, fill: u8)
    ensures
        final(out)@ == old(out)@ + pad_left(v@, w as nat, fill),
{
    let ghost start = out@;
    if v.len() < w {
        let n = w - v.len();
        let mut i: usize = 0;
        while i < n
            invariant
                i <= n,
                out@ == start + Seq::new(i as nat, |k: int| fill),
            decreases n - i,
        {
            out.push(fill);
            proof {
                assert(out@ =~= start + Seq::new((i + 1) as nat, |k: int| fill));
            }
            i = i + 1;
        }
    }
    let ghost mid = out@;
    let mut j: usize = 0;
    while j < v.len()
        invariant
            j <= v@.len(),
            out@ == mid + v@.subrange(0, j as int),
        decreases v@.len() - j,
    {
        out.push(v[j]);
        proof {
            assert(out@ =~= mid + v@.subrange(0, j + 1));
        }
        j = j + 1;
    }
    proof {
        assert(v@.subrange(0, v@.len() as int) =~= v@);
        if v@.len() < w {
            assert(out@ =~= start + pad_left(v@, w as nat, fill));
        } else {
            assert(out@ =~= start + pad_left(v@, w as nat, fill));
        }
    }
}

} // verus!
