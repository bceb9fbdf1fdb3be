//! Integer results of binary64 arithmetic on integers, computed exactly:
//! the side of an oversize image after it is scaled to fit 4096 pixels,
//! and the box-filter spans `floor(d * (s / n))` and `ceil(d * (s / n))`.
//! A quotient of two integers is rounded to the nearest double, its product
//! with an integer is rounded again, and the result is truncated, floored
//! or ceiled.
//!
//! A double is a 53-bit significand times a power of two, so both
//! roundings are stated over integers: a quotient rounded to the nearest
//! integer, a tie going to the even one.

use vstd::prelude::*;
use vstd::arithmetic::power2::{lemma2_to64, lemma2_to64_rest, lemma_pow2_adds, lemma_pow2_unfold, pow2};
use vstd::arithmetic::div_mod::lemma_fundamental_div_mod;
use vstd::arithmetic::mul::lemma_mul_inequality;

verus! {

/// `n / d` rounded to the nearest integer, a tie going to the even one.
pub open spec fn div_round_even(n: nat, d: nat) -> nat {
    let q = n / d;
    let r = n % d;
    if 2 * r > d || (2 * r == d && q % 2 == 1) {
        q + 1
    } else {
        q
    }
}

/// The least `t`, from `t` on and no further than 32, with
/// `m <= 4096 * 2^t`: for `4096 < m < 2^32`, `4096 / m` lies in
/// `[2^-t, 2^(1-t))`, so its double is a 53-bit significand over
/// `2^(t + 52)`.
pub open spec fn quot_exp_from(m: nat, t: nat) -> nat
    decreases 32 - t,
{
    if t >= 32 || m <= 4096 * pow2(t) {
        t
    } else {
        quot_exp_from(m, t + 1)
    }
}

/// The least `s`, from `s` on and no further than 80, with
/// `p < 2^(53 + s)`: `p` has at most `53 + s` bits.
pub open spec fn excess_from(p: nat, s: nat) -> nat
    decreases 80 - s,
{
    if s >= 80 || p < pow2(53 + s) {
        s
    } else {
        excess_from(p, s + 1)
    }
}

/// `p` rounded to 53 significant bits, a tie going to the even
/// significand.
pub open spec fn round_to_53_bits(p: nat) -> nat {
    let s = excess_from(p, 0);
    div_round_even(p, pow2(s)) * pow2(s)
}

/// `(v as f64 * (4096.0 / m as f64)) as u32`: the double nearest
/// `4096 / m` is `sig / 2^(t + 52)`; the product `v * sig / 2^(t + 52)` is
/// rounded to 53 significant bits, then truncated (and saturated, as `as`
/// does).
pub open spec fn binary64_scaled(v: u32, m: u32) -> u32 {
    let t = quot_exp_from(m as nat, 0);
    let sig = div_round_even(4096 * pow2(t + 52), m as nat);
    let x = round_to_53_bits((v * sig) as nat) / pow2(t + 52);
    if x > u32::MAX {
        u32::MAX
    } else {
        x as u32
    }
}

fn div_round_even_u128(n: u128, d: u128) -> (r: u128)
    requires
        d > 0,
        n <= 0x100_0000_0000_0000_0000_0000_0000_0000,
        d <= 0x100_0000_0000_0000_0000_0000_0000_0000,
    ensures
        r == div_round_even(n as nat, d as nat),
        2 * (r * d) <= 2 * n + d,
        r * d <= n + d,
{
    let q = n / d;
    let rem = n % d;
    proof {
        lemma_fundamental_div_mod(n as int, d as int);
    }
    if 2 * rem > d || (2 * rem == d && q % 2 == 1) {
        proof {
            assert((q + 1) * d == q * d + d) by (nonlinear_arith);
        }
        q + 1
    } else {
        q
    }
}

/// `(v as f64 * (4096.0 / m as f64)) as u32` for a side `v` of an image
/// whose larger side `m` is over 4096: at most 4096.
pub fn binary64_scale(v: u32, m: u32) -> (r: u32)
    requires
        4096 < m,
        v <= m,
    ensures
        r == binary64_scaled(v, m),
        r <= 4096,
{
    proof {
        lemma2_to64();
        lemma2_to64_rest();
    }
    let mut t: u32 = 0;
    let mut pt: u128 = 1;
    while t < 32 && (m as u128) > 4096 * pt
        invariant
            t <= 32,
            pt == pow2(t as nat),
            pt <= 0x1_0000_0000,
            quot_exp_from(m as nat, t as nat) == quot_exp_from(m as nat, 0),
            pow2(0) == 1,
            pow2(32) == 0x1_0000_0000,
        decreases 32 - t,
    {
        proof {
            lemma_pow2_unfold((t + 1) as nat);
            if t + 1 < 32 {
                vstd::arithmetic::power2::lemma_pow2_strictly_increases((t + 1) as nat, 32);
            }
        }
        t = t + 1;
        pt = pt * 2;
    }
    let ghost tt = t as nat;
    assert(quot_exp_from(m as nat, 0) == tt);
    let scale: u128 = pt * 0x10_0000_0000_0000;
    proof {
        lemma_pow2_adds(tt, 52);
    }
    assert(scale == pow2(tt + 52));
    let n: u128 = 4096 * scale;
    let sig = div_round_even_u128(n, m as u128);
    proof {
        lemma_mul_inequality(4097, m as int, sig as int);
        assert(4097 * sig <= m * sig);
        assert(m * sig == sig * m) by (nonlinear_arith);
        assert(n <= 4096 * 0x10_0000_0000_0000 * 0x1_0000_0000);
        assert(sig < 0x10_0000_0000_0000_0000_0000);
        assert(v as int * sig as int <= 0x1_0000_0000 * 0x10_0000_0000_0000_0000_0000) by (nonlinear_arith)
            requires
                v <= 0xffff_ffff,
                sig < 0x10_0000_0000_0000_0000_0000,
        ;
    }
    let p: u128 = (v as u128) * sig;
    let mut s: u32 = 0;
    let mut ps: u128 = 1;
    let mut lim: u128 = 0x20_0000_0000_0000;
    while s < 80 && p >= lim
        invariant
            s <= 80,
            ps >= 1,
            ps == pow2(s as nat),
            lim == pow2(53 + s as nat),
            lim == ps * 0x20_0000_0000_0000,
            s > 0 ==> 2 * p >= lim,
            p <= 0x1_0000_0000 * 0x10_0000_0000_0000_0000_0000,
            excess_from(p as nat, s as nat) == excess_from(p as nat, 0),
            pow2(0) == 1,
            pow2(53) == 0x20_0000_0000_0000,
        decreases 80 - s,
    {
        proof {
            lemma_pow2_unfold((s + 1) as nat);
            lemma_pow2_unfold((53 + s + 1) as nat);
        }
        s = s + 1;
        ps = ps * 2;
        lim = lim * 2;
    }
    assert(excess_from(p as nat, 0) == s);
    assert(p <= 0x1_0000_0000 * 0x10_0000_0000_0000_0000_0000);
    assert(ps <= lim);
    let k = div_round_even_u128(p, ps);
    proof {
        assert(k * ps <= p + ps);
        assert(lim <= 2 * p || ps == 1);
        assert(k * ps <= 0x20_0000_0000_0000_0000_0000_0000_0000) by (nonlinear_arith)
            requires
                k * ps <= p + ps,
                ps * 0x20_0000_0000_0000 == lim,
                p <= 0x1_0000_0000 * 0x10_0000_0000_0000_0000_0000,
                lim <= 2 * p || ps == 1,
        ;
    }
    let rr: u128 = k * ps;
    let x = rr / scale;
    proof {
        lemma_mul_inequality(v as int, m as int, sig as int);
        assert(p <= m * sig);
        assert(ps == 1 || ps * 0x20_0000_0000_0000 <= 2 * p);
        // The rounded product stays below 4097 * 2^(t + 52).
        assert(rr < 4097 * scale) by (nonlinear_arith)
            requires
                2 * (sig * m) <= 2 * n + m,
                n == 4096 * scale,
                scale >= 0x10_0000_0000_0000,
                p <= m * sig,
                m <= 0xffff_ffff,
                2 * rr <= 2 * p + ps,
                ps == 1 || ps * 0x20_0000_0000_0000 <= 2 * p,
        ;
        assert(x <= 4096) by (nonlinear_arith)
            requires
                rr < 4097 * scale,
                x == rr / scale,
                scale > 0,
        ;
    }
    x as u32
}

/// The least `e`, from `e` on and no further than 96, with
/// `b * 2^52 <= a * 2^e`: for `0 < a, b < 2^32` the double nearest `a / b`
/// is a 53-bit significand over `2^e`.
pub open spec fn quot_shift_from(a: nat, b: nat, e: nat) -> nat
    decreases 96 - e,
{
    if e >= 96 || b * pow2(52) <= a * pow2(e) {
        e
    } else {
        quot_shift_from(a, b, e + 1)
    }
}

/// `k as f64 * (a as f64 / b as f64)` as `(r, e)`: the value is `r / 2^e`.
/// The double nearest `a / b` is `sig / 2^e`; the product `k * sig / 2^e`
/// is rounded to 53 significant bits.
pub open spec fn binary64_product(k: nat, a: nat, b: nat) -> (nat, nat) {
    let e = quot_shift_from(a, b, 0);
    let sig = div_round_even(a * pow2(e), b);
    (round_to_53_bits(k * sig), e)
}

/// `(k as f64 * (a as f64 / b as f64)).floor()`.
pub open spec fn binary64_floor(k: nat, a: nat, b: nat) -> nat {
    let p = binary64_product(k, a, b);
    p.0 / pow2(p.1)
}

/// `(k as f64 * (a as f64 / b as f64)).ceil()`.
pub open spec fn binary64_ceil(k: nat, a: nat, b: nat) -> nat {
    let p = binary64_product(k, a, b);
    ((p.0 + pow2(p.1) - 1) as nat) / pow2(p.1)
}

/// `b * 2^52 <= a * pe`.
fn shift_reached(a: u32, b: u32, pe: u128) -> (r: bool)
    requires
        pe <= 0x1_0000_0000_0000_0000_0000_0000,
    ensures
        r == ((b as int) * pow2(52) <= (a as int) * pe),
{
    proof {
        lemma2_to64();
        lemma2_to64_rest();
        assert((a as int) * pe <= 0xffff_ffff * 0x1_0000_0000_0000_0000_0000_0000) by (nonlinear_arith)
            requires
                a <= 0xffff_ffff,
                pe <= 0x1_0000_0000_0000_0000_0000_0000,
        ;
    }
    let lhs: u128 = (b as u128) * 0x10_0000_0000_0000;
    assert(lhs == (b as int) * pow2(52));
    lhs <= (a as u128) * pe
}

/// `k as f64 * (a as f64 / b as f64)` as the pair `(r, 2^e)` of
/// `binary64_product`.
fn binary64_product_exec(k: u64, a: u32, b: u32) -> (r: (u128, u128))
    requires
        b >= 1,
        k <= 0x1_0000_0000,
    ensures
        r.0 == binary64_product(k as nat, a as nat, b as nat).0,
        r.1 == pow2(binary64_product(k as nat, a as nat, b as nat).1),
        r.1 >= 1,
        r.1 <= 0x1_0000_0000_0000_0000_0000_0000,
        r.0 <= 0x80_0000_0000_0000_0000_0000,
{
    proof {
        lemma2_to64();
        lemma2_to64_rest();
    }
    let two52: u128 = 0x10_0000_0000_0000;
    proof {
        lemma_pow2_adds(64, 32);
    }
    assert(pow2(96) == 0x1_0000_0000_0000_0000_0000_0000);
    let mut e: u32 = 0;
    let mut pe: u128 = 1;
    while e < 96 && !shift_reached(a, b, pe)
        invariant
            e <= 96,
            pe == pow2(e as nat),
            1 <= pe <= 0x1_0000_0000_0000_0000_0000_0000,
            b >= 1,
            two52 == 0x10_0000_0000_0000,
            e > 0 ==> (a as int) * pe < (b as int) * 2 * two52,
            quot_shift_from(a as nat, b as nat, e as nat) == quot_shift_from(a as nat, b as nat, 0),
            pow2(52) == two52,
            pow2(0) == 1,
            pow2(96) == 0x1_0000_0000_0000_0000_0000_0000,
        decreases 96 - e,
    {
        proof {
            lemma_pow2_unfold((e + 1) as nat);
            if e + 1 < 96 {
                vstd::arithmetic::power2::lemma_pow2_strictly_increases((e + 1) as nat, 96);
            }
            assert((a as int) * (pe * 2) == 2 * ((a as int) * pe)) by (nonlinear_arith);
        }
        e = e + 1;
        pe = pe * 2;
    }
    assert(quot_shift_from(a as nat, b as nat, 0) == e);
    proof {
        assert((a as int) * pe <= 0xffff_ffff * 0x1_0000_0000_0000_0000_0000_0000) by (nonlinear_arith)
            requires
                a <= 0xffff_ffff,
                pe <= 0x1_0000_0000_0000_0000_0000_0000,
        ;
    }
    let n: u128 = (a as u128) * pe;
    // The numerator stays below 2^53 times the divisor.
    proof {
        if e == 0 {
            assert(n == a);
        }
    }
    assert(n < (b as int) * 2 * two52);
    let sig = div_round_even_u128(n, b as u128);
    proof {
        assert(sig <= 2 * two52) by (nonlinear_arith)
            requires
                2 * (sig * b) <= 2 * n + b,
                n < b * 2 * two52,
                b >= 1,
        ;
    }
    proof {
        assert((k as int) * sig <= 0x1_0000_0000 * 0x20_0000_0000_0000) by (nonlinear_arith)
            requires
                k <= 0x1_0000_0000,
                sig <= 0x20_0000_0000_0000,
        ;
    }
    let p: u128 = (k as u128) * sig;
    let mut s: u32 = 0;
    let mut ps: u128 = 1;
    let mut lim: u128 = 0x20_0000_0000_0000;
    while s < 80 && p >= lim
        invariant
            s <= 80,
            ps >= 1,
            ps == pow2(s as nat),
            lim == pow2(53 + s as nat),
            lim == ps * 0x20_0000_0000_0000,
            s > 0 ==> 2 * p >= lim,
            p <= 0x1_0000_0000 * 0x20_0000_0000_0000,
            excess_from(p as nat, s as nat) == excess_from(p as nat, 0),
            pow2(0) == 1,
            pow2(53) == 0x20_0000_0000_0000,
        decreases 80 - s,
    {
        proof {
            lemma_pow2_unfold((s + 1) as nat);
            lemma_pow2_unfold((53 + s + 1) as nat);
        }
        s = s + 1;
        ps = ps * 2;
        lim = lim * 2;
    }
    assert(excess_from(p as nat, 0) == s);
    assert(ps <= lim);
    let q = div_round_even_u128(p, ps);
    proof {
        assert(q * ps <= 0x80_0000_0000_0000_0000_0000) by (nonlinear_arith)
            requires
                q * ps <= p + ps,
                ps <= lim,
                lim <= 2 * p || ps == 1,
                p <= 0x1_0000_0000 * 0x20_0000_0000_0000,
        ;
    }
    (q * ps, pe)
}

/// `(k as f64 * (a as f64 / b as f64)).floor()` and `.ceil()`.
pub fn binary64_floor_ceil(k: u64, a: u32, b: u32) -> (r: (u128, u128))
    requires
        b >= 1,
        k <= 0x1_0000_0000,
    ensures
        r.0 == binary64_floor(k as nat, a as nat, b as nat),
        r.1 == binary64_ceil(k as nat, a as nat, b as nat),
{
    let (v, pe) = binary64_product_exec(k, a, b);
    (v / pe, (v + pe - 1) / pe)
}

} // verus!
