//! Exact integer model of the IEEE 754 binary64 arithmetic that ratios of
//! counts go through: converting a count, dividing two counts, scaling by
//! one hundred, comparing with a constant, and printing with a fixed
//! number of decimals. Every step rounds to the nearest representable
//! value, ties to even, as binary64 does.
//!
//! A non-negative value is held as a pair `(m, e)` meaning `m / 2^e`.

use vstd::arithmetic::power2::{
    lemma2_to64, lemma2_to64_rest, lemma_pow2_adds, lemma_pow2_pos, lemma_pow2_strictly_increases, lemma_pow2_unfold, pow2,
};
use vstd::prelude::*;

verus! {

/// `n / d` rounded to the nearest integer, ties to even.
pub open spec fn round_half_even(n: nat, d: nat) -> nat {
    let q = n / d;
    let r = n % d;
    if 2 * r > d || (2 * r == d && q % 2 == 1) { q + 1 } else { q }
}

/// `s` puts `n` in the binade of 53-bit significands: `2^52 * 2^s <= n < 2^53 * 2^s`.
pub open spec fn int_shift(n: nat, s: nat) -> bool {
    pow2(52) * pow2(s) <= n && n < pow2(53) * pow2(s)
}

/// The number of low bits of `n` that do not fit a 53-bit significand.
pub open spec fn shed(n: nat) -> nat {
    if n < pow2(53) { 0 } else { choose|s: nat| int_shift(n, s) }
}

/// The significand of `n` rounded to 53 bits: `n` is then `significand(n) * 2^shed(n)`
/// once rounded.
pub open spec fn significand(n: nat) -> nat {
    round_half_even(n, pow2(shed(n)))
}

/// The binary64 value nearest to the count `n` (an integer).
pub open spec fn count_double(n: nat) -> nat {
    significand(n) * pow2(shed(n))
}

/// `e` puts `x / y` in the binade of 53-bit significands: `2^52 <= x * 2^e / y < 2^53`.
pub open spec fn quotient_shift(x: nat, y: nat, e: nat) -> bool {
    pow2(52) * y <= x * pow2(e) && x * pow2(e) < pow2(53) * y
}

/// The binary64 value nearest to `x / y`, for `0 <= x <= 4 * y`, as `(m, e)`.
pub open spec fn quotient(x: nat, y: nat) -> (nat, nat) {
    if x == 0 {
        (0, 52)
    } else {
        let e = choose|e: nat| quotient_shift(x, y, e);
        (round_half_even(x * pow2(e), y), e)
    }
}

/// The binary64 value nearest to `100 * v`, for a value `v` at most four.
pub open spec fn hundred_times(v: (nat, nat)) -> (nat, nat) {
    let n = 100 * v.0;
    (significand(n), (v.1 - shed(n)) as nat)
}

/// `v` printed with no decimals: the nearest integer, ties to even.
pub open spec fn fixed_0(v: (nat, nat)) -> nat {
    round_half_even(v.0, pow2(v.1))
}

/// `v` printed with two decimals, as hundredths: `100 * v` to the nearest
/// integer, ties to even.
pub open spec fn fixed_2(v: (nat, nat)) -> nat {
    round_half_even(100 * v.0, pow2(v.1))
}

/// The integer part of `v`.
pub open spec fn whole(v: (nat, nat)) -> nat {
    v.0 / pow2(v.1)
}

/// `v` is below the constant `t / 2^53`.
pub open spec fn below(v: (nat, nat), t: nat) -> bool {
    v.0 * pow2(53) < t * pow2(v.1)
}

/// 0.5 as binary64, in units of 2^-53.
pub open spec fn half_units() -> nat {
    4503599627370496
}

/// 0.7 as binary64, in units of 2^-53.
pub open spec fn point_seven_units() -> nat {
    6305039478318694
}

/// 0.8 as binary64, in units of 2^-53.
pub open spec fn point_eight_units() -> nat {
    7205759403792794
}

proof fn lemma_pow2_values()
    ensures
        pow2(0) == 1,
        pow2(13) == 0x2000,
        pow2(52) == 0x10000000000000,
        pow2(53) == 0x20000000000000,
        pow2(64) == 0x10000000000000000,
        pow2(66) == 0x40000000000000000,
        pow2(118) == 0x400000000000000000000000000000,
        pow2(119) == 0x800000000000000000000000000000,
        pow2(120) == 0x1000000000000000000000000000000,
{
    lemma2_to64();
    lemma2_to64_rest();
    lemma_pow2_adds(64, 2);
    lemma_pow2_adds(64, 54);
    lemma_pow2_adds(64, 55);
    lemma_pow2_adds(64, 56);
}

proof fn lemma_pow2_mono(a: nat, b: nat)
    requires
        a <= b,
    ensures
        pow2(a) <= pow2(b),
{
    if a < b {
        lemma_pow2_strictly_increases(a, b);
    }
}

/// `2^e` for `e <= 120`.
fn pow2_exec(e: u32) -> (r: u128)
    requires
        e <= 120,
    ensures
        r == pow2(e as nat),
        r <= 0x1000000000000000000000000000000,
{
    proof {
        lemma_pow2_values();
    }
    let mut p: u128 = 1;
    let mut k: u32 = 0;
    while k < e
        invariant
            k <= e <= 120,
            p == pow2(k as nat),
            pow2(120) == 0x1000000000000000000000000000000,
        decreases e - k,
    {
        proof {
            lemma_pow2_unfold((k + 1) as nat);
            lemma_pow2_mono((k + 1) as nat, 120);
        }
        p = p * 2;
        k = k + 1;
    }
    proof {
        lemma_pow2_mono(e as nat, 120);
    }
    p
}

/// `n / d` to the nearest integer, ties to even.
fn round_exec(n: u128, d: u128) -> (r: u128)
    requires
        0 < d <= 0x1000000000000000000000000000000,
    ensures
        r == round_half_even(n as nat, d as nat),
{
    let q = n / d;
    let rem = n % d;
    if 2 * rem > d || (2 * rem == d && q % 2 == 1) {
        assert(d >= 2);
        assert(q * d <= n) by (nonlinear_arith)
            requires
                q == n / d,
                d > 0,
        ;
        assert(q * 2 <= q * d) by (nonlinear_arith)
            requires
                d >= 2,
        ;
        q + 1
    } else {
        q
    }
}

proof fn lemma_shift_unique(n: nat, s: nat, t: nat)
    requires
        int_shift(n, s),
        int_shift(n, t),
    ensures
        s == t,
{
    lemma_pow2_values();
    if s < t {
        lemma_pow2_mono(s + 1, t);
        lemma_pow2_unfold(s + 1);
    } else if t < s {
        lemma_pow2_mono(t + 1, s);
        lemma_pow2_unfold(t + 1);
    }
}

/// The significand and shift of `n < 2^66`: `n` rounds to `m * 2^s`.
fn significand_exec(n: u128) -> (r: (u128, u32))
    requires
        n < 0x40000000000000000,
    ensures
        r.0 == significand(n as nat),
        r.1 == shed(n as nat),
        r.1 <= 13,
        r.0 <= 0x20000000000000,
        n < 0x20000000000000 ==> r.1 == 0 && r.0 == n,
        n >= 0x20000000000000 ==> int_shift(n as nat, r.1 as nat),
{
    proof {
        lemma_pow2_values();
    }
    let big: u128 = 0x20000000000000;
    if n < big {
        proof {
            assert(shed(n as nat) == 0);
            assert(round_half_even(n as nat, 1) == n) by (nonlinear_arith);
        }
        return (n, 0);
    }
    let mut s: u32 = 0;
    let mut p: u128 = 1;
    while n >= big * p
        invariant
            big == 0x20000000000000,
            p == pow2(s as nat),
            s <= 13,
            p <= 0x2000,
            n < 0x40000000000000000,
            n >= big,
            s > 0 ==> 0x10000000000000 * p <= n,
            pow2(13) == 0x2000,
        decreases 13 - s,
    {
        proof {
            if s == 13 {
                assert(p == 0x2000);
            }
            lemma_pow2_unfold((s + 1) as nat);
            lemma_pow2_mono((s + 1) as nat, 13);
        }
        p = p * 2;
        s = s + 1;
    }
    proof {
        assert(s > 0);
        assert(int_shift(n as nat, s as nat));
        let c = choose|t: nat| int_shift(n as nat, t);
        lemma_shift_unique(n as nat, s as nat, c);
        assert(shed(n as nat) == s);
    }
    let m = round_exec(n, p);
    proof {
        assert(n / p < 0x20000000000000) by (nonlinear_arith)
            requires
                n < 0x20000000000000 * p,
                p > 0,
        ;
    }
    (m, s)
}

/// The binary64 value nearest to the count `n < 2^66`.
pub fn count_double_exec(n: u128) -> (r: u128)
    requires
        n < 0x40000000000000000,
    ensures
        r == count_double(n as nat),
        r <= 0x40000000000000000,
        r <= 2 * n,
        n <= 2 * r,
{
    let (m, s) = significand_exec(n);
    proof {
        if n < 0x20000000000000 {
            assert(pow2(0) == 1) by {
                lemma_pow2_values();
            }
        } else {
            let p = pow2(s as nat);
            lemma_pow2_pos(s as nat);
            lemma_pow2_values();
            let q = n as nat / p;
            let rem = n as nat % p;
            assert(n == q * p + rem && rem < p) by (nonlinear_arith)
                requires
                    q == n as nat / p,
                    rem == n as nat % p,
                    p > 0,
            ;
            assert(q <= m <= q + 1);
            assert(q >= 1) by (nonlinear_arith)
                requires
                    n == q * p + rem,
                    rem < p,
                    0x10000000000000 * p <= n,
                    p > 0,
            ;
            assert(m * p <= 2 * n && n <= 2 * (m * p)) by (nonlinear_arith)
                requires
                    q <= m <= q + 1,
                    n == q * p + rem,
                    rem < p,
                    q >= 1,
                    p > 0,
            ;
        }
        lemma_pow2_values();
        lemma_pow2_mono(s as nat, 13);
        assert(m * pow2(s as nat) <= 0x20000000000000 * 0x2000) by (nonlinear_arith)
            requires
                m <= 0x20000000000000,
                pow2(s as nat) <= 0x2000,
        ;
    }
    let p = pow2_exec(s);
    m * p
}

proof fn lemma_quotient_shift_unique(x: nat, y: nat, e: nat, f: nat)
    requires
        quotient_shift(x, y, e),
        quotient_shift(x, y, f),
    ensures
        e == f,
{
    lemma_pow2_values();
    if e < f {
        lemma_pow2_mono(e + 1, f);
        lemma_pow2_unfold(e + 1);
        assert(x * pow2(f) >= 2 * (x * pow2(e))) by (nonlinear_arith)
            requires
                pow2(e + 1) <= pow2(f),
                pow2(e + 1) == 2 * pow2(e),
        ;
    } else if f < e {
        lemma_pow2_mono(f + 1, e);
        lemma_pow2_unfold(f + 1);
        assert(x * pow2(e) >= 2 * (x * pow2(f))) by (nonlinear_arith)
            requires
                pow2(f + 1) <= pow2(e),
                pow2(f + 1) == 2 * pow2(f),
        ;
    }
}

/// The binary64 value nearest to `x / y`, for `x <= 4 * y` and `0 < y <= 2^66`.
pub fn quotient_exec(x: u128, y: u128) -> (r: (u128, u32))
    requires
        x <= 4 * y,
        0 < y <= 0x40000000000000000,
    ensures
        (r.0 as nat, r.1 as nat) == quotient(x as nat, y as nat),
        r.0 <= 0x20000000000000,
        50 <= r.1 <= 119,
{
    proof {
        lemma_pow2_values();
    }
    if x == 0 {
        return (0, 52);
    }
    let limit: u128 = 0x10000000000000 * y;
    let mut e: u32 = 0;
    let mut xe: u128 = x;
    while xe < limit
        invariant
            0 < x <= 4 * y,
            y <= 0x40000000000000000,
            limit == 0x10000000000000 * y,
            xe == x * pow2(e as nat),
            xe < 0x20000000000000 * y,
            pow2(118) == 0x400000000000000000000000000000,
        decreases 118 - e,
    {
        proof {
            if e >= 118 {
                lemma_pow2_mono(118, e as nat);
                assert(xe >= pow2(118)) by (nonlinear_arith)
                    requires
                        xe == x * pow2(e as nat),
                        x >= 1,
                        pow2(e as nat) >= pow2(118),
                ;
            }
            lemma_pow2_unfold((e + 1) as nat);
            assert(x * pow2((e + 1) as nat) == 2 * xe) by (nonlinear_arith)
                requires
                    pow2((e + 1) as nat) == 2 * pow2(e as nat),
                    xe == x * pow2(e as nat),
            ;
        }
        xe = xe * 2;
        e = e + 1;
    }
    proof {
        assert(quotient_shift(x as nat, y as nat, e as nat));
        let c = choose|f: nat| quotient_shift(x as nat, y as nat, f);
        lemma_quotient_shift_unique(x as nat, y as nat, e as nat, c);
        assert(e >= 50) by {
            if e < 50 {
                lemma_pow2_mono(e as nat, 49);
                lemma2_to64_rest();
                assert(x * pow2(e as nat) <= 4 * y * 0x2000000000000) by (nonlinear_arith)
                    requires
                        x <= 4 * y,
                        pow2(e as nat) <= 0x2000000000000,
                ;
            }
        }
        assert(e <= 119) by {
            if e > 119 {
                lemma_pow2_mono(119, e as nat);
                assert(xe >= pow2(119)) by (nonlinear_arith)
                    requires
                        xe == x * pow2(e as nat),
                        x >= 1,
                        pow2(e as nat) >= pow2(119),
                ;
            }
        }
    }
    let m = round_exec(xe, y);
    proof {
        assert(xe / y < 0x20000000000000) by (nonlinear_arith)
            requires
                xe < 0x20000000000000 * y,
                y > 0,
        ;
    }
    (m, e)
}

/// The binary64 value nearest to `100 * v`, for `v = m / 2^e` at most four.
pub fn hundred_times_exec(v: (u128, u32)) -> (r: (u128, u32))
    requires
        v.0 <= 0x20000000000000,
        50 <= v.1 <= 119,
    ensures
        (r.0 as nat, r.1 as nat) == hundred_times((v.0 as nat, v.1 as nat)),
        r.0 <= 0x20000000000000,
        37 <= r.1 <= 119,
{
    let n = 100 * v.0;
    let (m, s) = significand_exec(n);
    (m, v.1 - s)
}

/// `k * v` to the nearest integer, ties to even, for `v = m / 2^e`.
fn scaled_round_exec(v: (u128, u32), k: u128) -> (r: u128)
    requires
        v.0 <= 0x20000000000000,
        v.1 <= 119,
        k <= 100,
    ensures
        r == round_half_even((k * v.0) as nat, pow2(v.1 as nat)),
{
    let p = pow2_exec(v.1);
    proof {
        lemma_pow2_pos(v.1 as nat);
        assert(k * v.0 <= 100 * 0x20000000000000) by (nonlinear_arith)
            requires
                k <= 100,
                v.0 <= 0x20000000000000,
        ;
    }
    round_exec(k * v.0, p)
}

/// `v` printed with no decimals.
pub fn fixed_0_exec(v: (u128, u32)) -> (r: u128)
    requires
        v.0 <= 0x20000000000000,
        v.1 <= 119,
    ensures
        r == fixed_0((v.0 as nat, v.1 as nat)),
{
    scaled_round_exec(v, 1)
}

/// `v` printed with two decimals, as hundredths.
pub fn fixed_2_exec(v: (u128, u32)) -> (r: u128)
    requires
        v.0 <= 0x20000000000000,
        v.1 <= 119,
    ensures
        r == fixed_2((v.0 as nat, v.1 as nat)),
{
    scaled_round_exec(v, 100)
}

/// The integer part of `v`.
pub fn whole_exec(v: (u128, u32)) -> (r: u128)
    requires
        v.0 <= 0x20000000000000,
        v.1 <= 119,
    ensures
        r == whole((v.0 as nat, v.1 as nat)),
{
    let p = pow2_exec(v.1);
    proof {
        lemma_pow2_pos(v.1 as nat);
    }
    v.0 / p
}

/// Whether `v` is below the constant `t / 2^53`.
pub fn below_exec(v: (u128, u32), t: u128) -> (r: bool)
    requires
        v.0 <= 0x20000000000000,
        v.1 <= 119,
        t <= 0x20000000000000,
    ensures
        r == below((v.0 as nat, v.1 as nat), t as nat),
{
    proof {
        lemma_pow2_values();
    }
    if v.1 >= 53 {
        let p = pow2_exec(v.1 - 53);
        proof {
            lemma_pow2_adds(53, (v.1 - 53) as nat);
            lemma_pow2_mono((v.1 - 53) as nat, 66);
            assert(t * p <= 0x20000000000000 * 0x40000000000000000) by (nonlinear_arith)
                requires
                    t <= 0x20000000000000,
                    p <= 0x40000000000000000,
            ;
            assert(v.0 * pow2(53) < t * pow2(v.1 as nat) <==> v.0 < t * p) by (nonlinear_arith)
                requires
                    pow2(v.1 as nat) == pow2(53) * p,
                    pow2(53) > 0,
            ;
        }
        v.0 < t * p
    } else {
        let p = pow2_exec(53 - v.1);
        proof {
            lemma_pow2_adds(v.1 as nat, (53 - v.1) as nat);
            lemma_pow2_mono((53 - v.1) as nat, 53);
            lemma_pow2_pos(v.1 as nat);
            assert(v.0 * p <= 0x20000000000000 * 0x20000000000000) by (nonlinear_arith)
                requires
                    v.0 <= 0x20000000000000,
                    p <= 0x20000000000000,
            ;
            assert(v.0 * pow2(53) < t * pow2(v.1 as nat) <==> v.0 * p < t) by (nonlinear_arith)
                requires
                    pow2(53) == pow2(v.1 as nat) * p,
                    pow2(v.1 as nat) > 0,
            ;
        }
        v.0 * p < t
    }
}

} // verus!
