//! Rounding of exact rationals to binary32, the 32-bit IEEE 754 format.
//!
//! Every finite binary32 magnitude is a whole number of *units* of 2^-149, the
//! least positive one.  A rational `n / d` of units is rounded to the closest
//! magnitude, ties going to the even bit pattern, and the result is given as
//! the magnitude's bit pattern (the 31 bits below the sign).
use vstd::arithmetic::div_mod::{
    lemma_basic_div, lemma_div_is_ordered, lemma_fundamental_div_mod,
    lemma_fundamental_div_mod_converse, lemma_small_mod,
};
use vstd::arithmetic::mul::{lemma_mul_inequality, lemma_mul_is_commutative};
use vstd::arithmetic::power2::{
    lemma2_to64, lemma2_to64_rest, lemma_pow2_adds, lemma_pow2_pos, lemma_pow2_strictly_increases,
    lemma_pow2_unfold, pow2,
};
use vstd::bits::lemma_u64_shr_is_div;
use vstd::prelude::*;

verus! {

/// Bit pattern of the infinite magnitude; the larger ones are NaN.
pub const INFINITE: u32 = 0x7f80_0000;

/// 2^23, the weight of the exponent field and the implicit leading bit of the
/// significand.
pub const IMPLICIT: u32 = 0x0080_0000;

/// 2^24, one more than the largest significand.
pub const SIGNIFICANDS: u32 = 0x0100_0000;

/// The integer nearest to `n / d`; of two equally near, the even one.
pub open spec fn half_even(n: nat, d: nat) -> nat {
    let q = n / d;
    let r = n % d;
    if 2 * r < d || (2 * r == d && q % 2 == 0) {
        q
    } else {
        q + 1
    }
}

/// At `n / d` units the magnitudes are `2^t` units apart: the least `t` for
/// which a significand of 24 bits reaches beyond `n / d`.
pub open spec fn has_spacing(n: nat, d: nat, t: nat) -> bool {
    &&& n < SIGNIFICANDS * (d * pow2(t))
    &&& t == 0 || IMPLICIT * (d * pow2(t)) <= n
}

/// The exponent `t` of the spacing at `n / d` units.
pub open spec fn spacing(n: nat, d: nat) -> nat {
    choose|t: nat| has_spacing(n, d, t)
}

/// The bit pattern of the magnitude nearest to `n / d` units, ties to even,
/// and the infinite one where that lies beyond the largest finite magnitude.
pub open spec fn nearest(n: nat, d: nat) -> nat {
    let t = spacing(n, d);
    let bits = (t * IMPLICIT + half_even(n, d * pow2(t))) as nat;
    if bits < INFINITE {
        bits
    } else {
        INFINITE as nat
    }
}

/// No rational has two spacings.
proof fn lemma_spacing_unique(n: nat, d: nat, s: nat, t: nat)
    requires
        d > 0,
        has_spacing(n, d, s),
        has_spacing(n, d, t),
    ensures
        s == t,
{
    if s < t {
        lemma_spacing_separates(d, s, t);
    } else if t < s {
        lemma_spacing_separates(d, t, s);
    }
}

/// A coarser spacing starts where a finer one ends.
proof fn lemma_spacing_separates(d: nat, s: nat, t: nat)
    requires
        s < t,
    ensures
        SIGNIFICANDS * (d * pow2(s)) <= IMPLICIT * (d * pow2(t)),
{
    lemma_pow2_unfold((s + 1) as nat);
    if s + 1 < t {
        lemma_pow2_strictly_increases((s + 1) as nat, t);
    }
    assert(2 * (d * pow2(s)) <= d * pow2(t)) by (nonlinear_arith)
        requires
            2 * pow2(s) <= pow2(t),
            d >= 0,
    ;
}

/// Every rational has a spacing.
pub proof fn lemma_spacing_exists(n: nat, d: nat)
    requires
        d > 0,
    ensures
        has_spacing(n, d, spacing(n, d)),
{
    lemma_below_pow2(n);
    assert(n < SIGNIFICANDS * (d * pow2(n))) by (nonlinear_arith)
        requires
            n < pow2(n),
            d > 0,
    ;
    lemma_spacing_at_most(n, d, n);
}

proof fn lemma_below_pow2(n: nat)
    ensures
        n < pow2(n),
    decreases n,
{
    lemma_pow2_pos(n);
    if n > 0 {
        lemma_below_pow2((n - 1) as nat);
        lemma_pow2_unfold(n);
    }
}

/// Where some spacing is coarse enough, one of those up to it is the spacing.
proof fn lemma_spacing_at_most(n: nat, d: nat, t: nat)
    requires
        n < SIGNIFICANDS * (d * pow2(t)),
    ensures
        exists|s: nat| has_spacing(n, d, s),
    decreases t,
{
    if t > 0 && n < IMPLICIT * (d * pow2(t)) {
        lemma_pow2_unfold(t);
        let p = pow2((t - 1) as nat);
        assert(IMPLICIT * (d * (2 * p)) == SIGNIFICANDS * (d * p)) by (nonlinear_arith);
        lemma_spacing_at_most(n, d, (t - 1) as nat);
    } else {
        assert(has_spacing(n, d, t));
    }
}

/// `spacing` names the one spacing there is.
pub proof fn lemma_spacing_is(n: nat, d: nat, t: nat)
    requires
        d > 0,
        has_spacing(n, d, t),
    ensures
        spacing(n, d) == t,
{
    lemma_spacing_unique(n, d, spacing(n, d), t);
}

/// `half_even` depends on the quotient alone.
proof fn lemma_half_even_scales(n: nat, d: nat, c: nat)
    requires
        d > 0,
        c > 0,
    ensures
        half_even(n * c, d * c) == half_even(n, d),
{
    let q = n / d;
    let r = n % d;
    lemma_fundamental_div_mod(n as int, d as int);
    assert(n * c == q * (d * c) + r * c) by (nonlinear_arith)
        requires
            n == d * q + r,
    ;
    assert(0 <= r * c < d * c) by (nonlinear_arith)
        requires
            0 <= r < d,
            c > 0,
    ;
    assert(d * c > 0) by (nonlinear_arith)
        requires
            d > 0,
            c > 0,
    ;
    lemma_fundamental_div_mod_converse((n * c) as int, (d * c) as int, q as int, (r * c) as int);
    assert(2 * (r * c) < d * c <==> 2 * r < d) by (nonlinear_arith)
        requires
            c > 0,
    ;
    assert(2 * (r * c) == d * c <==> 2 * r == d) by (nonlinear_arith)
        requires
            c > 0,
    ;
}

/// `half_even` is monotone.
proof fn lemma_half_even_monotone(m: nat, n: nat, d: nat)
    requires
        d > 0,
        m <= n,
    ensures
        half_even(m, d) <= half_even(n, d),
{
    lemma_fundamental_div_mod(m as int, d as int);
    lemma_fundamental_div_mod(n as int, d as int);
    lemma_div_is_ordered(m as int, n as int, d as int);
    if m / d == n / d {
        assert(m % d <= n % d);
    }
}

/// `half_even` stays between the integers around the quotient.
pub proof fn lemma_half_even_bounds(n: nat, d: nat, low: nat, high: nat)
    requires
        d > 0,
        low * d <= n < high * d,
    ensures
        low <= half_even(n, d) <= high,
{
    let q = n / d;
    let r = n % d;
    lemma_fundamental_div_mod(n as int, d as int);
    assert(low <= q && q < high) by (nonlinear_arith)
        requires
            n == d * q + r,
            0 <= r < d,
            low * d <= n < high * d,
    ;
}

/// `nearest` in terms of a fraction with the same quotient.
proof fn lemma_nearest_from(n: nat, d: nat, t: nat, num: nat, den: nat, c: nat)
    requires
        d > 0,
        den > 0,
        c > 0,
        n == num * c,
        d * pow2(t) == den * c,
        num < SIGNIFICANDS * den,
        t == 0 || IMPLICIT * den <= num,
    ensures
        spacing(n, d) == t,
        half_even(n, d * pow2(t)) == half_even(num, den),
{
    assert(n < SIGNIFICANDS * (d * pow2(t))) by (nonlinear_arith)
        requires
            n == num * c,
            d * pow2(t) == den * c,
            num < SIGNIFICANDS * den,
            c > 0,
    ;
    if t != 0 {
        assert(IMPLICIT * (d * pow2(t)) <= n) by (nonlinear_arith)
            requires
                n == num * c,
                d * pow2(t) == den * c,
                IMPLICIT * den <= num,
                c > 0,
        ;
    }
    lemma_spacing_is(n, d, t);
    lemma_half_even_scales(num, den, c);
}

/// `nearest` depends on the quotient alone.
pub proof fn lemma_nearest_of_equal(m: nat, c: nat, n: nat, d: nat)
    requires
        c > 0,
        d > 0,
        m * d == n * c,
    ensures
        nearest(m, c) == nearest(n, d),
{
    lemma_nearest_scales(m, c, d);
    lemma_nearest_scales(n, d, c);
    lemma_mul_is_commutative(c as int, d as int);
}

proof fn lemma_nearest_scales(n: nat, d: nat, c: nat)
    requires
        d > 0,
        c > 0,
    ensures
        nearest(n * c, d * c) == nearest(n, d),
{
    lemma_spacing_exists(n, d);
    let t = spacing(n, d);
    let p = pow2(t);
    lemma_pow2_pos(t);
    assert((d * c) * p == (d * p) * c) by (nonlinear_arith);
    assert(d * c > 0 && d * p > 0) by (nonlinear_arith)
        requires
            d > 0,
            c > 0,
            p > 0,
    ;
    lemma_nearest_from(n * c, d * c, t, n, d * p, c);
}

/// Rounding is monotone: a larger quotient does not round to a smaller
/// magnitude.
pub proof fn lemma_nearest_monotone(m: nat, c: nat, n: nat, d: nat)
    requires
        c > 0,
        d > 0,
        m * d <= n * c,
    ensures
        nearest(m, c) <= nearest(n, d),
{
    lemma_nearest_scales(m, c, d);
    lemma_nearest_scales(n, d, c);
    lemma_mul_is_commutative(c as int, d as int);
    assert(c * d > 0) by (nonlinear_arith)
        requires
            c > 0,
            d > 0,
    ;
    lemma_nearest_monotone_over(m * d, n * c, c * d);
}

proof fn lemma_nearest_monotone_over(m: nat, n: nat, d: nat)
    requires
        d > 0,
        m <= n,
    ensures
        nearest(m, d) <= nearest(n, d),
{
    lemma_spacing_exists(m, d);
    lemma_spacing_exists(n, d);
    let s = spacing(m, d);
    let t = spacing(n, d);
    lemma_pow2_pos(s);
    lemma_pow2_pos(t);
    assert(d * pow2(s) > 0 && d * pow2(t) > 0) by (nonlinear_arith)
        requires
            d > 0,
            pow2(s) > 0,
            pow2(t) > 0,
    ;
    if t < s {
        lemma_spacing_separates(d, t, s);
    } else if s == t {
        lemma_half_even_monotone(m, n, d * pow2(t));
    } else {
        lemma_half_even_bounds(m, d * pow2(s), 0, SIGNIFICANDS as nat);
        lemma_half_even_bounds(n, d * pow2(t), IMPLICIT as nat, SIGNIFICANDS as nat);
        assert((s + 1) * IMPLICIT <= t * IMPLICIT);
    }
}

/// Twice a rational that is no less than the least normal magnitude rounds to
/// the magnitude one binade up.
pub proof fn lemma_nearest_doubles(n: nat, d: nat)
    requires
        d > 0,
        IMPLICIT * d <= n,
        nearest(n, d) + IMPLICIT < INFINITE,
    ensures
        nearest(n, d) >= IMPLICIT,
        nearest(2 * n, d) == nearest(n, d) + IMPLICIT,
{
    let t = spacing(n, d);
    let p = pow2(t);
    let w = d * p;
    lemma2_to64();
    lemma_spacing_exists(n, d);
    lemma_pow2_pos(t);
    lemma_pow2_unfold((t + 1) as nat);
    assert(w > 0) by (nonlinear_arith)
        requires
            w == d * p,
            d > 0,
            p > 0,
    ;
    assert(d * (2 * p) == 2 * w) by (nonlinear_arith)
        requires
            w == d * p,
    ;
    assert(p == 1 ==> w == d) by (nonlinear_arith)
        requires
            w == d * p,
    ;
    assert(has_spacing(2 * n, d, (t + 1) as nat));
    lemma_spacing_is(2 * n, d, (t + 1) as nat);
    lemma_half_even_scales(n, w, 2);
    lemma_half_even_bounds(n, w, IMPLICIT as nat, SIGNIFICANDS as nat);
}

/// Shifting one to the left by `s` gives the power of two.
proof fn lemma_one_shifted(s: u32)
    requires
        s < 128,
    ensures
        1u128 << s == pow2(s as nat),
    decreases s,
{
    if s == 0 {
        assert(1u128 << 0u32 == 1u128) by (bit_vector);
        lemma2_to64();
    } else {
        let r: u32 = (s - 1) as u32;
        lemma_one_shifted(r);
        lemma_pow2_unfold(s as nat);
        assert(1u128 << s == 2 * (1u128 << r)) by (bit_vector)
            requires
                0 < s < 128,
                r == s - 1,
        ;
    }
}

/// The number of binary digits of `n`.
fn bit_length(n: u64) -> (length: u32)
    requires
        n > 0,
    ensures
        1 <= length <= 64,
        pow2((length - 1) as nat) <= n < pow2(length as nat),
{
    let mut rest: u64 = n;
    let mut dropped: u32 = 0;
    let mut step: u32 = 32;
    proof {
        lemma2_to64();
        lemma2_to64_rest();
    }
    while step > 0
        invariant
            step == 32 || step == 16 || step == 8 || step == 4 || step == 2 || step == 1 || step
                == 0,
            dropped + 2 * step <= 64,
            dropped <= 63,
            step > 0 ==> rest < pow2((2 * step) as nat),
            step == 0 ==> rest < 2,
            rest > 0,
            rest * pow2(dropped as nat) <= n < (rest + 1) * pow2(dropped as nat),
        decreases step,
    {
        proof {
            lemma2_to64();
            lemma2_to64_rest();
        }
        let high: u64 = rest >> step;
        proof {
            lemma_u64_shr_is_div(rest, step as u64);
            lemma_fundamental_div_mod(rest as int, pow2(step as nat) as int);
        }
        if high > 0 {
            proof {
                let p = pow2(step as nat) as int;
                let w = pow2(dropped as nat) as int;
                lemma_pow2_adds(dropped as nat, step as nat);
                assert(high * (w * p) <= rest * w) by (nonlinear_arith)
                    requires
                        high * p <= rest,
                        w >= 0,
                ;
                assert((rest + 1) * w <= (high + 1) * (w * p)) by (nonlinear_arith)
                    requires
                        rest + 1 <= (high + 1) * p,
                        w >= 0,
                ;
                lemma_pow2_adds(step as nat, step as nat);
                assert(high < p) by (nonlinear_arith)
                    requires
                        high * p <= rest,
                        rest < p * p,
                        p > 0,
                ;
            }
            rest = high;
            dropped = dropped + step;
        }
        step = step / 2;
    }
    proof {
        lemma_pow2_unfold((dropped + 1) as nat);
        assert((rest + 1) * pow2(dropped as nat) == 2 * pow2(dropped as nat)) by (nonlinear_arith)
            requires
                rest == 1,
        ;
        assert(rest * pow2(dropped as nat) == pow2(dropped as nat)) by (nonlinear_arith)
            requires
                rest == 1,
        ;
    }
    dropped + 1
}

/// `num * 2^-shift / den` as a fraction of integers.
pub open spec fn shifted(num: nat, den: nat, shift: int) -> (nat, nat) {
    if shift >= 0 {
        (num, den * pow2(shift as nat))
    } else {
        (num * pow2((-shift) as nat), den)
    }
}

fn shift_fraction(num: u64, den: u64, shift: i32) -> (f: (u128, u128))
    requires
        -63 <= shift < 100,
        den < SIGNIFICANDS,
    ensures
        (f.0 as nat, f.1 as nat) == shifted(num as nat, den as nat, shift as int),
        f.1 < 0x1000_0000_0000_0000_0000_0000_0000_0000,
{
    proof {
        lemma2_to64();
        lemma2_to64_rest();
    }
    if shift >= 0 {
        let s: u32 = shift as u32;
        proof {
            lemma_one_shifted(s);
            lemma_pow2_strictly_increases(s as nat, 100);
            lemma_pow2_adds(64, 36);
            assert(den * pow2(s as nat) < SIGNIFICANDS * pow2(100)) by (nonlinear_arith)
                requires
                    den < SIGNIFICANDS,
                    pow2(s as nat) < pow2(100),
            ;
        }
        (num as u128, den as u128 * (1u128 << s))
    } else {
        let s: u32 = (-shift) as u32;
        proof {
            lemma_one_shifted(s);
            lemma_pow2_strictly_increases(s as nat, 64);
            assert(num * pow2(s as nat) <= 0x1_0000_0000_0000_0000 * pow2(s as nat))
                by (nonlinear_arith)
                requires
                    num <= 0x1_0000_0000_0000_0000,
            ;
            assert(pow2(s as nat) <= 0x8000_0000_0000_0000) by {
                if s < 63 {
                    lemma_pow2_strictly_increases(s as nat, 63);
                }
            }
        }
        (num as u128 * (1u128 << s), den as u128)
    }
}

fn divide_half_even(n: u128, d: u128) -> (q: u128)
    requires
        0 < d < 0x1000_0000_0000_0000_0000_0000_0000_0000,
        n < SIGNIFICANDS * d,
    ensures
        q == half_even(n as nat, d as nat),
        q <= SIGNIFICANDS,
{
    proof {
        lemma_half_even_bounds(n as nat, d as nat, 0, SIGNIFICANDS as nat);
        lemma_fundamental_div_mod(n as int, d as int);
        assert(n / d < SIGNIFICANDS) by (nonlinear_arith)
            requires
                n == d * (n / d) + n % d,
                n % d >= 0,
                n < SIGNIFICANDS * d,
        ;
    }
    let q: u128 = n / d;
    let r: u128 = n % d;
    if 2 * r < d || (2 * r == d && q % 2 == 0) {
        q
    } else {
        q + 1
    }
}

/// A larger shift does not enlarge the fraction.
proof fn lemma_shifted_shrinks(num: nat, den: nat, low: int, high: int)
    requires
        low <= high,
    ensures
        shifted(num, den, high).0 <= shifted(num, den, low).0,
        shifted(num, den, low).1 <= shifted(num, den, high).1,
{
    lemma_pow2_pos(low as nat);
    lemma_pow2_pos(high as nat);
    lemma_pow2_pos((-low) as nat);
    lemma_pow2_pos((-high) as nat);
    if low >= 0 {
        if low < high {
            lemma_pow2_strictly_increases(low as nat, high as nat);
        }
        lemma_mul_inequality(pow2(low as nat) as int, pow2(high as nat) as int, den as int);
        lemma_mul_is_commutative(den as int, pow2(low as nat) as int);
        lemma_mul_is_commutative(den as int, pow2(high as nat) as int);
    } else {
        lemma_mul_inequality(1, pow2((-low) as nat) as int, num as int);
        lemma_mul_is_commutative(num as int, pow2((-low) as nat) as int);
        if high >= 0 {
            lemma_mul_inequality(1, pow2(high as nat) as int, den as int);
            lemma_mul_is_commutative(den as int, pow2(high as nat) as int);
        } else {
            if low < high {
                lemma_pow2_strictly_increases((-high) as nat, (-low) as nat);
            }
            lemma_mul_inequality(
                pow2((-high) as nat) as int,
                pow2((-low) as nat) as int,
                num as int,
            );
            lemma_mul_is_commutative(num as int, pow2((-high) as nat) as int);
        }
    }
}

/// One more place of shift halves the fraction.
proof fn lemma_shifted_halves(num: nat, den: nat, shift: int)
    ensures
        shift >= 0 ==> shifted(num, den, shift + 1).1 == 2 * shifted(num, den, shift).1,
        shift >= 0 ==> shifted(num, den, shift + 1).0 == shifted(num, den, shift).0,
        shift < 0 ==> shifted(num, den, shift).0 == 2 * shifted(num, den, shift + 1).0,
        shift < 0 ==> shifted(num, den, shift + 1).1 == shifted(num, den, shift).1,
{
    if shift >= 0 {
        let p = pow2(shift as nat);
        lemma_pow2_unfold((shift + 1) as nat);
        assert(den * (2 * p) == 2 * (den * p)) by (nonlinear_arith);
    } else if shift == -1 {
        lemma2_to64();
        assert(num * pow2(1) == 2 * num && den * pow2(0) == den) by (nonlinear_arith)
            requires
                pow2(1) == 2,
                pow2(0) == 1,
        ;
    } else {
        let p = pow2((-shift - 1) as nat);
        lemma_pow2_unfold((-shift) as nat);
        assert(num * (2 * p) == 2 * (num * p)) by (nonlinear_arith);
    }
}

/// The bit lengths of two numbers bound the quotient within a factor of four.
proof fn lemma_lengths_bound_quotient(num: nat, den: nat, a: nat, b: nat)
    requires
        a >= 1,
        b >= 1,
        pow2((a - 1) as nat) <= num < pow2(a),
        pow2((b - 1) as nat) <= den < pow2(b),
    ensures
        ({
            let f = shifted(num, den, a - b - 24);
            IMPLICIT * f.1 <= f.0 && f.0 < 2 * SIGNIFICANDS * f.1
        }),
{
    lemma2_to64();
    let y = a - b - 24;
    if y >= 0 {
        let p = pow2(y as nat);
        lemma_pow2_pos(y as nat);
        // num >= 2^(a-1) = 2^23 * 2^b * 2^y
        lemma_pow2_adds(23, b);
        lemma_pow2_adds(23 + b, y as nat);
        assert(IMPLICIT * (den * p) <= num) by (nonlinear_arith)
            requires
                den <= pow2(b),
                p >= 0,
                (IMPLICIT * pow2(b)) * p <= num,
        ;
        // num < 2^a = 2^25 * 2^(b-1) * 2^y
        lemma_pow2_adds(25, (b - 1) as nat);
        lemma_pow2_adds((25 + (b - 1)) as nat, y as nat);
        assert(num < 2 * SIGNIFICANDS * (den * p)) by (nonlinear_arith)
            requires
                pow2((b - 1) as nat) <= den,
                p >= 0,
                num < ((2 * SIGNIFICANDS) * pow2((b - 1) as nat)) * p,
        ;
    } else {
        let s = (-y) as nat;
        let p = pow2(s);
        lemma_pow2_pos(s);
        lemma_pow2_adds((a - 1) as nat, s);
        lemma_pow2_adds(23, b);
        assert(((a - 1) as nat) + s == 23 + b);
        assert(IMPLICIT * den <= num * p) by (nonlinear_arith)
            requires
                den <= pow2(b),
                pow2((a - 1) as nat) <= num,
                p >= 0,
                pow2((a - 1) as nat) * p == IMPLICIT * pow2(b),
        ;
        lemma_pow2_adds(a, s);
        lemma_pow2_adds(25, (b - 1) as nat);
        assert(a + s == 25 + (b - 1));
        assert(num * p < 2 * SIGNIFICANDS * den) by (nonlinear_arith)
            requires
                pow2((b - 1) as nat) <= den,
                num < pow2(a),
                p > 0,
                pow2(a) * p == (2 * SIGNIFICANDS) * pow2((b - 1) as nat),
        ;
    }
}

/// The power of two that takes a shifted fraction back to one over the
/// spacing.
proof fn lemma_shifted_over_spacing(num: nat, den: nat, x: int, shift: int) -> (c: nat)
    requires
        x + shift >= 0,
    ensures
        c > 0,
        shifted(num, den, -x).0 == shifted(num, den, shift).0 * c,
        shifted(num, den, -x).1 * pow2((x + shift) as nat) == shifted(num, den, shift).1 * c,
{
    lemma2_to64();
    let t = (x + shift) as nat;
    if shift >= 0 {
        if x > 0 {
            lemma_pow2_pos(x as nat);
            lemma_pow2_adds(shift as nat, x as nat);
            assert(den * (pow2(shift as nat) * pow2(x as nat)) == (den * pow2(shift as nat)) * pow2(
                x as nat,
            )) by (nonlinear_arith);
            pow2(x as nat)
        } else {
            lemma_pow2_adds((-x) as nat, t);
            assert((den * pow2((-x) as nat)) * pow2(t) == den * (pow2((-x) as nat) * pow2(t)))
                by (nonlinear_arith);
            assert((-x) as nat + t == shift as nat);
            1
        }
    } else {
        lemma_pow2_pos(t);
        lemma_pow2_adds((-shift) as nat, t);
        assert((-shift) as nat + t == x as nat);
        assert(num * (pow2((-shift) as nat) * pow2(t)) == (num * pow2((-shift) as nat)) * pow2(t))
            by (nonlinear_arith);
        pow2(t)
    }
}

/// The shift that leaves a quotient of exactly 24 bits.
fn normalizing_shift(num: u64, den: u64) -> (shift: i32)
    requires
        num > 0,
        0 < den < SIGNIFICANDS,
    ensures
        -47 <= shift <= 40,
        ({
            let f = shifted(num as nat, den as nat, shift as int);
            IMPLICIT * f.1 <= f.0 && f.0 < SIGNIFICANDS * f.1
        }),
{
    let a: u32 = bit_length(num);
    let b: u32 = bit_length(den);
    proof {
        lemma2_to64();
        if b > 24 {
            if b > 25 {
                lemma_pow2_strictly_increases(24, (b - 1) as nat);
            }
        }
        lemma_lengths_bound_quotient(num as nat, den as nat, a as nat, b as nat);
    }
    let shift: i32 = a as i32 - b as i32 - 24;
    let f: (u128, u128) = shift_fraction(num, den, shift);
    if f.0 / (SIGNIFICANDS as u128) >= f.1 {
        proof {
            lemma_shifted_halves(num as nat, den as nat, shift as int);
        }
        shift + 1
    } else {
        shift
    }
}

/// The bit pattern of the magnitude nearest to `num * 2^x / den` units.
pub(crate) fn nearest_scaled(num: u64, den: u64, x: i32) -> (bits: u32)
    requires
        0 < den < SIGNIFICANDS,
        -1000 <= x <= 450,
    ensures
        bits == nearest(
            shifted(num as nat, den as nat, -x).0,
            shifted(num as nat, den as nat, -x).1,
        ),
        bits <= INFINITE,
{
    let ghost n = shifted(num as nat, den as nat, -x).0;
    let ghost d = shifted(num as nat, den as nat, -x).1;
    proof {
        lemma2_to64();
        lemma_pow2_pos((-x) as nat);
        assert(d > 0) by (nonlinear_arith)
            requires
                d == den || d == den * pow2((-x) as nat),
                den > 0,
                pow2((-x) as nat) > 0,
        ;
    }
    if num == 0 {
        proof {
            assert(n == 0) by (nonlinear_arith)
                requires
                    n == 0 || n == 0 * pow2(x as nat),
            ;
            assert(has_spacing(n, d, 0));
            lemma_spacing_is(n, d, 0);
        }
        return 0;
    }
    let fine: i32 = normalizing_shift(num, den);
    let shift: i32 = if fine < -x {
        -x
    } else {
        fine
    };
    let ghost f = shifted(num as nat, den as nat, shift as int);
    let ghost t = (x + shift) as nat;
    proof {
        lemma_shifted_shrinks(num as nat, den as nat, fine as int, shift as int);
        let c = lemma_shifted_over_spacing(num as nat, den as nat, x as int, shift as int);
        lemma_pow2_pos(shift as nat);
        assert(f.1 > 0) by (nonlinear_arith)
            requires
                f.1 == den || f.1 == den * pow2(shift as nat),
                den > 0,
                pow2(shift as nat) > 0,
        ;
        lemma_nearest_from(n, d, t, f.0, f.1, c);
    }
    if shift >= 100 {
        proof {
            // The quotient is far below one half.
            lemma_pow2_adds(64, 36);
            if shift > 100 {
                lemma_pow2_strictly_increases(100, shift as nat);
            }
            assert(f.1 >= pow2(100)) by (nonlinear_arith)
                requires
                    f.1 == den * pow2(shift as nat),
                    den >= 1,
                    pow2(shift as nat) >= pow2(100),
            ;
            lemma2_to64_rest();
            lemma_small_mod(f.0, f.1);
            lemma_basic_div(f.0 as int, f.1 as int);
        }
        return 0;
    }
    let g: (u128, u128) = shift_fraction(num, den, shift);
    let q: u128 = divide_half_even(g.0, g.1);
    let bits: u64 = (x + shift) as u64 * IMPLICIT as u64 + q as u64;
    if bits < INFINITE as u64 {
        bits as u32
    } else {
        INFINITE
    }
}

} // verus!
