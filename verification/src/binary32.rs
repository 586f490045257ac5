//! IEEE 754 binary32 numbers, held as bit patterns, with arithmetic that is
//! correctly rounded (to nearest, ties to even).
use crate::rounding::{
    has_spacing, lemma_nearest_of_equal, lemma_spacing_is, nearest, nearest_scaled, shifted,
    IMPLICIT, INFINITE, SIGNIFICANDS,
};
use vstd::arithmetic::div_mod::lemma_fundamental_div_mod_converse;
use vstd::arithmetic::power2::{
    lemma2_to64, lemma_pow2_adds, lemma_pow2_pos, lemma_pow2_strictly_increases,
    lemma_pow2_unfold, pow2,
};
use vstd::bits::lemma_u64_shl_is_mul;
use vstd::prelude::*;

verus! {

/// The sign bit.
pub const SIGN: u32 = 0x8000_0000;

/// The bit pattern of the NaN that arithmetic returns.
pub const QUIET_NAN: u32 = 0x7fc0_0000;

/// `2^UNIT_EXPONENT` units make one.
pub const UNIT_EXPONENT: u32 = 149;

/// A binary32 number.
#[derive(Clone, Copy, Debug, PartialEq, Eq, Structural)]
pub struct Binary32 {
    pub bits: u32,
}

impl Binary32 {
    /// Whether the sign bit is set.
    pub open spec fn negative(self) -> bool {
        self.bits >= SIGN
    }

    /// The bit pattern of the absolute value.
    pub open spec fn magnitude(self) -> u32 {
        if self.negative() {
            (self.bits - SIGN) as u32
        } else {
            self.bits
        }
    }

    pub open spec fn nan(self) -> bool {
        self.magnitude() > INFINITE
    }

    pub open spec fn infinite(self) -> bool {
        self.magnitude() == INFINITE
    }

    pub open spec fn finite(self) -> bool {
        self.magnitude() < INFINITE
    }

    /// Plus or minus zero.
    pub open spec fn zero(self) -> bool {
        self.magnitude() == 0
    }

    /// The significand of a finite number, with its implicit bit.
    pub open spec fn significand(self) -> nat {
        if self.magnitude() < IMPLICIT {
            self.magnitude() as nat
        } else {
            (IMPLICIT + self.magnitude() % IMPLICIT) as nat
        }
    }

    /// The binary exponent of the significand, in units.
    pub open spec fn exponent(self) -> nat {
        if self.magnitude() < IMPLICIT {
            0
        } else {
            (self.magnitude() / IMPLICIT - 1) as nat
        }
    }

    /// The absolute value of a finite number, in units of 2^-149.
    pub open spec fn units(self) -> nat {
        self.significand() * pow2(self.exponent())
    }

    /// The value of a finite number, in units of 2^-149.
    pub open spec fn value(self) -> int {
        if self.negative() {
            -(self.units() as int)
        } else {
            self.units() as int
        }
    }

    /// The place of a number other than NaN in the numeric order, in which the
    /// two zeros are equal.
    pub open spec fn order(self) -> int {
        if self.negative() {
            -(self.magnitude() as int)
        } else {
            self.magnitude() as int
        }
    }

    /// Numeric less-than, which no NaN takes part in.
    pub open spec fn less(self, other: Binary32) -> bool {
        &&& !self.nan()
        &&& !other.nan()
        &&& self.order() < other.order()
    }

    /// The absolute value.
    pub open spec fn absolute(self) -> Binary32 {
        Binary32 { bits: self.magnitude() }
    }
}

/// The number with the given sign and magnitude.
pub open spec fn signed(negative: bool, magnitude: nat) -> Binary32 {
    Binary32 {
        bits: if negative {
            (SIGN + magnitude) as u32
        } else {
            magnitude as u32
        },
    }
}

/// The correctly rounded product.
pub open spec fn product(a: Binary32, b: Binary32) -> Binary32 {
    let negative = a.negative() != b.negative();
    if a.nan() || b.nan() || (a.infinite() && b.zero()) || (a.zero() && b.infinite()) {
        Binary32 { bits: QUIET_NAN }
    } else if a.infinite() || b.infinite() {
        signed(negative, INFINITE as nat)
    } else {
        signed(negative, nearest(a.units() * b.units(), pow2(UNIT_EXPONENT as nat)))
    }
}

/// The correctly rounded quotient.
pub open spec fn quotient(a: Binary32, b: Binary32) -> Binary32 {
    let negative = a.negative() != b.negative();
    if a.nan() || b.nan() || (a.infinite() && b.infinite()) || (a.zero() && b.zero()) {
        Binary32 { bits: QUIET_NAN }
    } else if a.infinite() || b.zero() {
        signed(negative, INFINITE as nat)
    } else if b.infinite() {
        signed(negative, 0)
    } else {
        signed(negative, nearest(a.units() * pow2(UNIT_EXPONENT as nat), b.units()))
    }
}

/// The correctly rounded sum.
pub open spec fn sum(a: Binary32, b: Binary32) -> Binary32 {
    let exact = a.value() + b.value();
    if a.nan() || b.nan() || (a.infinite() && b.infinite() && a.negative() != b.negative()) {
        Binary32 { bits: QUIET_NAN }
    } else if a.infinite() {
        a
    } else if b.infinite() {
        b
    } else if exact == 0 {
        signed(a.negative() && b.negative(), 0)
    } else if exact < 0 {
        signed(true, nearest((-exact) as nat, 1))
    } else {
        signed(false, nearest(exact as nat, 1))
    }
}

/// The number nearest to an integer.
pub open spec fn integer(i: int) -> Binary32 {
    if i < 0 {
        signed(true, nearest((-i) as nat * pow2(UNIT_EXPONENT as nat), 1))
    } else {
        signed(false, nearest(i as nat * pow2(UNIT_EXPONENT as nat), 1))
    }
}

/// `num * 2^a / (den * 2^b)` and its form with one power of two round alike.
proof fn lemma_nearest_shifted(num: nat, den: nat, a: nat, b: nat)
    requires
        den > 0,
    ensures
        nearest(num * pow2(a), den * pow2(b)) == nearest(
            shifted(num, den, b - a).0,
            shifted(num, den, b - a).1,
        ),
{
    let f = shifted(num, den, b - a);
    lemma_pow2_pos(b);
    assert(den * pow2(b) > 0) by (nonlinear_arith)
        requires
            den > 0,
            pow2(b) > 0,
    ;
    if b >= a {
        let s = (b - a) as nat;
        lemma_pow2_pos(s);
        lemma_pow2_adds(a, s);
        assert(f.1 > 0) by (nonlinear_arith)
            requires
                f.1 == den * pow2(s),
                den > 0,
                pow2(s) > 0,
        ;
        assert((num * pow2(a)) * f.1 == f.0 * (den * pow2(b))) by (nonlinear_arith)
            requires
                f.0 == num,
                f.1 == den * pow2(s),
                pow2(b) == pow2(a) * pow2(s),
        ;
    } else {
        let s = (a - b) as nat;
        lemma_pow2_adds(b, s);
        assert((num * pow2(a)) * f.1 == f.0 * (den * pow2(b))) by (nonlinear_arith)
            requires
                f.0 == num * pow2(s),
                f.1 == den,
                pow2(a) == pow2(b) * pow2(s),
        ;
    }
    lemma_nearest_of_equal(num * pow2(a), den * pow2(b), f.0, f.1);
}

/// A magnitude as its exponent and significand fields make it up.
pub proof fn lemma_magnitude_fields(a: Binary32)
    requires
        a.finite(),
    ensures
        a.magnitude() == a.exponent() * IMPLICIT + a.significand(),
        a.significand() < SIGNIFICANDS,
        a.exponent() <= 253,
        a.exponent() > 0 ==> a.significand() >= IMPLICIT,
        a.units() == 0 <==> a.zero(),
{
    lemma_pow2_pos(a.exponent());
    assert(a.significand() * pow2(a.exponent()) == 0 <==> a.significand() == 0)
        by (nonlinear_arith)
        requires
            pow2(a.exponent()) > 0,
    ;
}

/// A number too far below another one to matter leaves the sum as it is.
proof fn lemma_negligible(s: nat, t: nat, low: nat)
    requires
        t >= 40,
        IMPLICIT <= s < SIGNIFICANDS,
        8 * low < pow2(t),
        t * IMPLICIT + s < INFINITE,
    ensures
        low < s * pow2(t),
        nearest((s * pow2(t) + low) as nat, 1) == t * IMPLICIT + s,
        nearest((s * pow2(t) - low) as nat, 1) == t * IMPLICIT + s,
{
    let p = pow2(t);
    let h = pow2((t - 1) as nat);
    lemma_pow2_unfold(t);
    let u = s * p;
    assert(p <= u) by (nonlinear_arith)
        requires
            u == s * p,
            s >= 1,
    ;
    // Above.
    let n = u + low;
    assert(n < SIGNIFICANDS * (1 * p) && IMPLICIT * (1 * p) <= n) by (nonlinear_arith)
        requires
            n == s * p + low,
            low < p,
            s + 1 <= SIGNIFICANDS,
            IMPLICIT <= s,
    ;
    assert(has_spacing(n, 1, t));
    lemma_spacing_is(n, 1, t);
    lemma_fundamental_div_mod_converse(n as int, p as int, s as int, low as int);
    // Below.
    if low > 0 {
        let m = (u - low) as nat;
        if s > IMPLICIT {
            assert(m < SIGNIFICANDS * (1 * p) && IMPLICIT * (1 * p) <= m) by (nonlinear_arith)
                requires
                    m == s * p - low,
                    low < p,
                    s < SIGNIFICANDS,
                    IMPLICIT + 1 <= s,
            ;
            assert(has_spacing(m, 1, t));
            lemma_spacing_is(m, 1, t);
            assert(m == (s - 1) * p + (p - low)) by (nonlinear_arith)
                requires
                    m == s * p - low,
            ;
            lemma_fundamental_div_mod_converse(m as int, p as int, s - 1, p - low);
        } else {
            assert(has_spacing(m, 1, (t - 1) as nat));
            lemma_spacing_is(m, 1, (t - 1) as nat);
            assert(m == (SIGNIFICANDS - 1) * h + (h - low));
            lemma_fundamental_div_mod_converse(m as int, h as int, SIGNIFICANDS - 1, h - low);
        }
    }
}

/// The fields of a finite number.
pub(crate) fn fields(a: Binary32) -> (f: (u64, i32))
    requires
        a.finite(),
    ensures
        f.0 == a.significand(),
        f.1 == a.exponent(),
        f.0 < SIGNIFICANDS,
        0 <= f.1 <= 253,
{
    let magnitude: u32 = a.bits % SIGN;
    if magnitude < IMPLICIT {
        (magnitude as u64, 0)
    } else {
        ((IMPLICIT + magnitude % IMPLICIT) as u64, (magnitude / IMPLICIT) as i32 - 1)
    }
}

fn with_sign(negative: bool, magnitude: u32) -> (r: Binary32)
    requires
        magnitude <= QUIET_NAN,
    ensures
        r == signed(negative, magnitude as nat),
{
    if negative {
        Binary32 { bits: SIGN + magnitude }
    } else {
        Binary32 { bits: magnitude }
    }
}

impl Binary32 {
    /// The number with the given bit pattern.
    pub fn from_bits(bits: u32) -> (r: Binary32)
        ensures
            r.bits == bits,
    {
        Binary32 { bits }
    }

    /// The bit pattern of the number.
    pub fn to_bits(self) -> (bits: u32)
        ensures
            bits == self.bits,
    {
        self.bits
    }

    pub fn is_negative(self) -> (r: bool)
        ensures
            r == self.negative(),
    {
        self.bits >= SIGN
    }

    /// The absolute value.
    pub fn abs(self) -> (r: Binary32)
        ensures
            r == self.absolute(),
    {
        Binary32 { bits: self.bits % SIGN }
    }

    pub fn is_nan(self) -> (r: bool)
        ensures
            r == self.nan(),
    {
        self.bits % SIGN > INFINITE
    }

    pub fn is_infinite(self) -> (r: bool)
        ensures
            r == self.infinite(),
    {
        self.bits % SIGN == INFINITE
    }

    pub fn is_zero(self) -> (r: bool)
        ensures
            r == self.zero(),
    {
        self.bits % SIGN == 0
    }

    /// The place in the numeric order.
    pub fn order_key(self) -> (key: i64)
        ensures
            key == self.order(),
    {
        if self.bits >= SIGN {
            -((self.bits - SIGN) as i64)
        } else {
            self.bits as i64
        }
    }

    /// Numeric less-than, false where either number is NaN.
    pub fn is_less(self, other: Binary32) -> (r: bool)
        ensures
            r == self.less(other),
    {
        !self.is_nan() && !other.is_nan() && self.order_key() < other.order_key()
    }

    /// The correctly rounded product.
    pub fn times(self, other: Binary32) -> (r: Binary32)
        ensures
            r == product(self, other),
    {
        let negative: bool = self.is_negative() != other.is_negative();
        if self.is_nan() || other.is_nan() || (self.is_infinite() && other.is_zero()) || (
        self.is_zero() && other.is_infinite()) {
            return Binary32 { bits: QUIET_NAN };
        }
        if self.is_infinite() || other.is_infinite() {
            return with_sign(negative, INFINITE);
        }
        let a: (u64, i32) = fields(self);
        let b: (u64, i32) = fields(other);
        proof {
            let ghost_a = self.exponent();
            let ghost_b = other.exponent();
            assert(a.0 * b.0 < SIGNIFICANDS * SIGNIFICANDS) by (nonlinear_arith)
                requires
                    a.0 < SIGNIFICANDS,
                    b.0 < SIGNIFICANDS,
            ;
            lemma_pow2_adds(ghost_a, ghost_b);
            assert(self.units() * other.units() == (a.0 * b.0) * pow2(ghost_a + ghost_b))
                by (nonlinear_arith)
                requires
                    self.units() == a.0 * pow2(ghost_a),
                    other.units() == b.0 * pow2(ghost_b),
                    pow2(ghost_a + ghost_b) == pow2(ghost_a) * pow2(ghost_b),
            ;
            lemma_nearest_shifted((a.0 * b.0) as nat, 1, ghost_a + ghost_b, UNIT_EXPONENT as nat);
            assert(1 * pow2(UNIT_EXPONENT as nat) == pow2(UNIT_EXPONENT as nat));
        }
        let magnitude: u32 = nearest_scaled(a.0 * b.0, 1, a.1 + b.1 - UNIT_EXPONENT as i32);
        with_sign(negative, magnitude)
    }

    /// The correctly rounded quotient.
    pub fn over(self, other: Binary32) -> (r: Binary32)
        ensures
            r == quotient(self, other),
    {
        let negative: bool = self.is_negative() != other.is_negative();
        if self.is_nan() || other.is_nan() || (self.is_infinite() && other.is_infinite()) || (
        self.is_zero() && other.is_zero()) {
            return Binary32 { bits: QUIET_NAN };
        }
        if self.is_infinite() || other.is_zero() {
            return with_sign(negative, INFINITE);
        }
        if other.is_infinite() {
            return with_sign(negative, 0);
        }
        let a: (u64, i32) = fields(self);
        let b: (u64, i32) = fields(other);
        proof {
            lemma_magnitude_fields(other);
            let up = pow2(UNIT_EXPONENT as nat);
            let pa = pow2(self.exponent());
            lemma_pow2_adds(self.exponent(), UNIT_EXPONENT as nat);
            assert(self.units() * up == a.0 * (pa * up)) by (nonlinear_arith)
                requires
                    self.units() == a.0 * pa,
            ;
            lemma_nearest_shifted(
                a.0 as nat,
                b.0 as nat,
                self.exponent() + UNIT_EXPONENT as nat,
                other.exponent(),
            );
        }
        let magnitude: u32 = nearest_scaled(a.0, b.0, a.1 - b.1 + UNIT_EXPONENT as i32);
        with_sign(negative, magnitude)
    }

    /// The number nearest to an integer.
    pub fn from_i32(i: i32) -> (r: Binary32)
        ensures
            r == integer(i as int),
    {
        let size: u64 = if i < 0 {
            (-(i as i64)) as u64
        } else {
            i as u64
        };
        proof {
            lemma2_to64();
            lemma_nearest_shifted(size as nat, 1, UNIT_EXPONENT as nat, 0);
            assert(1 * pow2(0) == 1);
        }
        let magnitude: u32 = nearest_scaled(size, 1, UNIT_EXPONENT as i32);
        with_sign(i < 0, magnitude)
    }

    /// The correctly rounded sum.
    pub fn plus(self, other: Binary32) -> (r: Binary32)
        ensures
            r == sum(self, other),
    {
        if self.is_nan() || other.is_nan() || (self.is_infinite() && other.is_infinite()
            && self.is_negative() != other.is_negative()) {
            return Binary32 { bits: QUIET_NAN };
        }
        if self.is_infinite() {
            return self;
        }
        if other.is_infinite() {
            return other;
        }
        if fields(self).1 >= fields(other).1 {
            add_smaller(self, other)
        } else {
            add_smaller(other, self)
        }
    }
}

/// The sum of finite numbers, the first of no smaller exponent than the second.
fn add_smaller(a: Binary32, b: Binary32) -> (r: Binary32)
    requires
        a.finite(),
        b.finite(),
        b.exponent() <= a.exponent(),
    ensures
        r == sum(a, b),
{
    let high: (u64, i32) = fields(a);
    let low: (u64, i32) = fields(b);
    let gap: u32 = (high.1 - low.1) as u32;
    proof {
        lemma2_to64();
        lemma_magnitude_fields(a);
        lemma_magnitude_fields(b);
        lemma_pow2_adds(gap as nat, low.1 as nat);
        lemma_pow2_pos(low.1 as nat);
    }
    if gap >= 40 {
        proof {
            let pl = pow2(low.1 as nat);
            lemma_pow2_adds(40, low.1 as nat);
            if gap > 40 {
                lemma_pow2_strictly_increases((40 + low.1) as nat, high.1 as nat);
            }
            lemma_pow2_adds(8, 32);
            assert(8 * (low.0 * pl) < 0x100_0000_0000 * pl) by (nonlinear_arith)
                requires
                    low.0 < SIGNIFICANDS,
                    pl > 0,
            ;
            lemma_negligible(high.0 as nat, high.1 as nat, b.units());
        }
        return a;
    }
    proof {
        lemma_pow2_strictly_increases(gap as nat, 40);
        lemma_pow2_adds(8, 32);
        lemma_u64_shl_is_mul(1, gap as u64);
        assert(high.0 * pow2(gap as nat) <= SIGNIFICANDS * pow2(gap as nat)) by (nonlinear_arith)
            requires
                high.0 <= SIGNIFICANDS,
        ;
        assert(pow2(gap as nat) <= 0x80_0000_0000) by {
            lemma_pow2_adds(7, 32);
            if gap < 39 {
                lemma_pow2_strictly_increases(gap as nat, 39);
            }
        }
    }
    let wide: u64 = high.0 * (1u64 << gap);
    let ghost pl = pow2(low.1 as nat);
    proof {
        assert(a.units() == wide * pl) by (nonlinear_arith)
            requires
                a.units() == high.0 * (pow2(gap as nat) * pl),
                wide == high.0 * pow2(gap as nat),
        ;
    }
    let same: bool = a.is_negative() == b.is_negative();
    let size: u64 = if same {
        wide + low.0
    } else if wide >= low.0 {
        wide - low.0
    } else {
        low.0 - wide
    };
    let negative: bool = if size == 0 {
        a.is_negative() && b.is_negative()
    } else if same || wide >= low.0 {
        a.is_negative()
    } else {
        b.is_negative()
    };
    proof {
        let exact = a.value() + b.value();
        lemma_nearest_shifted(size as nat, 1, low.1 as nat, 0);
        assert(1 * pow2(0) == 1);
        assert((wide + low.0) * pl == wide * pl + low.0 * pl) by (nonlinear_arith);
        assert((wide - low.0) * pl == wide * pl - low.0 * pl) by (nonlinear_arith);
        assert((low.0 - wide) * pl == low.0 * pl - wide * pl) by (nonlinear_arith);
        assert(size * pl == 0 <==> size == 0) by (nonlinear_arith)
            requires
                pl > 0,
                size >= 0,
        ;
        assert(exact == size * pl || exact == -(size * pl));
        if size == 0 {
            assert(exact == 0);
            assert(nearest(0, 1) == 0) by {
                assert(has_spacing(0, 1, 0));
                lemma_spacing_is(0, 1, 0);
            }
        } else {
            assert(size * pl > 0) by (nonlinear_arith)
                requires
                    size > 0,
                    pl > 0,
            ;
        }
    }
    let magnitude: u32 = nearest_scaled(size, 1, low.1);
    with_sign(negative, magnitude)
}

} // verus!
