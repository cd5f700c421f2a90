//! Single-precision numbers, carried by their bit patterns.
//!
//! Draw coordinates, scores and audio samples are IEEE 754 binary32 values. The library
//! never computes with them in floating point: it reads their bits, rounds them to whole
//! numbers, compares them, and builds them from whole numbers.

use vstd::prelude::*;

verus! {

/// A binary32 value. The sign is the top bit, followed by eight exponent bits and 23
/// fraction bits.
#[derive(Debug, Clone, Copy, PartialEq, Eq, Structural)]
pub struct Scalar {
    pub bits: u32,
}

/// `2` to the power of `e`.
pub open spec fn two_to(e: int) -> int {
    vstd::arithmetic::power2::pow2(e as nat) as int
}

/// How many units a one holds. The unit is the smallest positive value.
pub open spec fn units_of_one() -> int {
    two_to(149)
}

/// `v` clamped to the range of `i32`.
pub open spec fn clamped(v: int) -> int {
    crate::geometry::saturated(v) as int
}

/// The power of two by which a positive whole number is scaled to get a significand of
/// 24 bits.
pub open spec fn scale_of(a: int) -> int
    decreases
            if a < 0x80_0000 {
                0x80_0000 - a
            } else if a < 0x100_0000 {
                0
            } else {
                a
            },
{
    if a <= 0 {
        0
    } else if a < 0x80_0000 {
        scale_of(2 * a) - 1
    } else if a >= 0x100_0000 {
        scale_of(a / 2) + 1
    } else {
        0
    }
}

/// `a` divided by `d`, rounded to the nearest whole number, a tie to the even one.
pub open spec fn nearest_even(a: int, d: int) -> int {
    let q = a / d;
    let r = a % d;
    if 2 * r > d || (2 * r == d && q % 2 == 1) {
        q + 1
    } else {
        q
    }
}

impl Scalar {
    pub open spec fn negative(self) -> bool {
        self.bits >= 0x8000_0000
    }

    /// The bits below the sign.
    pub open spec fn magnitude(self) -> int {
        self.bits as int % 0x8000_0000
    }

    pub open spec fn biased_exponent(self) -> int {
        self.magnitude() / 0x80_0000
    }

    pub open spec fn fraction(self) -> int {
        self.magnitude() % 0x80_0000
    }

    pub open spec fn is_nan(self) -> bool {
        self.magnitude() > 0x7f80_0000
    }

    pub open spec fn is_infinite(self) -> bool {
        self.magnitude() == 0x7f80_0000
    }

    pub open spec fn is_finite(self) -> bool {
        self.magnitude() < 0x7f80_0000
    }

    /// A finite value is its significand times two to the power of its exponent.
    pub open spec fn significand(self) -> int {
        let m = if self.biased_exponent() == 0 {
            self.fraction()
        } else {
            self.fraction() + 0x80_0000
        };
        if self.negative() {
            -m
        } else {
            m
        }
    }

    pub open spec fn exponent(self) -> int {
        if self.biased_exponent() == 0 {
            -149
        } else {
            self.biased_exponent() - 150
        }
    }

    /// The largest whole number that is not above a finite value.
    pub open spec fn floor(self) -> int {
        if self.exponent() >= 0 {
            self.significand() * two_to(self.exponent())
        } else {
            self.significand() / two_to(-self.exponent())
        }
    }

    /// The smallest whole number that is not below a finite value.
    pub open spec fn ceil(self) -> int {
        if self.exponent() >= 0 {
            self.significand() * two_to(self.exponent())
        } else {
            -((-self.significand()) / two_to(-self.exponent()))
        }
    }

    /// A finite value without its fractional part.
    pub open spec fn trunc(self) -> int {
        if self.negative() {
            self.ceil()
        } else {
            self.floor()
        }
    }

    /// A finite value as a multiple of the smallest positive one.
    pub open spec fn units(self) -> int {
        self.significand() * two_to(self.exponent() + 149)
    }

    /// `whole`, which stands for a finite value, clamped to `i32`; infinities clamp to
    /// their end of the range, and what is not a number is zero.
    pub open spec fn as_i32(self, whole: int) -> int {
        if self.is_nan() {
            0
        } else if self.is_infinite() {
            if self.negative() {
                i32::MIN as int
            } else {
                i32::MAX as int
            }
        } else {
            clamped(whole)
        }
    }

    /// The value nearest to a whole number, of two equally near ones that with an even
    /// significand.
    pub open spec fn of_int(i: int) -> Scalar {
        if i == 0 {
            Scalar { bits: 0 }
        } else {
            let a = crate::geometry::int_max(i, -i);
            let e = scale_of(a);
            let m = if e <= 0 {
                a * two_to(-e)
            } else {
                nearest_even(a, two_to(e))
            };
            let sign = if i < 0 {
                0x8000_0000int
            } else {
                0
            };
            Scalar { bits: (sign + (e + 149) * 0x80_0000 + m) as u32 }
        }
    }

    /// The place of a number in the order of the numbers; both zeros share theirs.
    pub open spec fn order(self) -> int {
        if self.negative() {
            -self.magnitude()
        } else {
            self.magnitude()
        }
    }

    /// `self` is below `other`. Nothing is below or above what is not a number.
    pub open spec fn below(self, other: Scalar) -> bool {
        !self.is_nan() && !other.is_nan() && self.order() < other.order()
    }

    /// `self` is not below `other`, and both are numbers.
    pub open spec fn at_or_above(self, other: Scalar) -> bool {
        !self.is_nan() && !other.is_nan() && self.order() >= other.order()
    }

    /// The place in the total order of all bit patterns: minus zero lies before plus
    /// zero, and what is not a number lies at the end of its sign.
    pub open spec fn total_order(self) -> int {
        if self.negative() {
            -self.magnitude() - 1
        } else {
            self.magnitude()
        }
    }

    /// Whether `self < other`.
    pub fn less_than(self, other: Scalar) -> (r: bool)
        ensures
            r == self.below(other),
    {
        !self.not_a_number() && !other.not_a_number() && self.order_key() < other.order_key()
    }

    /// Whether `self >= other`.
    pub fn reaches(self, other: Scalar) -> (r: bool)
        ensures
            r == self.at_or_above(other),
    {
        !self.not_a_number() && !other.not_a_number() && self.order_key() >= other.order_key()
    }

    pub fn not_a_number(self) -> (r: bool)
        ensures
            r == self.is_nan(),
    {
        self.bits % 0x8000_0000 > 0x7f80_0000
    }

    /// Whether the value is neither infinite nor not a number.
    pub fn finite(self) -> (r: bool)
        ensures
            r == self.is_finite(),
    {
        self.bits % 0x8000_0000 < 0x7f80_0000
    }

    fn order_key(self) -> (r: i64)
        ensures
            r == self.order(),
    {
        let magnitude: i64 = (self.bits % 0x8000_0000) as i64;
        if self.bits >= 0x8000_0000 {
            -magnitude
        } else {
            magnitude
        }
    }

    /// The place in the total order of all bit patterns.
    pub fn total_key(self) -> (r: i64)
        ensures
            r == self.total_order(),
    {
        let magnitude: i64 = (self.bits % 0x8000_0000) as i64;
        if self.bits >= 0x8000_0000 {
            -magnitude - 1
        } else {
            magnitude
        }
    }

    /// The value nearest to a whole number.
    pub fn from_i32(i: i32) -> (r: Self)
        ensures
            r == Scalar::of_int(i as int),
    {
        if i == 0 {
            return Scalar { bits: 0 };
        }
        let negative = i < 0;
        let a: u64 = if negative {
            (-(i as i64)) as u64
        } else {
            i as u64
        };
        let sign: u64 = if negative {
            0x8000_0000
        } else {
            0
        };
        let mut x: u64 = a;
        let mut k: u32 = 0;
        proof {
            vstd::arithmetic::power2::lemma2_to64();
            assert(two_to(0) == 1);
            assert(a * two_to(0) == a) by (nonlinear_arith)
                requires
                    two_to(0) == 1,
            ;
        }
        if a < 0x100_0000 {
            while x < 0x80_0000
                invariant
                    1 <= a < 0x100_0000,
                    1 <= x < 0x100_0000,
                    k <= 23,
                    x == a * two_to(k as int),
                    x >= two_to(k as int),
                    scale_of(a as int) == scale_of(x as int) - k,
                decreases 0x100_0000 - x,
            {
                proof {
                    vstd::arithmetic::power2::lemma_pow2_unfold((k + 1) as nat);
                    let p = two_to(k as int);
                    assert(2 * (a * p) == a * (2 * p)) by (nonlinear_arith);
                    vstd::arithmetic::power2::lemma2_to64();
                }
                x = x * 2;
                k = k + 1;
            }
            let bits: u64 = sign + (149 - k as u64) * 0x80_0000 + x;
            Scalar { bits: bits as u32 }
        } else {
            while x >= 0x100_0000
                invariant
                    0x100_0000 <= a <= 0x8000_0000,
                    0x80_0000 <= x <= a,
                    k <= 8,
                    x * two_to(k as int) <= a,
                    scale_of(a as int) == scale_of(x as int) + k,
                    k == 0 ==> x == a,
                decreases x,
            {
                proof {
                    vstd::arithmetic::power2::lemma2_to64();
                    vstd::arithmetic::power2::lemma_pow2_unfold((k + 1) as nat);
                    let p = two_to(k as int);
                    let h = x as int / 2;
                    assert(h * (2 * p) <= x * p) by (nonlinear_arith)
                        requires
                            2 * h <= x,
                            p >= 0,
                    ;
                    if k == 8 {
                        assert(x * p >= 0x100_0000 * 256) by (nonlinear_arith)
                            requires
                                x >= 0x100_0000,
                                p == 256,
                        ;
                    }
                }
                x = x / 2;
                k = k + 1;
            }
            let d: u64 = power_of_two(k);
            let q: u64 = a / d;
            let rest: u64 = a % d;
            proof {
                vstd::arithmetic::power2::lemma_pow2_unfold(k as nat);
                lemma_scale_bounds(a as int);
                vstd::arithmetic::power2::lemma2_to64();
            }
            let m: u64 = if 2 * rest > d || (2 * rest == d && q % 2 == 1) {
                q + 1
            } else {
                q
            };
            let bits: u64 = sign + (149 + k as u64) * 0x80_0000 + m;
            Scalar { bits: bits as u32 }
        }
    }

    /// The value with the given bit pattern.
    pub fn from_bits(bits: u32) -> (r: Self)
        ensures
            r.bits == bits,
    {
        Scalar { bits }
    }

    /// Whether the value is positive or plus zero, its exponent bits and its fraction bits.
    fn fields(self) -> (r: (bool, u32, u32))
        ensures
            r.0 == self.negative(),
            r.1 == self.biased_exponent(),
            r.2 == self.fraction(),
            r.1 <= 255,
            r.2 < 0x80_0000,
            self.is_finite() == (r.1 < 255),
            self.is_infinite() == (r.1 == 255 && r.2 == 0),
    {
        let magnitude: u32 = self.bits % 0x8000_0000;
        (self.bits >= 0x8000_0000, magnitude / 0x80_0000, magnitude % 0x80_0000)
    }

    /// The value rounded down, as an `i32`.
    pub fn floor_to_i32(self) -> (r: i32)
        ensures
            r == self.as_i32(self.floor()),
    {
        let (negative, biased, fraction) = self.fields();
        if biased == 255 {
            return Self::extreme(negative, fraction);
        }
        let (whole, part) = self.whole_part(biased, fraction);
        proof {
            self.lemma_rounding();
        }
        if negative && part {
            Self::signed(true, whole + 1)
        } else {
            Self::signed(negative, whole)
        }
    }

    /// The value rounded up, as an `i32`.
    pub fn ceil_to_i32(self) -> (r: i32)
        ensures
            r == self.as_i32(self.ceil()),
    {
        let (negative, biased, fraction) = self.fields();
        if biased == 255 {
            return Self::extreme(negative, fraction);
        }
        let (whole, part) = self.whole_part(biased, fraction);
        proof {
            self.lemma_rounding();
        }
        if !negative && part {
            Self::signed(false, whole + 1)
        } else {
            Self::signed(negative, whole)
        }
    }

    /// The value rounded toward zero, as an `i32`.
    pub fn trunc_to_i32(self) -> (r: i32)
        ensures
            r == self.as_i32(self.trunc()),
    {
        if self.bits >= 0x8000_0000 {
            self.ceil_to_i32()
        } else {
            self.floor_to_i32()
        }
    }

    /// The part of a finite magnitude that rounding down loses, and of how many halvings of
    /// one it is a multiple.
    fn lost_part(self) -> (r: (u32, u32))
        requires
            self.is_finite(),
        ensures
            r.0 < 0x100_0000,
            r.1 <= 149,
            ({
                let m = crate::geometry::int_max(self.significand(), -self.significand());
                if self.exponent() >= 0 {
                    r.0 == 0 && r.1 == 0
                } else {
                    r.1 == -self.exponent() && r.0 == m % two_to(r.1 as int)
                }
            }),
    {
        let (_, biased, fraction) = self.fields();
        if biased >= 150 {
            return (0, 0);
        }
        let m: u32 = if biased == 0 {
            fraction
        } else {
            fraction + 0x80_0000
        };
        let s: u32 = if biased == 0 {
            149
        } else {
            150 - biased
        };
        if s >= 24 {
            proof {
                lemma_two_to(24);
                if s > 24 {
                    vstd::arithmetic::power2::lemma_pow2_strictly_increases(24, s as nat);
                }
                vstd::arithmetic::div_mod::lemma_small_mod(m as nat, two_to(s as int) as nat);
            }
            (m, s)
        } else {
            let divisor: u64 = power_of_two(s);
            proof {
                vstd::arithmetic::div_mod::lemma_mod_bound(m as int, divisor as int);
                vstd::arithmetic::div_mod::lemma_mod_decreases(m as nat, divisor as nat);
            }
            ((m as u64 % divisor) as u32, s)
        }
    }

    /// Whether the sum of two finite values lies above the sum of the one rounded down and
    /// the other rounded up.
    pub fn reaches_beyond(self, other: Scalar) -> (r: bool)
        requires
            self.is_finite(),
            other.is_finite(),
        ensures
            r == (self.units() + other.units() > (self.floor() + other.ceil()) * units_of_one()),
    {
        let (a, s) = self.lost_part();
        let (b, t) = other.lost_part();
        // How much the one lies above its floor, and the other below its ceiling: the part
        // that is lost, or what that lacks to one.
        let a_rest: bool = self.bits >= 0x8000_0000 && a > 0;
        let b_rest: bool = other.bits < 0x8000_0000 && b > 0;
        let ghost above: int = rest_or_part(a_rest, a as int, s as int);
        let ghost below: int = rest_or_part(b_rest, b as int, t as int);
        proof {
            self.lemma_lost_part(a as int, s as int);
            other.lemma_lost_part(b as int, t as int);
            let one = units_of_one();
            assert((self.floor() + other.ceil()) * one == self.floor() * one + other.ceil() * one)
                by (nonlinear_arith);
        }
        if s >= t {
            proof {
                lemma_aligned(above, below, s as int, t as int);
                lemma_rest_aligned(a as int, below, s as int, t as int);
            }
            let (more, less) = weighed(a, b, b_rest != a_rest, t, s - t);
            if a_rest {
                more
            } else {
                less
            }
        } else {
            proof {
                lemma_aligned(below, above, t as int, s as int);
                lemma_rest_aligned(b as int, above, t as int, s as int);
            }
            let (more, less) = weighed(b, a, a_rest != b_rest, s, t - s);
            if b_rest {
                less
            } else {
                more
            }
        }
    }

    /// How far a finite value lies above its floor and below its ceiling.
    proof fn lemma_lost_part(self, r: int, s: int)
        requires
            self.is_finite(),
            ({
                let m = crate::geometry::int_max(self.significand(), -self.significand());
                if self.exponent() >= 0 {
                    r == 0 && s == 0
                } else {
                    s == -self.exponent() && r == m % two_to(s)
                }
            }),
        ensures
            0 <= s <= 149,
            0 <= r < two_to(s),
            self.units() - self.floor() * units_of_one() == rest_or_part(
                self.negative() && r > 0,
                r,
                s,
            ) * two_to(149 - s),
            self.ceil() * units_of_one() - self.units() == rest_or_part(
                !self.negative() && r > 0,
                r,
                s,
            ) * two_to(149 - s),
    {
        let m = crate::geometry::int_max(self.significand(), -self.significand());
        let e = self.exponent();
        let one = units_of_one();
        self.lemma_rounding();
        vstd::arithmetic::power2::lemma2_to64();
        if e >= 0 {
            let p = two_to(e);
            let sig = self.significand();
            vstd::arithmetic::power2::lemma_pow2_adds(e as nat, 149);
            assert(two_to(e + 149) == p * one);
            assert(sig * (p * one) == (sig * p) * one) by (nonlinear_arith);
            assert(self.floor() == sig * p && self.ceil() == sig * p);
            assert(rest_or_part(false, r, s) * one == 0) by (nonlinear_arith)
                requires
                    rest_or_part(false, r, s) == 0,
            ;
        } else {
            let d = two_to(s);
            let u = two_to(149 - s);
            vstd::arithmetic::power2::lemma_pow2_pos(s as nat);
            vstd::arithmetic::power2::lemma_pow2_adds(s as nat, (149 - s) as nat);
            vstd::arithmetic::div_mod::lemma_fundamental_div_mod(m, d);
            vstd::arithmetic::div_mod::lemma_mod_bound(m, d);
            let q = m / d;
            assert(one == d * u);
            assert(m * u - q * (d * u) == r * u) by (nonlinear_arith)
                requires
                    m == d * q + r,
            ;
            assert((q + 1) * (d * u) - m * u == (d - r) * u) by (nonlinear_arith)
                requires
                    m == d * q + r,
            ;
            assert((-m) * u == -(m * u)) by (nonlinear_arith);
            assert((-q) * one == -(q * one)) by (nonlinear_arith);
            assert((-q - 1) * one == -((q + 1) * one)) by (nonlinear_arith);
            if r == 0 {
                assert(r * u == 0) by (nonlinear_arith)
                    requires
                        r == 0,
                ;
            }
            if self.negative() {
                assert(self.units() == -(m * u));
                assert(self.ceil() == -q);
                assert(self.floor() == if r > 0 {
                    -q - 1
                } else {
                    -q
                });
            } else {
                assert(self.units() == m * u);
                assert(self.floor() == q);
                assert(self.ceil() == if r > 0 {
                    q + 1
                } else {
                    q
                });
            }
        }
    }

    /// How rounding down and up follow from the magnitude.
    proof fn lemma_rounding(self)
        ensures
            ({
                let m = crate::geometry::int_max(self.significand(), -self.significand());
                let e = self.exponent();
                let d = two_to(-e);
                let extra = if m % d != 0 {
                    1int
                } else {
                    0
                };
                &&& e >= 0 && !self.negative() ==> self.floor() == m * two_to(e) && self.ceil()
                    == m * two_to(e)
                &&& e >= 0 && self.negative() ==> self.floor() == -(m * two_to(e)) && self.ceil()
                    == -(m * two_to(e))
                &&& e < 0 && !self.negative() ==> self.floor() == m / d && self.ceil() == m / d
                    + extra
                &&& e < 0 && self.negative() ==> self.floor() == -(m / d) - extra && self.ceil()
                    == -(m / d)
            }),
    {
        let m = crate::geometry::int_max(self.significand(), -self.significand());
        let e = self.exponent();
        if e >= 0 {
            let p = two_to(e);
            assert((-m) * p == -(m * p)) by (nonlinear_arith);
        } else {
            let d = two_to(-e);
            vstd::arithmetic::power2::lemma_pow2_pos((-e) as nat);
            let q = m / d;
            let r = m % d;
            assert(m == d * q + r) by {
                vstd::arithmetic::div_mod::lemma_fundamental_div_mod(m, d);
            }
            if r == 0 {
                assert((-m) == d * (-q) + 0) by (nonlinear_arith)
                    requires
                        m == d * q,
                ;
                vstd::arithmetic::div_mod::lemma_fundamental_div_mod_converse(-m, d, -q, 0);
            } else {
                assert((-m) == d * (-q - 1) + (d - r)) by (nonlinear_arith)
                    requires
                        m == d * q + r,
                ;
                vstd::arithmetic::div_mod::lemma_fundamental_div_mod_converse(
                    -m,
                    d,
                    -q - 1,
                    d - r,
                );
            }
        }
    }

    /// What a value without a finite magnitude is as an `i32`.
    fn extreme(negative: bool, fraction: u32) -> (r: i32)
        ensures
            r == if fraction != 0 {
                0int
            } else if negative {
                i32::MIN as int
            } else {
                i32::MAX as int
            },
    {
        if fraction != 0 {
            0
        } else if negative {
            i32::MIN
        } else {
            i32::MAX
        }
    }

    /// A magnitude with its sign, as an `i32`.
    fn signed(negative: bool, magnitude: u64) -> (r: i32)
        requires
            magnitude <= 0x1_0000_0000,
        ensures
            r == clamped(
                if negative {
                    -(magnitude as int)
                } else {
                    magnitude as int
                },
            ),
    {
        if negative {
            if magnitude >= 0x8000_0000 {
                i32::MIN
            } else {
                (-(magnitude as i64)) as i32
            }
        } else if magnitude > 0x7fff_ffff {
            i32::MAX
        } else {
            magnitude as i32
        }
    }

    /// The magnitude of a finite value rounded down, and whether that lost anything. A
    /// magnitude beyond the range of `i32` is given as one of the numbers beyond it.
    fn whole_part(self, biased: u32, fraction: u32) -> (r: (u64, bool))
        requires
            self.is_finite(),
            biased == self.biased_exponent(),
            fraction == self.fraction(),
        ensures
            r.0 < 0x1_0000_0000,
            ({
                let m = crate::geometry::int_max(self.significand(), -self.significand());
                if self.exponent() >= 0 {
                    &&& !r.1
                    &&& r.0 < 0x8000_0000 ==> r.0 == m * two_to(self.exponent())
                    &&& r.0 >= 0x8000_0000 ==> m * two_to(self.exponent()) >= 0x8000_0000
                } else {
                    &&& r.0 == m / two_to(-self.exponent())
                    &&& r.1 == (m % two_to(-self.exponent()) != 0)
                }
            }),
    {
        let m: u32 = if biased == 0 {
            fraction
        } else {
            fraction + 0x80_0000
        };
        let ghost e = self.exponent();
        if biased >= 150 {
            let up: u32 = biased - 150;
            if up >= 8 {
                proof {
                    lemma_two_to(8);
                    if up > 8 {
                        vstd::arithmetic::power2::lemma_pow2_strictly_increases(8, up as nat);
                    }
                    assert(m * two_to(e) >= 0x80_0000 * 256) by (nonlinear_arith)
                        requires
                            m >= 0x80_0000,
                            two_to(e) >= 256,
                    ;
                }
                (0x8000_0000, false)
            } else {
                let factor: u64 = power_of_two(up);
                proof {
                    lemma_two_to(8);
                    vstd::arithmetic::power2::lemma_pow2_strictly_increases(up as nat, 8);
                    assert(m * factor < 0x100_0000 * 256) by (nonlinear_arith)
                        requires
                            m < 0x100_0000,
                            factor < 256,
                    ;
                }
                (m as u64 * factor, false)
            }
        } else {
            let down: u32 = if biased == 0 {
                149
            } else {
                150 - biased
            };
            if down >= 24 {
                proof {
                    lemma_two_to(24);
                    if down > 24 {
                        vstd::arithmetic::power2::lemma_pow2_strictly_increases(24, down as nat);
                    }
                    let d = two_to(-e);
                    assert(m as int / d == 0 && m as int % d == m) by {
                        vstd::arithmetic::div_mod::lemma_small_mod(m as nat, d as nat);
                        vstd::arithmetic::div_mod::lemma_basic_div(m as int, d);
                    }
                }
                (0, m != 0)
            } else {
                let divisor: u64 = power_of_two(down);
                proof {
                    let d = divisor as int;
                    vstd::arithmetic::power2::lemma_pow2_pos(down as nat);
                    assert(m as int / d <= m) by (nonlinear_arith)
                        requires
                            m >= 0,
                            d >= 1,
                    ;
                }
                (m as u64 / divisor, m as u64 % divisor != 0)
            }
        }
    }
}

/// A part of `s` halvings of one, or what it lacks to one.
spec fn rest_or_part(rest: bool, part: int, s: int) -> int {
    if rest {
        two_to(s) - part
    } else {
        part
    }
}

/// Whether `part` halvings of one, or what they lack to one, is more than `other` when both
/// are counted in halvings `shift` steps smaller, and whether it is less.
fn weighed(other: u32, part: u32, rest: bool, s: u32, shift: u32) -> (r: (bool, bool))
    requires
        other < 0x100_0000,
        part < 0x100_0000,
        part < two_to(s as int),
    ensures
        r.0 == (rest_or_part(rest, part as int, s as int) * two_to(shift as int) > other),
        r.1 == (rest_or_part(rest, part as int, s as int) * two_to(shift as int) < other),
{
    let ghost value = rest_or_part(rest, part as int, s as int);
    let ghost p = two_to(shift as int);
    proof {
        lemma_two_to(24);
        vstd::arithmetic::power2::lemma2_to64();
        vstd::arithmetic::power2::lemma_pow2_pos(shift as nat);
    }
    if !rest && part == 0 {
        assert(0 * p == 0) by (nonlinear_arith);
        return (false, other > 0);
    }
    if shift >= 24 {
        proof {
            if shift > 24 {
                vstd::arithmetic::power2::lemma_pow2_strictly_increases(24, shift as nat);
            }
            assert(value * p >= p) by (nonlinear_arith)
                requires
                    value >= 1,
                    p >= 1,
            ;
        }
        return (true, false);
    }
    if rest && s >= 25 {
        proof {
            if s > 25 {
                vstd::arithmetic::power2::lemma_pow2_strictly_increases(25, s as nat);
            }
            assert(value * p >= value) by (nonlinear_arith)
                requires
                    value >= 1,
                    p >= 1,
            ;
        }
        return (true, false);
    }
    let base: u64 = if rest {
        power_of_two(s) - part as u64
    } else {
        part as u64
    };
    let factor: u64 = power_of_two(shift);
    proof {
        vstd::arithmetic::power2::lemma_pow2_strictly_increases(shift as nat, 24);
        if rest && s < 24 {
            vstd::arithmetic::power2::lemma_pow2_strictly_increases(s as nat, 24);
        }
        assert(base * factor <= 0x100_0000 * 0x100_0000) by (nonlinear_arith)
            requires
                0 <= base <= 0x100_0000,
                0 <= factor <= 0x100_0000,
        ;
    }
    let scaled: u64 = base * factor;
    (scaled > other as u64, scaled < other as u64)
}

/// Fractions are compared in the smaller of their units.
proof fn lemma_aligned(fine: int, coarse: int, s: int, t: int)
    requires
        0 <= t <= s <= 149,
    ensures
        (fine * two_to(149 - s) > coarse * two_to(149 - t)) == (fine > coarse * two_to(s - t)),
        (fine * two_to(149 - s) < coarse * two_to(149 - t)) == (fine < coarse * two_to(s - t)),
{
    let u = two_to(149 - s);
    let k = two_to(s - t);
    vstd::arithmetic::power2::lemma_pow2_pos((149 - s) as nat);
    vstd::arithmetic::power2::lemma_pow2_adds((s - t) as nat, (149 - s) as nat);
    assert(two_to(149 - t) == k * u);
    assert(coarse * (k * u) == (coarse * k) * u) by (nonlinear_arith);
    let c = coarse * k;
    assert((fine * u > c * u) == (fine > c)) by (nonlinear_arith)
        requires
            u > 0,
    ;
    assert((fine * u < c * u) == (fine < c)) by (nonlinear_arith)
        requires
            u > 0,
    ;
}

/// What a fraction lacks to one is compared by comparing what is lacking.
proof fn lemma_rest_aligned(part: int, coarse: int, s: int, t: int)
    requires
        0 <= t <= s <= 149,
    ensures
        (two_to(s) - part > coarse * two_to(s - t)) == ((two_to(t) - coarse) * two_to(s - t)
            > part),
        (two_to(s) - part < coarse * two_to(s - t)) == ((two_to(t) - coarse) * two_to(s - t)
            < part),
{
    let k = two_to(s - t);
    let d = two_to(t);
    vstd::arithmetic::power2::lemma_pow2_adds(t as nat, (s - t) as nat);
    assert((d - coarse) * k == d * k - coarse * k) by (nonlinear_arith);
}

/// A finite value lies between its floor and its ceiling, less than one above the former.
pub proof fn law_values_lie_between_floor_and_ceil(s: Scalar)
    requires
        s.is_finite(),
    ensures
        s.floor() * units_of_one() <= s.units() <= s.ceil() * units_of_one(),
        s.units() < (s.floor() + 1) * units_of_one(),
        s.floor() <= s.ceil() <= s.floor() + 1,
{
    let m = s.significand();
    let e = s.exponent();
    let one = units_of_one();
    vstd::arithmetic::power2::lemma_pow2_pos(149);
    if e >= 0 {
        let p = two_to(e);
        vstd::arithmetic::power2::lemma_pow2_adds(e as nat, 149);
        assert(two_to(e + 149) == p * one);
        assert(m * (p * one) == (m * p) * one) by (nonlinear_arith);
        assert((m * p + 1) * one == (m * p) * one + one) by (nonlinear_arith);
    } else {
        let d = two_to(-e);
        let u = two_to(e + 149);
        vstd::arithmetic::power2::lemma_pow2_pos((-e) as nat);
        vstd::arithmetic::power2::lemma_pow2_pos((e + 149) as nat);
        vstd::arithmetic::power2::lemma_pow2_adds((-e) as nat, (e + 149) as nat);
        assert(one == d * u);
        let q = m / d;
        let r = m % d;
        let up = (-m) / d;
        let rest = (-m) % d;
        vstd::arithmetic::div_mod::lemma_fundamental_div_mod(m, d);
        vstd::arithmetic::div_mod::lemma_fundamental_div_mod(-m, d);
        vstd::arithmetic::div_mod::lemma_mod_bound(m, d);
        vstd::arithmetic::div_mod::lemma_mod_bound(-m, d);
        assert(q * (d * u) <= m * u < (q + 1) * (d * u)) by (nonlinear_arith)
            requires
                m == d * q + r,
                0 <= r < d,
                u > 0,
        ;
        assert(m * u <= (-up) * (d * u)) by (nonlinear_arith)
            requires
                -m == d * up + rest,
                0 <= rest < d,
                u > 0,
        ;
        assert(q <= -up <= q + 1) by (nonlinear_arith)
            requires
                m == d * q + r,
                0 <= r < d,
                -m == d * up + rest,
                0 <= rest < d,
        ;
    }
}

/// A finite value lies less than one below its ceiling.
pub(crate) proof fn lemma_values_lie_close_below_their_ceil(s: Scalar)
    requires
        s.is_finite(),
    ensures
        (s.ceil() - 1) * units_of_one() < s.units(),
{
    let one = units_of_one();
    vstd::arithmetic::power2::lemma_pow2_pos(149);
    law_values_lie_between_floor_and_ceil(s);
    if s.ceil() == s.floor() {
        assert((s.ceil() - 1) * one == s.ceil() * one - one) by (nonlinear_arith);
    } else {
        let e = s.exponent();
        let m = s.significand();
        if e < 0 {
            let d = two_to(-e);
            let u = two_to(e + 149);
            vstd::arithmetic::power2::lemma_pow2_pos((-e) as nat);
            vstd::arithmetic::power2::lemma_pow2_pos((e + 149) as nat);
            vstd::arithmetic::power2::lemma_pow2_adds((-e) as nat, (e + 149) as nat);
            let up = (-m) / d;
            let rest = (-m) % d;
            vstd::arithmetic::div_mod::lemma_fundamental_div_mod(-m, d);
            vstd::arithmetic::div_mod::lemma_mod_bound(-m, d);
            assert((-up - 1) * (d * u) < m * u) by (nonlinear_arith)
                requires
                    -m == d * up + rest,
                    0 <= rest < d,
                    u > 0,
            ;
        }
    }
}

/// The ceiling of a value with a minus sign is not above zero.
pub(crate) proof fn lemma_negative_values_round_up_to_zero(s: Scalar)
    requires
        s.is_finite(),
        s.negative(),
    ensures
        s.ceil() <= 0,
{
    let m = s.significand();
    let e = s.exponent();
    if e >= 0 {
        let p = two_to(e);
        vstd::arithmetic::power2::lemma_pow2_pos(e as nat);
        assert(m * p <= 0) by (nonlinear_arith)
            requires
                m <= 0,
                p > 0,
        ;
    } else {
        let d = two_to(-e);
        vstd::arithmetic::power2::lemma_pow2_pos((-e) as nat);
        vstd::arithmetic::div_mod::lemma_div_pos_is_pos(-m, d);
    }
}

/// `2` to the power of a small exponent.
fn power_of_two(e: u32) -> (r: u64)
    requires
        e <= 32,
    ensures
        r == two_to(e as int),
        r >= 1,
{
    let mut r: u64 = 1;
    let mut i: u32 = 0;
    proof {
        lemma_two_to(32);
        vstd::arithmetic::power2::lemma2_to64();
    }
    while i < e
        invariant
            i <= e <= 32,
            1 <= r == two_to(i as int),
            two_to(32) == 0x1_0000_0000,
        decreases e - i,
    {
        proof {
            vstd::arithmetic::power2::lemma_pow2_unfold((i + 1) as nat);
            if i + 1 < 32 {
                vstd::arithmetic::power2::lemma_pow2_strictly_increases((i + 1) as nat, 32);
            }
        }
        r = r * 2;
        i = i + 1;
    }
    r
}

proof fn lemma_two_to(e: nat)
    ensures
        e == 8 ==> two_to(8) == 256,
        e == 24 ==> two_to(24) == 0x100_0000,
        e == 32 ==> two_to(32) == 0x1_0000_0000,
{
    vstd::arithmetic::power2::lemma2_to64();
}

/// A positive whole number divided by the power of two that its scale names lies between
/// the smallest and the largest significand of 24 bits.
proof fn lemma_scale_bounds(a: int)
    requires
        a >= 0x80_0000,
    ensures
        scale_of(a) >= 0,
        0x80_0000 <= a / two_to(scale_of(a)) < 0x100_0000,
        two_to(scale_of(a)) >= 1,
    decreases a,
{
    vstd::arithmetic::power2::lemma2_to64();
    if a >= 0x100_0000 {
        lemma_scale_bounds(a / 2);
        let e = scale_of(a / 2);
        vstd::arithmetic::power2::lemma_pow2_unfold((e + 1) as nat);
        vstd::arithmetic::div_mod::lemma_div_denominator(a, 2, two_to(e));
    } else {
        assert(a / 1 == a);
    }
}

proof fn lemma_small_scale(a: int)
    requires
        1 <= a < 0x100_0000,
    ensures
        -23 <= scale_of(a) <= 0,
        0x80_0000 <= a * two_to(-scale_of(a)) < 0x100_0000,
        a >= 0x80_0000 ==> scale_of(a) == 0,
        a < 0x80_0000 ==> a * two_to(-scale_of(a) - 1) < 0x80_0000,
    decreases 0x100_0000 - a,
{
    vstd::arithmetic::power2::lemma2_to64();
    if a < 0x80_0000 {
        lemma_small_scale(2 * a);
        let k = -scale_of(2 * a);
        assert(-scale_of(a) == k + 1);
        vstd::arithmetic::power2::lemma_pow2_unfold((k + 1) as nat);
        let p = two_to(k);
        assert((2 * a) * p == a * (2 * p)) by (nonlinear_arith);
        if k >= 23 {
            if k > 23 {
                vstd::arithmetic::power2::lemma_pow2_strictly_increases(23, k as nat);
            }
            if 2 * a < 0x80_0000 {
                vstd::arithmetic::power2::lemma_pow2_unfold(k as nat);
                let h = two_to(k - 1);
                assert((2 * a) * h >= 2 * h) by (nonlinear_arith)
                    requires
                        a >= 1,
                        h >= 0,
                ;
            }
        }
        assert((2 * a) * p == 2 * (a * p)) by (nonlinear_arith);
    } else {
        assert(a * 1 == a);
    }
}

/// The fields of a value put together from its sign, exponent and significand.
proof fn lemma_fields(v: Scalar, sign: int, e: int, m: int)
    requires
        sign == 0 || sign == 0x8000_0000,
        -149 <= e <= 104,
        0x80_0000 <= m < 0x100_0000,
        v.bits == sign + (e + 149) * 0x80_0000 + m,
    ensures
        v.is_finite(),
        v.negative() == (sign != 0),
        v.exponent() == e,
        v.significand() == if sign == 0 {
            m
        } else {
            -m
        },
{
    let low = (e + 149) * 0x80_0000 + m;
    assert(v.magnitude() == low);
    assert(low == (e + 150) * 0x80_0000 + (m - 0x80_0000));
    assert(v.biased_exponent() == e + 150);
    assert(v.fraction() == m - 0x80_0000);
}

/// A value whose significand is a multiple of its power of two is the whole number between.
proof fn lemma_whole_value(v: Scalar, i: int)
    requires
        v.exponent() <= 0,
        v.significand() == i * two_to(-v.exponent()),
    ensures
        v.floor() == i,
        v.ceil() == i,
        v.trunc() == i,
{
    let p = two_to(-v.exponent());
    vstd::arithmetic::power2::lemma2_to64();
    vstd::arithmetic::power2::lemma_pow2_pos((-v.exponent()) as nat);
    if v.exponent() < 0 {
        vstd::arithmetic::div_mod::lemma_div_multiples_vanish(i, p);
        vstd::arithmetic::div_mod::lemma_div_multiples_vanish(-i, p);
        assert(p * i == i * p) by (nonlinear_arith);
        assert(p * (-i) == -(i * p)) by (nonlinear_arith);
    } else {
        assert(p == 1);
        assert(i * p == i) by (nonlinear_arith)
            requires
                p == 1,
        ;
        assert(v.significand() * p == i) by (nonlinear_arith)
            requires
                v.significand() == i,
                p == 1,
        ;
    }
}

/// A whole number of at most 24 bits is kept exactly: rounding it back in any direction
/// gives the number itself.
pub proof fn law_small_integers_are_exact(i: int)
    requires
        -0x100_0000 <= i <= 0x100_0000,
    ensures
        Scalar::of_int(i).is_finite(),
        Scalar::of_int(i).floor() == i,
        Scalar::of_int(i).ceil() == i,
        Scalar::of_int(i).trunc() == i,
{
    vstd::arithmetic::power2::lemma2_to64();
    let v = Scalar::of_int(i);
    let sign = if i < 0 {
        0x8000_0000int
    } else {
        0
    };
    if i == 0 {
        assert(v.exponent() == -149);
        assert(v.significand() == 0);
        let p = two_to(149);
        assert(0 * p == 0) by (nonlinear_arith);
        lemma_whole_value(v, 0);
    } else {
        let a = crate::geometry::int_max(i, -i);
        if a < 0x100_0000 {
            lemma_small_scale(a);
            let e = scale_of(a);
            let p = two_to(-e);
            let m = a * p;
            lemma_fields(v, sign, e, m);
            assert((-a) * p == -(a * p)) by (nonlinear_arith);
            lemma_whole_value(v, i);
        } else {
            assert(scale_of(0x80_0000) == 0);
            assert(scale_of(0x100_0000) == 1);
            assert(nearest_even(0x100_0000, 2) == 0x80_0000);
            lemma_fields(v, sign, 1, 0x80_0000);
            let s = v.significand();
            assert(two_to(1) == 2);
            assert(s * two_to(1) == 2 * s) by (nonlinear_arith)
                requires
                    two_to(1) == 2,
            ;
        }
    }
}

/// The units of two magnitudes compare as their bits do.
proof fn lemma_magnitudes_order_units(a: Scalar, b: Scalar)
    requires
        a.is_finite(),
        b.is_finite(),
        !a.negative(),
        !b.negative(),
        a.magnitude() < b.magnitude(),
    ensures
        0 <= a.units() < b.units(),
{
    let p = two_to(a.exponent() + 149);
    let q = two_to(b.exponent() + 149);
    let m = a.significand();
    let n = b.significand();
    vstd::arithmetic::power2::lemma_pow2_pos((a.exponent() + 149) as nat);
    vstd::arithmetic::power2::lemma_pow2_pos((b.exponent() + 149) as nat);
    assert(a.biased_exponent() <= b.biased_exponent());
    assert(0 <= m * p) by (nonlinear_arith)
        requires
            0 <= m,
            0 < p,
    ;
    if a.exponent() == b.exponent() {
        assert(m < n);
        assert(m * p < n * p) by (nonlinear_arith)
            requires
                m < n,
                0 < p,
        ;
    } else {
        let up = two_to(a.exponent() + 150);
        vstd::arithmetic::power2::lemma_pow2_unfold((a.exponent() + 150) as nat);
        assert(up == 2 * p);
        if a.exponent() + 150 < b.exponent() + 149 {
            vstd::arithmetic::power2::lemma_pow2_strictly_increases(
                (a.exponent() + 150) as nat,
                (b.exponent() + 149) as nat,
            );
        }
        assert(m * p < n * q) by (nonlinear_arith)
            requires
                0 <= m < 0x100_0000,
                0x80_0000 <= n,
                0 < p,
                2 * p <= q,
        ;
    }
}

proof fn lemma_opposite(a: Scalar) -> (b: Scalar)
    requires
        a.is_finite(),
        a.negative(),
    ensures
        b.is_finite(),
        !b.negative(),
        b.magnitude() == a.magnitude(),
        b.units() == -a.units(),
{
    let b = Scalar { bits: (a.bits - 0x8000_0000) as u32 };
    let p = two_to(a.exponent() + 149);
    let m = b.significand();
    assert((-m) * p == -(m * p)) by (nonlinear_arith);
    b
}

/// Of two finite values the one is below the other if it is the smaller number, and they are
/// equally large where neither is below the other; both zeros are the number zero.
pub proof fn law_order_is_that_of_the_values(a: Scalar, b: Scalar)
    requires
        a.is_finite(),
        b.is_finite(),
    ensures
        a.below(b) == (a.units() < b.units()),
        a.at_or_above(b) == (a.units() >= b.units()),
        a.negative() ==> a.units() <= 0,
        !a.negative() ==> a.units() >= 0,
{
    lemma_order_of_values(a, b);
    lemma_order_of_values(b, a);
}

proof fn lemma_zero_units(a: Scalar)
    requires
        a.magnitude() == 0,
    ensures
        a.units() == 0,
{
    let p = two_to(a.exponent() + 149);
    assert(0 * p == 0) by (nonlinear_arith);
}

proof fn lemma_order_of_values(a: Scalar, b: Scalar)
    requires
        a.is_finite(),
        b.is_finite(),
    ensures
        a.order() < b.order() ==> a.units() < b.units(),
        a.order() == b.order() ==> a.units() == b.units(),
        a.negative() ==> a.units() <= 0,
        !a.negative() ==> a.units() >= 0,
{
    let zero = Scalar { bits: 0 };
    lemma_zero_units(zero);
    let x = if a.negative() {
        lemma_opposite(a)
    } else {
        a
    };
    let y = if b.negative() {
        lemma_opposite(b)
    } else {
        b
    };
    if x.magnitude() > 0 {
        lemma_magnitudes_order_units(zero, x);
    } else {
        lemma_zero_units(x);
    }
    if y.magnitude() > 0 {
        lemma_magnitudes_order_units(zero, y);
    } else {
        lemma_zero_units(y);
    }
    if x.magnitude() < y.magnitude() {
        lemma_magnitudes_order_units(x, y);
    } else if y.magnitude() < x.magnitude() {
        lemma_magnitudes_order_units(y, x);
    } else {
        assert(x.bits == y.bits);
    }
}

/// What a finite value is without its fraction: of the whole numbers between zero and the
/// value the one farthest from zero.
pub proof fn law_truncation_drops_the_fraction(s: Scalar)
    requires
        s.is_finite(),
    ensures
        s.units() >= 0 ==> 0 <= s.trunc() && s.trunc() * units_of_one() <= s.units() < (s.trunc()
            + 1) * units_of_one(),
        s.units() <= 0 ==> s.trunc() <= 0 && (s.trunc() - 1) * units_of_one() < s.units()
            <= s.trunc() * units_of_one(),
{
    let one = units_of_one();
    vstd::arithmetic::power2::lemma_pow2_pos(149);
    law_values_lie_between_floor_and_ceil(s);
    lemma_values_lie_close_below_their_ceil(s);
    law_order_is_that_of_the_values(s, s);
    let f = s.floor();
    let c = s.ceil();
    let u = s.units();
    assert(u >= 0 ==> f >= 0) by (nonlinear_arith)
        requires
            u < (f + 1) * one,
            one > 0,
    ;
    assert(u <= 0 ==> c <= 0) by (nonlinear_arith)
        requires
            (c - 1) * one < u,
            one > 0,
    ;
    if u == 0 {
        assert(f == 0) by (nonlinear_arith)
            requires
                f * one <= 0,
                0 < (f + 1) * one,
                one > 0,
        ;
        assert(c == 0) by (nonlinear_arith)
            requires
                0 <= c * one,
                (c - 1) * one < 0,
                one > 0,
        ;
    }
}

/// Rounding toward zero, as an `i32`, keeps the order of the numbers.
pub proof fn law_truncation_keeps_the_order(a: Scalar, b: Scalar)
    requires
        b.at_or_above(a),
    ensures
        a.as_i32(a.trunc()) <= b.as_i32(b.trunc()),
{
    if a.is_finite() && b.is_finite() {
        let one = units_of_one();
        vstd::arithmetic::power2::lemma_pow2_pos(149);
        law_order_is_that_of_the_values(b, a);
        law_truncation_drops_the_fraction(a);
        law_truncation_drops_the_fraction(b);
        let t = a.trunc();
        let v = b.trunc();
        if a.units() >= 0 {
            assert(t <= v) by (nonlinear_arith)
                requires
                    t * one < (v + 1) * one,
                    one > 0,
            ;
        } else if b.units() < 0 {
            assert(t <= v) by (nonlinear_arith)
                requires
                    (t - 1) * one < v * one,
                    one > 0,
            ;
        }
    }
}

/// A whole number of more than 24 bits is rounded to the nearest multiple of the step between
/// values of its size, and half-way between two of them to the even one.
pub proof fn law_large_integers_are_rounded_to_the_nearest(i: int) -> (step: int)
    requires
        0x100_0000 <= crate::geometry::int_max(i, -i) <= 0x8000_0000,
    ensures
        ({
            let a = crate::geometry::int_max(i, -i);
            let v = Scalar::of_int(i);
            let lost = crate::geometry::int_max(v.floor() - i, i - v.floor());
            &&& 1 < step
            &&& step * 0x80_0000 <= a < step * 0x100_0000
            &&& v.is_finite()
            &&& v.floor() == v.ceil()
            &&& v.floor() == v.trunc()
            &&& v.floor() % step == 0
            &&& 2 * lost <= step
            &&& 2 * lost == step ==> v.floor() / step % 2 == 0
        }),
{
    vstd::arithmetic::power2::lemma2_to64();
    let a = crate::geometry::int_max(i, -i);
    let e = scale_of(a);
    let d = two_to(e);
    lemma_scale_bounds(a);
    lemma_scale_bounds(a / 2);
    let q = a / d;
    let r = a % d;
    vstd::arithmetic::div_mod::lemma_fundamental_div_mod(a, d);
    vstd::arithmetic::power2::lemma_pow2_pos(e as nat);
    if e > 8 {
        vstd::arithmetic::power2::lemma_pow2_strictly_increases(8, e as nat);
        assert(d * q > 0x8000_0000) by (nonlinear_arith)
            requires
                d >= 257,
                q >= 0x80_0000,
        ;
    }
    vstd::arithmetic::power2::lemma_pow2_unfold(e as nat);
    assert(d * 0x80_0000 <= a < d * 0x100_0000) by (nonlinear_arith)
        requires
            a == d * q + r,
            0 <= r < d,
            0x80_0000 <= q < 0x100_0000,
            d > 0,
    ;
    let m = nearest_even(a, d);
    assert(m * d == d * q + if m == q {
        0
    } else {
        d
    }) by (nonlinear_arith)
        requires
            m == q || m == q + 1,
    ;
    let v = Scalar::of_int(i);
    let sign = if i < 0 {
        0x8000_0000int
    } else {
        0
    };
    if m < 0x100_0000 {
        lemma_fields(v, sign, e, m);
    } else {
        lemma_fields(v, sign, e + 1, 0x80_0000);
        vstd::arithmetic::power2::lemma_pow2_unfold((e + 1) as nat);
        assert(0x80_0000 * (2 * d) == m * d) by (nonlinear_arith)
            requires
                m == 0x100_0000,
        ;
        assert((-0x80_0000) * (2 * d) == -(m * d)) by (nonlinear_arith)
            requires
                m == 0x100_0000,
        ;
    }
    assert((-m) * d == -(m * d)) by (nonlinear_arith);
    let whole = if i < 0 {
        -m
    } else {
        m
    };
    assert(v.floor() == whole * d);
    assert(whole * d == d * whole + 0) by (nonlinear_arith);
    vstd::arithmetic::div_mod::lemma_fundamental_div_mod_converse(whole * d, d, whole, 0);
    d
}

/// A value as an `i32` stops at the ends of the range, where infinities lie; what is not a
/// number is zero.
pub proof fn law_conversions_stop_at_the_ends(s: Scalar, whole: int)
    ensures
        s.is_nan() ==> s.as_i32(whole) == 0,
        s.is_infinite() && s.negative() ==> s.as_i32(whole) == i32::MIN,
        s.is_infinite() && !s.negative() ==> s.as_i32(whole) == i32::MAX,
        s.is_finite() && i32::MIN <= whole <= i32::MAX ==> s.as_i32(whole) == whole,
        s.is_finite() && whole < i32::MIN ==> s.as_i32(whole) == i32::MIN,
        s.is_finite() && whole > i32::MAX ==> s.as_i32(whole) == i32::MAX,
{
}

/// All bit patterns stand in one order, no two in the same place. It agrees with that of the
/// numbers, has minus zero before plus zero, and has what is not a number behind all numbers
/// or, with a minus sign, before them.
pub proof fn law_the_total_order_agrees(a: Scalar, b: Scalar)
    ensures
        a.total_order() == b.total_order() ==> a == b,
        a.below(b) ==> a.total_order() < b.total_order(),
        a.is_nan() && !a.negative() && !b.is_nan() ==> b.total_order() < a.total_order(),
        a.is_nan() && a.negative() && !b.is_nan() ==> a.total_order() < b.total_order(),
        (Scalar { bits: 0x8000_0000 }).total_order() < (Scalar { bits: 0 }).total_order(),
{
}

} // verus!
