//! IEEE 754 binary64 numbers as bit patterns.
//!
//! Every quantity of the controller (watts, megahertz, degrees, seconds) is a
//! [`Num`]: the 64 bits of a binary64 number. The arithmetic below is written
//! in integers and proved to be the correctly rounded result, so each number
//! here is, bit for bit, the one that a processor computes with its own
//! binary64 instructions. A result that is not a number is always [`NAN`].
//!
//! The model of a finite number is [`Num::value`]: the number counted in the
//! smallest subnormal step, two to the power -1074, which is an integer for
//! every finite number. Order and equality go by [`Num::key`], an integer that
//! orders the bit patterns as the numbers they stand for
//! ([`lemma_order_is_numeric`]).
use crate::rounding::{down, pack, power, represents, round_magnitude, up, INFINITE, LEAD};
use core::cmp::Ordering;
use core::ops::{Add, Div, Mul, Sub};
use vstd::arithmetic::div_mod::{lemma_fundamental_div_mod, lemma_fundamental_div_mod_converse};
use vstd::arithmetic::power2::{
    lemma2_to64, lemma2_to64_rest, lemma_pow2_adds, lemma_pow2_pos, lemma_pow2_strictly_increases,
    lemma_pow2_unfold, pow2,
};
use vstd::prelude::*;

verus! {

/// The sign bit.
pub const SIGN: u64 = 0x8000_0000_0000_0000;

/// The bits of the one result that is not a number.
pub const NAN: u64 = 0x7ff8_0000_0000_0000;

/// The bits of 0.
pub const ZERO: u64 = 0;

/// The bits of 1.
pub const ONE: u64 = 0x3ff0_0000_0000_0000;

/// The bits of 2.
pub const TWO: u64 = 0x4000_0000_0000_0000;

/// A binary64 number, held as its bits.
#[derive(Clone, Copy, Debug)]
pub struct Num(pub u64);

/// The number with this sign and this encoded magnitude.
pub open spec fn signed(negative: bool, magnitude: nat) -> Num {
    Num(
        if negative {
            (magnitude + 0x8000_0000_0000_0000) as u64
        } else {
            magnitude as u64
        },
    )
}

/// One, in steps.
pub open spec fn unit() -> nat {
    pow2(1074)
}

/// The largest natural number whose square does not exceed `n`.
pub open spec fn integer_root(n: nat) -> nat {
    choose|r: nat| #![trigger r * r] r * r <= n < (r + 1) * (r + 1)
}

impl Num {
    /// The sign bit is set.
    pub open spec fn negative(self) -> bool {
        self.0 >= 0x8000_0000_0000_0000
    }

    /// The bits below the sign bit.
    pub open spec fn magnitude(self) -> nat {
        (if self.negative() {
            self.0 - 0x8000_0000_0000_0000
        } else {
            self.0 as int
        }) as nat
    }

    /// The integer that orders the numbers.
    pub open spec fn key(self) -> int {
        if self.negative() {
            -(self.magnitude() as int)
        } else {
            self.magnitude() as int
        }
    }

    /// Not a number.
    pub open spec fn nan(self) -> bool {
        self.magnitude() > 0x7ff0_0000_0000_0000
    }

    /// Either infinity.
    pub open spec fn infinite(self) -> bool {
        self.magnitude() == 0x7ff0_0000_0000_0000
    }

    /// Neither infinite nor not a number.
    pub open spec fn finite(self) -> bool {
        self.magnitude() < 0x7ff0_0000_0000_0000
    }

    /// Significand of a finite number.
    pub open spec fn significand(self) -> nat {
        if self.magnitude() < 0x10_0000_0000_0000 {
            self.magnitude()
        } else {
            self.magnitude() % 0x10_0000_0000_0000 + 0x10_0000_0000_0000
        }
    }

    /// Exponent of a finite number, zero for the smallest ones.
    pub open spec fn exponent(self) -> nat {
        if self.magnitude() < 0x10_0000_0000_0000 {
            0
        } else {
            (self.magnitude() / 0x10_0000_0000_0000 - 1) as nat
        }
    }

    /// Distance of a finite number from zero, in steps.
    pub open spec fn steps(self) -> nat {
        self.significand() * pow2(self.exponent())
    }

    /// A finite number, in steps.
    pub open spec fn value(self) -> int {
        if self.negative() {
            -(self.steps() as int)
        } else {
            self.steps() as int
        }
    }

    /// Numerically equal: a number that is not one equals nothing, and the
    /// two zeros are equal.
    #[verifier::opaque]
    pub open spec fn same(self, other: Num) -> bool {
        !self.nan() && !other.nan() && self.key() == other.key()
    }

    /// Less than.
    #[verifier::opaque]
    pub open spec fn lt(self, other: Num) -> bool {
        !self.nan() && !other.nan() && self.key() < other.key()
    }

    /// Less than or equal.
    #[verifier::opaque]
    pub open spec fn le(self, other: Num) -> bool {
        !self.nan() && !other.nan() && self.key() <= other.key()
    }

    /// How two numbers compare.
    #[verifier::opaque]
    pub open spec fn compared(self, other: Num) -> Option<Ordering> {
        if self.lt(other) {
            Some(Ordering::Less)
        } else if self.same(other) {
            Some(Ordering::Equal)
        } else if other.lt(self) {
            Some(Ordering::Greater)
        } else {
            None
        }
    }

    /// Rounded sum.
    #[verifier::opaque]
    pub open spec fn plus(self, other: Num) -> Num {
        if self.nan() || other.nan() {
            Num(NAN)
        } else if self.infinite() {
            if other.infinite() && self.negative() != other.negative() {
                Num(NAN)
            } else {
                self
            }
        } else if other.infinite() {
            other
        } else {
            let sum = self.value() + other.value();
            if sum == 0 {
                signed(self.negative() && other.negative(), 0)
            } else if sum < 0 {
                signed(true, round_magnitude((-sum) as nat, 1))
            } else {
                signed(false, round_magnitude(sum as nat, 1))
            }
        }
    }

    /// The number with the opposite sign.
    pub open spec fn opposite(self) -> Num {
        if self.negative() {
            Num((self.0 - 0x8000_0000_0000_0000) as u64)
        } else {
            Num((self.0 + 0x8000_0000_0000_0000) as u64)
        }
    }

    /// Rounded difference.
    #[verifier::opaque]
    pub open spec fn minus(self, other: Num) -> Num {
        self.plus(other.opposite())
    }

    /// Rounded product.
    #[verifier::opaque]
    pub open spec fn times(self, other: Num) -> Num {
        let negative = self.negative() != other.negative();
        if self.nan() || other.nan() {
            Num(NAN)
        } else if self.infinite() || other.infinite() {
            if self.magnitude() == 0 || other.magnitude() == 0 {
                Num(NAN)
            } else {
                signed(negative, 0x7ff0_0000_0000_0000)
            }
        } else {
            signed(negative, round_magnitude(self.steps() * other.steps(), unit()))
        }
    }

    /// Rounded quotient.
    #[verifier::opaque]
    pub open spec fn over(self, other: Num) -> Num {
        let negative = self.negative() != other.negative();
        if self.nan() || other.nan() {
            Num(NAN)
        } else if self.infinite() {
            if other.infinite() {
                Num(NAN)
            } else {
                signed(negative, 0x7ff0_0000_0000_0000)
            }
        } else if other.infinite() {
            signed(negative, 0)
        } else if other.magnitude() == 0 {
            if self.magnitude() == 0 {
                Num(NAN)
            } else {
                signed(negative, 0x7ff0_0000_0000_0000)
            }
        } else {
            signed(negative, round_magnitude(self.steps() * unit(), other.steps()))
        }
    }

    /// Rounded square root. The exact root of a whole number of steps is
    /// either a whole number or lies strictly between two; half way between
    /// them it rounds as the exact root does.
    #[verifier::opaque]
    pub open spec fn root(self) -> Num {
        if self.nan() || (self.negative() && self.magnitude() != 0) {
            Num(NAN)
        } else if self.infinite() || self.magnitude() == 0 {
            self
        } else {
            let n = self.steps() * unit();
            let r = integer_root(n);
            signed(
                false,
                round_magnitude(
                    2 * r + if r * r == n {
                        0nat
                    } else {
                        1nat
                    },
                    2,
                ),
            )
        }
    }

    /// Distance from zero.
    pub open spec fn size(self) -> Num {
        if self.negative() {
            self.opposite()
        } else {
            self
        }
    }

    /// One with the number's sign, which a zero has too.
    pub open spec fn direction(self) -> Num {
        if self.nan() {
            Num(NAN)
        } else if self.negative() {
            Num(0xbff0_0000_0000_0000)
        } else {
            Num(ONE)
        }
    }

    /// The smaller number; the other one if one is not a number.
    #[verifier::opaque]
    pub open spec fn lesser(self, other: Num) -> Num {
        if self.nan() {
            other
        } else if other.lt(self) {
            other
        } else {
            self
        }
    }

    /// The larger number; the other one if one is not a number.
    #[verifier::opaque]
    pub open spec fn greater(self, other: Num) -> Num {
        if self.nan() {
            other
        } else if self.lt(other) {
            other
        } else {
            self
        }
    }

    /// Pulled into `[lo, hi]`.
    #[verifier::opaque]
    pub open spec fn within(self, lo: Num, hi: Num) -> Num {
        let raised = if self.lt(lo) {
            lo
        } else {
            self
        };
        if hi.lt(raised) {
            hi
        } else {
            raised
        }
    }

    /// The nearest whole number, away from zero from half way.
    #[verifier::opaque]
    pub open spec fn rounded(self) -> Num {
        if !self.finite() {
            self
        } else {
            signed(
                self.negative(),
                round_magnitude(((2 * self.steps() + unit()) / (2 * unit())) * unit(), 1),
            )
        }
    }

    /// The largest whole number that is not above.
    #[verifier::opaque]
    pub open spec fn floored(self) -> Num {
        if !self.finite() {
            self
        } else if self.negative() {
            signed(
                true,
                round_magnitude(
                    (((self.steps() + unit() - 1) as nat) / unit()) * unit(),
                    1,
                ),
            )
        } else {
            signed(false, round_magnitude((self.steps() / unit()) * unit(), 1))
        }
    }

    /// The whole part, as an integer held within `u32`.
    #[verifier::opaque]
    pub open spec fn whole(self) -> u32 {
        if self.nan() || self.negative() {
            0
        } else if self.infinite() || self.steps() / unit() >= 0xffff_ffff {
            0xffff_ffff
        } else {
            (self.steps() / unit()) as u32
        }
    }
}

/// The number nearest to a whole one.
#[verifier::opaque]
pub open spec fn of_int(n: nat) -> Num {
    signed(false, round_magnitude(n * unit(), 1))
}

/// The sign, the significand and the exponent make up the number.
proof fn lemma_parts(x: Num)
    requires
        x.finite(),
    ensures
        x.significand() < 0x20_0000_0000_0000,
        x.exponent() <= 2045,
        x.exponent() > 0 ==> x.significand() >= 0x10_0000_0000_0000,
        x.magnitude() == 0 <==> x.steps() == 0,
        x.magnitude() == 0 <==> x.significand() == 0,
{
    lemma_pow2_pos(x.exponent());
    assert(x.steps() == 0 <==> x.significand() == 0) by (nonlinear_arith)
        requires
            x.steps() == x.significand() * pow2(x.exponent()),
            pow2(x.exponent()) > 0,
    ;
}

/// A larger encoded magnitude is a larger number.
pub proof fn lemma_magnitude_order(a: Num, b: Num)
    requires
        a.finite(),
        b.finite(),
    ensures
        a.magnitude() < b.magnitude() <==> a.steps() < b.steps(),
        a.magnitude() == b.magnitude() <==> a.steps() == b.steps(),
{
    if a.magnitude() < b.magnitude() {
        lemma_magnitude_strict(a, b);
    } else if b.magnitude() < a.magnitude() {
        lemma_magnitude_strict(b, a);
    }
}

proof fn lemma_magnitude_strict(a: Num, b: Num)
    requires
        a.finite(),
        b.finite(),
        a.magnitude() < b.magnitude(),
    ensures
        a.steps() < b.steps(),
        a.exponent() <= b.exponent(),
{
    let (sa, sb) = (a.significand(), b.significand());
    let (ka, kb) = (a.exponent(), b.exponent());
    lemma_parts(a);
    lemma_parts(b);
    lemma_pow2_pos(ka);
    lemma_pow2_pos(kb);
    assert(ka <= kb);
    if ka == kb {
        assert(sa < sb);
        assert(sa * pow2(ka) < sb * pow2(ka)) by (nonlinear_arith)
            requires
                sa < sb,
                pow2(ka) > 0,
        ;
    } else {
        lemma_pow2_unfold(ka + 1);
        if ka + 1 < kb {
            lemma_pow2_strictly_increases(ka + 1, kb);
        }
        assert(sa * pow2(ka) < sb * pow2(kb)) by (nonlinear_arith)
            requires
                sa < 2 * 0x10_0000_0000_0000,
                sb >= 0x10_0000_0000_0000,
                pow2(kb) >= 2 * pow2(ka),
                pow2(ka) > 0,
        ;
    }
}

/// Finite numbers are ordered, and equal, exactly as their values are.
pub proof fn lemma_order_is_numeric(a: Num, b: Num)
    requires
        a.finite(),
        b.finite(),
    ensures
        a.lt(b) <==> a.value() < b.value(),
        a.le(b) <==> a.value() <= b.value(),
        a.same(b) <==> a.value() == b.value(),
{
    reveal(Num::lt);
    reveal(Num::le);
    reveal(Num::same);
    lemma_magnitude_order(a, b);
    lemma_parts(a);
    lemma_parts(b);
}

/// `n` is exactly `m * 2^s` steps.
proof fn lemma_exact(m: nat, s: nat, n: nat)
    requires
        n == m * pow2(s),
    ensures
        represents(m, s as int, false, n, 1),
{
    lemma_pow2_pos(s);
    assert(m * (pow2(s) * 1) == n);
    assert((m + 1) * (pow2(s) * 1) == n + pow2(s)) by (nonlinear_arith)
        requires
            n == m * pow2(s),
    ;
}

/// Sums of two magnitudes at different exponents, counted at the smaller one.
proof fn lemma_align(a: nat, ka: nat, b: nat, kb: nat, f: nat)
    requires
        ka >= kb,
        f == pow2((ka - kb) as nat),
    ensures
        a * pow2(ka) == (a * f) * pow2(kb),
        a * pow2(ka) + b * pow2(kb) == (a * f + b) * pow2(kb),
        a * pow2(ka) - b * pow2(kb) == (a * f - b) * pow2(kb),
{
    lemma_pow2_adds((ka - kb) as nat, kb);
    assert(a * pow2(ka) == (a * f) * pow2(kb)) by (nonlinear_arith)
        requires
            pow2(ka) == f * pow2(kb),
    ;
    assert((a * f + b) * pow2(kb) == (a * f) * pow2(kb) + b * pow2(kb)) by (nonlinear_arith);
    assert((a * f - b) * pow2(kb) == (a * f) * pow2(kb) - b * pow2(kb)) by (nonlinear_arith);
}

/// A magnitude far below another only shows as a lost bit.
proof fn lemma_far(a: nat, ka: nat, b: nat, kb: nat)
    requires
        ka >= kb + 56,
        b < 0x20_0000_0000_0000,
        a >= 1,
    ensures
        represents(a * 8, ka - 3, b != 0, a * pow2(ka) + b * pow2(kb), 1),
        b != 0 ==> represents(
            (a * 8 - 1) as nat,
            ka - 3,
            true,
            (a * pow2(ka) - b * pow2(kb)) as nat,
            1,
        ),
        a * pow2(ka) - b * pow2(kb) >= 0,
{
    let e = (ka - 3) as nat;
    let w = pow2(e);
    lemma2_to64();
    lemma2_to64_rest();
    lemma_pow2_adds(3, e);
    assert(pow2(ka) == 8 * w);
    assert(a * pow2(ka) == (a * 8) * w) by (nonlinear_arith)
        requires
            pow2(ka) == 8 * w,
    ;
    lemma_pow2_pos(kb);
    lemma_pow2_adds(53, kb);
    if 53 + kb < e {
        lemma_pow2_strictly_increases(53 + kb, e);
    }
    let small = b * pow2(kb);
    assert(small < w) by (nonlinear_arith)
        requires
            small == b * pow2(kb),
            b < 0x20_0000_0000_0000,
            0x20_0000_0000_0000 * pow2(kb) <= w,
            pow2(kb) > 0,
    ;
    assert(b != 0 ==> small > 0) by (nonlinear_arith)
        requires
            small == b * pow2(kb),
            pow2(kb) > 0,
    ;
    assert(b == 0 ==> small == 0) by (nonlinear_arith)
        requires
            small == b * pow2(kb),
    ;
    assert((a * 8 + 1) * (w * 1) == (a * 8) * w + w) by (nonlinear_arith);
    assert((a * 8 - 1) * (w * 1) == (a * 8) * w - w) by (nonlinear_arith);
    assert((a * 8) * w >= w) by (nonlinear_arith)
        requires
            a >= 1,
    ;
    assert((a * 8 - 1 + 1) * (w * 1) == (a * 8) * w) by (nonlinear_arith);
}

impl Num {
    /// The number with these bits.
    pub fn from_bits(bits: u64) -> (r: Num)
        ensures
            r == Num(bits),
    {
        Num(bits)
    }

    /// The bits of the number.
    pub fn to_bits(self) -> (r: u64)
        ensures
            r == self.0,
    {
        self.0
    }

    fn is_negative(self) -> (r: bool)
        ensures
            r == self.negative(),
    {
        self.0 >= SIGN
    }

    fn bare(self) -> (r: u64)
        ensures
            r == self.magnitude(),
    {
        if self.0 >= SIGN {
            self.0 - SIGN
        } else {
            self.0
        }
    }

    /// True of what is not a number.
    pub fn is_nan(self) -> (r: bool)
        ensures
            r == self.nan(),
    {
        self.bare() > INFINITE
    }

    /// True of what is neither infinite nor not a number.
    pub fn is_finite(self) -> (r: bool)
        ensures
            r == self.finite(),
    {
        self.bare() < INFINITE
    }

    fn make(negative: bool, magnitude: u64) -> (r: Num)
        requires
            magnitude <= INFINITE,
        ensures
            r == signed(negative, magnitude as nat),
    {
        if negative {
            Num(magnitude + SIGN)
        } else {
            Num(magnitude)
        }
    }

    /// Significand and exponent.
    fn parts(self) -> (r: (u64, u32))
        requires
            self.finite(),
        ensures
            r.0 == self.significand(),
            r.1 == self.exponent(),
            r.0 < 0x20_0000_0000_0000,
            r.1 <= 2045,
            r.1 > 0 ==> r.0 >= 0x10_0000_0000_0000,
    {
        proof {
            lemma_parts(self);
        }
        let m: u64 = self.bare();
        if m < LEAD {
            (m, 0)
        } else {
            (m % LEAD + LEAD, (m / LEAD - 1) as u32)
        }
    }

    /// Magnitude of the sum of the magnitudes, the first not smaller.
    fn joined(self, other: Num) -> (r: u64)
        requires
            self.finite(),
            other.finite(),
            self.magnitude() >= other.magnitude(),
        ensures
            r == round_magnitude(self.steps() + other.steps(), 1),
            r <= INFINITE,
    {
        let (a, ka) = self.parts();
        let (b, kb) = other.parts();
        proof {
            if self.magnitude() != other.magnitude() {
                lemma_magnitude_strict(other, self);
            }
        }
        if ka - kb < 56 {
            let f: u128 = power(ka - kb);
            proof {
                lemma_align(a as nat, ka as nat, b as nat, kb as nat, f as nat);
                lemma_aligned_bound(a as nat, (ka - kb) as nat);
                lemma_exact((a * f + b) as nat, kb as nat, self.steps() + other.steps());
            }
            let m: u128 = a as u128 * f + b as u128;
            pack(m, kb as i32, false, Ghost(self.steps() + other.steps()), Ghost(1))
        } else {
            proof {
                lemma_far(a as nat, ka as nat, b as nat, kb as nat);
            }
            pack(
                a as u128 * 8,
                ka as i32 - 3,
                b != 0,
                Ghost(self.steps() + other.steps()),
                Ghost(1),
            )
        }
    }

    /// Magnitude of the difference of the magnitudes, the first larger.
    fn apart(self, other: Num) -> (r: u64)
        requires
            self.finite(),
            other.finite(),
            self.magnitude() > other.magnitude(),
        ensures
            r == round_magnitude((self.steps() - other.steps()) as nat, 1),
            self.steps() > other.steps(),
            r <= INFINITE,
    {
        let (a, ka) = self.parts();
        let (b, kb) = other.parts();
        proof {
            lemma_magnitude_strict(other, self);
        }
        let ghost n = (self.steps() - other.steps()) as nat;
        if ka - kb < 56 {
            let f: u128 = power(ka - kb);
            proof {
                lemma_align(a as nat, ka as nat, b as nat, kb as nat, f as nat);
                lemma_aligned_bound(a as nat, (ka - kb) as nat);
                lemma_pow2_pos(kb as nat);
                assert(a * f > b) by (nonlinear_arith)
                    requires
                        (a * f - b) * pow2(kb as nat) > 0,
                        pow2(kb as nat) > 0,
                ;
                lemma_exact((a * f - b) as nat, kb as nat, n);
            }
            let m: u128 = a as u128 * f - b as u128;
            pack(m, kb as i32, false, Ghost(n), Ghost(1))
        } else {
            proof {
                lemma_far(a as nat, ka as nat, b as nat, kb as nat);
            }
            if b == 0 {
                proof {
                    assert(0 * pow2(kb as nat) == 0);
                }
                pack(a as u128 * 8, ka as i32 - 3, false, Ghost(n), Ghost(1))
            } else {
                pack(a as u128 * 8 - 1, ka as i32 - 3, true, Ghost(n), Ghost(1))
            }
        }
    }

    fn sum(self, other: Num) -> (r: Num)
        ensures
            r == self.plus(other),
    {
        proof {
            reveal(Num::plus);
        }
        if self.is_nan() || other.is_nan() {
            return Num(NAN);
        }
        if !self.is_finite() {
            if !other.is_finite() && self.is_negative() != other.is_negative() {
                return Num(NAN);
            }
            return self;
        }
        if !other.is_finite() {
            return other;
        }
        proof {
            lemma_parts(self);
            lemma_parts(other);
            lemma_magnitude_order(self, other);
        }
        if self.is_negative() == other.is_negative() {
            let m: u64 = if self.bare() >= other.bare() {
                self.joined(other)
            } else {
                other.joined(self)
            };
            proof {
                if self.steps() + other.steps() == 0 {
                    lemma_round_zero(1);
                }
            }
            Num::make(self.is_negative(), m)
        } else if self.bare() == other.bare() {
            Num(ZERO)
        } else if self.bare() > other.bare() {
            Num::make(self.is_negative(), self.apart(other))
        } else {
            Num::make(other.is_negative(), other.apart(self))
        }
    }
}

/// Zero rounds to zero.
proof fn lemma_round_zero(d: nat)
    requires
        d > 0,
    ensures
        round_magnitude(0, d) == 0,
{
    lemma_pow2_pos(0);
    assert(d * pow2(0) > 0) by (nonlinear_arith)
        requires
            d > 0,
            pow2(0) > 0,
    ;
    assert(0nat / d == 0) by (nonlinear_arith)
        requires
            d > 0,
    ;
    lemma_fundamental_div_mod_converse(0, (d * pow2(0)) as int, 0, 0);
}

/// A significand shifted by fewer than 56 places stays small.
proof fn lemma_aligned_bound(a: nat, e: nat)
    requires
        a < 0x20_0000_0000_0000,
        e < 56,
    ensures
        a * pow2(e) < 0x2000_0000_0000_0000_0000_0000_0000,
{
    lemma2_to64_rest();
    lemma_pow2_pos(e);
    if e < 55 {
        lemma_pow2_strictly_increases(e, 55);
    }
    assert(a * pow2(e) < 0x2000_0000_0000_0000_0000_0000_0000) by (nonlinear_arith)
        requires
            a < 0x20_0000_0000_0000,
            0 < pow2(e) <= 0x80_0000_0000_0000,
    ;
}

/// Exponents add, and a shift of the unit subtracts.
proof fn lemma_product(a: nat, ka: nat, b: nat, kb: nat)
    ensures
        represents(
            a * b,
            ka + kb - 1074,
            false,
            (a * pow2(ka)) * (b * pow2(kb)),
            unit(),
        ),
{
    let s = ka + kb - 1074;
    let m = a * b;
    let n = (a * pow2(ka)) * (b * pow2(kb));
    lemma_pow2_adds(ka, kb);
    lemma_pow2_pos(1074);
    assert(n == m * pow2(ka + kb)) by (nonlinear_arith)
        requires
            n == (a * pow2(ka)) * (b * pow2(kb)),
            m == a * b,
            pow2(ka + kb) == pow2(ka) * pow2(kb),
    ;
    let w = up(s) * unit();
    if s >= 0 {
        lemma_pow2_adds(s as nat, 1074);
        assert(n * 1 == m * w);
        lemma_pow2_pos(s as nat);
    } else {
        lemma_pow2_adds(ka + kb, (-s) as nat);
        assert(n * pow2((-s) as nat) == m * pow2(1074)) by (nonlinear_arith)
            requires
                n == m * pow2(ka + kb),
                pow2(1074) == pow2(ka + kb) * pow2((-s) as nat),
        ;
        assert(w == unit());
    }
    assert(w > 0) by (nonlinear_arith)
        requires
            w == up(s) * unit(),
            up(s) > 0,
            unit() > 0,
    ;
    assert((m + 1) * w == m * w + w) by (nonlinear_arith);
}

/// Long division of significands.
proof fn lemma_quotient(a: nat, ka: int, b: nat, kb: nat, n: nat, q: nat, r: nat)
    requires
        b > 0,
        a * pow2(66) == q * b + r,
        r < b,
        -60 <= ka,
        n * pow2(60) == a * pow2((ka + 60) as nat) * unit(),
    ensures
        represents(q, ka - kb + 1008, r != 0, n, b * pow2(kb)),
{
    let s = ka - kb + 1008;
    let d = b * pow2(kb);
    let (x, y) = (up(s), down(s));
    let p = pow2((ka + 1068) as nat);
    let t66 = pow2(66);
    lemma_pow2_pos((if s < 0 { -s } else { 0 }) as nat);
    lemma_pow2_pos((if s >= 0 { s } else { 0 }) as nat);
    lemma_pow2_pos(kb);
    lemma_pow2_pos(66);
    lemma_pow2_pos(60);
    lemma_pow2_pos((ka + 1068) as nat);
    // n * 2^60 == a * 2^66 * 2^(ka + 1068)
    lemma_pow2_adds((ka + 60) as nat, 1074);
    lemma_pow2_adds(66, (ka + 1068) as nat);
    assert(n * pow2(60) == (a * t66) * p) by (nonlinear_arith)
        requires
            n * pow2(60) == a * pow2((ka + 60) as nat) * unit(),
            pow2((ka + 60) as nat) * unit() == t66 * p,
    ;
    // x * 2^kb * 2^60 == y * p, both being 2^(ka + 1068) times 2^(-s) if s < 0
    assert(x * pow2(kb) * pow2(60) == y * p) by {
        lemma_pow2_adds(kb, 60);
        assert(x * pow2(kb) * pow2(60) == x * pow2(kb + 60)) by (nonlinear_arith)
            requires
                pow2(kb + 60) == pow2(kb) * pow2(60),
        ;
        if s >= 0 {
            lemma_pow2_adds(s as nat, kb + 60);
            assert((s as nat + (kb + 60)) as nat == (ka + 1068) as nat);
            assert(1 * p == p);
        } else {
            lemma_pow2_adds((-s) as nat, (ka + 1068) as nat);
            assert(((-s) as nat + (ka + 1068) as nat) as nat == (kb + 60) as nat);
            assert(1 * pow2(kb + 60) == pow2(kb + 60));
        }
    }
    let w = x * d;
    let z = x * pow2(kb);
    assert(w == b * z) by (nonlinear_arith)
        requires
            w == x * d,
            d == b * pow2(kb),
            z == x * pow2(kb),
    ;
    assert(z > 0) by (nonlinear_arith)
        requires
            z == x * pow2(kb),
            x > 0,
            pow2(kb) > 0,
    ;
    // n * y == (q * b + r) * z
    assert(n * y == (q * b + r) * z) by (nonlinear_arith)
        requires
            n * pow2(60) == (q * b + r) * p,
            z * pow2(60) == y * p,
            pow2(60) > 0,
            p > 0,
    ;
    assert((q * b + r) * z == q * w + r * z) by (nonlinear_arith)
        requires
            w == b * z,
    ;
    assert((q + 1) * w == q * w + w) by (nonlinear_arith);
    assert(r * z < w) by (nonlinear_arith)
        requires
            w == b * z,
            r < b,
            z > 0,
    ;
    assert(r != 0 ==> r * z > 0) by (nonlinear_arith)
        requires
            z > 0,
    ;
    assert(r == 0 ==> r * z == 0);
    assert(r * z >= 0);
}

impl Num {
    fn product(self, other: Num) -> (r: Num)
        ensures
            r == self.times(other),
    {
        proof {
            reveal(Num::times);
        }
        let negative = self.is_negative() != other.is_negative();
        if self.is_nan() || other.is_nan() {
            return Num(NAN);
        }
        if !self.is_finite() || !other.is_finite() {
            if self.bare() == 0 || other.bare() == 0 {
                return Num(NAN);
            }
            return Num::make(negative, INFINITE);
        }
        let (a, ka) = self.parts();
        let (b, kb) = other.parts();
        proof {
            lemma_product(a as nat, ka as nat, b as nat, kb as nat);
            lemma_pow2_pos(1074);
            assert(a * b < 0x400_0000_0000_0000_0000_0000_0000) by (nonlinear_arith)
                requires
                    a < 0x20_0000_0000_0000,
                    b < 0x20_0000_0000_0000,
            ;
        }
        let m: u64 = pack(
            a as u128 * b as u128,
            ka as i32 + kb as i32 - 1074,
            false,
            Ghost(self.steps() * other.steps()),
            Ghost(unit()),
        );
        Num::make(negative, m)
    }

    /// Significand with its leading bit in place, and its exponent.
    fn normal_parts(self) -> (r: (u64, i32))
        requires
            self.finite(),
            self.magnitude() != 0,
        ensures
            0x10_0000_0000_0000 <= r.0 < 0x20_0000_0000_0000,
            -52 <= r.1 <= 2045,
            self.steps() * pow2(60) == r.0 * pow2((r.1 + 60) as nat),
    {
        let (a, k) = self.parts();
        proof {
            lemma_parts(self);
            lemma_pow2_adds(k as nat, 60);
            assert(self.steps() * pow2(60) == a * pow2((k + 60) as nat)) by (nonlinear_arith)
                requires
                    self.steps() == a * pow2(k as nat),
                    pow2((k + 60) as nat) == pow2(k as nat) * pow2(60),
            ;
        }
        let mut m: u64 = a;
        let mut e: i32 = k as i32;
        if k > 0 {
            return (m, e);
        }
        let ghost mut moved: int = 0;
        proof {
            lemma2_to64();
        }
        while m < LEAD
            invariant
                0 < m < 0x20_0000_0000_0000,
                0 <= moved <= 52,
                e == -moved,
                pow2(moved as nat) <= m,
                self.steps() * pow2(60) == m * pow2((e + 60) as nat),
            decreases 0x20_0000_0000_0000 - m,
        {
            proof {
                lemma_pow2_unfold((e + 60) as nat);
                assert(m * pow2((e + 60) as nat) == (2 * m) * pow2((e + 59) as nat)) by (nonlinear_arith)
                    requires
                        pow2((e + 60) as nat) == 2 * pow2((e + 59) as nat),
                ;
                lemma_pow2_unfold((moved + 1) as nat);
                lemma2_to64_rest();
                moved = moved + 1;
                if moved > 52 {
                    lemma_pow2_strictly_increases(52, moved as nat);
                }
            }
            m = m * 2;
            e = e - 1;
        }
        (m, e)
    }

    fn quotient(self, other: Num) -> (r: Num)
        ensures
            r == self.over(other),
    {
        proof {
            reveal(Num::over);
        }
        let negative = self.is_negative() != other.is_negative();
        if self.is_nan() || other.is_nan() {
            return Num(NAN);
        }
        if !self.is_finite() {
            if !other.is_finite() {
                return Num(NAN);
            }
            return Num::make(negative, INFINITE);
        }
        if !other.is_finite() {
            return Num::make(negative, 0);
        }
        if other.bare() == 0 {
            if self.bare() == 0 {
                return Num(NAN);
            }
            return Num::make(negative, INFINITE);
        }
        proof {
            lemma_parts(self);
            lemma_parts(other);
        }
        if self.bare() == 0 {
            proof {
                assert(0 * unit() == 0);
                lemma_round_zero(other.steps());
            }
            return Num::make(negative, 0);
        }
        let (a, ka) = self.normal_parts();
        let (b, kb) = other.parts();
        let p: u128 = power(66);
        proof {
            lemma2_to64();
            lemma_pow2_adds(2, 64);
            assert(a * p < 0x80_0000_0000_0000_0000_0000_0000_0000) by (nonlinear_arith)
                requires
                    a < 0x20_0000_0000_0000,
                    p == 0x4_0000_0000_0000_0000,
            ;
        }
        let whole: u128 = a as u128 * p;
        let q: u128 = whole / b as u128;
        let rest: u128 = whole % b as u128;
        proof {
            lemma_fundamental_div_mod(whole as int, b as int);
            assert(b * q == q * b) by (nonlinear_arith);
            assert(q >= 0x20_0000_0000_0000) by (nonlinear_arith)
                requires
                    whole == b * q + rest,
                    rest < b,
                    b < 0x20_0000_0000_0000,
                    whole >= 0x10_0000_0000_0000 * 0x4_0000_0000_0000_0000,
            ;
            assert(whole >= 0x10_0000_0000_0000 * 0x4_0000_0000_0000_0000) by (nonlinear_arith)
                requires
                    whole == a * p,
                    a >= 0x10_0000_0000_0000,
                    p == 0x4_0000_0000_0000_0000,
            ;
            let n = self.steps() * unit();
            assert(n * pow2(60) == a * pow2((ka + 60) as nat) * unit()) by (nonlinear_arith)
                requires
                    n == self.steps() * unit(),
                    self.steps() * pow2(60) == a * pow2((ka + 60) as nat),
            ;
            lemma_quotient(a as nat, ka as int, b as nat, kb as nat, n, q as nat, rest as nat);
        }
        let m: u64 = pack(
            q,
            ka - kb as i32 + 1008,
            rest != 0,
            Ghost(self.steps() * unit()),
            Ghost(other.steps()),
        );
        Num::make(negative, m)
    }
}

/// The integer root exists and is the only number with its property.
proof fn lemma_integer_root(n: nat, r: nat)
    requires
        r * r <= n < (r + 1) * (r + 1),
    ensures
        integer_root(n) == r,
{
    let c = integer_root(n);
    assert(c * c <= n < (c + 1) * (c + 1));
    if c < r {
        assert((c + 1) * (c + 1) <= r * r) by (nonlinear_arith)
            requires
                c + 1 <= r,
        ;
    } else if r < c {
        assert((r + 1) * (r + 1) <= c * c) by (nonlinear_arith)
            requires
                r + 1 <= c,
        ;
    }
}

/// The integer root of any number exists.
pub proof fn lemma_root_exists(n: nat) -> (r: nat)
    ensures
        r * r <= n < (r + 1) * (r + 1),
    decreases n,
{
    if n == 0 {
        assert((0nat + 1) * (0nat + 1) == 1) by (nonlinear_arith);
        0
    } else {
        let p = lemma_root_exists((n - 1) as nat);
        let next: nat = p + 1;
        assert(next * next < (next + 1) * (next + 1)) by (nonlinear_arith);
        assert(next * next == (p + 1) * (p + 1));
        if next * next <= n {
            next
        } else {
            assert(p * p <= n);
            p
        }
    }
}

/// The root of a number scaled by an even power of two.
proof fn lemma_scaled_root(m: nat, q: nat, s: nat, n: nat)
    requires
        q * q <= m < (q + 1) * (q + 1),
        n == m * (pow2(s) * pow2(s)),
        q >= 1,
    ensures
        ({
            let r = integer_root(n);
            let exact = r * r == n;
            &&& represents(
                q,
                s as int,
                q * q != m,
                2 * r + if exact {
                    0nat
                } else {
                    1nat
                },
                2,
            )
        }),
{
    let r = lemma_root_exists(n);
    lemma_integer_root(n, r);
    let p = pow2(s);
    lemma_pow2_pos(s);
    let exact = r * r == n;
    assert((q * p) * (q * p) <= n) by (nonlinear_arith)
        requires
            q * q <= m,
            n == m * (p * p),
    ;
    assert(q * p <= r) by (nonlinear_arith)
        requires
            (q * p) * (q * p) <= n,
            n < (r + 1) * (r + 1),
    ;
    assert(n < ((q + 1) * p) * ((q + 1) * p)) by (nonlinear_arith)
        requires
            m < (q + 1) * (q + 1),
            n == m * (p * p),
            p > 0,
    ;
    assert(r < (q + 1) * p) by (nonlinear_arith)
        requires
            r * r <= n,
            n < ((q + 1) * p) * ((q + 1) * p),
    ;
    if q * q == m {
        assert((q * p) * (q * p) == n) by (nonlinear_arith)
            requires
                q * q == m,
                n == m * (p * p),
        ;
        assert(((q * p) + 1) * ((q * p) + 1) > n) by (nonlinear_arith)
            requires
                (q * p) * (q * p) == n,
        ;
        lemma_integer_root(n, q * p);
        assert(exact);
    } else if r == q * p && exact {
        assert((q * q) * (p * p) == m * (p * p)) by (nonlinear_arith)
            requires
                (q * p) * (q * p) == m * (p * p),
        ;
        assert(q * q == m) by (nonlinear_arith)
            requires
                (q * q) * (p * p) == m * (p * p),
                p > 0,
        ;
    }
    let num = 2 * r + if exact {
        0nat
    } else {
        1nat
    };
    assert(q * (p * 2) == 2 * (q * p)) by (nonlinear_arith);
    assert((q + 1) * (p * 2) == 2 * ((q + 1) * p)) by (nonlinear_arith);
    assert(num * 1 == num);
}

/// Integer root of a 128-bit number.
fn root_of(m: u128) -> (r: u128)
    requires
        m < 0x1_0000_0000_0000_0000_0000_0000_0000,
    ensures
        r * r <= m < (r + 1) * (r + 1),
        r < 0x100_0000_0000_0000,
{
    let mut lo: u128 = 0;
    let mut hi: u128 = 0x100_0000_0000_0000;
    while hi - lo > 1
        invariant
            lo < hi <= 0x100_0000_0000_0000,
            lo * lo <= m,
            m < hi * hi,
        decreases hi - lo,
    {
        let mid: u128 = lo + (hi - lo) / 2;
        proof {
            assert(mid * mid <= 0x1_0000_0000_0000_0000_0000_0000_0000) by (nonlinear_arith)
                requires
                    0 <= mid <= 0x100_0000_0000_0000,
            ;
        }
        if mid * mid <= m {
            lo = mid;
        } else {
            hi = mid;
        }
    }
    lo
}

impl Num {
    /// Square root.
    pub fn sqrt(self) -> (r: Num)
        ensures
            r == self.root(),
    {
        proof {
            reveal(Num::root);
        }
        if self.is_nan() || (self.is_negative() && self.bare() != 0) {
            return Num(NAN);
        }
        if !self.is_finite() || self.bare() == 0 {
            return self;
        }
        let (a, k) = self.normal_parts();
        // Twice the exponent of the root: 57 or 58 low bits are added so that
        // it is even.
        let odd = (k + 52) % 2 == 1;
        let extra: u32 = if odd {
            57
        } else {
            58
        };
        let p: u128 = power(extra);
        let s: i32 = (k + 1074 - extra as i32) / 2;
        let ghost m = (a * p) as nat;
        let ghost n = self.steps() * unit();
        proof {
            lemma2_to64_rest();
            assert(a * p < 0x80_0000_0000_0000_0000_0000_0000_0000) by (nonlinear_arith)
                requires
                    a < 0x20_0000_0000_0000,
                    p <= 0x400_0000_0000_0000,
            ;
            assert(a * p < 0x1_0000_0000_0000_0000_0000_0000_0000) by (nonlinear_arith)
                requires
                    a < 0x20_0000_0000_0000,
                    p <= 0x400_0000_0000_0000,
            ;
            assert(a * p >= 0x10_0000_0000_0000 * 0x200_0000_0000_0000) by (nonlinear_arith)
                requires
                    a >= 0x10_0000_0000_0000,
                    p >= 0x200_0000_0000_0000,
            ;
            assert(2 * s == k + 1074 - extra);
            // n == (a * p) * 2^(2 s)
            lemma_pow2_adds(s as nat, s as nat);
            lemma_pow2_adds((k + 60) as nat, 1074);
            lemma_pow2_adds(extra as nat, (2 * s) as nat);
            lemma_pow2_adds((k + 1074) as nat, 60);
            lemma_pow2_pos(60);
            assert(n == m * (pow2(s as nat) * pow2(s as nat))) by (nonlinear_arith)
                requires
                    n == self.steps() * unit(),
                    m == a * p,
                    self.steps() * pow2(60) == a * pow2((k + 60) as nat),
                    pow2((k + 60) as nat) * unit() == pow2((k + 1074) as nat) * pow2(60),
                    pow2((k + 1074) as nat) == p * (pow2(s as nat) * pow2(s as nat)),
                    pow2(60) > 0,
            ;
        }
        let m: u128 = a as u128 * p;
        let q: u128 = root_of(m);
        proof {
            assert(q >= 0x20_0000_0000_0000) by (nonlinear_arith)
                requires
                    m < (q + 1) * (q + 1),
                    m >= 0x10_0000_0000_0000 * 0x200_0000_0000_0000,
            ;
            assert(q * q <= m);
            lemma_scaled_root(m as nat, q as nat, s as nat, n);
        }
        let rest = m - q * q != 0;
        let ghost root = integer_root(n);
        let g: u64 = pack(
            q,
            s,
            rest,
            Ghost(
                2 * root + if root * root == n {
                    0nat
                } else {
                    1nat
                },
            ),
            Ghost(2),
        );
        Num::make(false, g)
    }
}

/// Scaling both sides of a division changes nothing but the remainder.
proof fn lemma_scaled_division(x: nat, y: nat, c: nat)
    requires
        y > 0,
        c > 0,
    ensures
        (x * c) / (y * c) == x / y,
        (x * c) % (y * c) == (x % y) * c,
        y * c > 0,
{
    let q = x / y;
    let r = x % y;
    lemma_fundamental_div_mod(x as int, y as int);
    assert(x * c == q * (y * c) + r * c) by (nonlinear_arith)
        requires
            x == y * q + r,
    ;
    assert(r * c < y * c) by (nonlinear_arith)
        requires
            r < y,
            c > 0,
    ;
    assert(r * c >= 0);
    lemma_fundamental_div_mod_converse((x * c) as int, (y * c) as int, q as int, (r * c) as int);
}

/// Half-way rounding of a number with `e` bits below the unit.
proof fn lemma_half_up(m: nat, k: nat, e: nat)
    requires
        k + e == 1074,
        e > 0,
    ensures
        (2 * (m * pow2(k)) + unit()) / (2 * unit()) == (m + pow2((e - 1) as nat)) / pow2(e),
{
    let half = pow2((e - 1) as nat);
    let c = 2 * pow2(k);
    lemma_pow2_pos(k);
    lemma_pow2_pos(e);
    lemma_pow2_unfold(e);
    lemma_pow2_adds(e, k);
    assert(2 * (m * pow2(k)) + unit() == (m + half) * c) by (nonlinear_arith)
        requires
            unit() == (2 * half) * pow2(k),
            c == 2 * pow2(k),
    ;
    assert(2 * unit() == pow2(e) * c) by (nonlinear_arith)
        requires
            unit() == pow2(e) * pow2(k),
            c == 2 * pow2(k),
    ;
    lemma_scaled_division(m + half, pow2(e), c);
}

/// Whole part, and whole part from above, of a number with `e` bits below the
/// unit.
proof fn lemma_whole_part(m: nat, k: nat, e: nat)
    requires
        k + e == 1074,
    ensures
        (m * pow2(k)) / unit() == m / pow2(e),
        (m * pow2(k) + unit() - 1) as nat / unit() == m / pow2(e) + if m % pow2(e) == 0 {
            0int
        } else {
            1
        },
        unit() > 0,
        pow2(e) > 0,
{
    let p = pow2(e);
    let c = pow2(k);
    lemma_pow2_pos(k);
    lemma_pow2_pos(e);
    lemma_pow2_adds(e, k);
    lemma_pow2_pos(1074);
    lemma_scaled_division(m, p, c);
    let steps = m * c;
    let q = (m / p) as int;
    let r = (m % p) * c;
    let u = unit() as int;
    lemma_fundamental_div_mod(steps as int, u);
    assert(steps == u * q + r);
    if m % p == 0 {
        assert(0 * c == 0);
        assert(steps + u - 1 == q * u + (u - 1)) by (nonlinear_arith)
            requires
                steps == u * q,
        ;
        lemma_fundamental_div_mod_converse(steps + u - 1, u, q, u - 1);
    } else {
        assert(r >= 1) by (nonlinear_arith)
            requires
                r == (m % p) * c,
                m % p >= 1,
                c >= 1,
        ;
        assert(steps + u - 1 == (q + 1) * u + (r - 1)) by (nonlinear_arith)
            requires
                steps == u * q + r,
        ;
        lemma_fundamental_div_mod_converse(steps + u - 1, u, q + 1, r - 1);
    }
}

/// At or past the unit every number is whole.
proof fn lemma_all_whole(m: nat, k: nat)
    requires
        k >= 1074,
    ensures
        (m * pow2(k)) / unit() == m * pow2((k - 1074) as nat),
        (m * pow2(k)) / unit() >= m,
        (2 * (m * pow2(k)) + unit()) / (2 * unit()) == m * pow2((k - 1074) as nat),
        (m * pow2(k) + unit() - 1) as nat / unit() == m * pow2((k - 1074) as nat),
        (m * pow2((k - 1074) as nat)) * unit() == m * pow2(k),
{
    let f = pow2((k - 1074) as nat);
    let w = m * f;
    let u = unit();
    lemma_pow2_pos((k - 1074) as nat);
    lemma_pow2_pos(1074);
    lemma_pow2_adds((k - 1074) as nat, 1074);
    assert(m * pow2(k) == w * u) by (nonlinear_arith)
        requires
            pow2(k) == f * u,
            w == m * f,
    ;
    assert(w >= m) by (nonlinear_arith)
        requires
            w == m * f,
            f >= 1,
    ;
    lemma_fundamental_div_mod_converse((w * u) as int, u as int, w as int, 0);
    lemma_fundamental_div_mod_converse((w * u + u - 1) as int, u as int, w as int, u - 1);
    assert(2 * (w * u) + u == w * (2 * u) + u) by (nonlinear_arith);
    lemma_fundamental_div_mod_converse((2 * (w * u) + u) as int, (2 * u) as int, w as int, u as int);
}

/// A number below a power of two has no whole part in it.
proof fn lemma_below(m: nat, e: nat, b: nat)
    requires
        m < pow2(b),
        b <= e,
    ensures
        m < pow2(e),
        m / pow2(e) == 0,
        m % pow2(e) == m,
{
    if b < e {
        lemma_pow2_strictly_increases(b, e);
    }
    lemma_fundamental_div_mod_converse(m as int, pow2(e) as int, 0, m as int);
}

impl Num {
    /// A whole number of ones, rounded and signed.
    fn of_whole(negative: bool, w: u64) -> (r: Num)
        ensures
            r == signed(negative, round_magnitude(w as nat * unit(), 1)),
    {
        proof {
            lemma_exact(w as nat, 1074, w as nat * unit());
        }
        let m: u64 = pack(w as u128, 1074, false, Ghost(w as nat * unit()), Ghost(1));
        Num::make(negative, m)
    }

    /// The number nearest to a whole one.
    pub fn from_int(n: u64) -> (r: Num)
        ensures
            r == of_int(n as nat),
    {
        proof {
            reveal(of_int);
        }
        Num::of_whole(false, n)
    }

    /// The number itself, all of it whole.
    fn already_whole(self) -> (r: Num)
        requires
            self.finite(),
            self.exponent() >= 1074,
        ensures
            r == self.rounded(),
            r == self.floored(),
    {
        proof {
            reveal(Num::rounded);
            reveal(Num::floored);
        }
        let (m, k) = self.parts();
        proof {
            lemma_all_whole(m as nat, k as nat);
            lemma_exact(m as nat, k as nat, self.steps());
        }
        let g: u64 = pack(m as u128, k as i32, false, Ghost(self.steps()), Ghost(1));
        Num::make(self.is_negative(), g)
    }

    /// The nearest whole number, away from zero from half way.
    pub fn round(self) -> (r: Num)
        ensures
            r == self.rounded(),
    {
        proof {
            reveal(Num::rounded);
        }
        if !self.is_finite() {
            return self;
        }
        let (m, k) = self.parts();
        if k >= 1074 {
            return self.already_whole();
        }
        let e: u32 = 1074 - k;
        proof {
            lemma_half_up(m as nat, k as nat, e as nat);
            lemma2_to64_rest();
        }
        if e > 54 {
            proof {
                lemma_pow2_unfold(e as nat);
                lemma_below(m as nat, (e - 1) as nat, 53);
                lemma_fundamental_div_mod_converse(
                    m + pow2((e - 1) as nat),
                    pow2(e as nat) as int,
                    0,
                    m + pow2((e - 1) as nat),
                );
            }
            Num::of_whole(self.is_negative(), 0)
        } else {
            let half: u128 = power(e - 1);
            proof {
                lemma_pow2_unfold(e as nat);
                lemma_pow2_pos((e - 1) as nat);
                if e < 54 {
                    lemma_pow2_strictly_increases(e as nat, 54);
                }
                lemma2_to64_rest();
            }
            let w: u128 = (m as u128 + half) / (2 * half);
            proof {
                lemma_fundamental_div_mod(m + half, 2 * half);
                assert(w <= m + half) by (nonlinear_arith)
                    requires
                        m + half == (2 * half) * w + (m + half) % (2 * half),
                        (m + half) % (2 * half) >= 0,
                        half >= 1,
                ;
            }
            Num::of_whole(self.is_negative(), w as u64)
        }
    }

    /// Whole part of the distance from zero below `2^53`, and whether
    /// anything is left.
    fn split(self) -> (r: (u64, bool))
        requires
            self.finite(),
            self.exponent() < 1074,
        ensures
            r.0 == self.steps() / unit(),
            r.0 + (if r.1 { 1int } else { 0 }) == (self.steps() + unit() - 1) as nat / unit(),
            r.0 < 0x20_0000_0000_0000,
    {
        let (m, k) = self.parts();
        let e: u32 = 1074 - k;
        proof {
            lemma_whole_part(m as nat, k as nat, e as nat);
            lemma2_to64_rest();
        }
        if e > 53 {
            proof {
                lemma_below(m as nat, e as nat, 53);
            }
            (0, m != 0)
        } else {
            let p: u128 = power(e);
            let q: u128 = m as u128 / p;
            proof {
                lemma_fundamental_div_mod(m as int, p as int);
                assert(q <= m) by (nonlinear_arith)
                    requires
                        m == p * q + m as int % p as int,
                        m as int % p as int >= 0,
                        p >= 1,
                ;
            }
            (q as u64, m as u128 % p != 0)
        }
    }

    /// The largest whole number that is not above.
    pub fn floor(self) -> (r: Num)
        ensures
            r == self.floored(),
    {
        proof {
            reveal(Num::floored);
        }
        if !self.is_finite() {
            return self;
        }
        let (m, k) = self.parts();
        if k >= 1074 {
            return self.already_whole();
        }
        let (w, more) = self.split();
        if self.is_negative() && more {
            Num::of_whole(true, w + 1)
        } else {
            Num::of_whole(self.is_negative(), w)
        }
    }

    /// The whole part, held within `u32`; zero for what is not a number.
    pub fn to_u32(self) -> (r: u32)
        ensures
            r == self.whole(),
    {
        proof {
            reveal(Num::whole);
        }
        if self.is_nan() || self.is_negative() {
            return 0;
        }
        if !self.is_finite() {
            return 0xffff_ffff;
        }
        let (m, k) = self.parts();
        if k >= 1074 {
            proof {
                lemma_all_whole(m as nat, k as nat);
            }
            return 0xffff_ffff;
        }
        let (w, more) = self.split();
        if w >= 0xffff_ffff {
            0xffff_ffff
        } else {
            w as u32
        }
    }

    /// The number with the opposite sign.
    pub fn negate(self) -> (r: Num)
        ensures
            r == self.opposite(),
    {
        if self.0 >= SIGN {
            Num(self.0 - SIGN)
        } else {
            Num(self.0 + SIGN)
        }
    }

    /// Distance from zero.
    pub fn abs(self) -> (r: Num)
        ensures
            r == self.size(),
    {
        if self.0 >= SIGN {
            Num(self.0 - SIGN)
        } else {
            self
        }
    }

    /// One with the number's sign, which a zero has too.
    pub fn signum(self) -> (r: Num)
        ensures
            r == self.direction(),
    {
        if self.is_nan() {
            Num(NAN)
        } else if self.0 >= SIGN {
            Num(0xbff0_0000_0000_0000)
        } else {
            Num(ONE)
        }
    }

    /// The smaller number; the other one if one is not a number.
    pub fn min(self, other: Num) -> (r: Num)
        ensures
            r == self.lesser(other),
    {
        proof {
            reveal(Num::lesser);
        }
        if self.is_nan() {
            other
        } else if other < self {
            other
        } else {
            self
        }
    }

    /// The larger number; the other one if one is not a number.
    pub fn max(self, other: Num) -> (r: Num)
        ensures
            r == self.greater(other),
    {
        proof {
            reveal(Num::greater);
        }
        if self.is_nan() {
            other
        } else if self < other {
            other
        } else {
            self
        }
    }

    /// The number pulled into `[lo, hi]`.
    pub fn clamp(self, lo: Num, hi: Num) -> (r: Num)
        requires
            lo.le(hi),
        ensures
            r == self.within(lo, hi),
    {
        proof {
            reveal(Num::within);
        }
        let raised = if self < lo {
            lo
        } else {
            self
        };
        if raised > hi {
            hi
        } else {
            raised
        }
    }
}

impl Add for Num {
    type Output = Num;

    fn add(self, rhs: Num) -> (r: Num) {
        self.sum(rhs)
    }
}

impl vstd::std_specs::ops::AddSpecImpl for Num {
    open spec fn obeys_add_spec() -> bool {
        true
    }

    open spec fn add_req(self, rhs: Num) -> bool {
        true
    }

    open spec fn add_spec(self, rhs: Num) -> Num {
        self.plus(rhs)
    }
}

impl Sub for Num {
    type Output = Num;

    fn sub(self, rhs: Num) -> (r: Num) {
        proof {
            reveal(Num::minus);
        }
        self.sum(rhs.negate())
    }
}

impl vstd::std_specs::ops::SubSpecImpl for Num {
    open spec fn obeys_sub_spec() -> bool {
        true
    }

    open spec fn sub_req(self, rhs: Num) -> bool {
        true
    }

    open spec fn sub_spec(self, rhs: Num) -> Num {
        self.minus(rhs)
    }
}

impl Mul for Num {
    type Output = Num;

    fn mul(self, rhs: Num) -> (r: Num) {
        self.product(rhs)
    }
}

impl vstd::std_specs::ops::MulSpecImpl for Num {
    open spec fn obeys_mul_spec() -> bool {
        true
    }

    open spec fn mul_req(self, rhs: Num) -> bool {
        true
    }

    open spec fn mul_spec(self, rhs: Num) -> Num {
        self.times(rhs)
    }
}

impl Div for Num {
    type Output = Num;

    fn div(self, rhs: Num) -> (r: Num) {
        self.quotient(rhs)
    }
}

impl vstd::std_specs::ops::DivSpecImpl for Num {
    open spec fn obeys_div_spec() -> bool {
        true
    }

    open spec fn div_req(self, rhs: Num) -> bool {
        true
    }

    open spec fn div_spec(self, rhs: Num) -> Num {
        self.over(rhs)
    }
}

impl PartialEq for Num {
    fn eq(&self, other: &Num) -> (r: bool) {
        proof {
            reveal(Num::same);
        }
        if self.is_nan() || other.is_nan() {
            false
        } else {
            self.0 == other.0 || (self.bare() == 0 && other.bare() == 0)
        }
    }
}

impl vstd::std_specs::cmp::PartialEqSpecImpl for Num {
    open spec fn obeys_eq_spec() -> bool {
        true
    }

    open spec fn eq_spec(&self, other: &Num) -> bool {
        self.same(*other)
    }
}

impl PartialOrd for Num {
    fn partial_cmp(&self, other: &Num) -> (r: Option<Ordering>) {
        proof {
            reveal(Num::compared);
            reveal(Num::lt);
            reveal(Num::same);
        }
        if self.is_nan() || other.is_nan() {
            return None;
        }
        let a: u64 = self.bare();
        let b: u64 = other.bare();
        if a == 0 && b == 0 {
            Some(Ordering::Equal)
        } else if self.is_negative() != other.is_negative() {
            if self.is_negative() {
                Some(Ordering::Less)
            } else {
                Some(Ordering::Greater)
            }
        } else if a == b {
            Some(Ordering::Equal)
        } else if (a < b) != self.is_negative() {
            Some(Ordering::Less)
        } else {
            Some(Ordering::Greater)
        }
    }

    fn lt(&self, other: &Num) -> (r: bool)
        ensures
            r == Num::lt(*self, *other),
    {
        proof {
            reveal(Num::compared);
            reveal(Num::lt);
            reveal(Num::same);
        }
        proof {
            reveal(Num::le);
        }
        match self.partial_cmp(other) {
            Some(Ordering::Less) => true,
            _ => false,
        }
    }

    fn le(&self, other: &Num) -> (r: bool)
        ensures
            r == Num::le(*self, *other),
    {
        proof {
            reveal(Num::compared);
            reveal(Num::lt);
            reveal(Num::same);
        }
        proof {
            reveal(Num::le);
        }
        match self.partial_cmp(other) {
            Some(Ordering::Less) | Some(Ordering::Equal) => true,
            _ => false,
        }
    }

    fn gt(&self, other: &Num) -> (r: bool)
        ensures
            r == Num::lt(*other, *self),
    {
        proof {
            reveal(Num::compared);
            reveal(Num::lt);
            reveal(Num::same);
        }
        proof {
            reveal(Num::le);
        }
        match self.partial_cmp(other) {
            Some(Ordering::Greater) => true,
            _ => false,
        }
    }

    fn ge(&self, other: &Num) -> (r: bool)
        ensures
            r == Num::le(*other, *self),
    {
        proof {
            reveal(Num::compared);
            reveal(Num::lt);
            reveal(Num::same);
        }
        proof {
            reveal(Num::le);
        }
        match self.partial_cmp(other) {
            Some(Ordering::Greater) | Some(Ordering::Equal) => true,
            _ => false,
        }
    }
}

impl vstd::std_specs::cmp::PartialOrdSpecImpl for Num {
    open spec fn obeys_partial_cmp_spec() -> bool {
        true
    }

    open spec fn partial_cmp_spec(&self, other: &Num) -> Option<Ordering> {
        self.compared(*other)
    }
}

} // verus!
