//! Exact numbers: scores, severities, durations and settings are kept as
//! fractions of integers, so that a comparison never depends on rounding.

use crate::fraction::lemma_cross;
use crate::natural::Natural;
#[allow(unused_imports)]
use crate::natural::{lemma_ten_to_positive, ten_to};
use vstd::prelude::*;

verus! {

/// The larger of two real numbers.
pub open spec fn real_max(a: real, b: real) -> real {
    if a >= b {
        a
    } else {
        b
    }
}

/// A fraction `num / den` of machine integers.
#[derive(Copy, Clone, Debug, PartialEq, Eq, Structural)]
pub struct Ratio {
    pub num: i128,
    pub den: i128,
}

impl Ratio {
    /// A fraction denotes a number when its denominator is positive.
    pub open spec fn wf(self) -> bool {
        self.den > 0
    }

    /// The number that the fraction denotes.
    pub open spec fn value(self) -> real {
        (self.num as real) / (self.den as real)
    }
}

/// A decimal fraction: `digits` shifted right by `places` decimal places.
#[derive(Copy, Clone, Debug, PartialEq, Eq, Structural)]
pub struct Decimal {
    pub digits: u64,
    pub places: u16,
}

/// The number `digits` times ten to the power of `exponent`.
pub open spec fn scientific(digits: u64, exponent: int) -> real {
    if exponent < 0 {
        (digits as real) / (ten_to((-exponent) as nat) as real)
    } else {
        (digits * ten_to(exponent as nat)) as real
    }
}

impl Decimal {
    /// The number that the decimal fraction denotes.
    pub open spec fn value(self) -> real {
        (self.digits as real) / (ten_to(self.places as nat) as real)
    }

    /// Whether the number is at most one. It is never negative.
    pub open spec fn in_unit(self) -> bool {
        self.digits <= ten_to(self.places as nat)
    }

    /// `n` hundredths.
    pub fn percent(n: u64) -> (r: Self)
        ensures
            r.digits == n,
            r.places == 2,
            n <= 100 ==> r.in_unit(),
    {
        proof {
            reveal_with_fuel(ten_to, 3);
        }
        Decimal { digits: n, places: 2 }
    }

    /// The number `digits` times ten to the power of `exponent`, where it lies
    /// between zero and one. A number with more than 65535 decimal places is
    /// refused.
    pub fn from_scientific(digits: u64, exponent: i32) -> (r: Option<Self>)
        ensures
            r is Some <==> scientific(digits, exponent as int) <= 1real && (digits == 0 || exponent
                >= -0xffff),
            r matches Some(d) ==> d.in_unit() && d.value() == scientific(digits, exponent as int),
    {
        proof {
            lemma_scientific(digits, exponent as int);
            let unit = ten_to((-exponent) as nat);
            assert(1 * unit == unit) by (nonlinear_arith);
        }
        if digits == 0 {
            Some(Decimal { digits: 0, places: 0 })
        } else if exponent < -0xffff {
            None
        } else if exponent < 0 {
            let places: u16 = (-exponent) as u16;
            let unit = Natural::from_u128(1).times_ten_to(places);
            if unit.at_least(&Natural::from_u128(digits as u128)) {
                Some(Decimal { digits, places })
            } else {
                None
            }
        } else if digits == 1 && exponent == 0 {
            Some(Decimal { digits: 1, places: 0 })
        } else {
            None
        }
    }
}

/// When a number in scientific notation is at most one.
proof fn lemma_scientific(digits: u64, exponent: int)
    ensures
        exponent < 0 ==> (scientific(digits, exponent) <= 1real <==> digits <= ten_to(
            (-exponent) as nat,
        )),
        exponent >= 0 ==> (scientific(digits, exponent) <= 1real <==> digits == 0 || (digits == 1
            && exponent == 0)),
        digits == 0 ==> scientific(digits, exponent) == 0real,
        ten_to(0) == 1,
        (1int as real) / (1int as real) == 1real,
        (0int as real) / (1int as real) == 0real,
{
    crate::fraction::lemma_quotient(1real, 1real, 1real);
    crate::fraction::lemma_quotient(0real, 1real, 0real);
    if exponent < 0 {
        let unit = ten_to((-exponent) as nat);
        lemma_ten_to_positive((-exponent) as nat);
        lemma_cross(1, 1, digits as int, unit as int);
        assert(1 * unit == unit && digits * 1 == digits) by (nonlinear_arith);
        crate::fraction::lemma_quotient(0real, unit as real, 0real);
    } else {
        let unit = ten_to(exponent as nat);
        lemma_ten_to_positive(exponent as nat);
        if digits == 0 {
            assert(digits * unit == 0) by (nonlinear_arith)
                requires
                    digits == 0,
            ;
        } else if exponent > 0 {
            lemma_ten_to_positive((exponent - 1) as nat);
            assert(digits * unit >= 10) by (nonlinear_arith)
                requires
                    digits >= 1,
                    unit >= 10,
            ;
        } else {
            assert(digits * unit == digits) by (nonlinear_arith)
                requires
                    unit == 1,
            ;
        }
    }
}

/// The digits that are worked out of a fraction, in a row that does not begin
/// with a zero.
pub const SHOWN_DIGITS_FROM: u64 = 100_000_000_000_000_000;

/// A fraction `num / den` of natural numbers of any size.
#[derive(Debug)]
pub struct Fraction {
    pub num: Natural,
    pub den: Natural,
}

impl Fraction {
    /// A fraction denotes a number when its denominator is positive.
    pub open spec fn wf(self) -> bool {
        self.den@ > 0
    }

    /// The number that the fraction denotes.
    pub open spec fn value(self) -> real {
        (self.num@ as real) / (self.den@ as real)
    }

    /// Whether the fraction is at least `bound`.
    pub fn at_least(&self, bound: &Decimal) -> (r: bool)
        requires
            self.wf(),
        ensures
            r == (self.value() >= bound.value()),
    {
        proof {
            lemma_ten_to_positive(bound.places as nat);
            lemma_cross(
                self.num@ as int,
                self.den@ as int,
                bound.digits as int,
                ten_to(bound.places as nat) as int,
            );
        }
        let left = self.num.times_ten_to(bound.places);
        let right = Natural::from_u128(bound.digits as u128).times(&self.den);
        left.at_least(&right)
    }

    /// The fraction as a decimal fraction, rounded down where it has more than
    /// eighteen digits that count.
    pub fn truncated(&self) -> (r: Decimal)
        requires
            self.wf(),
            self.num@ <= self.den@,
        ensures
            r.in_unit(),
            r.value() <= self.value(),
            self.value() < ((r.digits + 1) as real) / (ten_to(r.places as nat) as real),
            r.value() == self.value() || r.digits >= SHOWN_DIGITS_FROM || r.places == u16::MAX,
    {
        let ghost n = self.num@ as int;
        let ghost d = self.den@ as int;
        if self.num.at_least(&self.den) {
            proof {
                lemma_between(n, d, 1, 1, 0);
            }
            return Decimal { digits: 1, places: 0 };
        }
        let one = Natural::from_u128(1);
        let mut rest = self.num.copy();
        let mut digits: u64 = 0;
        let mut places: u16 = 0;
        assert(n * 1 == 0 * d + n) by (nonlinear_arith);
        while digits < SHOWN_DIGITS_FROM && places < u16::MAX && rest.at_least(&one)
            invariant
                self.wf(),
                n == self.num@,
                d == self.den@,
                one@ == 1,
                n * ten_to(places as nat) == digits * d + rest@,
                rest@ < d,
                digits < 10 * SHOWN_DIGITS_FROM,
            decreases u16::MAX - places,
        {
            let ghost before = rest@ as int;
            rest = rest.times_ten_to(1);
            proof {
                reveal_with_fuel(ten_to, 2);
            }
            let mut digit: u64 = 0;
            assert(before * 10 == 0 * d + before * 10) by (nonlinear_arith);
            while rest.at_least(&self.den)
                invariant
                    d == self.den@,
                    d > 0,
                    before < d,
                    before * 10 == digit * d + rest@,
                    digit <= 9,
                decreases rest@,
            {
                assert((digit + 1) * d == digit * d + d) by (nonlinear_arith);
                assert(digit + 1 >= 10 ==> (digit + 1) * d >= 10 * d) by (nonlinear_arith)
                    requires
                        d > 0,
                ;
                rest = rest.minus(&self.den);
                digit = digit + 1;
            }
            proof {
                let t = ten_to(places as nat) as int;
                assert(n * (10 * t) == 10 * (n * t)) by (nonlinear_arith);
                assert((digits * 10 + digit) * d == 10 * (digits * d) + digit * d) by (nonlinear_arith);
            }
            digits = digits * 10 + digit;
            places = places + 1;
        }
        proof {
            lemma_ten_to_positive(places as nat);
            lemma_between(n, d, digits as int, ten_to(places as nat) as int, rest@ as int);
        }
        Decimal { digits, places }
    }
}

/// A rational number of any size and sign.
#[derive(Debug)]
pub struct Rational {
    pub negative: bool,
    pub num: Natural,
    pub den: Natural,
}

impl Rational {
    /// A rational number has a positive denominator.
    pub open spec fn wf(self) -> bool {
        self.den@ > 0
    }

    /// The numerator with its sign.
    pub open spec fn signed_num(self) -> int {
        if self.negative {
            -(self.num@ as int)
        } else {
            self.num@ as int
        }
    }

    /// The number itself.
    pub open spec fn value(self) -> real {
        (self.signed_num() as real) / (self.den@ as real)
    }

    /// The same number of any size.
    pub fn from_ratio(x: Ratio) -> (r: Self)
        requires
            x.wf(),
        ensures
            r.wf(),
            r.signed_num() == x.num,
            r.den@ == x.den,
            r.value() == x.value(),
    {
        let negative: bool = x.num < 0;
        let magnitude: u128 = if negative {
            (-(x.num + 1)) as u128 + 1
        } else {
            x.num as u128
        };
        Rational {
            negative,
            num: Natural::from_u128(magnitude),
            den: Natural::from_u128(x.den as u128),
        }
    }
}

/// A quotient lies between its digits and the next ones.
proof fn lemma_between(n: int, d: int, digits: int, unit: int, rest: int)
    requires
        0 <= n <= d,
        0 < d,
        0 < unit,
        0 <= digits,
        0 <= rest < d,
        n * unit == digits * d + rest,
    ensures
        digits <= unit,
        (digits as real) / (unit as real) <= (n as real) / (d as real),
        (n as real) / (d as real) < ((digits + 1) as real) / (unit as real),
        rest == 0 ==> (digits as real) / (unit as real) == (n as real) / (d as real),
{
    assert(digits <= unit) by (nonlinear_arith)
        requires
            0 <= n <= d,
            0 < d,
            0 < unit,
            0 <= rest,
            n * unit == digits * d + rest,
    ;
    assert((digits + 1) * d == digits * d + d) by (nonlinear_arith);
    lemma_cross(n, d, digits, unit);
    lemma_cross(digits, unit, n, d);
    lemma_cross(digits + 1, unit, n, d);
}

/// A fraction times its denominator gives the numerator back, whatever it is made
/// of.
pub proof fn law_fractions_give_back(ratio: Ratio, decimal: Decimal, fraction: Fraction)
    requires
        ratio.den > 0,
        fraction.den@ > 0,
    ensures
        ratio.value() * (ratio.den as real) == ratio.num as real,
        decimal.value() * (ten_to(decimal.places as nat) as real) == decimal.digits as real,
        fraction.value() * (fraction.den@ as real) == fraction.num@ as real,
        decimal.in_unit() <==> decimal.value() <= 1real,
{
    crate::fraction::lemma_give_back(ratio.num as real, ratio.den as real);
    lemma_ten_to_positive(decimal.places as nat);
    crate::fraction::lemma_give_back(
        decimal.digits as real,
        ten_to(decimal.places as nat) as real,
    );
    crate::fraction::lemma_give_back(fraction.num@ as real, fraction.den@ as real);
    let unit = ten_to(decimal.places as nat) as int;
    lemma_cross(1, 1, decimal.digits as int, unit);
    crate::fraction::lemma_quotient(1real, 1real, 1real);
    assert(1 * unit == unit && decimal.digits * 1 == decimal.digits) by (nonlinear_arith);
}

} // verus!
