//! The transparent weighted risk score.

use crate::blocker::{BlockerModel, BlockerState, MICROS_PER_SECOND};
use crate::fraction::{
    lemma_add, lemma_cancel, lemma_divide, lemma_divide_twice, lemma_give_back, lemma_multiply, lemma_order,
    lemma_positive, lemma_quotient, lemma_real_product,
};
#[allow(unused_imports)]
use crate::lock_mode::LockMode;
use crate::natural::Natural;
#[allow(unused_imports)]
use crate::natural::{lemma_ten_to_adds, lemma_ten_to_positive, ten_to};
use crate::ratio::{real_max, Decimal, Fraction, Ratio, Rational};
use crate::settings::Weights;
use vstd::prelude::*;

verus! {

/// The shortest baseline that a hold time is held against: a tenth of a second.
pub const MIN_BASELINE_MICROS: u64 = 100_000;

/// The smallest sum of weights that a score is divided by is one part in so many.
pub const WEIGHT_SUM_PARTS: u32 = 10_000;

/// The smallest sum of weights that a score is divided by.
pub open spec fn min_weight_sum() -> real {
    1real / (WEIGHT_SUM_PARTS as real)
}

/// `x` squashed into the range from zero to one: zero for what is not positive,
/// one half at `half_point`, and ever closer to one above it.
pub open spec fn normalized(x: real, half_point: real) -> real {
    if half_point <= 0real {
        0real
    } else {
        real_max(x, 0real) / (real_max(x, 0real) + half_point)
    }
}

/// How far the hold time at `now` exceeds the baseline: 0 at the baseline, 1 at
/// twice the baseline.
pub open spec fn overrun_ratio(state: BlockerModel, now: i64) -> real {
    let baseline = real_max(
        (state.baseline_hold_micros as real) / (MICROS_PER_SECOND as real),
        (MIN_BASELINE_MICROS as real) / (MICROS_PER_SECOND as real),
    );
    state.hold_seconds(now) / baseline - 1real
}

pub open spec fn velocity_term(state: BlockerModel) -> real {
    normalized(state.waiter_velocity(), 1real)
}

pub open spec fn duration_term(state: BlockerModel, now: i64) -> real {
    normalized(real_max(overrun_ratio(state, now), 0real), 1real)
}

pub open spec fn lock_mode_term(state: BlockerModel) -> real {
    (state.lock_mode.severity_percent() as real) / (100int as real)
}

pub open spec fn cascade_term(state: BlockerModel) -> real {
    normalized(state.cascade_depth as real, 1real)
}

/// `x` brought into the range from zero to one.
pub open spec fn clamped_to_unit(x: real) -> real {
    if x < 0real {
        0real
    } else if x > 1real {
        1real
    } else {
        x
    }
}

/// The mean of four terms under the given weights, a sum of weights that is all
/// but zero being raised to a ten-thousandth.
pub open spec fn weighted(v: real, d: real, l: real, c: real, weights: Weights) -> real {
    let wv = weights.velocity.value();
    let wd = weights.duration.value();
    let wl = weights.lock_mode.value();
    let wc = weights.cascade_depth.value();
    let weight_sum = real_max(wv + wd + wl + wc, min_weight_sum());
    let raw = wv * v + wd * d + wl * l + wc * c;
    raw / weight_sum
}

/// The weighted mean of four terms, brought into the range from zero to one.
pub open spec fn mean_value(v: real, d: real, l: real, c: real, weights: Weights) -> real {
    clamped_to_unit(weighted(v, d, l, c, weights))
}

/// The composite risk score of a blocker at `now`.
pub open spec fn score_value(state: BlockerModel, now: i64, weights: Weights) -> real {
    mean_value(
        velocity_term(state),
        duration_term(state, now),
        lock_mode_term(state),
        cascade_term(state),
        weights,
    )
}

/// Squashes an unbounded positive value into the range from zero to one without
/// a hard cutoff. Used for velocity and duration overrun, where "how much"
/// matters but one pathological outlier should not dominate the whole score.
pub fn normalize(x: &Rational, half_point: &Rational) -> (r: Fraction)
    requires
        x.wf(),
        half_point.wf(),
    ensures
        r.wf(),
        r.value() == normalized(x.value(), half_point.value()),
        r.num@ <= r.den@,
{
    let zero = Natural::from_u128(0);
    if half_point.negative || zero.at_least(&half_point.num) {
        proof {
            lemma_sign(half_point.signed_num(), half_point.den@ as int);
            lemma_quotient(0real, 1real, 0real);
        }
        return Fraction { num: zero, den: Natural::from_u128(1) };
    }
    let above = if x.negative {
        zero
    } else {
        x.num.copy()
    };
    proof {
        lemma_normalize(
            x.signed_num(),
            x.den@ as int,
            half_point.signed_num(),
            half_point.den@ as int,
        );
        assert(0 * half_point.den@ == 0) by (nonlinear_arith);
    }
    let num = above.times(&half_point.den);
    let den = num.plus(&half_point.num.times(&x.den));
    Fraction { num, den }
}

/// Composite risk score between zero and one.
///
/// A plain weighted sum rather than a learned model: every term can be inspected
/// and every weight is a setting. The result is the exact value of the formula.
pub fn score(state: &BlockerState, now: i64, weights: &Weights) -> (r: Fraction)
    requires
        state.wf(),
    ensures
        r.wf(),
        r.value() == score_value(state@, now, *weights),
        r.num@ <= r.den@,
{
    let one = Rational::from_ratio(Ratio { num: 1, den: 1 });
    assert(one.value() == 1real) by {
        lemma_quotient(1real, 1real, 1real);
    }

    // Gaining one queued backend per sample already counts as half risky.
    let velocity = normalize(&Rational::from_ratio(state.waiter_velocity()), &one);

    let hold = state.hold_seconds(now);
    let baseline: i128 = if state.baseline_hold_micros > MIN_BASELINE_MICROS {
        state.baseline_hold_micros as i128
    } else {
        MIN_BASELINE_MICROS as i128
    };
    let overrun = Ratio { num: hold.num - baseline, den: baseline };
    proof {
        lemma_overrun(state@, now);
    }
    let duration = normalize(&Rational::from_ratio(overrun), &one);

    let severity = state.lock_mode.severity();
    let lock_mode = Fraction {
        num: Natural::from_u128(severity.num as u128),
        den: Natural::from_u128(severity.den as u128),
    };

    // Waiters queued behind other waiters already count as half risky.
    let depth = Ratio { num: state.cascade_depth as i128, den: 1 };
    assert(depth.value() == state.cascade_depth as real) by {
        let c = state.cascade_depth as real;
        assert(c / (1int as real) == c) by (nonlinear_arith);
    }
    let cascade = normalize(&Rational::from_ratio(depth), &one);

    weighted_mean(&velocity, &duration, &lock_mode, &cascade, weights)
}

/// The weight over ten to the power of `places`.
fn scaled(weight: &Decimal, places: u16) -> (r: Natural)
    requires
        weight.places <= places,
    ensures
        weight.value() == (r@ as real) / (ten_to(places as nat) as real),
{
    let more: u16 = places - weight.places;
    proof {
        let unit = ten_to(weight.places as nat);
        let factor = ten_to(more as nat);
        lemma_ten_to_positive(weight.places as nat);
        lemma_ten_to_positive(more as nat);
        lemma_ten_to_adds(weight.places as nat, more as nat);
        lemma_real_product(weight.digits as int, factor as int);
        lemma_real_product(unit as int, factor as int);
        lemma_cancel(weight.digits as real, unit as real, factor as real);
    }
    Natural::from_u128(weight.digits as u128).times_ten_to(more)
}

fn larger(a: u16, b: u16) -> (r: u16)
    ensures
        r >= a,
        r >= b,
{
    if a > b {
        a
    } else {
        b
    }
}

/// The mean of four terms under the given weights.
fn weighted_mean(
    velocity: &Fraction,
    duration: &Fraction,
    lock_mode: &Fraction,
    cascade: &Fraction,
    weights: &Weights,
) -> (r: Fraction)
    requires
        velocity.wf() && velocity.num@ <= velocity.den@,
        duration.wf() && duration.num@ <= duration.den@,
        lock_mode.wf() && lock_mode.num@ <= lock_mode.den@,
        cascade.wf() && cascade.num@ <= cascade.den@,
    ensures
        r.wf(),
        r.num@ <= r.den@,
        r.value() == mean_value(
            velocity.value(),
            duration.value(),
            lock_mode.value(),
            cascade.value(),
            *weights,
        ),
{
    let places: u16 = larger(
        larger(weights.velocity.places, weights.duration.places),
        larger(weights.lock_mode.places, weights.cascade_depth.places),
    );
    let wv = scaled(&weights.velocity, places);
    let wd = scaled(&weights.duration, places);
    let wl = scaled(&weights.lock_mode, places);
    let wc = scaled(&weights.cascade_depth, places);
    let parts = Natural::from_u128(WEIGHT_SUM_PARTS as u128);
    let unit = Natural::from_u128(1).times_ten_to(places);
    let total = wv.plus(&wd).plus(&wl).plus(&wc).times(&parts);
    let weight_sum = if total.at_least(&unit) {
        total
    } else {
        unit
    };

    let left = velocity.den.times(&duration.den);
    let right = lock_mode.den.times(&cascade.den);
    let den = left.times(&right);
    let v = velocity.num.times(&duration.den).times(&right);
    let d = duration.num.times(&velocity.den).times(&right);
    let l = lock_mode.num.times(&cascade.den).times(&left);
    let c = cascade.num.times(&lock_mode.den).times(&left);
    let num = wv.times(&v).plus(&wd.times(&d)).plus(&wl.times(&l)).plus(&wc.times(&c));
    proof {
        let (vd, dd) = (velocity.den@ as int, duration.den@ as int);
        let (ld, cd) = (lock_mode.den@ as int, cascade.den@ as int);
        assert(left@ > 0 && right@ > 0) by (nonlinear_arith)
            requires
                left@ == vd * dd,
                right@ == ld * cd,
                vd > 0,
                dd > 0,
                ld > 0,
                cd > 0,
        ;
        assert(dd * vd == left@ && cd * ld == right@) by (nonlinear_arith)
            requires
                left@ == vd * dd,
                right@ == ld * cd,
        ;
        assert(right@ * left@ == den@) by (nonlinear_arith)
            requires
                den@ == left@ * right@,
        ;
        lemma_term(*velocity, dd, right@ as int, v@ as int, den@ as int);
        lemma_term(*duration, vd, right@ as int, d@ as int, den@ as int);
        lemma_term(*lock_mode, cd, left@ as int, l@ as int, den@ as int);
        lemma_term(*cascade, ld, left@ as int, c@ as int, den@ as int);
        lemma_ten_to_positive(places as nat);
        assert(1 * ten_to(places as nat) == ten_to(places as nat)) by (nonlinear_arith);
        lemma_mean(
            (wv@ as int, wd@ as int, wl@ as int, wc@ as int),
            ten_to(places as nat) as int,
            (v@ as int, d@ as int, l@ as int, c@ as int),
            den@ as int,
            *weights,
        );
    }
    Fraction { num: num.times(&parts), den: weight_sum.times(&den) }
}

/// The product of two numbers within bounds is within the product of the bounds.
proof fn lemma_product(a: int, a_max: int, b: int, b_max: int)
    requires
        0 <= a <= a_max,
        0 <= b <= b_max,
    ensures
        0 <= a * b <= a_max * b_max,
{
    assert(0 <= a * b <= a_max * b_max) by (nonlinear_arith)
        requires
            0 <= a <= a_max,
            0 <= b <= b_max,
    ;
}

/// A quotient has the sign of its dividend.
proof fn lemma_sign(num: int, den: int)
    requires
        den > 0,
    ensures
        num > 0 <==> (num as real) / (den as real) > 0real,
        num < 0 <==> (num as real) / (den as real) < 0real,
{
    lemma_order(num as real, 0real, den as real);
    lemma_order(0real, num as real, den as real);
    lemma_quotient(0real, den as real, 0real);
}

/// The squashed value of `xn / xd` for the half point `hn / hd`.
proof fn lemma_normalize(xn: int, xd: int, hn: int, hd: int)
    requires
        xd > 0,
        hn > 0,
        hd > 0,
    ensures
        ({
            let num = if xn > 0 {
                xn * hd
            } else {
                0
            };
            let den = num + hn * xd;
            &&& 0 <= num < den
            &&& (num as real) / (den as real) == normalized(
                (xn as real) / (xd as real),
                (hn as real) / (hd as real),
            )
        }),
{
    lemma_sign(xn, xd);
    lemma_sign(hn, hd);
    let half = hn * xd;
    assert(half > 0) by (nonlinear_arith)
        requires
            half == hn * xd,
            hn > 0,
            xd > 0,
    ;
    let (a, b, c, d) = (xn as real, xd as real, hn as real, hd as real);
    lemma_real_product(hn, xd);
    if xn > 0 {
        let num = xn * hd;
        assert(num > 0) by (nonlinear_arith)
            requires
                num == xn * hd,
                xn > 0,
                hd > 0,
        ;
        lemma_real_product(xn, hd);
        let e = b * d;
        lemma_positive(b, d);
        lemma_cancel(a, b, d);
        lemma_cancel(c, d, b);
        assert(d * b == e) by (nonlinear_arith)
            requires
                e == b * d,
        ;
        lemma_add(a * d, c * b, e);
        lemma_divide(a * d, a * d + c * b, e);
    } else {
        lemma_quotient(0real, half as real, 0real);
        lemma_quotient(0real, c / d, 0real);
    }
}

/// The overrun as a quotient of microseconds.
pub(crate) proof fn lemma_overrun(state: BlockerModel, now: i64)
    ensures
        ({
            let baseline = if state.baseline_hold_micros > MIN_BASELINE_MICROS {
                state.baseline_hold_micros as int
            } else {
                MIN_BASELINE_MICROS as int
            };
            let over = ((state.hold_micros(now) - baseline) as real) / (baseline as real);
            &&& over == overrun_ratio(state, now)
            &&& normalized(over, 1real) == duration_term(state, now)
        }),
{
    let baseline = if state.baseline_hold_micros > MIN_BASELINE_MICROS {
        state.baseline_hold_micros as int
    } else {
        MIN_BASELINE_MICROS as int
    };
    let h = state.hold_micros(now) as real;
    let b = baseline as real;
    let b0 = state.baseline_hold_micros as real;
    let m = MIN_BASELINE_MICROS as real;
    let u = MICROS_PER_SECOND as real;
    assert(real_max(b0 / u, m / u) == b / u) by {
        lemma_order(b0, m, u);
    }
    assert((h / u) / (b / u) - 1real == (h - b) / b) by {
        lemma_divide(h, b, u);
        lemma_add(h, -b, b);
        lemma_quotient(-b, b, -1real);
    }
}

/// Bringing a fraction to a larger denominator keeps its value.
proof fn lemma_term(x: Fraction, p: int, q: int, num: int, den: int)
    requires
        x.wf(),
        x.num@ <= x.den@,
        p > 0,
        q > 0,
        num == (x.num@ * p) * q,
        den == (x.den@ * p) * q,
    ensures
        x.value() == (num as real) / (den as real),
        0 <= num <= den,
        0 < den,
{
    let n = x.num@ as int;
    let d = x.den@ as int;
    lemma_product(n, d, p, p);
    lemma_product(n * p, d * p, q, q);
    lemma_real_product(n, p);
    lemma_real_product(d, p);
    lemma_real_product(n * p, q);
    lemma_real_product(d * p, q);
    lemma_positive(d as real, p as real);
    lemma_positive(d as real * p as real, q as real);
    lemma_cancel(n as real, d as real, p as real);
    lemma_cancel(n as real * p as real, d as real * p as real, q as real);
}

/// The weighted mean of four fractions over one denominator, the weights being
/// given over one denominator too.
proof fn lemma_mean(
    w: (int, int, int, int),
    unit: int,
    x: (int, int, int, int),
    den: int,
    weights: Weights,
)
    requires
        0 <= w.0 && 0 <= w.1 && 0 <= w.2 && 0 <= w.3,
        0 < unit,
        weights.velocity.value() == (w.0 as real) / (unit as real),
        weights.duration.value() == (w.1 as real) / (unit as real),
        weights.lock_mode.value() == (w.2 as real) / (unit as real),
        weights.cascade_depth.value() == (w.3 as real) / (unit as real),
        0 <= x.0 <= den,
        0 <= x.1 <= den,
        0 <= x.2 <= den,
        0 <= x.3 <= den,
        0 < den,
    ensures
        ({
            let total = (w.0 + w.1 + w.2 + w.3) * WEIGHT_SUM_PARTS;
            let weight_sum = if total >= unit {
                total
            } else {
                unit
            };
            let num = w.0 * x.0 + w.1 * x.1 + w.2 * x.2 + w.3 * x.3;
            let q = den as real;
            &&& 0 <= num * WEIGHT_SUM_PARTS <= weight_sum * den
            &&& 0 < weight_sum * den
            &&& ((num * WEIGHT_SUM_PARTS) as real) / ((weight_sum * den) as real) == mean_value(
                (x.0 as real) / q,
                (x.1 as real) / q,
                (x.2 as real) / q,
                (x.3 as real) / q,
                weights,
            )
        }),
{
    let sum = w.0 + w.1 + w.2 + w.3;
    let total = sum * WEIGHT_SUM_PARTS;
    let weight_sum = if total >= unit {
        total
    } else {
        unit
    };
    let num = w.0 * x.0 + w.1 * x.1 + w.2 * x.2 + w.3 * x.3;
    let top = num * WEIGHT_SUM_PARTS;
    let all = weight_sum * den;
    assert(0 <= top <= all && 0 < all) by {
        lemma_product(w.0, w.0, x.0, den);
        lemma_product(w.1, w.1, x.1, den);
        lemma_product(w.2, w.2, x.2, den);
        lemma_product(w.3, w.3, x.3, den);
        assert(w.0 * den + w.1 * den + w.2 * den + w.3 * den == sum * den) by (nonlinear_arith)
            requires
                sum == w.0 + w.1 + w.2 + w.3,
        ;
        assert((sum * den) * WEIGHT_SUM_PARTS == total * den) by (nonlinear_arith)
            requires
                total == sum * WEIGHT_SUM_PARTS,
        ;
        lemma_product(total, weight_sum, den, den);
        assert(weight_sum * den > 0) by (nonlinear_arith)
            requires
                weight_sum > 0,
                den > 0,
        ;
    }
    let (wv, wd, wl, wc) = (w.0 as real, w.1 as real, w.2 as real, w.3 as real);
    let (rv, rd, rl, rc) = (x.0 as real, x.1 as real, x.2 as real, x.3 as real);
    let q = den as real;
    let u = unit as real;
    let k = WEIGHT_SUM_PARTS as real;
    let n = num as real;
    let s = weight_sum as real;
    assert(n == wv * rv + wd * rd + wl * rl + wc * rc) by {
        lemma_real_product(w.0, x.0);
        lemma_real_product(w.1, x.1);
        lemma_real_product(w.2, x.2);
        lemma_real_product(w.3, x.3);
    }
    assert(all as real == s * q && top as real == n * k) by {
        lemma_real_product(weight_sum, den);
        lemma_real_product(num, WEIGHT_SUM_PARTS as int);
    }
    lemma_positive(u, k);
    assert(wv / u + wd / u + wl / u + wc / u == (total as real) / (u * k)) by {
        lemma_add(wv, wd, u);
        lemma_add(wv + wd, wl, u);
        lemma_add(wv + wd + wl, wc, u);
        lemma_cancel(sum as real, u, k);
        lemma_real_product(sum, WEIGHT_SUM_PARTS as int);
    }
    assert(min_weight_sum() == u / (u * k)) by {
        lemma_cancel(1real, k, u);
        assert(1real * u == u && k * u == u * k) by (nonlinear_arith);
    }
    assert(real_max(wv / u + wd / u + wl / u + wc / u, min_weight_sum()) == s / (u * k)) by {
        lemma_order(total as real, u, u * k);
    }
    let raw = (wv / u) * (rv / q) + (wd / u) * (rd / q) + (wl / u) * (rl / q) + (wc / u) * (rc / q);
    assert(raw == n / (u * q)) by {
        lemma_multiply(wv, u, rv, q);
        lemma_multiply(wd, u, rd, q);
        lemma_multiply(wl, u, rl, q);
        lemma_multiply(wc, u, rc, q);
        lemma_positive(u, q);
        lemma_add(wv * rv, wd * rd, u * q);
        lemma_add(wv * rv + wd * rd, wl * rl, u * q);
        lemma_add(wv * rv + wd * rd + wl * rl, wc * rc, u * q);
    }
    let m = n / q;
    assert(raw == (m * k) / (u * k)) by {
        lemma_divide_twice(n, u, q);
        lemma_cancel(m, u, k);
    }
    assert(raw / (s / (u * k)) == (n * k) / (s * q)) by {
        lemma_divide(m * k, s, u * k);
        lemma_divide_twice(n * k, s, q);
        lemma_give_back(n, q);
        assert((m * k) * q == (m * q) * k) by (nonlinear_arith);
        lemma_quotient(n * k, q, m * k);
    }
    let a = all as real;
    let t = top as real;
    lemma_order(t, 0real, a);
    lemma_order(a, t, a);
    lemma_quotient(0real, a, 0real);
    lemma_quotient(a, a, 1real);
}

/// Squashing keeps every value from zero up to, but not including, one: nothing
/// positive is cut off, and one pathological outlier cannot count for more than
/// its weight. The half point itself becomes one half.
pub proof fn law_normalized_range(x: real, half_point: real)
    ensures
        0real <= normalized(x, half_point) < 1real,
        half_point > 0real ==> (x > 0real <==> normalized(x, half_point) > 0real),
        half_point > 0real ==> normalized(half_point, half_point) == 1real / 2real,
{
    if half_point > 0real {
        let m = real_max(x, 0real);
        let d = m + half_point;
        lemma_order(m, 0real, d);
        lemma_order(d, m, d);
        lemma_quotient(0real, d, 0real);
        lemma_quotient(d, d, 1real);
        lemma_quotient(half_point, half_point + half_point, 1real / 2real);
    }
}

/// Squashing is strictly increasing above zero, without a cutoff.
pub proof fn law_normalized_increases(x: real, y: real, half_point: real)
    requires
        x <= y,
    ensures
        normalized(x, half_point) <= normalized(y, half_point),
        half_point > 0real && x < y && 0real < y ==> normalized(x, half_point) < normalized(
            y,
            half_point,
        ),
{
    if half_point > 0real {
        let s = real_max(x, 0real) + half_point;
        let t = real_max(y, 0real) + half_point;
        let p = normalized(x, half_point);
        let q = normalized(y, half_point);
        lemma_give_back(real_max(x, 0real), s);
        lemma_give_back(real_max(y, 0real), t);
        let a = 1real - p;
        let b = 1real - q;
        assert(a * s == half_point) by (nonlinear_arith)
            requires
                a == 1real - p,
                p * s == s - half_point,
        ;
        assert(b * t == half_point) by (nonlinear_arith)
            requires
                b == 1real - q,
                q * t == t - half_point,
        ;
        lemma_inverse_order(a, s, b, t, half_point);
    }
}

/// What holds of any two arguments of `normalize`: the results lie between zero and
/// one in the order of the arguments, strictly so above zero, and what is not
/// positive becomes zero.
pub proof fn law_normalize_keeps_order(x: Rational, y: Rational, half_point: Rational)
    requires
        x.wf(),
        y.wf(),
        half_point.wf(),
        x.value() <= y.value(),
        half_point.value() > 0real,
    ensures
        0real <= normalized(x.value(), half_point.value()),
        normalized(x.value(), half_point.value()) <= normalized(y.value(), half_point.value()),
        normalized(y.value(), half_point.value()) < 1real,
        0real <= x.value() < y.value() ==> normalized(x.value(), half_point.value()) < normalized(
            y.value(),
            half_point.value(),
        ),
        x.value() <= 0real ==> normalized(x.value(), half_point.value()) == 0real,
{
    law_normalized_range(x.value(), half_point.value());
    law_normalized_range(y.value(), half_point.value());
    law_normalized_increases(x.value(), y.value(), half_point.value());
}

/// Of two products with one value, the larger second factor has the smaller
/// first one.
proof fn lemma_inverse_order(a: real, s: real, b: real, t: real, h: real)
    requires
        0real < h,
        0real < s <= t,
        a * s == h,
        b * t == h,
    ensures
        b <= a,
        s < t ==> b < a,
{
    assert(a > 0real && b > 0real) by (nonlinear_arith)
        requires
            0real < h,
            0real < s <= t,
            a * s == h,
            b * t == h,
    ;
    assert(a * s <= a * t) by (nonlinear_arith)
        requires
            a > 0real,
            s <= t,
    ;
    assert(s < t ==> a * s < a * t) by (nonlinear_arith)
        requires
            a > 0real,
    ;
    assert((b * t <= a * t ==> b <= a) && (b * t < a * t ==> b < a)) by (nonlinear_arith)
        requires
            t > 0real,
    ;
}

/// The risk score lies between zero and one whatever the weights are, and the
/// weighted mean reaches that range by itself: clamping never changes it.
pub proof fn law_score_in_unit_range(state: BlockerModel, now: i64, weights: Weights)
    ensures
        0real <= score_value(state, now, weights) <= 1real,
        score_value(state, now, weights) == weighted(
            velocity_term(state),
            duration_term(state, now),
            lock_mode_term(state),
            cascade_term(state),
            weights,
        ),
{
    law_normalized_range(state.waiter_velocity(), 1real);
    law_normalized_range(real_max(overrun_ratio(state, now), 0real), 1real);
    law_normalized_range(state.cascade_depth as real, 1real);
    let percent = state.lock_mode.severity_percent() as real;
    let hundred = 100int as real;
    lemma_order(percent, 0real, hundred);
    lemma_order(hundred, percent, hundred);
    lemma_quotient(0real, hundred, 0real);
    lemma_quotient(hundred, hundred, 1real);
    lemma_weighted_range(
        velocity_term(state),
        duration_term(state, now),
        lock_mode_term(state),
        cascade_term(state),
        weights,
    );
}

/// A weighted mean of terms between zero and one lies between zero and one.
proof fn lemma_weighted_range(v: real, d: real, l: real, c: real, weights: Weights)
    requires
        0real <= v <= 1real,
        0real <= d <= 1real,
        0real <= l <= 1real,
        0real <= c <= 1real,
    ensures
        0real <= weighted(v, d, l, c, weights) <= 1real,
{
    let wv = weights.velocity.value();
    let wd = weights.duration.value();
    let wl = weights.lock_mode.value();
    let wc = weights.cascade_depth.value();
    let weight_sum = real_max(wv + wd + wl + wc, min_weight_sum());
    lemma_weight(weights.velocity, 0real, v);
    lemma_weight(weights.velocity, v, 1real);
    lemma_weight(weights.duration, 0real, d);
    lemma_weight(weights.duration, d, 1real);
    lemma_weight(weights.lock_mode, 0real, l);
    lemma_weight(weights.lock_mode, l, 1real);
    lemma_weight(weights.cascade_depth, 0real, c);
    lemma_weight(weights.cascade_depth, c, 1real);
    let u = WEIGHT_SUM_PARTS as real;
    lemma_order(1real, 0real, u);
    lemma_quotient(0real, u, 0real);
    let raw = wv * v + wd * d + wl * l + wc * c;
    lemma_order(raw, 0real, weight_sum);
    lemma_order(weight_sum, raw, weight_sum);
    lemma_quotient(0real, weight_sum, 0real);
    lemma_quotient(weight_sum, weight_sum, 1real);
}

/// A blocker that is no better in any respect scores no lower: the score grows
/// with the velocity of the queue, the overrun of the hold time, the severity of
/// the lock and the depth of the wait chain.
pub proof fn law_score_is_monotone(
    lesser: BlockerModel,
    then: i64,
    greater: BlockerModel,
    now: i64,
    weights: Weights,
)
    requires
        lesser.waiter_velocity() <= greater.waiter_velocity(),
        overrun_ratio(lesser, then) <= overrun_ratio(greater, now),
        lesser.lock_mode.severity_percent() <= greater.lock_mode.severity_percent(),
        lesser.cascade_depth <= greater.cascade_depth,
    ensures
        score_value(lesser, then, weights) <= score_value(greater, now, weights),
{
    law_normalized_increases(lesser.waiter_velocity(), greater.waiter_velocity(), 1real);
    law_normalized_increases(
        real_max(overrun_ratio(lesser, then), 0real),
        real_max(overrun_ratio(greater, now), 0real),
        1real,
    );
    law_normalized_increases(lesser.cascade_depth as real, greater.cascade_depth as real, 1real);
    lemma_order(
        greater.lock_mode.severity_percent() as real,
        lesser.lock_mode.severity_percent() as real,
        100int as real,
    );
    lemma_mean_is_monotone(
        velocity_term(lesser),
        velocity_term(greater),
        duration_term(lesser, then),
        duration_term(greater, now),
        lock_mode_term(lesser),
        lock_mode_term(greater),
        cascade_term(lesser),
        cascade_term(greater),
        weights,
    );
}

proof fn lemma_mean_is_monotone(
    v: real,
    v2: real,
    d: real,
    d2: real,
    l: real,
    l2: real,
    c: real,
    c2: real,
    weights: Weights,
)
    requires
        v <= v2,
        d <= d2,
        l <= l2,
        c <= c2,
    ensures
        mean_value(v, d, l, c, weights) <= mean_value(v2, d2, l2, c2, weights),
{
    let wv = weights.velocity.value();
    let wd = weights.duration.value();
    let wl = weights.lock_mode.value();
    let wc = weights.cascade_depth.value();
    let weight_sum = real_max(wv + wd + wl + wc, min_weight_sum());
    lemma_weight(weights.velocity, v, v2);
    lemma_weight(weights.duration, d, d2);
    lemma_weight(weights.lock_mode, l, l2);
    lemma_weight(weights.cascade_depth, c, c2);
    let u = WEIGHT_SUM_PARTS as real;
    lemma_order(1real, 0real, u);
    lemma_quotient(0real, u, 0real);
    let raw = wv * v + wd * d + wl * l + wc * c;
    let raw2 = wv * v2 + wd * d2 + wl * l2 + wc * c2;
    lemma_order(raw2, raw, weight_sum);
}

proof fn lemma_weight(weight: Decimal, x: real, y: real)
    requires
        x <= y,
    ensures
        weight.value() * x <= weight.value() * y,
{
    let u = ten_to(weight.places as nat) as real;
    lemma_ten_to_positive(weight.places as nat);
    lemma_order(weight.digits as real, 0real, u);
    lemma_quotient(0real, u, 0real);
    let w = weight.value();
    assert(w * x <= w * y) by (nonlinear_arith)
        requires
            w >= 0real,
            x <= y,
    ;
}

/// A squashed value `t` of a positive `x` balances: `t` times the sum of `x` and the
/// half point is `x` itself. What is not positive becomes zero, and so does
/// everything where the half point is not positive.
pub proof fn law_normalized_balances(x: real, half_point: real)
    ensures
        half_point > 0real && x > 0real ==> normalized(x, half_point) * (x + half_point) == x,
        half_point <= 0real || x <= 0real ==> normalized(x, half_point) == 0real,
{
    if half_point > 0real {
        let m = real_max(x, 0real);
        lemma_give_back(m, m + half_point);
        lemma_quotient(0real, half_point, 0real);
    }
}

/// The velocity term of a queue that gains `v` waiters per sample is `v` over one
/// more than `v`: nothing for a queue that does not grow, one half at one waiter per
/// sample, and positive however slowly the queue grows.
pub proof fn law_velocity_term(state: BlockerModel, v: real)
    requires
        state.recent.len() < 2 ==> v == 0real,
        state.recent.len() >= 2 ==> v * ((state.recent.len() - 1) as real) == (
        state.recent[state.recent.len() - 1] - state.recent[0]) as real,
    ensures
        v <= 0real ==> velocity_term(state) == 0real,
        v > 0real ==> velocity_term(state) * (v + 1real) == v,
        v > 0real ==> velocity_term(state) > 0real,
        v == 1real ==> velocity_term(state) * 2real == 1real,
{
    if state.recent.len() >= 2 {
        lemma_quotient(
            (state.recent[state.recent.len() - 1] - state.recent[0]) as real,
            (state.recent.len() - 1) as real,
            v,
        );
    }
    assert(state.waiter_velocity() == v);
    law_normalized_balances(v, 1real);
    law_normalized_range(v, 1real);
}

/// The duration term of a lock that has been held for `held` microseconds is the
/// part of that time which lies beyond the baseline, and the baseline is never
/// shorter than a tenth of a second.
pub proof fn law_duration_term(state: BlockerModel, now: i64, held: int, baseline: int)
    requires
        state.lock_acquired_at is None ==> held == 0,
        state.lock_acquired_at matches Some(started) ==> (now >= started ==> held == now - started)
            && (now < started ==> held == 0),
        state.baseline_hold_micros >= 100_000 ==> baseline == state.baseline_hold_micros,
        state.baseline_hold_micros < 100_000 ==> baseline == 100_000,
    ensures
        held <= baseline ==> duration_term(state, now) == 0real,
        held > baseline ==> duration_term(state, now) * (held as real) == (held - baseline) as real,
{
    lemma_overrun(state, now);
    let over = ((held - baseline) as real) / (baseline as real);
    let t = duration_term(state, now);
    law_normalized_balances(over, 1real);
    lemma_give_back((held - baseline) as real, baseline as real);
    lemma_order((held - baseline) as real, 0real, baseline as real);
    lemma_quotient(0real, baseline as real, 0real);
    let b = baseline as real;
    let h = held as real;
    assert(over * b == h - b);
    if held > baseline {
        assert(t * h == h - b) by (nonlinear_arith)
            requires
                t * (over + 1real) == over,
                over * b == h - b,
        ;
    }
}

/// The cascade term of a chain of depth `d` is `d` over one more than `d`.
pub proof fn law_cascade_term(state: BlockerModel)
    ensures
        cascade_term(state) * ((state.cascade_depth + 1) as real) == state.cascade_depth as real,
{
    law_normalized_balances(state.cascade_depth as real, 1real);
}

/// The score balances: times the sum of the weights, or a ten-thousandth where the
/// sum is smaller, it is the weighted sum of four terms. The terms and the weights
/// are given here by what they are of the state, the clock and the settings.
pub proof fn law_score_balances(
    state: BlockerModel,
    now: i64,
    weights: Weights,
    terms: (real, real, real, real),
    parts: (real, real, real, real),
    v: real,
    held: int,
    baseline: int,
)
    requires
        // waiters gained per sample
        state.recent.len() < 2 ==> v == 0real,
        state.recent.len() >= 2 ==> v * ((state.recent.len() - 1) as real) == (
        state.recent[state.recent.len() - 1] - state.recent[0]) as real,
        v <= 0real ==> terms.0 == 0real,
        v > 0real ==> terms.0 * (v + 1real) == v,
        // microseconds for which the lock has been held
        state.lock_acquired_at is None ==> held == 0,
        state.lock_acquired_at matches Some(started) ==> (now >= started ==> held == now - started)
            && (now < started ==> held == 0),
        state.baseline_hold_micros >= 100_000 ==> baseline == state.baseline_hold_micros,
        state.baseline_hold_micros < 100_000 ==> baseline == 100_000,
        held <= baseline ==> terms.1 == 0real,
        held > baseline ==> terms.1 * (held as real) == (held - baseline) as real,
        // severity of the lock mode
        state.lock_mode == LockMode::AccessShare ==> terms.2 * 100real == 5real,
        state.lock_mode == LockMode::RowShare ==> terms.2 * 100real == 10real,
        state.lock_mode == LockMode::RowExclusive ==> terms.2 * 100real == 25real,
        state.lock_mode == LockMode::ShareUpdateExclusive ==> terms.2 * 100real == 40real,
        state.lock_mode == LockMode::Share ==> terms.2 * 100real == 45real,
        state.lock_mode == LockMode::ShareRowExclusive ==> terms.2 * 100real == 65real,
        state.lock_mode == LockMode::Exclusive ==> terms.2 * 100real == 80real,
        state.lock_mode == LockMode::AccessExclusive ==> terms.2 * 100real == 100real,
        // depth of the wait-chain
        terms.3 * ((state.cascade_depth + 1) as real) == state.cascade_depth as real,
        // weights
        parts.0 * (ten_to(weights.velocity.places as nat) as real)
            == weights.velocity.digits as real,
        parts.1 * (ten_to(weights.duration.places as nat) as real)
            == weights.duration.digits as real,
        parts.2 * (ten_to(weights.lock_mode.places as nat) as real)
            == weights.lock_mode.digits as real,
        parts.3 * (ten_to(weights.cascade_depth.places as nat) as real)
            == weights.cascade_depth.digits as real,
    ensures
        ({
            let sum = parts.0 + parts.1 + parts.2 + parts.3;
            let score = score_value(state, now, weights);
            let raw = parts.0 * terms.0 + parts.1 * terms.1 + parts.2 * terms.2 + parts.3
                * terms.3;
            &&& sum * 10_000real >= 1real ==> score * sum == raw
            &&& sum * 10_000real < 1real ==> score == raw * 10_000real
            &&& 0real <= score <= 1real
        }),
{
    law_velocity_term(state, v);
    law_duration_term(state, now, held, baseline);
    law_cascade_term(state);
    crate::lock_mode::law_severities(state.lock_mode);
    lemma_same_factor(velocity_term(state), terms.0, v + 1real);
    lemma_same_factor(duration_term(state, now), terms.1, held as real);
    lemma_quotient(state.lock_mode.severity_percent() as real, 100real, terms.2);
    lemma_same_factor(cascade_term(state), terms.3, (state.cascade_depth + 1) as real);
    lemma_weight_value(weights.velocity, parts.0);
    lemma_weight_value(weights.duration, parts.1);
    lemma_weight_value(weights.lock_mode, parts.2);
    lemma_weight_value(weights.cascade_depth, parts.3);
    law_score_in_unit_range(state, now, weights);
    let sum = parts.0 + parts.1 + parts.2 + parts.3;
    let raw = parts.0 * terms.0 + parts.1 * terms.1 + parts.2 * terms.2 + parts.3 * terms.3;
    let least = min_weight_sum();
    assert(least * 10_000real == 1real) by {
        lemma_give_back(1real, 10_000real);
    }
    lemma_give_back(raw, real_max(sum, least));
    assert(score_value(state, now, weights) * real_max(sum, least) == raw);
    if sum < least {
        let score = score_value(state, now, weights);
        assert(score == raw * 10_000real) by (nonlinear_arith)
            requires
                score * least == raw,
                least * 10_000real == 1real,
        ;
    }
}

/// Two numbers that a positive factor makes equal are equal.
proof fn lemma_same_factor(a: real, b: real, k: real)
    ensures
        k > 0real && a * k == b * k ==> a == b,
{
    if k > 0real && a * k == b * k {
        assert(a == b) by (nonlinear_arith)
            requires
                k > 0real,
                a * k == b * k,
        ;
    }
}

proof fn lemma_weight_value(weight: Decimal, part: real)
    requires
        part * (ten_to(weight.places as nat) as real) == weight.digits as real,
    ensures
        weight.value() == part,
        part >= 0real,
        weight.digits > 0 ==> part > 0real,
{
    let u = ten_to(weight.places as nat) as real;
    lemma_ten_to_positive(weight.places as nat);
    lemma_quotient(weight.digits as real, u, part);
    lemma_order(weight.digits as real, 0real, u);
    lemma_quotient(0real, u, 0real);
}

/// A larger weighted sum gives a larger score.
proof fn lemma_score_is_strict(
    lesser: BlockerModel,
    then: i64,
    greater: BlockerModel,
    now: i64,
    weights: Weights,
)
    requires
        velocity_term(lesser) <= velocity_term(greater),
        duration_term(lesser, then) <= duration_term(greater, now),
        lock_mode_term(lesser) <= lock_mode_term(greater),
        cascade_term(lesser) <= cascade_term(greater),
        (weights.velocity.digits > 0 && velocity_term(lesser) < velocity_term(greater)) || (
        weights.duration.digits > 0 && duration_term(lesser, then) < duration_term(greater, now))
            || (weights.lock_mode.digits > 0 && lock_mode_term(lesser) < lock_mode_term(greater))
            || (weights.cascade_depth.digits > 0 && cascade_term(lesser) < cascade_term(greater)),
    ensures
        score_value(lesser, then, weights) < score_value(greater, now, weights),
{
    law_score_in_unit_range(lesser, then, weights);
    law_score_in_unit_range(greater, now, weights);
    lemma_product_order(weights.velocity, velocity_term(lesser), velocity_term(greater));
    lemma_product_order(weights.duration, duration_term(lesser, then), duration_term(greater, now));
    lemma_product_order(weights.lock_mode, lock_mode_term(lesser), lock_mode_term(greater));
    lemma_product_order(weights.cascade_depth, cascade_term(lesser), cascade_term(greater));
    let (wv, wd, wl, wc) = (
        weights.velocity.value(),
        weights.duration.value(),
        weights.lock_mode.value(),
        weights.cascade_depth.value(),
    );
    let weight_sum = real_max(wv + wd + wl + wc, min_weight_sum());
    lemma_order(1real, 0real, WEIGHT_SUM_PARTS as real);
    lemma_quotient(0real, WEIGHT_SUM_PARTS as real, 0real);
    let low = wv * velocity_term(lesser) + wd * duration_term(lesser, then) + wl * lock_mode_term(
        lesser,
    ) + wc * cascade_term(lesser);
    let high = wv * velocity_term(greater) + wd * duration_term(greater, now) + wl
        * lock_mode_term(greater) + wc * cascade_term(greater);
    lemma_order(high, low, weight_sum);
}

proof fn lemma_product_order(weight: Decimal, x: real, y: real)
    requires
        x <= y,
    ensures
        weight.value() * x <= weight.value() * y,
        weight.digits > 0 && x < y ==> weight.value() * x < weight.value() * y,
{
    lemma_weight(weight, x, y);
    let u = ten_to(weight.places as nat) as real;
    lemma_ten_to_positive(weight.places as nat);
    lemma_give_back(weight.digits as real, u);
    lemma_weight_value(weight, weight.value());
    let w = weight.value();
    if weight.digits > 0 && x < y {
        assert(w * x < w * y) by (nonlinear_arith)
            requires
                w > 0real,
                x < y,
        ;
    }
}

/// All else equal, a queue that grows faster scores higher wherever the velocity
/// has a weight. The pace of a queue is what it gained from its first to its last
/// count, per step.
pub proof fn law_faster_queue_scores_higher(
    slower: BlockerModel,
    faster: BlockerModel,
    now: i64,
    weights: Weights,
    pace: real,
    more: real,
)
    requires
        slower == (BlockerModel { recent: slower.recent, ..faster }),
        slower.recent.len() >= 2,
        faster.recent.len() >= 2,
        pace * ((slower.recent.len() - 1) as real) == (slower.recent[slower.recent.len() - 1]
            - slower.recent[0]) as real,
        more * ((faster.recent.len() - 1) as real) == (faster.recent[faster.recent.len() - 1]
            - faster.recent[0]) as real,
        pace < more,
        more > 0real,
        weights.velocity.digits > 0,
    ensures
        score_value(slower, now, weights) < score_value(faster, now, weights),
{
    law_velocity_term(slower, pace);
    law_velocity_term(faster, more);
    law_normalized_increases(pace, more, 1real);
    lemma_quotient(
        (slower.recent[slower.recent.len() - 1] - slower.recent[0]) as real,
        (slower.recent.len() - 1) as real,
        pace,
    );
    lemma_quotient(
        (faster.recent[faster.recent.len() - 1] - faster.recent[0]) as real,
        (faster.recent.len() - 1) as real,
        more,
    );
    law_duration_term_is_fixed_by_the_lock(slower, faster, now);
    lemma_score_is_strict(slower, now, faster, now, weights);
}

/// The duration term rests on the start of the lock and the baseline alone.
pub proof fn law_duration_term_is_fixed_by_the_lock(a: BlockerModel, b: BlockerModel, now: i64)
    requires
        a.lock_acquired_at == b.lock_acquired_at,
        a.baseline_hold_micros == b.baseline_hold_micros,
    ensures
        duration_term(a, now) == duration_term(b, now),
{
}

/// All else equal, a lock that has been held for longer scores higher once the hold
/// time lies beyond the baseline, wherever the duration has a weight.
pub proof fn law_longer_hold_scores_higher(
    state: BlockerModel,
    started: i64,
    now: i64,
    later: i64,
    weights: Weights,
)
    requires
        state.lock_acquired_at == Some(started),
        now < later,
        later - started > state.baseline_hold_micros,
        later - started > 100_000,
        weights.duration.digits > 0,
    ensures
        score_value(state, now, weights) < score_value(state, later, weights),
{
    let baseline = if state.baseline_hold_micros >= 100_000 {
        state.baseline_hold_micros as int
    } else {
        100_000
    };
    let held = if now >= started {
        now - started
    } else {
        0
    };
    let longer = later - started;
    law_duration_term(state, now, held, baseline);
    law_duration_term(state, later, longer, baseline);
    let (s, t) = (duration_term(state, now), duration_term(state, later));
    let (h, l, b) = (held as real, longer as real, baseline as real);
    assert(t > 0real) by (nonlinear_arith)
        requires
            t * l == l - b,
            l > b,
            l > 0real,
    ;
    if held > baseline {
        assert(s < t) by (nonlinear_arith)
            requires
                s * h == h - b,
                t * l == l - b,
                0real < b < h < l,
        ;
    }
    lemma_score_is_strict(state, now, state, later, weights);
}

/// All else equal, a more severe lock scores higher wherever the lock mode has a
/// weight.
pub proof fn law_stronger_lock_scores_higher(
    weaker: BlockerModel,
    stronger: BlockerModel,
    now: i64,
    weights: Weights,
)
    requires
        weaker == (BlockerModel { lock_mode: weaker.lock_mode, ..stronger }),
        weaker.lock_mode.rank() < stronger.lock_mode.rank(),
        weights.lock_mode.digits > 0,
    ensures
        score_value(weaker, now, weights) < score_value(stronger, now, weights),
{
    crate::lock_mode::law_severity_grows_with_the_mode(weaker.lock_mode, stronger.lock_mode);
    lemma_order(
        stronger.lock_mode.severity_percent() as real,
        weaker.lock_mode.severity_percent() as real,
        100int as real,
    );
    law_duration_term_is_fixed_by_the_lock(weaker, stronger, now);
    lemma_score_is_strict(weaker, now, stronger, now, weights);
}

/// All else equal, a deeper wait-chain scores higher wherever the depth has a
/// weight.
pub proof fn law_deeper_chain_scores_higher(
    shallower: BlockerModel,
    deeper: BlockerModel,
    now: i64,
    weights: Weights,
)
    requires
        shallower == (BlockerModel { cascade_depth: shallower.cascade_depth, ..deeper }),
        shallower.cascade_depth < deeper.cascade_depth,
        weights.cascade_depth.digits > 0,
    ensures
        score_value(shallower, now, weights) < score_value(deeper, now, weights),
{
    law_normalized_increases(
        shallower.cascade_depth as real,
        deeper.cascade_depth as real,
        1real,
    );
    law_duration_term_is_fixed_by_the_lock(shallower, deeper, now);
    lemma_score_is_strict(shallower, now, deeper, now, weights);
}

/// The score rests on the counts, the lock, the baseline and the depth: neither the
/// pid, the relation, the query nor the flags have a part in it.
pub proof fn law_score_is_blind_to_the_rest(
    a: BlockerModel,
    b: BlockerModel,
    now: i64,
    weights: Weights,
)
    requires
        a.recent == b.recent,
        a.lock_mode == b.lock_mode,
        a.lock_acquired_at == b.lock_acquired_at,
        a.baseline_hold_micros == b.baseline_hold_micros,
        a.cascade_depth == b.cascade_depth,
    ensures
        score_value(a, now, weights) == score_value(b, now, weights),
{
}

} // verus!
