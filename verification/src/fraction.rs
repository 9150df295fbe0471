//! Facts about quotients of real numbers.

use vstd::prelude::*;

verus! {

pub(crate) proof fn lemma_real_product(a: int, b: int)
    ensures
        (a * b) as real == (a as real) * (b as real),
{
    let p = a * b;
    assert(p as real == (a as real) * (b as real)) by (nonlinear_arith)
        requires
            p == a * b,
    ;
}

/// A positive factor keeps a positive number positive.
pub(crate) proof fn lemma_positive(a: real, b: real)
    requires
        a > 0real,
        b > 0real,
    ensures
        a * b > 0real,
{
    assert(a * b > 0real) by (nonlinear_arith)
        requires
            a > 0real,
            b > 0real,
    ;
}

/// A quotient is the number that gives the dividend back.
pub(crate) proof fn lemma_quotient(a: real, b: real, c: real)
    requires
        b > 0real,
        a == c * b,
    ensures
        a / b == c,
{
    assert(a / b == c) by (nonlinear_arith)
        requires
            b > 0real,
            a == c * b,
    ;
}

pub(crate) proof fn lemma_give_back(a: real, b: real)
    requires
        b > 0real,
    ensures
        (a / b) * b == a,
{
    assert((a / b) * b == a) by (nonlinear_arith)
        requires
            b > 0real,
    ;
}

/// A common factor can be left out of a quotient.
pub(crate) proof fn lemma_cancel(a: real, b: real, k: real)
    requires
        b > 0real,
        k > 0real,
    ensures
        (a * k) / (b * k) == a / b,
{
    lemma_positive(b, k);
    lemma_give_back(a, b);
    let c = a / b;
    assert(c * (b * k) == (c * b) * k) by (nonlinear_arith);
    lemma_quotient(a * k, b * k, c);
}

pub(crate) proof fn lemma_add(a: real, b: real, d: real)
    requires
        d > 0real,
    ensures
        a / d + b / d == (a + b) / d,
{
    lemma_give_back(a, d);
    lemma_give_back(b, d);
    let x = a / d;
    let y = b / d;
    assert((x + y) * d == x * d + y * d) by (nonlinear_arith);
    lemma_quotient(a + b, d, x + y);
}

pub(crate) proof fn lemma_multiply(a: real, b: real, c: real, d: real)
    requires
        b > 0real,
        d > 0real,
    ensures
        (a / b) * (c / d) == (a * c) / (b * d),
{
    lemma_positive(b, d);
    lemma_give_back(a, b);
    lemma_give_back(c, d);
    let x = a / b;
    let y = c / d;
    assert((x * y) * (b * d) == (x * b) * (y * d)) by (nonlinear_arith);
    lemma_quotient(a * c, b * d, x * y);
}

/// A quotient of quotients by one divisor is the quotient of the dividends.
pub(crate) proof fn lemma_divide(a: real, b: real, d: real)
    requires
        b > 0real,
        d > 0real,
    ensures
        b / d > 0real,
        (a / d) / (b / d) == a / b,
{
    lemma_order(b, 0real, d);
    lemma_quotient(0real, d, 0real);
    lemma_give_back(a, b);
    lemma_give_back(a, d);
    lemma_give_back(b, d);
    let c = a / b;
    let e = b / d;
    assert(c * e == a / d) by {
        assert((c * e) * d == c * (e * d)) by (nonlinear_arith);
        lemma_quotient(a, d, c * e);
    }
    lemma_quotient(a / d, e, c);
}

/// Dividing by a product is dividing by one factor after the other.
pub(crate) proof fn lemma_divide_twice(a: real, b: real, c: real)
    requires
        b > 0real,
        c > 0real,
    ensures
        a / (b * c) == (a / c) / b,
{
    lemma_positive(b, c);
    lemma_give_back(a, c);
    lemma_give_back(a / c, b);
    let x = (a / c) / b;
    assert(x * (b * c) == (x * b) * c) by (nonlinear_arith);
    lemma_quotient(a, b * c, x);
}

/// Quotients by one divisor are ordered as their dividends are.
pub(crate) proof fn lemma_order(a: real, b: real, d: real)
    requires
        d > 0real,
    ensures
        (a / d >= b / d) <==> a >= b,
        (a / d > b / d) <==> a > b,
{
    lemma_give_back(a, d);
    lemma_give_back(b, d);
    let x = a / d;
    let y = b / d;
    assert((x >= y <==> x * d >= y * d) && (x > y <==> x * d > y * d)) by (nonlinear_arith)
        requires
            d > 0real,
    ;
}

/// Two quotients are compared by their cross products.
pub(crate) proof fn lemma_cross(a: int, b: int, c: int, d: int)
    requires
        b > 0,
        d > 0,
    ensures
        ((a as real) / (b as real) >= (c as real) / (d as real)) <==> a * d >= c * b,
        ((a as real) / (b as real) > (c as real) / (d as real)) <==> a * d > c * b,
{
    let (ra, rb, rc, rd) = (a as real, b as real, c as real, d as real);
    lemma_cancel(ra, rb, rd);
    lemma_cancel(rc, rd, rb);
    assert(rb * rd == rd * rb) by (nonlinear_arith);
    lemma_positive(rb, rd);
    lemma_order(ra * rd, rc * rb, rb * rd);
    lemma_real_product(a, d);
    lemma_real_product(c, b);
}

} // verus!
