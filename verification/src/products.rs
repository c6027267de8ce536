//! Laws of products of whole numbers.
use vstd::prelude::*;

verus! {

/// Products of three may be grouped either way.
pub proof fn regrouped(a: int, b: int, c: int)
    ensures
        a * (b * c) == (a * b) * c,
{
    assert(a * (b * c) == (a * b) * c) by (nonlinear_arith);
}

pub proof fn commuted(a: int, b: int)
    ensures
        a * b == b * a,
{
    assert(a * b == b * a) by (nonlinear_arith);
}

/// A product with a sum, or with a difference, is taken apart.
pub proof fn distributed(a: int, b: int, c: int)
    ensures
        a * (b + c) == a * b + a * c,
        a * (b - c) == a * b - a * c,
        (b + c) * a == b * a + c * a,
        (b - c) * a == b * a - c * a,
{
    assert(a * (b + c) == a * b + a * c) by (nonlinear_arith);
    assert(a * (b - c) == a * b - a * c) by (nonlinear_arith);
    commuted(a, b);
    commuted(a, c);
    commuted(a, b + c);
    commuted(a, b - c);
}

/// The square of a product is the product of the squares.
pub proof fn square_of(a: int, c: int)
    ensures
        (a * c) * (a * c) == (a * a) * (c * c),
{
    paired(a, c, a, c);
}

/// Two products make one of the products of what stands first and what stands second.
pub proof fn paired(a: int, b: int, c: int, d: int)
    ensures
        (a * b) * (c * d) == (a * c) * (b * d),
{
    regrouped(a, b, c * d);
    regrouped(b, c, d);
    commuted(b, c);
    regrouped(c, b, d);
    regrouped(a, c, b * d);
}

/// The square of a sum.
pub proof fn square_of_sum(a: int, b: int)
    ensures
        (a + b) * (a + b) == a * a + 2 * (a * b) + b * b,
        (a - b) * (a - b) == a * a - 2 * (a * b) + b * b,
{
    distributed(a + b, a, b);
    distributed(a, a, b);
    distributed(b, a, b);
    distributed(a - b, a, b);
    commuted(a, b);
}

/// What is multiplied by more is more.
pub proof fn mono(d: int, a: int, b: int)
    requires
        a <= b,
        d >= 0,
    ensures
        d * a <= d * b,
        a * d <= b * d,
{
    assert(d * a <= d * b) by (nonlinear_arith)
        requires
            a <= b,
            d >= 0,
    ;
    commuted(d, a);
    commuted(d, b);
}

/// What is less once multiplied was less.
pub proof fn cancelled(d: int, a: int, b: int)
    requires
        d > 0,
    ensures
        a * d <= b * d ==> a <= b,
        a * d < b * d ==> a < b,
        d * a <= d * b ==> a <= b,
        d * a < d * b ==> a < b,
{
    commuted(d, a);
    commuted(d, b);
    if a > b {
        mono(d, b + 1, a);
        distributed(d, b, 1);
    }
    if a >= b {
        mono(d, b, a);
    }
}

/// Squares are not negative.
pub proof fn square_is_positive(a: int)
    ensures
        a * a >= 0,
{
    assert(a * a >= 0) by (nonlinear_arith);
}

/// A product of what is small is small.
pub proof fn product_within(x: int, a: int, w: int, u: int)
    requires
        -w <= x <= w,
        -u <= a <= u,
    ensures
        -(w * u) <= x * a <= w * u,
{
    let p = if a >= 0 {
        a
    } else {
        -a
    };
    mono(p, x, w);
    mono(p, -w, x);
    mono(w, p, u);
    commuted(p, w);
    commuted(p, x);
    assert(p * -w == -(p * w)) by (nonlinear_arith);
    if a < 0 {
        assert(x * a == -(x * p)) by (nonlinear_arith)
            requires
                a == -p,
        ;
    }
}

/// The square of what is small is small.
pub proof fn square_within(a: int, b: int)
    requires
        -b <= a <= b,
    ensures
        0 <= a * a <= b * b,
{
    product_within(a, a, b, b);
    square_is_positive(a);
}

/// What has a small square is small.
pub proof fn root_within(x: int, b: int)
    requires
        x * x <= b * b,
        b >= 0,
    ensures
        -b <= x <= b,
{
    if x > b {
        mono(x, b + 1, x);
        mono(b, b, x);
        distributed(x, b, 1);
        commuted(x, b);
    }
    if x < -b {
        mono(-x, b + 1, -x);
        mono(b, b, -x);
        distributed(-x, b, 1);
        commuted(-x, b);
        assert(-x * -x == x * x) by (nonlinear_arith);
    }
}

} // verus!
