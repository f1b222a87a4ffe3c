//! Facts about real numbers that the laws of the continuous kernels rest on.
use vstd::prelude::*;

verus! {

/// A product of two numbers above 0 is above 0.
pub proof fn lemma_product_above(a: real, b: real)
    by (nonlinear_arith)
    requires
        a > 0int as real,
        b > 0int as real,
    ensures
        a * b > 0int as real,
{
}

/// A sum may be multiplied term by term.
pub proof fn lemma_spread(a: real, b: real, c: real)
    by (nonlinear_arith)
    ensures
        a * (b + c) == a * b + a * c,
        (b + c) * a == b * a + c * a,
        a * (b - c) == a * b - a * c,
        (b - c) * a == b * a - c * a,
{
}

/// The order of factors does not matter.
pub proof fn lemma_swap(a: real, b: real)
    by (nonlinear_arith)
    ensures
        a * b == b * a,
{
}

/// The grouping of factors does not matter.
pub proof fn lemma_group(a: real, b: real, c: real)
    by (nonlinear_arith)
    ensures
        a * (b * c) == (a * b) * c,
{
}

/// Two factors may change places across a third.
pub proof fn lemma_cross(a: real, b: real, c: real)
    by (nonlinear_arith)
    ensures
        a * (b * c) == b * (a * c),
        a * (b * c) == c * (b * a),
{
}

/// Multiplication by 0 and by 1.
pub proof fn lemma_trivial_factors(a: real)
    by (nonlinear_arith)
    ensures
        0int as real * a == 0int as real,
        a * 0int as real == 0int as real,
        1int as real * a == a,
        a * 1int as real == a,
{
}

/// Multiplication by -1.
pub proof fn lemma_negated(a: real)
    by (nonlinear_arith)
    ensures
        -1int as real * a == -a,
        a * -1int as real == -a,
{
}

/// A quotient times its divisor.
pub proof fn lemma_quotient(a: real, b: real)
    by (nonlinear_arith)
    requires
        b != 0int as real,
    ensures
        (a / b) * b == a,
{
}

/// A factor above 0 keeps the order.
pub proof fn lemma_scaled_order(a: real, b: real, c: real)
    requires
        c > 0int as real,
    ensures
        a < b <==> a * c < b * c,
        a == b <==> a * c == b * c,
{
    lemma_spread(c, b, a);
    if a < b {
        lemma_product_above(b - a, c);
    } else if b < a {
        lemma_spread(c, a, b);
        lemma_product_above(a - b, c);
    }
}

} // verus!
