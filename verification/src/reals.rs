//! Facts about real numbers.
use vstd::prelude::*;

verus! {

pub(crate) proof fn lemma_stretch(k1: real, k2: real, k3: real, s: real)
    by (nonlinear_arith)
    ensures
        1real + k1 * s + k2 * (s * s) + k3 * (s * s * s) == 1real + s * (k1 + s * (k2 + s * k3)),
{
}

pub(crate) proof fn lemma_shift(p1: real, p2: real, a: real, b: real)
    by (nonlinear_arith)
    ensures
        2real * p1 * a * b + p2 * ((a * a + b * b) + 2real * a * a) == p1 * (2real * a * b) + p2 * (
        3real * a * a + b * b),
        p1 * ((a * a + b * b) + 2real * b * b) + 2real * p2 * a * b == p1 * (a * a + 3real * b * b)
            + p2 * (2real * a * b),
{
}

pub(crate) proof fn lemma_over_and_back(a: real, f: real)
    by (nonlinear_arith)
    requires
        f != 0real,
    ensures
        (a / f) * f == a,
{
}

pub(crate) proof fn lemma_back_and_over(a: real, f: real)
    by (nonlinear_arith)
    requires
        f != 0real,
    ensures
        (a * f) / f == a,
{
}

pub(crate) proof fn lemma_part_of(n: real, e: real, d: real)
    by (nonlinear_arith)
    requires
        d != 0real,
    ensures
        (n / d) * e == n * e / d,
{
}

/// A span from `low` to `high` divided into `n` steps of `1 / f`.
pub(crate) proof fn lemma_span(n: real, low: real, high: real, f: real)
    requires
        n != 0real,
        high - low != 0real,
        f == n / (high - low),
    ensures
        f != 0real,
        (0real - (0real - low) * f) / f == low,
        (n - (0real - low) * f) / f == high,
{
    let d = high - low;
    lemma_over_and_back(n, d);
    assert(f != 0real) by (nonlinear_arith)
        requires
            f * d == n,
            n != 0real,
    ;
    assert(0real - (0real - low) * f == low * f) by (nonlinear_arith);
    assert(n - (0real - low) * f == high * f) by (nonlinear_arith)
        requires
            f * d == n,
            d == high - low,
    ;
    lemma_back_and_over(low, f);
    lemma_back_and_over(high, f);
}

pub(crate) proof fn lemma_ends_of_blend(inner: real, outer: real, none: real, all: real)
    by (nonlinear_arith)
    requires
        none == 0real,
        all == 1real,
    ensures
        inner + none * (outer - inner) == inner,
        inner + all * (outer - inner) == outer,
{
}

/// A lens without coefficients.
pub(crate) proof fn lemma_no_lens(k1: real, k2: real, k3: real, p1: real, p2: real, x: real, y: real)
    by (nonlinear_arith)
    requires
        k1 == 0real,
        k2 == 0real,
        k3 == 0real,
        p1 == 0real,
        p2 == 0real,
    ensures
        1real + (x * x + y * y) * (k1 + (x * x + y * y) * (k2 + (x * x + y * y) * k3)) == 1real,
        p1 * (2real * x * y) + p2 * (3real * x * x + y * y) == 0real,
        p1 * (x * x + 3real * y * y) + p2 * (2real * x * y) == 0real,
{
}

/// A positive factor keeps the order.
pub(crate) proof fn lemma_order_times(a: real, b: real, f: real)
    by (nonlinear_arith)
    requires
        f > 0real,
        a <= b,
    ensures
        a * f <= b * f,
{
}

pub(crate) proof fn lemma_times_one(a: real, one: real)
    by (nonlinear_arith)
    requires
        one == 1real,
    ensures
        a * one == a,
{
}

/// The share of the first 199 of 199 steps.
pub(crate) proof fn lemma_share_of(i: real, n: real)
    by (nonlinear_arith)
    requires
        0real <= i <= 199real,
        0real <= n,
    ensures
        0real <= i * n / 199real <= n,
{
}

/// A blend of two that are the same.
pub(crate) proof fn lemma_blend_of_same(inner: real, outer: real, share: real)
    by (nonlinear_arith)
    requires
        inner == outer,
    ensures
        inner + share * (outer - inner) == inner,
{
}

/// The focal length and the centre that show a span at its own pixels.
pub(crate) proof fn lemma_same_span(n: real, low: real, high: real, f: real, c: real)
    requires
        n != 0real,
        f != 0real,
        low * f + c == 0real,
        high * f + c == n,
    ensures
        high - low != 0real,
        n / (high - low) == f,
        (0real - low) * f == c,
{
    let d = high - low;
    assert(f * d == n) by (nonlinear_arith)
        requires
            low * f + c == 0real,
            high * f + c == n,
            d == high - low,
    ;
    assert(d != 0real) by (nonlinear_arith)
        requires
            f * d == n,
            n != 0real,
    ;
    lemma_back_and_over(f, d);
    assert((0real - low) * f == c) by (nonlinear_arith)
        requires
            low * f + c == 0real,
    ;
}

pub(crate) proof fn lemma_distribute(a: real, b: real, c: real)
    by (nonlinear_arith)
    ensures
        a * (b + c) == a * b + a * c,
{
}

pub(crate) proof fn lemma_commute(a: real, b: real)
    by (nonlinear_arith)
    ensures
        a * b == b * a,
{
}

pub(crate) proof fn lemma_associate(a: real, b: real, c: real)
    by (nonlinear_arith)
    ensures
        a * (b * c) == (a * b) * c,
{
}

pub(crate) proof fn lemma_distribute_less(a: real, b: real, c: real)
    by (nonlinear_arith)
    ensures
        a * (b - c) == a * b - a * c,
{
}

pub(crate) proof fn lemma_times_zero(a: real, zero: real)
    by (nonlinear_arith)
    requires
        zero == 0real,
    ensures
        a * zero == 0real,
        zero * a == 0real,
{
}

/// Between two numbers a step apart a blend follows the line through them.
pub(crate) proof fn lemma_mix_on_line(at: real, slope: real, p: real, next: real)
    requires
        p != 0real ==> next == at + slope,
    ensures
        (1real - p) * at + p * next == at + slope * p,
{
    lemma_commute(1real - p, at);
    lemma_distribute_less(at, 1real, p);
    lemma_times_one(at, 1real);
    lemma_commute(at, p);
    lemma_commute(slope, p);
    if p == 0real {
        lemma_times_zero(at, p);
        lemma_times_zero(next, p);
        lemma_times_zero(slope, p);
    } else {
        lemma_distribute(p, at, slope);
    }
}

/// A blend of blends, with the weights multiplied out.
pub(crate) proof fn lemma_mix_of_mixes(
    p: real,
    q: real,
    v00: real,
    v10: real,
    v01: real,
    v11: real,
)
    ensures
        (1real - p) * (1real - q) * v00 + p * (1real - q) * v10 + (1real - p) * q * v01 + p * q
            * v11 == (1real - p) * ((1real - q) * v00 + q * v01) + p * ((1real - q) * v10 + q
            * v11),
{
    lemma_distribute(1real - p, (1real - q) * v00, q * v01);
    lemma_distribute(p, (1real - q) * v10, q * v11);
    lemma_associate(1real - p, 1real - q, v00);
    lemma_associate(1real - p, q, v01);
    lemma_associate(p, 1real - q, v10);
    lemma_associate(p, q, v11);
}

/// A blend of two numbers from 0 to `high` is between them.
pub(crate) proof fn lemma_mix_is_between(a: real, b: real, p: real, high: real)
    requires
        0real <= p <= 1real,
        0real <= a <= high,
        0real <= b <= high,
    ensures
        0real <= (1real - p) * a + p * b <= high,
{
    lemma_mix_on_line(a, b - a, p, b);
    if p == 0real {
        lemma_times_zero(b - a, p);
    } else if b >= a {
        lemma_times_zero(p, 0real);
        lemma_order_times(0real, b - a, p);
        lemma_below_one(b - a, p);
    } else {
        lemma_times_zero(p, 0real);
        lemma_order_times(0real, a - b, p);
        lemma_below_one(a - b, p);
        lemma_commute(b - a, p);
        lemma_commute(a - b, p);
        lemma_distribute_less(p, b, a);
        lemma_distribute_less(p, a, b);
    }
}

/// A part of a number is not more than the number.
proof fn lemma_below_one(a: real, p: real)
    requires
        a >= 0real,
        0real <= p <= 1real,
    ensures
        a * p <= a,
{
    if a == 0real {
        lemma_times_zero(p, a);
    } else {
        lemma_order_times(p, 1real, a);
        lemma_commute(a, p);
        lemma_commute(a, 1real);
        lemma_times_one(a, 1real);
    }
}

/// A positive factor keeps the strict order.
pub(crate) proof fn lemma_less_times(a: real, b: real, f: real)
    requires
        f > 0real,
        a < b,
    ensures
        a * f < b * f,
{
    lemma_order_times(a, b, f);
    lemma_back_and_over(a, f);
    lemma_back_and_over(b, f);
}

/// What the form `a + b x + (d + e x) y` is at the place `(x + p, y + q)`, from its
/// values at the four corners of the unit square at `(x, y)`.
pub(crate) proof fn lemma_form(
    a: real,
    b: real,
    d: real,
    e: real,
    x: real,
    y: real,
    p: real,
    q: real,
    v00: real,
    v10: real,
    v01: real,
    v11: real,
)
    requires
        v00 == a + b * x + (d + e * x) * y,
        p != 0real ==> v10 == a + b * (x + 1real) + (d + e * (x + 1real)) * y,
        q != 0real ==> v01 == a + b * x + (d + e * x) * (y + 1real),
        p != 0real && q != 0real ==> v11 == a + b * (x + 1real) + (d + e * (x + 1real)) * (y
            + 1real),
    ensures
        (1real - p) * (1real - q) * v00 + p * (1real - q) * v10 + (1real - p) * q * v01 + p * q
            * v11 == a + b * (x + p) + (d + e * (x + p)) * (y + q),
{
    let s = d + e * x;
    let t = y + q;
    lemma_mix_of_mixes(p, q, v00, v10, v01, v11);
    // Down the column at `x`.
    lemma_distribute(s, y, 1real);
    lemma_times_one(s, 1real);
    lemma_mix_on_line(v00, s, q, v01);
    lemma_distribute(s, y, q);
    let near = (1real - q) * v00 + q * v01;
    assert(near == a + b * x + s * t);
    // Down the column behind it.
    let far = (1real - q) * v10 + q * v11;
    let s1 = d + e * (x + 1real);
    if p != 0real {
        lemma_distribute(s1, y, 1real);
        lemma_times_one(s1, 1real);
        lemma_mix_on_line(v10, s1, q, v11);
        lemma_distribute(s1, y, q);
        assert(far == a + b * (x + 1real) + s1 * t);
        lemma_distribute(b, x, 1real);
        lemma_times_one(b, 1real);
        lemma_distribute(e, x, 1real);
        lemma_times_one(e, 1real);
        assert(s1 == s + e);
        lemma_commute(s1, t);
        lemma_commute(s, t);
        lemma_commute(e, t);
        lemma_distribute(t, s, e);
        assert(far == near + (b + e * t));
    }
    // Between the two columns.
    lemma_mix_on_line(near, b + e * t, p, far);
    lemma_distribute(b, x, p);
    lemma_distribute(e, x, p);
    assert(d + e * (x + p) == s + e * p);
    lemma_commute(s + e * p, t);
    lemma_commute(s, t);
    lemma_commute(e * p, t);
    lemma_distribute(t, s, e * p);
    lemma_commute(b + e * t, p);
    lemma_distribute(p, b, e * t);
    lemma_commute(b, p);
    lemma_associate(p, e, t);
    lemma_commute(p, e);
}

} // verus!
