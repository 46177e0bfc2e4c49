//! How the order of a scalar type goes with its arithmetic.
//!
//! What is stated here holds of arithmetic that rounds, with infinities and
//! not-a-numbers. For `f64` none of it is proved: the laws that rest on it take it as
//! an assumption.
use crate::scalar;
use crate::scalar::{infinity, negative_infinity, orders_whole_numbers, whole};
use vstd::prelude::*;

verus! {

/// Both are numbers, and `a` is not above `b`.
pub open spec fn at_most<F: scalar::Scalar>(a: F, b: F) -> bool {
    a.is_number() && b.is_number() && !(a > b)
}

/// The value is neither infinite nor a not-a-number: it has a difference from itself.
pub open spec fn is_finite<F: scalar::Scalar>(v: F) -> bool {
    (v - v).is_number()
}

/// `F` is ordered up to not-a-numbers: only numbers are above or below another, being
/// above one is having it below and excludes being below it, and being at most carries
/// on.
pub open spec fn orders_numbers<F: scalar::Scalar>() -> bool {
    &&& orders_whole_numbers::<F>()
    &&& forall|a: F, b: F| #[trigger] a.spec_lt(b) == b.spec_gt(a)
    &&& forall|a: F, b: F| #[trigger] a.spec_gt(b) ==> a.is_number() && b.is_number() && !(b > a)
    &&& forall|a: F, b: F, c: F| #[trigger] carries_on(a, b, c)
}

/// What is at most `b`, and `b` at most `c`, is at most `c`.
pub open spec fn carries_on<F: scalar::Scalar>(a: F, b: F, c: F) -> bool {
    at_most(a, b) && at_most(b, c) ==> at_most(a, c)
}

/// Whole numbers scale in order: see [`ratio_is_ordered`], [`scaling_is_ordered`] and
/// [`is_unit_scaled`].
pub open spec fn scales_whole_numbers<F: scalar::Scalar>() -> bool {
    &&& forall|m: u32, e: u32| #[trigger] ratio_is_ordered::<F>(m, e)
    &&& forall|e: u32, s: F, t: F| #[trigger] scaling_is_ordered(e, s, t)
    &&& forall|e: u32, v: F| #[trigger] is_unit_scaled(e, v)
}

/// The ratio of `m` to a positive `e` is a number, at least 1 where `m` is at least
/// `e`.
pub open spec fn ratio_is_ordered<F: scalar::Scalar>(m: u32, e: u32) -> bool {
    e > 0 ==> {
        &&& (whole::<F>(m) / whole(e)).is_number()
        &&& e <= m ==> at_most(whole(1), whole::<F>(m) / whole(e))
    }
}

/// A positive whole number scaled by more is no less.
pub open spec fn scaling_is_ordered<F: scalar::Scalar>(e: u32, s: F, t: F) -> bool {
    e > 0 && at_most(s, t) ==> at_most(whole::<F>(e) * s, whole::<F>(e) * t)
}

/// `e` scaled by 1 is `e`, and what is neither above nor below a positive `e` is `e`.
pub open spec fn is_unit_scaled<F: scalar::Scalar>(e: u32, v: F) -> bool {
    &&& whole::<F>(e) * whole(1) == whole::<F>(e)
    &&& e > 0 && at_most(v, whole(e)) && at_most(whole(e), v) ==> v == whole::<F>(e)
}

/// The four operations keep the order and come to infinities only from large or
/// infinite operands: see the statements that follow.
pub open spec fn keeps_order<F: scalar::Scalar>() -> bool {
    &&& orders_numbers::<F>()
    &&& keeps_finite::<F>()
    &&& forall|n: u32| #[trigger] is_one_less::<F>(n)
    &&& forall|x: F, y: F| #[trigger] difference_is_ordered(x, y)
    &&& forall|a: F, b: F, d: F| #[trigger] share_is_ordered(a, b, d)
    &&& forall|x: F, p: F, q: F| #[trigger] sum_is_ordered(x, p, q)
    &&& forall|low: F, x: F, x2: F, high: F, y: F, y2: F| #[trigger]
        span_is_ordered(low, x, x2, high, y, y2)
    &&& forall|n: F, d: F, d2: F| #[trigger] quotient_is_ordered(n, d, d2)
}

/// What is finite is a number, infinities are numbers that are not finite, a finite
/// sum or difference has finite operands, and a share of what is finite is finite.
pub open spec fn keeps_finite<F: scalar::Scalar>() -> bool {
    &&& forall|v: F| #[trigger] is_finite(v) ==> v.is_number()
    &&& forall|n: u32| is_finite(#[trigger] whole::<F>(n))
    &&& infinity::<F>().is_number() && !is_finite(infinity::<F>())
    &&& negative_infinity::<F>().is_number() && !is_finite(negative_infinity::<F>())
    &&& forall|x: F, y: F| #[trigger] is_finite(x - y) ==> is_finite(x) && is_finite(y)
    &&& forall|x: F, y: F| #[trigger] is_finite(x + y) ==> is_finite(x) && is_finite(y)
    &&& forall|d: F| #[trigger] is_finite(whole::<F>(0) * d) ==> is_finite(d)
    &&& forall|a: F, d: F|
        #![trigger is_finite(a * d)]
        at_most(whole(0), a) && at_most(a, whole(1)) && is_finite(d) ==> is_finite(a * d)
}

/// Taking 1 from a positive whole number gives the one before it.
pub open spec fn is_one_less<F: scalar::Scalar>(n: u32) -> bool {
    n > 0 ==> whole::<F>(n) - whole(1) == whole::<F>((n - 1) as u32)
}

/// The difference of two finite numbers has the sign of their order.
pub open spec fn difference_is_ordered<F: scalar::Scalar>(x: F, y: F) -> bool {
    at_most(x, y) && is_finite(x) && is_finite(y) ==> {
        &&& at_most(x - y, whole(0))
        &&& at_most(whole(0), y - x)
    }
}

/// Of two shares from 0 to 1 the larger takes more of a positive `d` and less of a
/// negative one.
pub open spec fn share_is_ordered<F: scalar::Scalar>(a: F, b: F, d: F) -> bool {
    at_most(whole(0), a) && at_most(a, b) && at_most(b, whole(1)) && is_finite(d) ==> {
        &&& at_most(d, whole(0)) ==> at_most(b * d, a * d)
        &&& at_most(whole(0), d) ==> at_most(a * d, b * d)
    }
}

/// Adding more gives no less.
pub open spec fn sum_is_ordered<F: scalar::Scalar>(x: F, p: F, q: F) -> bool {
    is_finite(x) && is_finite(p) && is_finite(q) && at_most(p, q) ==> at_most(x + p, x + q)
}

/// A span whose upper end is no lower and whose lower end is no higher is no shorter,
/// where the upper ends have a finite bound below and the lower ends one above.
pub open spec fn span_is_ordered<F: scalar::Scalar>(
    low: F,
    x: F,
    x2: F,
    high: F,
    y: F,
    y2: F,
) -> bool {
    is_finite(low) && at_most(low, x) && at_most(x, x2) && is_finite(high) && at_most(y, high)
        && at_most(y2, y) ==> at_most(x - y, x2 - y2)
}

/// How a finite `n` that is not negative divides: a positive quotient comes of a finite
/// `d` that is not negative, one that is finite too of a positive `d`; a positive `d`
/// gives a quotient that is not negative; and a larger `d2` gives no larger quotient
/// than a `d` with neither itself nor its quotient negative.
pub open spec fn quotient_is_ordered<F: scalar::Scalar>(n: F, d: F, d2: F) -> bool {
    at_most(whole(0), n) && is_finite(n) ==> {
        &&& n / d > whole::<F>(0) ==> is_finite(d) && at_most(whole(0), d)
        &&& n / d > whole::<F>(0) && is_finite(n / d) ==> d > whole::<F>(0)
        &&& d > whole::<F>(0) ==> at_most(whole(0), n / d)
        &&& at_most(whole(0), d) && at_most(whole(0), n / d) && at_most(d, d2) ==> at_most(
            n / d2,
            n / d,
        )
    }
}

} // verus!
