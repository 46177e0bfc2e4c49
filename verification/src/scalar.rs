//! Arithmetic over a scalar type that the caller picks.
//!
//! The lens model, the remap tables and the thumbnails compute with real
//! numbers. Everything here is generic over the number type: the code calls the
//! operators of `core::ops`, the comparisons of `core::cmp` and the conversions
//! of `core::convert`, and the contracts say which of them are called, on what,
//! and in which order. The command-line tool and the window run it on `f64`.
use core::ops::{Add, Div, Mul, Neg, Sub};
use vstd::prelude::*;
use vstd::std_specs::cmp::{PartialEqSpec, PartialOrdIs, PartialOrdSpec};
use vstd::std_specs::convert::FromSpec;
use vstd::std_specs::ops::{AddSpec, DivSpec, MulSpec, NegSpec, SubSpec};

verus! {

/// A number type with the four operations, a sign change, an order and exact
/// conversions from `u8` and `u32`.
///
/// The spec methods give the operators `+ - * /` and `< >` their meaning in
/// contracts: the value that the operator of the type returns.
pub trait Scalar: Copy + Add<Output = Self> + Sub<Output = Self> + Mul<Output = Self> + Div<
    Output = Self,
> + Neg<Output = Self> + PartialOrd + From<u8> + From<u32> {
    spec fn spec_add(self, rhs: Self) -> Self;

    spec fn spec_sub(self, rhs: Self) -> Self;

    spec fn spec_mul(self, rhs: Self) -> Self;

    spec fn spec_euclidean_or_real_div(self, rhs: Self) -> Self;

    spec fn negated(self) -> Self;

    spec fn spec_lt(self, rhs: Self) -> bool;

    spec fn spec_gt(self, rhs: Self) -> bool;

    /// Whether the value equals itself (a not-a-number does not).
    spec fn is_number(self) -> bool;
}

impl<
    T: Copy + Add<Output = T> + Sub<Output = T> + Mul<Output = T> + Div<Output = T> + Neg<
        Output = T,
    > + PartialOrd + From<u8> + From<u32>,
> Scalar for T {
    open spec fn spec_add(self, rhs: T) -> T {
        self.add_spec(rhs)
    }

    open spec fn spec_sub(self, rhs: T) -> T {
        self.sub_spec(rhs)
    }

    open spec fn spec_mul(self, rhs: T) -> T {
        self.mul_spec(rhs)
    }

    open spec fn spec_euclidean_or_real_div(self, rhs: T) -> T {
        self.div_spec(rhs)
    }

    open spec fn negated(self) -> T {
        self.neg_spec()
    }

    open spec fn spec_lt(self, rhs: T) -> bool {
        self.is_lt(&rhs)
    }

    open spec fn spec_gt(self, rhs: T) -> bool {
        self.is_gt(&rhs)
    }

    open spec fn is_number(self) -> bool {
        self.eq_spec(&self)
    }
}

/// The operations of `F` answer for all operands, and each answer is a function
/// of the operands alone: what `core::ops`, `core::cmp` and `core::convert` call
/// on `F` is what the spec methods of [`Scalar`] name.
///
/// For `f64` this is not proved: `vstd` leaves open which value an operator of `f64`
/// returns, and the bits of a not-a-number are no function of the operands. A
/// program that computes with `f64` takes it as an assumption.
pub open spec fn is_arithmetic<F: Scalar>() -> bool {
    &&& F::obeys_add_spec()
    &&& F::obeys_sub_spec()
    &&& F::obeys_mul_spec()
    &&& F::obeys_div_spec()
    &&& F::obeys_neg_spec()
    &&& F::obeys_eq_spec()
    &&& F::obeys_partial_cmp_spec()
    &&& widens::<F, u8>()
    &&& widens::<F, u32>()
    &&& forall|a: F, b: F| #[trigger] a.add_req(b)
    &&& forall|a: F, b: F| #[trigger] a.sub_req(b)
    &&& forall|a: F, b: F| #[trigger] a.mul_req(b)
    &&& forall|a: F, b: F| #[trigger] a.div_req(b)
    &&& forall|a: F| #[trigger] a.neg_req()
}

/// The scalar that stands for the whole number `n`.
pub open spec fn whole<F: Scalar>(n: u32) -> F {
    widened(n)
}

/// The scalar that stands for the byte `b`.
pub open spec fn of_byte<F: Scalar>(b: u8) -> F {
    widened(b)
}

/// The conversion from `G` to `F` is a function of the value alone.
pub open spec fn widens<F: From<G>, G>() -> bool {
    <F as FromSpec<G>>::obeys_from_spec()
}

/// `g` as a value of `F`.
pub open spec fn widened<F: From<G>, G>(g: G) -> F {
    <F as FromSpec<G>>::from_spec(g)
}

/// The smaller of `a` and `b`; of a number and a not-a-number, the number.
pub open spec fn min_of<F: Scalar>(a: F, b: F) -> F {
    if b < a || !a.is_number() {
        b
    } else {
        a
    }
}

/// The larger of `a` and `b`; of a number and a not-a-number, the number.
pub open spec fn max_of<F: Scalar>(a: F, b: F) -> F {
    if b > a || !a.is_number() {
        b
    } else {
        a
    }
}

/// `v` where it lies between `low` and `high`, else the end that it lies beyond.
pub open spec fn clamped<F: Scalar>(v: F, low: F, high: F) -> F {
    if v < low {
        low
    } else if v > high {
        high
    } else {
        v
    }
}

/// Positive infinity, as one over zero.
pub open spec fn infinity<F: Scalar>() -> F {
    whole::<F>(1) / whole(0)
}

/// Negative infinity, as minus one over zero.
pub open spec fn negative_infinity<F: Scalar>() -> F {
    whole::<F>(1).negated() / whole(0)
}

/// The order of `F` treats whole numbers as an order does: they are numbers, none
/// is above itself or a larger one, and being above one and having it below are the
/// same.
pub open spec fn orders_whole_numbers<F: Scalar>() -> bool {
    &&& forall|n: u32| (#[trigger] whole::<F>(n)).is_number()
    &&& forall|m: u32, n: u32|
        m <= n ==> !((#[trigger] whole::<F>(m)) > (#[trigger] whole::<F>(n)))
    &&& forall|v: F, n: u32| #[trigger] v.spec_gt(whole::<F>(n)) == (whole::<F>(n) < v)
    &&& forall|v: F, n: u32| #[trigger] v.spec_lt(whole::<F>(n)) == (whole::<F>(n) > v)
}

pub(crate) fn from_whole<F: Scalar>(n: u32) -> (r: F)
    requires
        is_arithmetic::<F>(),
    ensures
        r == whole::<F>(n),
{
    F::from(n)
}

pub(crate) fn from_byte<F: Scalar>(b: u8) -> (r: F)
    requires
        is_arithmetic::<F>(),
    ensures
        r == of_byte::<F>(b),
{
    F::from(b)
}

pub(crate) fn min<F: Scalar>(a: F, b: F) -> (r: F)
    requires
        is_arithmetic::<F>(),
    ensures
        r == min_of(a, b),
{
    if b < a || a != a {
        b
    } else {
        a
    }
}

pub(crate) fn max<F: Scalar>(a: F, b: F) -> (r: F)
    requires
        is_arithmetic::<F>(),
    ensures
        r == max_of(a, b),
{
    if b > a || a != a {
        b
    } else {
        a
    }
}

pub(crate) fn clamp<F: Scalar>(v: F, low: F, high: F) -> (r: F)
    requires
        is_arithmetic::<F>(),
    ensures
        r == clamped(v, low, high),
{
    if v < low {
        low
    } else if v > high {
        high
    } else {
        v
    }
}

} // verus!
