//! Number types that compute exactly.
//!
//! The lens model computes with the operations of a number type. What it is for is
//! said in real numbers: the laws about it speak of number types whose operations give
//! the exact results. Their code is the same code that runs on `f64`, which rounds.
use crate::scalar;
use crate::scalar::{infinity, negative_infinity, of_byte, whole};
use vstd::prelude::*;

verus! {

/// `value` reads the numbers of `F` that are `finite` as real numbers, and the
/// operations and the order of `F` are those of the real numbers, with an infinity on
/// either side of them: what is divided by zero is not finite.
pub open spec fn is_exact<F: scalar::Scalar>(
    value: spec_fn(F) -> real,
    finite: spec_fn(F) -> bool,
) -> bool {
    &&& reads_whole_numbers(value, finite)
    &&& adds_exactly(value, finite)
    &&& multiplies_exactly(value, finite)
    &&& divides_exactly(value, finite)
    &&& orders_exactly(value, finite)
    &&& has_infinities(finite)
    &&& forall|a: F, b: F| #[trigger] is_told_apart(value, finite, a, b)
}

/// Whole numbers and bytes are finite, and read as what they are.
pub open spec fn reads_whole_numbers<F: scalar::Scalar>(
    value: spec_fn(F) -> real,
    finite: spec_fn(F) -> bool,
) -> bool {
    &&& forall|n: u32| finite(#[trigger] whole::<F>(n)) && value(whole::<F>(n)) == n as real
    &&& forall|b: u8| finite(#[trigger] of_byte::<F>(b)) && value(of_byte::<F>(b)) == b as real
}

/// Sums, differences and negatives of finite numbers are exact.
pub open spec fn adds_exactly<F: scalar::Scalar>(
    value: spec_fn(F) -> real,
    finite: spec_fn(F) -> bool,
) -> bool {
    &&& forall|a: F, b: F|
        #![trigger a.spec_add(b)]
        finite(a) && finite(b) ==> finite(a + b) && value(a + b) == value(a) + value(b)
    &&& forall|a: F, b: F|
        #![trigger a.spec_sub(b)]
        finite(a) && finite(b) ==> finite(a - b) && value(a - b) == value(a) - value(b)
    &&& forall|a: F|
        #![trigger a.negated()]
        finite(a) ==> finite(a.negated()) && value(a.negated()) == 0real - value(a)
}

/// Products of finite numbers are exact.
pub open spec fn multiplies_exactly<F: scalar::Scalar>(
    value: spec_fn(F) -> real,
    finite: spec_fn(F) -> bool,
) -> bool {
    forall|a: F, b: F|
        #![trigger a.spec_mul(b)]
        finite(a) && finite(b) ==> finite(a * b) && value(a * b) == value(a) * value(b)
}

/// Quotients of finite numbers are exact, and finite but for those by zero.
pub open spec fn divides_exactly<F: scalar::Scalar>(
    value: spec_fn(F) -> real,
    finite: spec_fn(F) -> bool,
) -> bool {
    forall|a: F, b: F|
        #![trigger a.spec_euclidean_or_real_div(b)]
        finite(a) && finite(b) ==> {
            &&& finite(a / b) <==> value(b) != 0real
            &&& finite(a / b) ==> value(a / b) == value(a) / value(b)
        }
}

/// Finite numbers are ordered by what they read as.
pub open spec fn orders_exactly<F: scalar::Scalar>(
    value: spec_fn(F) -> real,
    finite: spec_fn(F) -> bool,
) -> bool {
    &&& forall|a: F| #[trigger] finite(a) ==> a.is_number()
    &&& forall|a: F, b: F|
        #![trigger a.spec_lt(b)]
        finite(a) && finite(b) ==> (a < b <==> value(a) < value(b))
    &&& forall|a: F, b: F|
        #![trigger a.spec_gt(b)]
        finite(a) && finite(b) ==> (a > b <==> value(a) > value(b))
}

/// Two finite numbers with one value are one.
pub open spec fn is_told_apart<F>(
    value: spec_fn(F) -> real,
    finite: spec_fn(F) -> bool,
    a: F,
    b: F,
) -> bool {
    finite(a) && finite(b) && value(a) == value(b) ==> a == b
}

/// Every finite number lies between the two infinities.
pub open spec fn has_infinities<F: scalar::Scalar>(finite: spec_fn(F) -> bool) -> bool {
    &&& infinity::<F>().is_number() && negative_infinity::<F>().is_number()
    &&& forall|v: F| #[trigger] finite(v) ==> v < infinity::<F>() && v > negative_infinity::<F>()
}

/// `floor` gives the whole number that a finite number is at or above, and below the
/// next of; beyond the range of `i64`, the nearer end of it.
pub open spec fn floors<F: scalar::Scalar, L: Fn(F) -> i64>(
    value: spec_fn(F) -> real,
    finite: spec_fn(F) -> bool,
    floor: L,
) -> bool {
    forall|v: F, n: i64| #[trigger]
        call_ensures(floor, (v,), n) && finite(v) ==> {
            &&& n as real <= value(v) || n == i64::MIN
            &&& value(v) < n as real + 1real || n == i64::MAX
        }
}

/// The real number is the whole number `n`.
pub open spec fn is_whole(v: real, n: int) -> bool {
    v == n as real
}

/// `round` gives the nearest whole number of a finite number that is not negative, and
/// of two that are as near the larger.
pub open spec fn rounds<F: scalar::Scalar, R: Fn(F) -> F>(
    value: spec_fn(F) -> real,
    finite: spec_fn(F) -> bool,
    round: R,
) -> bool {
    forall|v: F, r: F| #[trigger]
        call_ensures(round, (v,), r) && finite(v) && value(v) >= 0real ==> {
            &&& finite(r)
            &&& exists|n: int| #[trigger] is_whole(value(r), n)
            &&& value(v) - 1real / 2real < value(r) <= value(v) + 1real / 2real
        }
}

/// `to_byte` gives a whole number from 0 to 255 as a byte.
pub open spec fn makes_bytes<F: scalar::Scalar, B: Fn(F) -> u8>(
    value: spec_fn(F) -> real,
    finite: spec_fn(F) -> bool,
    to_byte: B,
) -> bool {
    forall|v: F, b: u8, n: int| #[trigger]
        call_ensures(to_byte, (v,), b) && finite(v) && #[trigger] is_whole(value(v), n) && 0 <= n
            <= 255 ==> b == n
}

/// `truncate` gives the whole part of a finite number that is not negative and below
/// the end of its range.
pub open spec fn cuts<F: scalar::Scalar, T: Fn(F) -> u32>(
    value: spec_fn(F) -> real,
    finite: spec_fn(F) -> bool,
    truncate: T,
) -> bool {
    forall|v: F, n: u32| #[trigger]
        call_ensures(truncate, (v,), n) && finite(v) && 0real <= value(v) <= u32::MAX as real
            ==> n as real <= value(v) < n as real + 1real
}

} // verus!
