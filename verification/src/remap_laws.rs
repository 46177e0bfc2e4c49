//! What holds of cameras and thumbnails where the arithmetic keeps the order.
use crate::calibration::DjiCalibration;
use crate::order::{
    at_most, carries_on, difference_is_ordered, is_finite, is_one_less, is_unit_scaled,
    keeps_order, orders_numbers, quotient_is_ordered, ratio_is_ordered, scales_whole_numbers,
    scaling_is_ordered, share_is_ordered, span_is_ordered, sum_is_ordered,
};
use crate::remap::{
    all_borders, blended, bottom_border, coordinate, largest, left_border, new_camera,
    right_border, smallest, thumbnail_extent, thumbnail_scale, top_border, truncates,
};
use crate::scalar;
use crate::scalar::{clamped, max_of, min_of, whole};
use vstd::prelude::*;

verus! {

// ---------------------------------------------------------------------------
// Thumbnails
// ---------------------------------------------------------------------------

/// `round` gives nearest whole numbers: a whole number is its own, and
/// [`rounds_below`] holds.
///
/// Of rounding `f64` values this is not proved; a program takes it as an assumption.
pub open spec fn rounds_whole_numbers<F: scalar::Scalar, R: Fn(F) -> F>(round: R) -> bool {
    &&& forall|n: u32, r: F| #[trigger]
        call_ensures(round, (whole::<F>(n),), r) ==> r == whole::<F>(n)
    &&& forall|v: F, r: F, m: u32, e: u32|
        call_ensures(round, (v,), r) ==> #[trigger] rounds_below(v, r, m, e)
}

/// What is at most `e` times the ratio of `m` to `e`, which may be a rounding error
/// above `m`, has a nearest whole number `r` of at most `m`.
pub open spec fn rounds_below<F: scalar::Scalar>(v: F, r: F, m: u32, e: u32) -> bool {
    e > 0 && at_most(v, whole::<F>(e) * (whole::<F>(m) / whole(e))) ==> at_most(r, whole(m))
}

/// The smaller of two numbers is at most each of them.
proof fn lemma_min<F: scalar::Scalar>(a: F, b: F)
    requires
        orders_numbers::<F>(),
        a.is_number(),
        b.is_number(),
    ensures
        at_most(min_of(a, b), a),
        at_most(min_of(a, b), b),
        min_of(a, b) == a || min_of(a, b) == b,
{
    assert(b.spec_lt(a) == a.spec_gt(b));
    assert(a.spec_gt(a) ==> !(a > a));
    assert(b.spec_gt(b) ==> !(b > b));
    assert(a.spec_gt(b) ==> !(b > a));
}

proof fn lemma_extent_fits<F: scalar::Scalar, R: Fn(F) -> F, T: Fn(F) -> u32>(
    round: R,
    truncate: T,
    extent: u32,
    scale: F,
    max_dim: u32,
    scaled: u32,
)
    requires
        orders_numbers::<F>(),
        scales_whole_numbers::<F>(),
        rounds_whole_numbers::<F, R>(round),
        truncates::<F, T>(truncate),
        extent > 0,
        max_dim > 0,
        at_most(scale, whole::<F>(max_dim) / whole(extent)),
        thumbnail_extent(round, truncate, extent, scale, scaled),
    ensures
        scaled <= max_dim,
{
    let v = whole::<F>(extent) * scale;
    let rounded = choose|rounded: F|
        #![trigger call_ensures(round, (v,), rounded)]
        call_ensures(round, (v,), rounded) && call_ensures(
            truncate,
            (max_of(rounded, whole(1)),),
            scaled,
        );
    assert(scaling_is_ordered(extent, scale, whole::<F>(max_dim) / whole(extent)));
    assert(rounds_below(v, rounded, max_dim, extent));
    assert(at_most(rounded, whole(max_dim)));
    assert(!(whole::<F>(1) > whole::<F>(max_dim)));
}

proof fn lemma_extent_stays<F: scalar::Scalar, R: Fn(F) -> F, T: Fn(F) -> u32>(
    round: R,
    truncate: T,
    extent: u32,
    scaled: u32,
)
    requires
        orders_numbers::<F>(),
        scales_whole_numbers::<F>(),
        rounds_whole_numbers::<F, R>(round),
        truncates::<F, T>(truncate),
        extent > 0,
        thumbnail_extent(round, truncate, extent, whole::<F>(1), scaled),
    ensures
        scaled == extent,
{
    let v = whole::<F>(extent) * whole(1);
    let rounded = choose|rounded: F|
        #![trigger call_ensures(round, (v,), rounded)]
        call_ensures(round, (v,), rounded) && call_ensures(
            truncate,
            (max_of(rounded, whole(1)),),
            scaled,
        );
    assert(is_unit_scaled(extent, whole::<F>(extent)));
    assert(rounded == whole::<F>(extent));
    assert(!(whole::<F>(1) > whole::<F>(extent)));
    assert(!(whole::<F>(extent) > whole::<F>(extent)));
}

/// A thumbnail fits the square of `max_dim` pixels, and an image that fits it keeps
/// its sides.
pub proof fn law_thumbnail_fits_its_square<F: scalar::Scalar, R: Fn(F) -> F, T: Fn(F) -> u32>(
    round: R,
    truncate: T,
    src_w: u32,
    src_h: u32,
    max_dim: u32,
    width: u32,
    height: u32,
)
    requires
        orders_numbers::<F>(),
        scales_whole_numbers::<F>(),
        rounds_whole_numbers::<F, R>(round),
        truncates::<F, T>(truncate),
        src_w > 0,
        src_h > 0,
        max_dim > 0,
        thumbnail_extent(
            round,
            truncate,
            src_w,
            thumbnail_scale::<F>(src_w, src_h, max_dim),
            width,
        ),
        thumbnail_extent(
            round,
            truncate,
            src_h,
            thumbnail_scale::<F>(src_w, src_h, max_dim),
            height,
        ),
    ensures
        width <= max_dim,
        height <= max_dim,
        src_w <= max_dim && src_h <= max_dim ==> width == src_w && height == src_h,
{
    let across = whole::<F>(max_dim) / whole(src_w);
    let down = whole::<F>(max_dim) / whole(src_h);
    let one = whole::<F>(1);
    let least = min_of(across, down);
    let scale = thumbnail_scale::<F>(src_w, src_h, max_dim);
    assert(ratio_is_ordered::<F>(max_dim, src_w));
    assert(ratio_is_ordered::<F>(max_dim, src_h));
    lemma_min(across, down);
    lemma_min(least, one);
    assert(carries_on(scale, least, across));
    assert(carries_on(scale, least, down));
    lemma_extent_fits(round, truncate, src_w, scale, max_dim, width);
    lemma_extent_fits(round, truncate, src_h, scale, max_dim, height);
    if src_w <= max_dim && src_h <= max_dim {
        assert(is_unit_scaled(1, scale));
        lemma_extent_stays::<F, R, T>(round, truncate, src_w, width);
        lemma_extent_stays::<F, R, T>(round, truncate, src_h, height);
    }
}

// ---------------------------------------------------------------------------
// Cameras
// ---------------------------------------------------------------------------

/// The smallest coordinate is at most each coordinate that is a number.
proof fn lemma_smallest<F: scalar::Scalar>(points: Seq<(F, F)>, vertical: bool, i: int)
    requires
        keeps_order::<F>(),
        0 <= i < points.len(),
    ensures
        smallest(points, vertical).is_number(),
        coordinate(points[i], vertical).is_number() ==> at_most(
            smallest(points, vertical),
            coordinate(points[i], vertical),
        ),
    decreases points.len(),
{
    let before = smallest(points.drop_last(), vertical);
    let last = coordinate(points.last(), vertical);
    let all = smallest(points, vertical);
    assert(all == min_of(before, last));
    if points.len() > 1 {
        let j = if i < points.len() - 1 { i } else { 0 };
        lemma_smallest(points.drop_last(), vertical, j);
    }
    assert(before.is_number());
    assert(last.spec_lt(before) == before.spec_gt(last));
    assert(all.spec_gt(all) ==> !(all > all));
    assert(all.is_number());
    assert(all.spec_gt(last) ==> !(last > all));
    if i < points.len() - 1 {
        let c = coordinate(points[i], vertical);
        assert(points.drop_last()[i] == points[i]);
        assert(before.spec_gt(last) ==> !(last > before));
        assert(carries_on(all, before, c));
    }
}

/// The largest coordinate is at least each coordinate that is a number.
proof fn lemma_largest<F: scalar::Scalar>(points: Seq<(F, F)>, vertical: bool, i: int)
    requires
        keeps_order::<F>(),
        0 <= i < points.len(),
    ensures
        largest(points, vertical).is_number(),
        coordinate(points[i], vertical).is_number() ==> at_most(
            coordinate(points[i], vertical),
            largest(points, vertical),
        ),
    decreases points.len(),
{
    let before = largest(points.drop_last(), vertical);
    let last = coordinate(points.last(), vertical);
    let all = largest(points, vertical);
    assert(all == max_of(before, last));
    if points.len() > 1 {
        let j = if i < points.len() - 1 { i } else { 0 };
        lemma_largest(points.drop_last(), vertical, j);
    }
    assert(before.is_number());
    assert(all.spec_gt(all) ==> !(all > all));
    assert(all.is_number());
    assert(last.spec_gt(all) ==> !(all > last));
    if i < points.len() - 1 {
        let c = coordinate(points[i], vertical);
        assert(points.drop_last()[i] == points[i]);
        assert(last.spec_gt(before) ==> !(before > last));
        assert(carries_on(c, before, all));
    }
}

/// A finite smallest coordinate is the coordinate of a point.
proof fn lemma_smallest_is_one<F: scalar::Scalar>(points: Seq<(F, F)>, vertical: bool) -> (i: int)
    requires
        keeps_order::<F>(),
        is_finite(smallest(points, vertical)),
    ensures
        0 <= i < points.len(),
        coordinate(points[i], vertical) == smallest(points, vertical),
    decreases points.len(),
{
    assert(points.len() > 0);
    let before = smallest(points.drop_last(), vertical);
    if smallest(points, vertical) == coordinate(points.last(), vertical) {
        points.len() - 1
    } else {
        assert(smallest(points, vertical) == before);
        let i = lemma_smallest_is_one(points.drop_last(), vertical);
        assert(points.drop_last()[i] == points[i]);
        i
    }
}

/// A finite largest coordinate is the coordinate of a point.
proof fn lemma_largest_is_one<F: scalar::Scalar>(points: Seq<(F, F)>, vertical: bool) -> (i: int)
    requires
        keeps_order::<F>(),
        is_finite(largest(points, vertical)),
    ensures
        0 <= i < points.len(),
        coordinate(points[i], vertical) == largest(points, vertical),
    decreases points.len(),
{
    assert(points.len() > 0);
    let before = largest(points.drop_last(), vertical);
    if largest(points, vertical) == coordinate(points.last(), vertical) {
        points.len() - 1
    } else {
        assert(largest(points, vertical) == before);
        let i = lemma_largest_is_one(points.drop_last(), vertical);
        assert(points.drop_last()[i] == points[i]);
        i
    }
}

/// The largest coordinate of a part of the points, where it is finite, is at least the
/// smallest of all.
proof fn lemma_low_end<F: scalar::Scalar>(
    part: Seq<(F, F)>,
    start: int,
    all: Seq<(F, F)>,
    vertical: bool,
)
    requires
        keeps_order::<F>(),
        0 <= start,
        start + part.len() <= all.len(),
        part == all.subrange(start, start + part.len()),
    ensures
        is_finite(largest(part, vertical)) ==> at_most(
            smallest(all, vertical),
            largest(part, vertical),
        ),
{
    if is_finite(largest(part, vertical)) {
        let i = lemma_largest_is_one(part, vertical);
        assert(part[i] == all[start + i]);
        lemma_smallest(all, vertical, start + i);
    }
}

/// The smallest coordinate of a part of the points, where it is finite, is at most the
/// largest of all.
proof fn lemma_high_end<F: scalar::Scalar>(
    part: Seq<(F, F)>,
    start: int,
    all: Seq<(F, F)>,
    vertical: bool,
)
    requires
        keeps_order::<F>(),
        0 <= start,
        start + part.len() <= all.len(),
        part == all.subrange(start, start + part.len()),
    ensures
        is_finite(smallest(part, vertical)) ==> at_most(
            smallest(part, vertical),
            largest(all, vertical),
        ),
{
    if is_finite(smallest(part, vertical)) {
        let i = lemma_smallest_is_one(part, vertical);
        assert(part[i] == all[start + i]);
        lemma_largest(all, vertical, start + i);
    }
}

/// Holding a number between 0 and 1 keeps the order.
proof fn lemma_held<F: scalar::Scalar>(a: F, b: F)
    requires
        orders_numbers::<F>(),
        at_most(a, b),
    ensures
        at_most(whole(0), clamped(a, whole(0), whole(1))),
        at_most(clamped(a, whole(0), whole(1)), clamped(b, whole(0), whole(1))),
        at_most(clamped(b, whole(0), whole(1)), whole(1)),
{
    let zero = whole::<F>(0);
    let one = whole::<F>(1);
    assert(!(zero > one) && !(zero > zero) && !(one > one));
    assert(a.spec_lt(zero) == zero.spec_gt(a));
    assert(b.spec_lt(zero) == zero.spec_gt(b));
    assert(a.spec_gt(one) ==> !(one > a));
    assert(b.spec_gt(one) ==> !(one > b));
    assert(zero.spec_gt(a) ==> !(a > zero));
    assert(zero.spec_gt(b) ==> !(b > zero));
    assert(carries_on(a, b, zero));
    assert(carries_on(zero, a, b));
    assert(carries_on(one, a, b));
    assert(carries_on(a, b, one));
}

/// A blend towards an end that is no higher goes down with the share, from where it
/// is with none of it.
proof fn lemma_blend_down<F: scalar::Scalar>(inner: F, outer: F, a: F, b: F)
    requires
        keeps_order::<F>(),
        is_finite(blended(inner, outer, whole(0))),
        is_finite(inner) ==> at_most(outer, inner),
        at_most(whole(0), a),
        at_most(a, b),
        at_most(b, whole(1)),
    ensures
        at_most(blended(inner, outer, b), blended(inner, outer, a)),
{
    let d = outer - inner;
    assert(carries_on(a, b, whole(1)));
    assert(carries_on(whole(0), a, b));
    assert(is_finite(whole::<F>(0) * d));
    assert(is_finite(d));
    assert(difference_is_ordered(outer, inner));
    assert(share_is_ordered(a, b, d));
    assert(is_finite(a * d) && is_finite(b * d));
    assert(sum_is_ordered(inner, b * d, a * d));
}

/// A blend towards an end that is no lower goes up with the share.
proof fn lemma_blend_up<F: scalar::Scalar>(inner: F, outer: F, a: F, b: F)
    requires
        keeps_order::<F>(),
        is_finite(blended(inner, outer, whole(0))),
        is_finite(inner) ==> at_most(inner, outer),
        at_most(whole(0), a),
        at_most(a, b),
        at_most(b, whole(1)),
    ensures
        at_most(blended(inner, outer, a), blended(inner, outer, b)),
{
    let d = outer - inner;
    assert(carries_on(a, b, whole(1)));
    assert(carries_on(whole(0), a, b));
    assert(is_finite(whole::<F>(0) * d));
    assert(is_finite(d));
    assert(difference_is_ordered(inner, outer));
    assert(share_is_ordered(a, b, d));
    assert(is_finite(a * d) && is_finite(b * d));
    assert(sum_is_ordered(inner, a * d, b * d));
}

/// The focal length that shows the span from the blend of `inner_low` and `outer_low`
/// to that of `inner_high` and `outer_high` over `n` pixel steps.
spec fn focal<F: scalar::Scalar>(
    n: F,
    inner_low: F,
    outer_low: F,
    inner_high: F,
    outer_high: F,
    alpha: F,
) -> F {
    n / (blended(inner_high, outer_high, alpha) - blended(inner_low, outer_low, alpha))
}

proof fn lemma_focal<F: scalar::Scalar>(
    n: F,
    inner_low: F,
    outer_low: F,
    inner_high: F,
    outer_high: F,
    a: F,
    b: F,
)
    requires
        keeps_order::<F>(),
        at_most(whole(0), n),
        is_finite(n),
        is_finite(inner_low) ==> at_most(outer_low, inner_low),
        is_finite(inner_high) ==> at_most(inner_high, outer_high),
        at_most(whole(0), a),
        at_most(a, b),
        at_most(b, whole(1)),
        focal(n, inner_low, outer_low, inner_high, outer_high, whole(0)) > whole::<F>(0),
        is_finite(focal(n, inner_low, outer_low, inner_high, outer_high, whole(0))) || at_most(
            whole(0),
            focal(n, inner_low, outer_low, inner_high, outer_high, a),
        ),
    ensures
        at_most(
            focal(n, inner_low, outer_low, inner_high, outer_high, b),
            focal(n, inner_low, outer_low, inner_high, outer_high, a),
        ),
{
    let zero = whole::<F>(0);
    let low0 = blended(inner_low, outer_low, zero);
    let high0 = blended(inner_high, outer_high, zero);
    let low_a = blended(inner_low, outer_low, a);
    let high_a = blended(inner_high, outer_high, a);
    let low_b = blended(inner_low, outer_low, b);
    let high_b = blended(inner_high, outer_high, b);
    let d0 = high0 - low0;
    let da = high_a - low_a;
    let db = high_b - low_b;
    assert(quotient_is_ordered(n, d0, da));
    assert(is_finite(d0) && is_finite(high0) && is_finite(low0));
    assert(zero.is_number() && !(zero > zero));
    assert(carries_on(a, b, whole(1)));
    lemma_blend_down(inner_low, outer_low, zero, a);
    lemma_blend_down(inner_low, outer_low, a, b);
    lemma_blend_up(inner_high, outer_high, zero, a);
    lemma_blend_up(inner_high, outer_high, a, b);
    assert(high0.spec_gt(high0) ==> !(high0 > high0));
    assert(low0.spec_gt(low0) ==> !(low0 > low0));
    assert(span_is_ordered(high0, high0, high_a, low0, low0, low_a));
    assert(at_most(d0, da));
    assert(span_is_ordered(high0, high_a, high_b, low0, low_a, low_b));
    assert(at_most(da, db));
    assert(carries_on(zero, d0, da));
    assert(carries_on(d0, da, zero));
    assert(quotient_is_ordered(n, da, db));
}

/// A larger `alpha` never narrows the view: the focal lengths do not grow with it. So
/// it is, on each axis, wherever `alpha` 0 gives a positive focal length, but where
/// that one is infinite and the one of `a` is negative: a span of zero length can
/// change the sign of its zero with the sign of an `alpha` of zero.
pub proof fn law_larger_alpha_never_narrows_the_view<F: scalar::Scalar>(
    cal: DjiCalibration<F>,
    width: u32,
    height: u32,
    a: F,
    b: F,
)
    requires
        keeps_order::<F>(),
        width > 0,
        height > 0,
        at_most(a, b),
    ensures
        ({
            let none = new_camera(cal, width, height, whole(0));
            let less = new_camera(cal, width, height, a);
            let more = new_camera(cal, width, height, b);
            &&& none.fx > whole::<F>(0) && (is_finite(none.fx) || at_most(whole(0), less.fx))
                ==> at_most(more.fx, less.fx)
            &&& none.fy > whole::<F>(0) && (is_finite(none.fy) || at_most(whole(0), less.fy))
                ==> at_most(more.fy, less.fy)
        }),
{
    let none = new_camera(cal, width, height, whole(0));
    let less = new_camera(cal, width, height, a);
    let more = new_camera(cal, width, height, b);
    let zero = whole::<F>(0);
    let one = whole::<F>(1);
    let held_a = clamped(a, zero, one);
    let held_b = clamped(b, zero, one);
    let top = top_border(cal, width, height);
    let bottom = bottom_border(cal, width, height);
    let left = left_border(cal, width, height);
    let right = right_border(cal, width, height);
    let all = all_borders(cal, width, height);
    lemma_held(a, b);
    assert(!(zero > zero) && !(zero > one));
    assert(clamped(zero, zero, one) == zero);
    let second: int = top.len() as int;
    let third: int = second + bottom.len();
    let fourth: int = third + left.len();
    assert(top =~= all.subrange(0, second));
    assert(bottom =~= all.subrange(second, third));
    assert(left =~= all.subrange(third, fourth));
    assert(right =~= all.subrange(fourth, fourth + right.len()));
    if none.fx > zero && (is_finite(none.fx) || at_most(zero, less.fx)) {
        lemma_low_end(left, third, all, false);
        lemma_high_end(right, fourth, all, false);
        assert(is_one_less::<F>(width));
        lemma_focal(
            whole::<F>(width) - one,
            largest(left, false),
            smallest(all, false),
            smallest(right, false),
            largest(all, false),
            held_a,
            held_b,
        );
    }
    if none.fy > zero && (is_finite(none.fy) || at_most(zero, less.fy)) {
        lemma_low_end(top, 0, all, true);
        lemma_high_end(bottom, second, all, true);
        assert(is_one_less::<F>(height));
        lemma_focal(
            whole::<F>(height) - one,
            largest(top, true),
            smallest(all, true),
            smallest(bottom, true),
            largest(all, true),
            held_a,
            held_b,
        );
    }
}

} // verus!
