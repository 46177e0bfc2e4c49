//! What the lens model, its cameras and its tables are, in real numbers.
use crate::calibration::DjiCalibration;
use crate::exact::{is_exact, is_told_apart};
use crate::reals::{
    lemma_back_and_over, lemma_blend_of_same, lemma_ends_of_blend, lemma_no_lens,
    lemma_order_times, lemma_over_and_back, lemma_part_of, lemma_same_span, lemma_share_of,
    lemma_shift, lemma_span, lemma_stretch, lemma_times_one,
};
use crate::remap::{
    all_borders, blended, border_share, bottom_border, coordinate, distorted, largest, left_border,
    narrowed, new_camera, redistort_place, right_border, smallest, top_border, undistort_place,
    undistort_round, undistort_search, undistorted, Intrinsics, RemapLut, UNDISTORT_ROUNDS,
};
use crate::scalar;
use crate::scalar::{clamped, whole};
use vstd::prelude::*;

verus! {

// ---------------------------------------------------------------------------
// The lens
// ---------------------------------------------------------------------------

/// All numbers of the calibration are finite, and its focal lengths are not zero.
pub open spec fn is_lens<F: scalar::Scalar>(
    value: spec_fn(F) -> real,
    finite: spec_fn(F) -> bool,
    cal: DjiCalibration<F>,
) -> bool {
    &&& finite(cal.fx) && finite(cal.fy) && finite(cal.cx) && finite(cal.cy)
    &&& finite(cal.k1) && finite(cal.k2) && finite(cal.k3)
    &&& finite(cal.p1) && finite(cal.p2)
    &&& value(cal.fx) != 0real && value(cal.fy) != 0real
}

/// How much longer than before the lens makes the distance of a point from the centre:
/// a polynomial in the square of that distance.
pub open spec fn stretch<F: scalar::Scalar>(
    value: spec_fn(F) -> real,
    cal: DjiCalibration<F>,
    x: real,
    y: real,
) -> real {
    let s = x * x + y * y;
    1real + s * (value(cal.k1) + s * (value(cal.k2) + s * value(cal.k3)))
}

/// How far the tilt of the lens moves a point.
pub open spec fn shift<F: scalar::Scalar>(
    value: spec_fn(F) -> real,
    cal: DjiCalibration<F>,
    x: real,
    y: real,
) -> (real, real) {
    (
        value(cal.p1) * (2real * x * y) + value(cal.p2) * (3real * x * x + y * y),
        value(cal.p1) * (x * x + 3real * y * y) + value(cal.p2) * (2real * x * y),
    )
}

/// The lens stretches the distance of a point from the centre and shifts the point by
/// its tilt, as the Brown-Conrady model says.
pub proof fn law_lens_stretches_and_shifts<F: scalar::Scalar>(
    value: spec_fn(F) -> real,
    finite: spec_fn(F) -> bool,
    cal: DjiCalibration<F>,
    x: F,
    y: F,
)
    requires
        is_exact(value, finite),
        is_lens(value, finite, cal),
        finite(x),
        finite(y),
    ensures
        ({
            let (u, v) = distorted(cal, x, y);
            let factor = stretch(value, cal, value(x), value(y));
            let moved = shift(value, cal, value(x), value(y));
            &&& finite(u) && finite(v)
            &&& value(u) == value(x) * factor + moved.0
            &&& value(v) == value(y) * factor + moved.1
        }),
{
    let (a, b) = (value(x), value(y));
    let (k1, k2, k3) = (value(cal.k1), value(cal.k2), value(cal.k3));
    let (p1, p2) = (value(cal.p1), value(cal.p2));
    let r2 = a * a + b * b;
    let (u, v) = distorted(cal, x, y);
    let radial = 1real + k1 * r2 + k2 * (r2 * r2) + k3 * (r2 * r2 * r2);
    assert(value(u) == a * radial + 2real * p1 * a * b + p2 * (r2 + 2real * a * a));
    assert(value(v) == b * radial + p1 * (r2 + 2real * b * b) + 2real * p2 * a * b);
    lemma_stretch(k1, k2, k3, r2);
    lemma_shift(p1, p2, a, b);
}

/// The guess `next` makes up for what the lens does at the guess before it: stretched
/// and shifted as that one, it comes to lie at the target.
pub open spec fn makes_up_for<F: scalar::Scalar>(
    value: spec_fn(F) -> real,
    finite: spec_fn(F) -> bool,
    cal: DjiCalibration<F>,
    target: (F, F),
    guess: (F, F),
    next: (F, F),
) -> bool {
    let factor = stretch(value, cal, value(guess.0), value(guess.1));
    let moved = shift(value, cal, value(guess.0), value(guess.1));
    finite(guess.0) && finite(guess.1) && factor != 0real ==> {
        &&& finite(next.0) && finite(next.1)
        &&& value(next.0) * factor + moved.0 == value(target.0)
        &&& value(next.1) * factor + moved.1 == value(target.1)
    }
}

/// Fifty guesses behind the target, each of which makes up for the one before it.
pub open spec fn is_search<F: scalar::Scalar>(
    value: spec_fn(F) -> real,
    finite: spec_fn(F) -> bool,
    cal: DjiCalibration<F>,
    target: (F, F),
    guesses: Seq<(F, F)>,
) -> bool {
    &&& guesses.len() == 51
    &&& guesses[0] == target
    &&& forall|i: int|
        0 <= i < 50 ==> makes_up_for(value, finite, cal, target, #[trigger] guesses[i], guesses[i + 1])
}

proof fn lemma_round<F: scalar::Scalar>(
    value: spec_fn(F) -> real,
    finite: spec_fn(F) -> bool,
    cal: DjiCalibration<F>,
    target: (F, F),
    guess: (F, F),
)
    requires
        is_exact(value, finite),
        is_lens(value, finite, cal),
        finite(target.0),
        finite(target.1),
    ensures
        makes_up_for(
            value,
            finite,
            cal,
            target,
            guess,
            undistort_round(cal, target.0, target.1, guess),
        ),
{
    reveal(undistort_round);
    let (a, b) = (value(guess.0), value(guess.1));
    let factor = stretch(value, cal, a, b);
    let moved = shift(value, cal, a, b);
    if finite(guess.0) && finite(guess.1) && factor != 0real {
        let (k1, k2, k3) = (value(cal.k1), value(cal.k2), value(cal.k3));
        let (p1, p2) = (value(cal.p1), value(cal.p2));
        let r2 = a * a + b * b;
        let next = undistort_round(cal, target.0, target.1, guess);
        let radial = 1real + k1 * r2 + k2 * (r2 * r2) + k3 * (r2 * r2 * r2);
        lemma_stretch(k1, k2, k3, r2);
        lemma_shift(p1, p2, a, b);
        let dx = 2real * p1 * a * b + p2 * (r2 + 2real * a * a);
        let dy = p1 * (r2 + 2real * b * b) + 2real * p2 * a * b;
        assert(value(next.0) == (value(target.0) - dx) / radial);
        assert(value(next.1) == (value(target.1) - dy) / radial);
        lemma_over_and_back(value(target.0) - dx, radial);
        lemma_over_and_back(value(target.1) - dy, radial);
    }
}

/// What `undistort_point` returns is the last of fifty guesses, each of which makes up
/// for what the lens does at the one before it, from the target itself on. Where the
/// last two are the same, the lens puts it at the target.
pub proof fn law_search_makes_up_for_the_lens<F: scalar::Scalar>(
    value: spec_fn(F) -> real,
    finite: spec_fn(F) -> bool,
    cal: DjiCalibration<F>,
    x_d: F,
    y_d: F,
) -> (guesses: Seq<(F, F)>)
    requires
        is_exact(value, finite),
        is_lens(value, finite, cal),
        finite(x_d),
        finite(y_d),
    ensures
        is_search(value, finite, cal, (x_d, y_d), guesses),
        guesses[50] == undistorted(cal, x_d, y_d),
        ({
            let found = undistorted(cal, x_d, y_d);
            let put = distorted(cal, found.0, found.1);
            guesses[49] == found && finite(found.0) && finite(found.1) && stretch(
                value,
                cal,
                value(found.0),
                value(found.1),
            ) != 0real ==> value(put.0) == value(x_d) && value(put.1) == value(y_d)
        }),
{
    let guesses = Seq::new(51, |i: int| undistort_search(cal, x_d, y_d, i as nat));
    assert forall|i: int| 0 <= i < 50 implies makes_up_for(
        value,
        finite,
        cal,
        (x_d, y_d),
        #[trigger] guesses[i],
        guesses[i + 1],
    ) by {
        lemma_round(value, finite, cal, (x_d, y_d), guesses[i]);
    }
    let found = undistorted(cal, x_d, y_d);
    if finite(found.0) && finite(found.1) {
        law_lens_stretches_and_shifts(value, finite, cal, found.0, found.1);
    }
    guesses
}

/// `found` is what the search for the point that the lens puts at `(x_d, y_d)` ends
/// with, for numbers that compute exactly.
pub open spec fn ends_search<F: scalar::Scalar>(
    cal: DjiCalibration<F>,
    x_d: F,
    y_d: F,
    found: (F, F),
) -> bool {
    forall|value: spec_fn(F) -> real, finite: spec_fn(F) -> bool| #[trigger]
        is_exact(value, finite) && is_lens(value, finite, cal) && finite(x_d) && finite(y_d)
            ==> exists|guesses: Seq<(F, F)>| #[trigger]
            is_search(value, finite, cal, (x_d, y_d), guesses) && guesses[50] == found
}

pub(crate) proof fn lemma_ends_search<F: scalar::Scalar>(cal: DjiCalibration<F>, x_d: F, y_d: F)
    ensures
        ends_search(cal, x_d, y_d, undistorted(cal, x_d, y_d)),
{
    assert forall|value: spec_fn(F) -> real, finite: spec_fn(F) -> bool| #[trigger]
        is_exact(value, finite) && is_lens(value, finite, cal) && finite(x_d) && finite(
            y_d,
        ) implies exists|guesses: Seq<(F, F)>| #[trigger]
        is_search(value, finite, cal, (x_d, y_d), guesses) && guesses[50] == undistorted(
            cal,
            x_d,
            y_d,
        ) by {
        let guesses = law_search_makes_up_for_the_lens(value, finite, cal, x_d, y_d);
    }
}

// ---------------------------------------------------------------------------
// The border of the image
// ---------------------------------------------------------------------------

/// A side of an image.
pub enum Side {
    Top,
    Bottom,
    Left,
    Right,
}

/// The `i`-th of 200 places spread evenly along a side of an image, from corner to
/// corner, in pixels.
pub open spec fn side_place(side: Side, width: u32, height: u32, i: int) -> (real, real) {
    let across = i as real * (width as real - 1real) / 199real;
    let down = i as real * (height as real - 1real) / 199real;
    match side {
        Side::Top => (across, 0real),
        Side::Bottom => (across, height as real - 1real),
        Side::Left => (0real, down),
        Side::Right => (width as real - 1real, down),
    }
}

/// `point` is the ideal direction, as the search finds it, that the camera's image
/// shows at the place `(px, py)`.
pub open spec fn is_shown_at<F: scalar::Scalar>(
    value: spec_fn(F) -> real,
    finite: spec_fn(F) -> bool,
    cal: DjiCalibration<F>,
    px: real,
    py: real,
    point: (F, F),
) -> bool {
    exists|x: F, y: F|
        {
            &&& point == #[trigger] undistorted(cal, x, y)
            &&& finite(x) && value(x) * value(cal.fx) + value(cal.cx) == px
            &&& finite(y) && value(y) * value(cal.fy) + value(cal.cy) == py
        }
}

/// `point` is the ideal direction at the `i`-th place of a side.
pub open spec fn is_sample<F: scalar::Scalar>(
    value: spec_fn(F) -> real,
    finite: spec_fn(F) -> bool,
    cal: DjiCalibration<F>,
    width: u32,
    height: u32,
    side: Side,
    i: int,
    point: (F, F),
) -> bool {
    let place = side_place(side, width, height, i);
    0 <= i < 200 && is_shown_at(value, finite, cal, place.0, place.1, point)
}

/// All directions at the border are finite.
pub open spec fn has_finite_border<F: scalar::Scalar>(
    value: spec_fn(F) -> real,
    finite: spec_fn(F) -> bool,
    cal: DjiCalibration<F>,
    width: u32,
    height: u32,
) -> bool {
    forall|side: Side, i: int, point: (F, F)| #[trigger]
        is_sample(value, finite, cal, width, height, side, i, point) ==> finite(point.0) && finite(
            point.1,
        )
}

/// `edge` is the largest horizontal (or `vertical`) coordinate of the directions at the
/// side `among`, or at all four.
pub open spec fn is_largest<F: scalar::Scalar>(
    value: spec_fn(F) -> real,
    finite: spec_fn(F) -> bool,
    cal: DjiCalibration<F>,
    width: u32,
    height: u32,
    among: Option<Side>,
    vertical: bool,
    edge: real,
) -> bool {
    &&& forall|side: Side, i: int, point: (F, F)| #[trigger]
        is_sample(value, finite, cal, width, height, side, i, point) && (among is None || among == Some(side))
            ==> value(if vertical { point.1 } else { point.0 }) <= edge
    &&& exists|side: Side, i: int, point: (F, F)| #[trigger]
        is_sample(value, finite, cal, width, height, side, i, point) && (among is None || among == Some(side))
            && value(if vertical { point.1 } else { point.0 }) == edge
}

/// `edge` is the smallest horizontal (or `vertical`) coordinate of the directions at
/// the side `among`, or at all four.
pub open spec fn is_smallest<F: scalar::Scalar>(
    value: spec_fn(F) -> real,
    finite: spec_fn(F) -> bool,
    cal: DjiCalibration<F>,
    width: u32,
    height: u32,
    among: Option<Side>,
    vertical: bool,
    edge: real,
) -> bool {
    &&& forall|side: Side, i: int, point: (F, F)| #[trigger]
        is_sample(value, finite, cal, width, height, side, i, point) && (among is None || among == Some(side))
            ==> value(if vertical { point.1 } else { point.0 }) >= edge
    &&& exists|side: Side, i: int, point: (F, F)| #[trigger]
        is_sample(value, finite, cal, width, height, side, i, point) && (among is None || among == Some(side))
            && value(if vertical { point.1 } else { point.0 }) == edge
}

/// The points of a side that the camera is fitted to.
spec fn side_points<F: scalar::Scalar>(
    cal: DjiCalibration<F>,
    width: u32,
    height: u32,
    side: Side,
) -> Seq<(F, F)> {
    match side {
        Side::Top => top_border(cal, width, height),
        Side::Bottom => bottom_border(cal, width, height),
        Side::Left => left_border(cal, width, height),
        Side::Right => right_border(cal, width, height),
    }
}

/// The place on the sensor of a coordinate in pixels.
proof fn lemma_on_sensor<F: scalar::Scalar>(
    value: spec_fn(F) -> real,
    finite: spec_fn(F) -> bool,
    focal: F,
    centre: F,
    pixel: F,
)
    requires
        is_exact(value, finite),
        finite(focal),
        finite(centre),
        finite(pixel),
        value(focal) != 0real,
    ensures
        finite((pixel - centre) / focal),
        value((pixel - centre) / focal) == (value(pixel) - value(centre)) / value(focal),
        value((pixel - centre) / focal) * value(focal) + value(centre) == value(pixel),
{
    assert(value((pixel - centre) / focal) == (value(pixel) - value(centre)) / value(focal));
    lemma_over_and_back(value(pixel) - value(centre), value(focal));
}

/// There is one place on the sensor for a coordinate in pixels.
proof fn lemma_one_on_sensor<F: scalar::Scalar>(
    value: spec_fn(F) -> real,
    finite: spec_fn(F) -> bool,
    focal: real,
    centre: real,
    x: F,
    y: F,
)
    requires
        is_exact(value, finite),
        finite(x),
        finite(y),
        focal != 0real,
        value(x) * focal + centre == value(y) * focal + centre,
    ensures
        x == y,
{
    lemma_back_and_over(value(x), focal);
    lemma_back_and_over(value(y), focal);
    assert(is_told_apart(value, finite, x, y));
}

proof fn lemma_share<F: scalar::Scalar>(
    value: spec_fn(F) -> real,
    finite: spec_fn(F) -> bool,
    i: int,
    extent: u32,
)
    requires
        is_exact(value, finite),
        0 <= i < 200,
    ensures
        finite(border_share::<F>(i) * (whole::<F>(extent) - whole(1))),
        value(border_share::<F>(i) * (whole::<F>(extent) - whole(1))) == i as real * (extent as real
            - 1real) / 199real,
{
    let e = extent as real - 1real;
    let n = i as real;
    assert(value(whole::<F>(i as u32)) == n);
    assert(value(border_share::<F>(i)) == n / 199real);
    lemma_part_of(n, e, 199real);
}

/// The points that the camera is fitted to are the directions at the border.
proof fn lemma_samples<F: scalar::Scalar>(
    value: spec_fn(F) -> real,
    finite: spec_fn(F) -> bool,
    cal: DjiCalibration<F>,
    width: u32,
    height: u32,
    side: Side,
    i: int,
)
    requires
        is_exact(value, finite),
        is_lens(value, finite, cal),
        0 <= i < 200,
    ensures
        side_points(cal, width, height, side).len() == 200,
        is_sample(
            value,
            finite,
            cal,
            width,
            height,
            side,
            i,
            side_points(cal, width, height, side)[i],
        ),
        forall|point: (F, F)| #[trigger]
            is_sample(value, finite, cal, width, height, side, i, point) ==> point == side_points(
                cal,
                width,
                height,
                side,
            )[i],
{
    let across = border_share::<F>(i) * (whole::<F>(width) - whole(1));
    let down = border_share::<F>(i) * (whole::<F>(height) - whole(1));
    let zero = whole::<F>(0);
    let last_x = whole::<F>(width) - whole(1);
    let last_y = whole::<F>(height) - whole(1);
    lemma_share(value, finite, i, width);
    lemma_share(value, finite, i, height);
    let (px, py) = match side {
        Side::Top => (across, zero),
        Side::Bottom => (across, last_y),
        Side::Left => (zero, down),
        Side::Right => (last_x, down),
    };
    lemma_on_sensor(value, finite, cal.fx, cal.cx, px);
    lemma_on_sensor(value, finite, cal.fy, cal.cy, py);
    let x = (px - cal.cx) / cal.fx;
    let y = (py - cal.cy) / cal.fy;
    let place = side_place(side, width, height, i);
    assert(value(px) == place.0 && value(py) == place.1);
    assert(side_points(cal, width, height, side)[i] == undistorted(cal, x, y));
    assert forall|point: (F, F)| #[trigger]
        is_sample(value, finite, cal, width, height, side, i, point) implies point == undistorted(
        cal,
        x,
        y,
    ) by {
        let (x2, y2) = choose|x2: F, y2: F|
            {
                &&& point == #[trigger] undistorted(cal, x2, y2)
                &&& finite(x2) && value(x2) * value(cal.fx) + value(cal.cx) == place.0
                &&& finite(y2) && value(y2) * value(cal.fy) + value(cal.cy) == place.1
            };
        lemma_one_on_sensor(value, finite, value(cal.fx), value(cal.cx), x, x2);
        lemma_one_on_sensor(value, finite, value(cal.fy), value(cal.cy), y, y2);
    }
}

proof fn lemma_largest<F: scalar::Scalar>(
    value: spec_fn(F) -> real,
    finite: spec_fn(F) -> bool,
    points: Seq<(F, F)>,
    vertical: bool,
) -> (at: int)
    requires
        is_exact(value, finite),
        points.len() > 0,
        forall|i: int| 0 <= i < points.len() ==> finite(coordinate(#[trigger] points[i], vertical)),
    ensures
        0 <= at < points.len(),
        coordinate(points[at], vertical) == largest(points, vertical),
        forall|i: int|
            0 <= i < points.len() ==> value(coordinate(#[trigger] points[i], vertical)) <= value(
                largest(points, vertical),
            ),
    decreases points.len(),
{
    let front = points.drop_last();
    let last = points.len() - 1;
    assert(finite(coordinate(points[last], vertical)));
    if front.len() == 0 {
        assert(largest(front, vertical) == crate::scalar::negative_infinity::<F>());
        last
    } else {
        assert forall|i: int| 0 <= i < front.len() implies finite(
            coordinate(#[trigger] front[i], vertical),
        ) by {
            assert(front[i] == points[i]);
        }
        let at = lemma_largest(value, finite, front, vertical);
        assert(front[at] == points[at]);
        assert forall|i: int| 0 <= i < points.len() implies value(
            coordinate(#[trigger] points[i], vertical),
        ) <= value(largest(points, vertical)) by {
            if i < last {
                assert(front[i] == points[i]);
            }
        }
        if coordinate(points[last], vertical) > largest(front, vertical) {
            last
        } else {
            at
        }
    }
}

proof fn lemma_smallest<F: scalar::Scalar>(
    value: spec_fn(F) -> real,
    finite: spec_fn(F) -> bool,
    points: Seq<(F, F)>,
    vertical: bool,
) -> (at: int)
    requires
        is_exact(value, finite),
        points.len() > 0,
        forall|i: int| 0 <= i < points.len() ==> finite(coordinate(#[trigger] points[i], vertical)),
    ensures
        0 <= at < points.len(),
        coordinate(points[at], vertical) == smallest(points, vertical),
        forall|i: int|
            0 <= i < points.len() ==> value(coordinate(#[trigger] points[i], vertical)) >= value(
                smallest(points, vertical),
            ),
    decreases points.len(),
{
    let front = points.drop_last();
    let last = points.len() - 1;
    assert(finite(coordinate(points[last], vertical)));
    if front.len() == 0 {
        assert(smallest(front, vertical) == crate::scalar::infinity::<F>());
        last
    } else {
        assert forall|i: int| 0 <= i < front.len() implies finite(
            coordinate(#[trigger] front[i], vertical),
        ) by {
            assert(front[i] == points[i]);
        }
        let at = lemma_smallest(value, finite, front, vertical);
        assert(front[at] == points[at]);
        assert forall|i: int| 0 <= i < points.len() implies value(
            coordinate(#[trigger] points[i], vertical),
        ) >= value(smallest(points, vertical)) by {
            if i < last {
                assert(front[i] == points[i]);
            }
        }
        if coordinate(points[last], vertical) < smallest(front, vertical) {
            last
        } else {
            at
        }
    }
}

/// The edges of the points of one side.
proof fn lemma_side_edges<F: scalar::Scalar>(
    value: spec_fn(F) -> real,
    finite: spec_fn(F) -> bool,
    cal: DjiCalibration<F>,
    width: u32,
    height: u32,
    side: Side,
    vertical: bool,
)
    requires
        is_exact(value, finite),
        is_lens(value, finite, cal),
        has_finite_border(value, finite, cal, width, height),
    ensures
        ({
            let points = side_points(cal, width, height, side);
            let low = smallest(points, vertical);
            let high = largest(points, vertical);
            &&& finite(low) && finite(high)
            &&& is_smallest(value, finite, cal, width, height, Some(side), vertical, value(low))
            &&& is_largest(value, finite, cal, width, height, Some(side), vertical, value(high))
        }),
{
    let points = side_points(cal, width, height, side);
    lemma_samples(value, finite, cal, width, height, side, 0);
    assert forall|i: int| 0 <= i < 200 implies finite(coordinate(#[trigger] points[i], vertical))
        && is_sample(value, finite, cal, width, height, side, i, points[i]) && forall|point: (F, F)|
    #[trigger]
        is_sample(value, finite, cal, width, height, side, i, point) ==> point == points[i] by {
        lemma_samples(value, finite, cal, width, height, side, i);
    }
    let low = lemma_smallest(value, finite, points, vertical);
    let high = lemma_largest(value, finite, points, vertical);
    assert(is_sample(value, finite, cal, width, height, side, low, points[low]));
    assert(is_sample(value, finite, cal, width, height, side, high, points[high]));
    assert forall|i: int, point: (F, F)| #[trigger]
        is_sample(value, finite, cal, width, height, side, i, point) implies value(
        smallest(points, vertical),
    ) <= value(coordinate(point, vertical)) <= value(largest(points, vertical)) by {
        assert(point == points[i]);
    }
}

/// The edges of the points of all sides.
proof fn lemma_all_edges<F: scalar::Scalar>(
    value: spec_fn(F) -> real,
    finite: spec_fn(F) -> bool,
    cal: DjiCalibration<F>,
    width: u32,
    height: u32,
    vertical: bool,
)
    requires
        is_exact(value, finite),
        is_lens(value, finite, cal),
        has_finite_border(value, finite, cal, width, height),
    ensures
        ({
            let points = all_borders(cal, width, height);
            let low = smallest(points, vertical);
            let high = largest(points, vertical);
            &&& finite(low) && finite(high)
            &&& is_smallest(value, finite, cal, width, height, None, vertical, value(low))
            &&& is_largest(value, finite, cal, width, height, None, vertical, value(high))
        }),
{
    let points = all_borders(cal, width, height);
    lemma_samples(value, finite, cal, width, height, Side::Top, 0);
    lemma_samples(value, finite, cal, width, height, Side::Bottom, 0);
    lemma_samples(value, finite, cal, width, height, Side::Left, 0);
    lemma_samples(value, finite, cal, width, height, Side::Right, 0);
    assert forall|side: Side, i: int| 0 <= i < 200 implies #[trigger] side_points(
        cal,
        width,
        height,
        side,
    )[i] == points[first_of_side(side) + i] && is_sample(
        value,
        finite,
        cal,
        width,
        height,
        side,
        i,
        points[first_of_side(side) + i],
    ) && forall|point: (F, F)| #[trigger]
        is_sample(value, finite, cal, width, height, side, i, point) ==> point
            == points[first_of_side(side) + i] by {
        lemma_samples(value, finite, cal, width, height, side, i);
    }
    assert forall|j: int| 0 <= j < 800 implies finite(coordinate(#[trigger] points[j], vertical))
        && is_sample(value, finite, cal, width, height, side_of(j), j % 200, points[j]) by {
        assert(side_points(cal, width, height, side_of(j))[j % 200] == points[first_of_side(
            side_of(j),
        ) + j % 200]);
    }
    let low = lemma_smallest(value, finite, points, vertical);
    let high = lemma_largest(value, finite, points, vertical);
    assert(is_sample(value, finite, cal, width, height, side_of(low), low % 200, points[low]));
    assert(is_sample(value, finite, cal, width, height, side_of(high), high % 200, points[high]));
    assert forall|side: Side, i: int, point: (F, F)| #[trigger]
        is_sample(value, finite, cal, width, height, side, i, point) implies value(
        smallest(points, vertical),
    ) <= value(coordinate(point, vertical)) <= value(largest(points, vertical)) by {
        assert(side_points(cal, width, height, side)[i] == points[first_of_side(side) + i]);
    }
}

spec fn first_of_side(side: Side) -> int {
    match side {
        Side::Top => 0,
        Side::Bottom => 200,
        Side::Left => 400,
        Side::Right => 600,
    }
}

spec fn side_of(j: int) -> Side {
    if j < 200 {
        Side::Top
    } else if j < 400 {
        Side::Bottom
    } else if j < 600 {
        Side::Left
    } else {
        Side::Right
    }
}

// ---------------------------------------------------------------------------
// The camera of the undistorted image
// ---------------------------------------------------------------------------

/// The ideal direction that a camera's image shows at column `col`.
pub open spec fn seen_x<F: scalar::Scalar>(
    value: spec_fn(F) -> real,
    camera: Intrinsics<F>,
    col: real,
) -> real {
    (col - value(camera.cx)) / value(camera.fx)
}

/// The ideal direction that a camera's image shows at row `row`.
pub open spec fn seen_y<F: scalar::Scalar>(
    value: spec_fn(F) -> real,
    camera: Intrinsics<F>,
    row: real,
) -> real {
    (row - value(camera.cy)) / value(camera.fy)
}

/// The camera's numbers are finite, and its focal lengths are not zero.
pub open spec fn is_camera<F: scalar::Scalar>(
    value: spec_fn(F) -> real,
    finite: spec_fn(F) -> bool,
    camera: Intrinsics<F>,
) -> bool {
    &&& finite(camera.fx) && finite(camera.fy) && finite(camera.cx) && finite(camera.cy)
    &&& value(camera.fx) != 0real && value(camera.fy) != 0real
}

/// One axis of a camera that shows the directions from `low` to `high` in `n` steps.
proof fn lemma_axis<F: scalar::Scalar>(
    value: spec_fn(F) -> real,
    finite: spec_fn(F) -> bool,
    n: F,
    low: F,
    high: F,
)
    requires
        is_exact(value, finite),
        finite(n),
        finite(low),
        finite(high),
        value(n) != 0real,
        finite(n / (high - low)),
    ensures
        ({
            let f = n / (high - low);
            let c = low.negated() * f;
            &&& finite(c)
            &&& value(f) != 0real
            &&& (0real - value(c)) / value(f) == value(low)
            &&& (value(n) - value(c)) / value(f) == value(high)
        }),
{
    let f = n / (high - low);
    let c = low.negated() * f;
    assert(value(high - low) == value(high) - value(low));
    assert(value(f) == value(n) / (value(high) - value(low)));
    assert(value(c) == (0real - value(low)) * value(f));
    lemma_span(value(n), value(low), value(high), value(f));
}

/// The edges of the view from the edges of the border, with the share `alpha` between
/// them.
proof fn lemma_view<F: scalar::Scalar>(
    value: spec_fn(F) -> real,
    finite: spec_fn(F) -> bool,
    cal: DjiCalibration<F>,
    width: u32,
    height: u32,
    alpha: F,
)
    requires
        is_exact(value, finite),
        is_lens(value, finite, cal),
        has_finite_border(value, finite, cal, width, height),
        width >= 2,
        height >= 2,
        finite(alpha),
        0real <= value(alpha) <= 1real,
        finite(new_camera(cal, width, height, alpha).fx),
        finite(new_camera(cal, width, height, alpha).fy),
    ensures
        ({
            let camera = new_camera(cal, width, height, alpha);
            let left = side_points(cal, width, height, Side::Left);
            let right = side_points(cal, width, height, Side::Right);
            let top = side_points(cal, width, height, Side::Top);
            let bottom = side_points(cal, width, height, Side::Bottom);
            let all = all_borders(cal, width, height);
            let a = value(alpha);
            let blend = |inner: F, outer: F| value(inner) + a * (value(outer) - value(inner));
            &&& is_camera(value, finite, camera)
            &&& seen_x(value, camera, 0real) == blend(largest(left, false), smallest(all, false))
            &&& seen_x(value, camera, width as real - 1real) == blend(
                smallest(right, false),
                largest(all, false),
            )
            &&& seen_y(value, camera, 0real) == blend(largest(top, true), smallest(all, true))
            &&& seen_y(value, camera, height as real - 1real) == blend(
                smallest(bottom, true),
                largest(all, true),
            )
        }),
{
    let left = side_points(cal, width, height, Side::Left);
    let right = side_points(cal, width, height, Side::Right);
    let top = side_points(cal, width, height, Side::Top);
    let bottom = side_points(cal, width, height, Side::Bottom);
    let all = all_borders(cal, width, height);
    lemma_side_edges(value, finite, cal, width, height, Side::Left, false);
    lemma_side_edges(value, finite, cal, width, height, Side::Right, false);
    lemma_side_edges(value, finite, cal, width, height, Side::Top, true);
    lemma_side_edges(value, finite, cal, width, height, Side::Bottom, true);
    lemma_all_edges(value, finite, cal, width, height, false);
    lemma_all_edges(value, finite, cal, width, height, true);
    assert(clamped(alpha, whole(0), whole(1)) == alpha);
    lemma_axis(
        value,
        finite,
        whole::<F>(width) - whole(1),
        blended(largest(left, false), smallest(all, false), alpha),
        blended(smallest(right, false), largest(all, false), alpha),
    );
    lemma_axis(
        value,
        finite,
        whole::<F>(height) - whole(1),
        blended(largest(top, true), smallest(all, true), alpha),
        blended(smallest(bottom, true), largest(all, true), alpha),
    );
}

/// `edge` is that of the inner rectangle on a side: the one next to the centre among
/// the directions at that side.
pub open spec fn is_inner<F: scalar::Scalar>(
    value: spec_fn(F) -> real,
    finite: spec_fn(F) -> bool,
    cal: DjiCalibration<F>,
    width: u32,
    height: u32,
    side: Side,
    edge: real,
) -> bool {
    match side {
        Side::Top => is_largest(value, finite, cal, width, height, Some(side), true, edge),
        Side::Bottom => is_smallest(value, finite, cal, width, height, Some(side), true, edge),
        Side::Left => is_largest(value, finite, cal, width, height, Some(side), false, edge),
        Side::Right => is_smallest(value, finite, cal, width, height, Some(side), false, edge),
    }
}

/// `edge` is that of the outer rectangle on a side: the one farthest out among the
/// directions at all sides.
pub open spec fn is_outer<F: scalar::Scalar>(
    value: spec_fn(F) -> real,
    finite: spec_fn(F) -> bool,
    cal: DjiCalibration<F>,
    width: u32,
    height: u32,
    side: Side,
    edge: real,
) -> bool {
    match side {
        Side::Top => is_smallest(value, finite, cal, width, height, None, true, edge),
        Side::Bottom => is_largest(value, finite, cal, width, height, None, true, edge),
        Side::Left => is_smallest(value, finite, cal, width, height, None, false, edge),
        Side::Right => is_largest(value, finite, cal, width, height, None, false, edge),
    }
}

/// `edge` lies the share `a` of the way from the inner edge on a side to the outer one.
pub open spec fn is_between<F: scalar::Scalar>(
    value: spec_fn(F) -> real,
    finite: spec_fn(F) -> bool,
    cal: DjiCalibration<F>,
    width: u32,
    height: u32,
    side: Side,
    a: real,
    edge: real,
) -> bool {
    exists|inner: real, outer: real|
        {
            &&& #[trigger] is_inner(value, finite, cal, width, height, side, inner)
            &&& #[trigger] is_outer(value, finite, cal, width, height, side, outer)
            &&& edge == inner + a * (outer - inner)
        }
}

/// The nearest number from 0 to 1.
pub open spec fn held(a: real) -> real {
    if a < 0real {
        0real
    } else if a > 1real {
        1real
    } else {
        a
    }
}

/// The camera shows, from its first column and row to its last, what lies between the
/// edges that `alpha`, held between 0 and 1, picks between the inner and the outer
/// rectangle.
pub open spec fn is_view<F: scalar::Scalar>(
    value: spec_fn(F) -> real,
    finite: spec_fn(F) -> bool,
    cal: DjiCalibration<F>,
    width: u32,
    height: u32,
    alpha: F,
    camera: Intrinsics<F>,
) -> bool {
    let a = held(value(alpha));
    let right = width as real - 1real;
    let bottom = height as real - 1real;
    &&& is_camera(value, finite, camera)
    &&& is_between(value, finite, cal, width, height, Side::Left, a, seen_x(value, camera, 0real))
    &&& is_between(value, finite, cal, width, height, Side::Right, a, seen_x(value, camera, right))
    &&& is_between(value, finite, cal, width, height, Side::Top, a, seen_y(value, camera, 0real))
    &&& is_between(value, finite, cal, width, height, Side::Bottom, a, seen_y(value, camera, bottom))
}

/// `camera` is the camera of the undistorted image for `alpha`: it shows the view that
/// `alpha` picks, for numbers that compute exactly, wherever the border of the image has
/// finite directions and the view has a width and a height.
pub open spec fn is_new_camera<F: scalar::Scalar>(
    cal: DjiCalibration<F>,
    width: u32,
    height: u32,
    alpha: F,
    camera: Intrinsics<F>,
) -> bool {
    forall|value: spec_fn(F) -> real, finite: spec_fn(F) -> bool|
        {
            &&& #[trigger] is_exact(value, finite)
            &&& is_lens(value, finite, cal)
            &&& has_finite_border(value, finite, cal, width, height)
            &&& width >= 2 && height >= 2
            &&& finite(alpha) && finite(camera.fx) && finite(camera.fy)
        } ==> is_view(value, finite, cal, width, height, alpha, camera)
}

/// The new camera shows the view that `alpha` picks.
pub proof fn law_alpha_picks_the_view<F: scalar::Scalar>(
    cal: DjiCalibration<F>,
    width: u32,
    height: u32,
    alpha: F,
)
    ensures
        is_new_camera(cal, width, height, alpha, new_camera(cal, width, height, alpha)),
{
    let camera = new_camera(cal, width, height, alpha);
    assert forall|value: spec_fn(F) -> real, finite: spec_fn(F) -> bool|
        {
            &&& #[trigger] is_exact(value, finite)
            &&& is_lens(value, finite, cal)
            &&& has_finite_border(value, finite, cal, width, height)
            &&& width >= 2 && height >= 2
            &&& finite(alpha) && finite(camera.fx) && finite(camera.fy)
        } implies is_view(value, finite, cal, width, height, alpha, camera) by {
        let share = clamped(alpha, whole(0), whole(1));
        assert(finite(share) && value(share) == held(value(alpha)));
        assert(clamped(share, whole(0), whole(1)) == share);
        assert(new_camera(cal, width, height, share) == camera);
        lemma_view(value, finite, cal, width, height, share);
        lemma_side_edges(value, finite, cal, width, height, Side::Left, false);
        lemma_side_edges(value, finite, cal, width, height, Side::Right, false);
        lemma_side_edges(value, finite, cal, width, height, Side::Top, true);
        lemma_side_edges(value, finite, cal, width, height, Side::Bottom, true);
        lemma_all_edges(value, finite, cal, width, height, false);
        lemma_all_edges(value, finite, cal, width, height, true);
        let all = all_borders(cal, width, height);
        let left = value(largest(side_points(cal, width, height, Side::Left), false));
        let right = value(smallest(side_points(cal, width, height, Side::Right), false));
        let top = value(largest(side_points(cal, width, height, Side::Top), true));
        let bottom = value(smallest(side_points(cal, width, height, Side::Bottom), true));
        let out_left = value(smallest(all, false));
        let out_right = value(largest(all, false));
        let out_top = value(smallest(all, true));
        let out_bottom = value(largest(all, true));
        assert(is_inner(value, finite, cal, width, height, Side::Left, left));
        assert(is_inner(value, finite, cal, width, height, Side::Right, right));
        assert(is_inner(value, finite, cal, width, height, Side::Top, top));
        assert(is_inner(value, finite, cal, width, height, Side::Bottom, bottom));
        assert(is_outer(value, finite, cal, width, height, Side::Left, out_left));
        assert(is_outer(value, finite, cal, width, height, Side::Right, out_right));
        assert(is_outer(value, finite, cal, width, height, Side::Top, out_top));
        assert(is_outer(value, finite, cal, width, height, Side::Bottom, out_bottom));
    }
}

/// With `alpha` 0 the view has no black edges: its left edge is the farthest right that
/// the left border of the image comes, and so on for the other three.
pub proof fn law_view_without_black_edges<F: scalar::Scalar>(
    value: spec_fn(F) -> real,
    finite: spec_fn(F) -> bool,
    cal: DjiCalibration<F>,
    width: u32,
    height: u32,
)
    requires
        is_exact(value, finite),
        is_lens(value, finite, cal),
        has_finite_border(value, finite, cal, width, height),
        width >= 2,
        height >= 2,
        finite(new_camera(cal, width, height, whole(0)).fx),
        finite(new_camera(cal, width, height, whole(0)).fy),
    ensures
        ({
            let camera = new_camera(cal, width, height, whole(0));
            let left = seen_x(value, camera, 0real);
            let right = seen_x(value, camera, width as real - 1real);
            let top = seen_y(value, camera, 0real);
            let bottom = seen_y(value, camera, height as real - 1real);
            &&& is_camera(value, finite, camera)
            &&& is_largest(value, finite, cal, width, height, Some(Side::Left), false, left)
            &&& is_smallest(value, finite, cal, width, height, Some(Side::Right), false, right)
            &&& is_largest(value, finite, cal, width, height, Some(Side::Top), true, top)
            &&& is_smallest(value, finite, cal, width, height, Some(Side::Bottom), true, bottom)
        }),
{
    let left = side_points(cal, width, height, Side::Left);
    let right = side_points(cal, width, height, Side::Right);
    let top = side_points(cal, width, height, Side::Top);
    let bottom = side_points(cal, width, height, Side::Bottom);
    let all = all_borders(cal, width, height);
    let none = value(whole::<F>(0));
    lemma_view(value, finite, cal, width, height, whole(0));
    lemma_side_edges(value, finite, cal, width, height, Side::Left, false);
    lemma_side_edges(value, finite, cal, width, height, Side::Right, false);
    lemma_side_edges(value, finite, cal, width, height, Side::Top, true);
    lemma_side_edges(value, finite, cal, width, height, Side::Bottom, true);
    lemma_ends_of_blend(value(largest(left, false)), value(smallest(all, false)), none, 1real);
    lemma_ends_of_blend(value(smallest(right, false)), value(largest(all, false)), none, 1real);
    lemma_ends_of_blend(value(largest(top, true)), value(smallest(all, true)), none, 1real);
    lemma_ends_of_blend(value(smallest(bottom, true)), value(largest(all, true)), none, 1real);
}

/// With `alpha` 1 the view keeps all pixels: its edges are the farthest that the border
/// of the image comes in each direction.
pub proof fn law_view_of_all_pixels<F: scalar::Scalar>(
    value: spec_fn(F) -> real,
    finite: spec_fn(F) -> bool,
    cal: DjiCalibration<F>,
    width: u32,
    height: u32,
)
    requires
        is_exact(value, finite),
        is_lens(value, finite, cal),
        has_finite_border(value, finite, cal, width, height),
        width >= 2,
        height >= 2,
        finite(new_camera(cal, width, height, whole(1)).fx),
        finite(new_camera(cal, width, height, whole(1)).fy),
    ensures
        ({
            let camera = new_camera(cal, width, height, whole(1));
            let left = seen_x(value, camera, 0real);
            let right = seen_x(value, camera, width as real - 1real);
            let top = seen_y(value, camera, 0real);
            let bottom = seen_y(value, camera, height as real - 1real);
            &&& is_camera(value, finite, camera)
            &&& is_smallest(value, finite, cal, width, height, None, false, left)
            &&& is_largest(value, finite, cal, width, height, None, false, right)
            &&& is_smallest(value, finite, cal, width, height, None, true, top)
            &&& is_largest(value, finite, cal, width, height, None, true, bottom)
        }),
{
    let left = side_points(cal, width, height, Side::Left);
    let right = side_points(cal, width, height, Side::Right);
    let top = side_points(cal, width, height, Side::Top);
    let bottom = side_points(cal, width, height, Side::Bottom);
    let all = all_borders(cal, width, height);
    let whole_share = value(whole::<F>(1));
    lemma_view(value, finite, cal, width, height, whole(1));
    lemma_all_edges(value, finite, cal, width, height, false);
    lemma_all_edges(value, finite, cal, width, height, true);
    lemma_ends_of_blend(value(largest(left, false)), value(smallest(all, false)), 0real, whole_share);
    lemma_ends_of_blend(value(smallest(right, false)), value(largest(all, false)), 0real, whole_share);
    lemma_ends_of_blend(value(largest(top, true)), value(smallest(all, true)), 0real, whole_share);
    lemma_ends_of_blend(value(smallest(bottom, true)), value(largest(all, true)), 0real, whole_share);
}

/// From `alpha` 0 to `alpha` 1 each edge of the view moves in proportion to `alpha`: at
/// a share of the range it has moved by that share of its way. So two of them give two
/// edges wherever the ends of the range do.
pub proof fn law_edges_move_in_proportion<F: scalar::Scalar>(
    value: spec_fn(F) -> real,
    finite: spec_fn(F) -> bool,
    cal: DjiCalibration<F>,
    width: u32,
    height: u32,
    alpha: F,
)
    requires
        is_exact(value, finite),
        is_lens(value, finite, cal),
        has_finite_border(value, finite, cal, width, height),
        width >= 2,
        height >= 2,
        finite(alpha),
        0real <= value(alpha) <= 1real,
        finite(new_camera(cal, width, height, whole(0)).fx),
        finite(new_camera(cal, width, height, whole(0)).fy),
        finite(new_camera(cal, width, height, alpha).fx),
        finite(new_camera(cal, width, height, alpha).fy),
        finite(new_camera(cal, width, height, whole(1)).fx),
        finite(new_camera(cal, width, height, whole(1)).fy),
    ensures
        ({
            let none = new_camera(cal, width, height, whole(0));
            let some = new_camera(cal, width, height, alpha);
            let full = new_camera(cal, width, height, whole(1));
            let a = value(alpha);
            let w = width as real - 1real;
            let h = height as real - 1real;
            &&& is_camera(value, finite, some)
            &&& seen_x(value, some, 0real) - seen_x(value, none, 0real) == a * (seen_x(
                value,
                full,
                0real,
            ) - seen_x(value, none, 0real))
            &&& seen_x(value, some, w) - seen_x(value, none, w) == a * (seen_x(value, full, w)
                - seen_x(value, none, w))
            &&& seen_y(value, some, 0real) - seen_y(value, none, 0real) == a * (seen_y(
                value,
                full,
                0real,
            ) - seen_y(value, none, 0real))
            &&& seen_y(value, some, h) - seen_y(value, none, h) == a * (seen_y(value, full, h)
                - seen_y(value, none, h))
        }),
{
    let left = side_points(cal, width, height, Side::Left);
    let right = side_points(cal, width, height, Side::Right);
    let top = side_points(cal, width, height, Side::Top);
    let bottom = side_points(cal, width, height, Side::Bottom);
    let all = all_borders(cal, width, height);
    let none = value(whole::<F>(0));
    let full = value(whole::<F>(1));
    lemma_view(value, finite, cal, width, height, whole(0));
    lemma_view(value, finite, cal, width, height, alpha);
    lemma_view(value, finite, cal, width, height, whole(1));
    lemma_ends_of_blend(value(largest(left, false)), value(smallest(all, false)), none, full);
    lemma_ends_of_blend(value(smallest(right, false)), value(largest(all, false)), none, full);
    lemma_ends_of_blend(value(largest(top, true)), value(smallest(all, true)), none, full);
    lemma_ends_of_blend(value(smallest(bottom, true)), value(largest(all, true)), none, full);
}

/// Two values of `alpha` from 0 to 1 give two edges on each side where the inner and the
/// outer rectangle do not share it.
pub proof fn law_two_alphas_give_two_edges<F: scalar::Scalar>(
    value: spec_fn(F) -> real,
    finite: spec_fn(F) -> bool,
    cal: DjiCalibration<F>,
    width: u32,
    height: u32,
    side: Side,
    a: real,
    b: real,
    edge: real,
    other: real,
)
    requires
        is_between(value, finite, cal, width, height, side, a, edge),
        is_between(value, finite, cal, width, height, side, b, other),
        forall|inner: real, outer: real|
            #![trigger is_inner(value, finite, cal, width, height, side, inner), is_outer(value, finite, cal, width, height, side, outer)]
            is_inner(value, finite, cal, width, height, side, inner) && is_outer(
                value,
                finite,
                cal,
                width,
                height,
                side,
                outer,
            ) ==> inner != outer,
        a != b,
    ensures
        edge != other,
{
    let (i1, o1) = choose|inner: real, outer: real|
        {
            &&& #[trigger] is_inner(value, finite, cal, width, height, side, inner)
            &&& #[trigger] is_outer(value, finite, cal, width, height, side, outer)
            &&& edge == inner + a * (outer - inner)
        };
    let (i2, o2) = choose|inner: real, outer: real|
        {
            &&& #[trigger] is_inner(value, finite, cal, width, height, side, inner)
            &&& #[trigger] is_outer(value, finite, cal, width, height, side, outer)
            &&& other == inner + b * (outer - inner)
        };
    assert(i1 == i2 && o1 == o2);
    lemma_back_and_over(a, o1 - i1);
    lemma_back_and_over(b, o1 - i1);
}

// ---------------------------------------------------------------------------
// The tables
// ---------------------------------------------------------------------------

/// The undistortion table holds for each pixel, row by row, the place where the lens
/// puts the direction that the new camera shows at the pixel.
pub proof fn law_undistort_table_follows_the_lens<F: scalar::Scalar, G, N: Fn(F) -> G>(
    value: spec_fn(F) -> real,
    finite: spec_fn(F) -> bool,
    cal: DjiCalibration<F>,
    width: u32,
    height: u32,
    alpha: F,
    narrow: N,
    lut: RemapLut<G>,
    row: int,
    col: int,
) -> (place: (F, F))
    requires
        is_exact(value, finite),
        is_lens(value, finite, cal),
        is_camera(value, finite, new_camera(cal, width, height, alpha)),
        lut.width == width,
        0 <= row < height,
        0 <= col < width,
        narrowed(
            narrow,
            undistort_place(cal, new_camera(cal, width, height, alpha), row, col),
            lut.place(row, col),
        ),
    ensures
        call_ensures(narrow, (place.0,), lut.map_x@[row * width + col]),
        call_ensures(narrow, (place.1,), lut.map_y@[row * width + col]),
        finite(place.0),
        finite(place.1),
        ({
            let camera = new_camera(cal, width, height, alpha);
            let x = seen_x(value, camera, col as real);
            let y = seen_y(value, camera, row as real);
            let factor = stretch(value, cal, x, y);
            let moved = shift(value, cal, x, y);
            &&& value(place.0) == (x * factor + moved.0) * value(cal.fx) + value(cal.cx)
            &&& value(place.1) == (y * factor + moved.1) * value(cal.fy) + value(cal.cy)
        }),
{
    let camera = new_camera(cal, width, height, alpha);
    lemma_undistort_place(value, finite, cal, camera, row, col);
    undistort_place(cal, camera, row, col)
}

/// `place` is where the lens puts the direction that a camera shows at pixel
/// `(col, row)`.
pub open spec fn is_put_at<F: scalar::Scalar>(
    value: spec_fn(F) -> real,
    finite: spec_fn(F) -> bool,
    cal: DjiCalibration<F>,
    camera: Intrinsics<F>,
    row: int,
    col: int,
    place: (F, F),
) -> bool {
    let x = seen_x(value, camera, col as real);
    let y = seen_y(value, camera, row as real);
    let factor = stretch(value, cal, x, y);
    let moved = shift(value, cal, x, y);
    &&& finite(place.0) && value(place.0) == (x * factor + moved.0) * value(cal.fx) + value(cal.cx)
    &&& finite(place.1) && value(place.1) == (y * factor + moved.1) * value(cal.fy) + value(cal.cy)
}

/// The table has, at pixel `(col, row)`, what `narrow` makes of a place where the lens
/// puts what the camera shows there.
pub open spec fn has_put<F: scalar::Scalar, G, N: Fn(F) -> G>(
    value: spec_fn(F) -> real,
    finite: spec_fn(F) -> bool,
    cal: DjiCalibration<F>,
    camera: Intrinsics<F>,
    narrow: N,
    lut: RemapLut<G>,
    row: int,
    col: int,
) -> bool {
    exists|place: (F, F)|
        {
            &&& #[trigger] is_put_at(value, finite, cal, camera, row, col, place)
            &&& call_ensures(narrow, (place.0,), lut.map_x@[row * lut.width + col])
            &&& call_ensures(narrow, (place.1,), lut.map_y@[row * lut.width + col])
        }
}

/// The table removes the distortion of the lens, for the view of `camera`: each pixel
/// shows the place where the lens puts what the camera shows there.
pub open spec fn removes_distortion<F: scalar::Scalar, G, N: Fn(F) -> G>(
    cal: DjiCalibration<F>,
    camera: Intrinsics<F>,
    narrow: N,
    lut: RemapLut<G>,
) -> bool {
    forall|value: spec_fn(F) -> real, finite: spec_fn(F) -> bool, row: int, col: int|
        is_exact(value, finite) && is_lens(value, finite, cal) && is_camera(value, finite, camera)
            && 0 <= row < lut.height && 0 <= col < lut.width ==> #[trigger] has_put(
            value,
            finite,
            cal,
            camera,
            narrow,
            lut,
            row,
            col,
        )
}

pub(crate) proof fn lemma_removes_distortion<F: scalar::Scalar, G, N: Fn(F) -> G>(
    cal: DjiCalibration<F>,
    camera: Intrinsics<F>,
    narrow: N,
    lut: RemapLut<G>,
)
    requires
        forall|row: int, col: int|
            0 <= row < lut.height && 0 <= col < lut.width ==> narrowed(
                narrow,
                undistort_place(cal, camera, row, col),
                #[trigger] lut.place(row, col),
            ),
    ensures
        removes_distortion(cal, camera, narrow, lut),
{
    assert forall|value: spec_fn(F) -> real, finite: spec_fn(F) -> bool, row: int, col: int|
        is_exact(value, finite) && is_lens(value, finite, cal) && is_camera(value, finite, camera)
            && 0 <= row < lut.height && 0 <= col < lut.width implies #[trigger] has_put(
        value,
        finite,
        cal,
        camera,
        narrow,
        lut,
        row,
        col,
    ) by {
        let place = undistort_place(cal, camera, row, col);
        assert(narrowed(narrow, place, lut.place(row, col)));
        lemma_undistort_place(value, finite, cal, camera, row, col);
        assert(is_put_at(value, finite, cal, camera, row, col, place));
    }
}

proof fn lemma_undistort_place<F: scalar::Scalar>(
    value: spec_fn(F) -> real,
    finite: spec_fn(F) -> bool,
    cal: DjiCalibration<F>,
    camera: Intrinsics<F>,
    row: int,
    col: int,
)
    requires
        is_exact(value, finite),
        is_lens(value, finite, cal),
        is_camera(value, finite, camera),
        0 <= row < u32::MAX,
        0 <= col < u32::MAX,
    ensures
        ({
            let place = undistort_place(cal, camera, row, col);
            let x = seen_x(value, camera, col as real);
            let y = seen_y(value, camera, row as real);
            let factor = stretch(value, cal, x, y);
            let moved = shift(value, cal, x, y);
            &&& finite(place.0) && finite(place.1)
            &&& value(place.0) == (x * factor + moved.0) * value(cal.fx) + value(cal.cx)
            &&& value(place.1) == (y * factor + moved.1) * value(cal.fy) + value(cal.cy)
        }),
{
    let x = (whole::<F>(col as u32) - camera.cx) / camera.fx;
    let y = (whole::<F>(row as u32) - camera.cy) / camera.fy;
    lemma_on_sensor(value, finite, camera.fx, camera.cx, whole::<F>(col as u32));
    lemma_on_sensor(value, finite, camera.fy, camera.cy, whole::<F>(row as u32));
    assert(value(x) == seen_x(value, camera, col as real));
    assert(value(y) == seen_y(value, camera, row as real));
    law_lens_stretches_and_shifts(value, finite, cal, x, y);
    lemma_to_pixels(value, finite, distorted(cal, x, y).0, cal.fx, cal.cx);
    lemma_to_pixels(value, finite, distorted(cal, x, y).1, cal.fy, cal.cy);
}

proof fn lemma_to_pixels<F: scalar::Scalar>(
    value: spec_fn(F) -> real,
    finite: spec_fn(F) -> bool,
    x: F,
    focal: F,
    centre: F,
)
    requires
        is_exact(value, finite),
        finite(x),
        finite(focal),
        finite(centre),
    ensures
        finite(x * focal + centre),
        value(x * focal + centre) == value(x) * value(focal) + value(centre),
{
}

/// The re-distortion table holds for each pixel, row by row, the place where the image
/// of the camera without black edges shows the direction that the lens puts at the
/// pixel.
pub proof fn law_redistort_table_undoes_the_lens<F: scalar::Scalar, G, N: Fn(F) -> G>(
    value: spec_fn(F) -> real,
    finite: spec_fn(F) -> bool,
    cal: DjiCalibration<F>,
    width: u32,
    height: u32,
    narrow: N,
    lut: RemapLut<G>,
    row: int,
    col: int,
) -> (r: ((F, F), (F, F)))
    requires
        is_exact(value, finite),
        is_lens(value, finite, cal),
        is_camera(value, finite, new_camera(cal, width, height, whole(0))),
        lut.width == width,
        0 <= row < height,
        0 <= col < width,
        narrowed(
            narrow,
            redistort_place(cal, new_camera(cal, width, height, whole(0)), row, col),
            lut.place(row, col),
        ),
    ensures
        ({
            let (place, point) = r;
            let camera = new_camera(cal, width, height, whole(0));
            &&& call_ensures(narrow, (place.0,), lut.map_x@[row * width + col])
            &&& call_ensures(narrow, (place.1,), lut.map_y@[row * width + col])
            &&& is_shown_at(value, finite, cal, col as real, row as real, point)
            &&& finite(point.0) && finite(point.1) ==> {
                &&& finite(place.0) && seen_x(value, camera, value(place.0)) == value(point.0)
                &&& finite(place.1) && seen_y(value, camera, value(place.1)) == value(point.1)
            }
        }),
{
    let camera = new_camera(cal, width, height, whole(0));
    lemma_redistort_place(value, finite, cal, camera, row, col)
}

/// `place` is where the image of a camera shows a direction that the lens puts at pixel
/// `(col, row)`, as the search finds it.
pub open spec fn is_taken_from<F: scalar::Scalar>(
    value: spec_fn(F) -> real,
    finite: spec_fn(F) -> bool,
    cal: DjiCalibration<F>,
    camera: Intrinsics<F>,
    row: int,
    col: int,
    place: (F, F),
    point: (F, F),
) -> bool {
    &&& is_shown_at(value, finite, cal, col as real, row as real, point)
    &&& finite(point.0) && finite(point.1) ==> {
        &&& finite(place.0) && seen_x(value, camera, value(place.0)) == value(point.0)
        &&& finite(place.1) && seen_y(value, camera, value(place.1)) == value(point.1)
    }
}

/// The table has, at pixel `(col, row)`, what `narrow` makes of a place where the camera
/// shows what the lens puts there.
pub open spec fn has_taken<F: scalar::Scalar, G, N: Fn(F) -> G>(
    value: spec_fn(F) -> real,
    finite: spec_fn(F) -> bool,
    cal: DjiCalibration<F>,
    camera: Intrinsics<F>,
    narrow: N,
    lut: RemapLut<G>,
    row: int,
    col: int,
) -> bool {
    exists|place: (F, F), point: (F, F)|
        {
            &&& #[trigger] is_taken_from(value, finite, cal, camera, row, col, place, point)
            &&& call_ensures(narrow, (place.0,), lut.map_x@[row * lut.width + col])
            &&& call_ensures(narrow, (place.1,), lut.map_y@[row * lut.width + col])
        }
}

/// The table puts the distortion of the lens back into an image of `camera`: each pixel
/// shows the place where the camera shows what the lens puts there.
pub open spec fn restores_distortion<F: scalar::Scalar, G, N: Fn(F) -> G>(
    cal: DjiCalibration<F>,
    camera: Intrinsics<F>,
    narrow: N,
    lut: RemapLut<G>,
) -> bool {
    forall|value: spec_fn(F) -> real, finite: spec_fn(F) -> bool, row: int, col: int|
        is_exact(value, finite) && is_lens(value, finite, cal) && is_camera(value, finite, camera)
            && 0 <= row < lut.height && 0 <= col < lut.width ==> #[trigger] has_taken(
            value,
            finite,
            cal,
            camera,
            narrow,
            lut,
            row,
            col,
        )
}

pub(crate) proof fn lemma_restores_distortion<F: scalar::Scalar, G, N: Fn(F) -> G>(
    cal: DjiCalibration<F>,
    camera: Intrinsics<F>,
    narrow: N,
    lut: RemapLut<G>,
)
    requires
        forall|row: int, col: int|
            0 <= row < lut.height && 0 <= col < lut.width ==> narrowed(
                narrow,
                redistort_place(cal, camera, row, col),
                #[trigger] lut.place(row, col),
            ),
    ensures
        restores_distortion(cal, camera, narrow, lut),
{
    assert forall|value: spec_fn(F) -> real, finite: spec_fn(F) -> bool, row: int, col: int|
        is_exact(value, finite) && is_lens(value, finite, cal) && is_camera(value, finite, camera)
            && 0 <= row < lut.height && 0 <= col < lut.width implies #[trigger] has_taken(
        value,
        finite,
        cal,
        camera,
        narrow,
        lut,
        row,
        col,
    ) by {
        let place = redistort_place(cal, camera, row, col);
        assert(narrowed(narrow, place, lut.place(row, col)));
        let (found, point) = lemma_redistort_place(value, finite, cal, camera, row, col);
        assert(is_taken_from(value, finite, cal, camera, row, col, place, point));
    }
}

proof fn lemma_redistort_place<F: scalar::Scalar>(
    value: spec_fn(F) -> real,
    finite: spec_fn(F) -> bool,
    cal: DjiCalibration<F>,
    camera: Intrinsics<F>,
    row: int,
    col: int,
) -> (r: ((F, F), (F, F)))
    requires
        is_exact(value, finite),
        is_lens(value, finite, cal),
        is_camera(value, finite, camera),
        0 <= row < u32::MAX,
        0 <= col < u32::MAX,
    ensures
        ({
            let (place, point) = r;
            &&& place == redistort_place(cal, camera, row, col)
            &&& is_shown_at(value, finite, cal, col as real, row as real, point)
            &&& finite(point.0) && finite(point.1) ==> {
                &&& finite(place.0) && seen_x(value, camera, value(place.0)) == value(point.0)
                &&& finite(place.1) && seen_y(value, camera, value(place.1)) == value(point.1)
            }
        }),
{
    let x = (whole::<F>(col as u32) - cal.cx) / cal.fx;
    let y = (whole::<F>(row as u32) - cal.cy) / cal.fy;
    lemma_on_sensor(value, finite, cal.fx, cal.cx, whole::<F>(col as u32));
    lemma_on_sensor(value, finite, cal.fy, cal.cy, whole::<F>(row as u32));
    let point = undistorted(cal, x, y);
    if finite(point.0) && finite(point.1) {
        lemma_to_pixels(value, finite, point.0, camera.fx, camera.cx);
        lemma_to_pixels(value, finite, point.1, camera.fy, camera.cy);
        lemma_back_and_over(value(point.0), value(camera.fx));
        lemma_back_and_over(value(point.1), value(camera.fy));
    }
    (redistort_place(cal, camera, row, col), point)
}

// ---------------------------------------------------------------------------
// A lens that distorts nothing
// ---------------------------------------------------------------------------

/// The lens has no coefficients, and its focal lengths are positive.
pub open spec fn is_ideal<F: scalar::Scalar>(
    value: spec_fn(F) -> real,
    finite: spec_fn(F) -> bool,
    cal: DjiCalibration<F>,
) -> bool {
    &&& is_lens(value, finite, cal)
    &&& value(cal.k1) == 0real && value(cal.k2) == 0real && value(cal.k3) == 0real
    &&& value(cal.p1) == 0real && value(cal.p2) == 0real
    &&& value(cal.fx) > 0real && value(cal.fy) > 0real
}

proof fn lemma_ideal<F: scalar::Scalar>(
    value: spec_fn(F) -> real,
    finite: spec_fn(F) -> bool,
    cal: DjiCalibration<F>,
    x: real,
    y: real,
)
    requires
        is_ideal(value, finite, cal),
    ensures
        stretch(value, cal, x, y) == 1real,
        shift(value, cal, x, y) == (0real, 0real),
{
    lemma_no_lens(
        value(cal.k1),
        value(cal.k2),
        value(cal.k3),
        value(cal.p1),
        value(cal.p2),
        x,
        y,
    );
}

/// The search stays where it begins.
proof fn lemma_ideal_search<F: scalar::Scalar>(
    value: spec_fn(F) -> real,
    finite: spec_fn(F) -> bool,
    cal: DjiCalibration<F>,
    x: F,
    y: F,
    rounds: nat,
)
    requires
        is_exact(value, finite),
        is_ideal(value, finite, cal),
        finite(x),
        finite(y),
    ensures
        undistort_search(cal, x, y, rounds) == (x, y),
    decreases rounds,
{
    if rounds > 0 {
        lemma_ideal_search(value, finite, cal, x, y, (rounds - 1) as nat);
        lemma_round(value, finite, cal, (x, y), (x, y));
        lemma_ideal(value, finite, cal, value(x), value(y));
        let next = undistort_round(cal, x, y, (x, y));
        assert(is_told_apart(value, finite, next.0, x));
        assert(is_told_apart(value, finite, next.1, y));
    }
}

/// The directions at the border are those of its pixels.
proof fn lemma_ideal_border<F: scalar::Scalar>(
    value: spec_fn(F) -> real,
    finite: spec_fn(F) -> bool,
    cal: DjiCalibration<F>,
    width: u32,
    height: u32,
)
    requires
        is_exact(value, finite),
        is_ideal(value, finite, cal),
    ensures
        has_finite_border(value, finite, cal, width, height),
        forall|side: Side, i: int, point: (F, F)| #[trigger]
            is_sample(value, finite, cal, width, height, side, i, point) ==> {
                let place = side_place(side, width, height, i);
                &&& value(point.0) * value(cal.fx) + value(cal.cx) == place.0
                &&& value(point.1) * value(cal.fy) + value(cal.cy) == place.1
            },
{
    assert forall|side: Side, i: int, point: (F, F)| #[trigger]
        is_sample(value, finite, cal, width, height, side, i, point) implies {
        let place = side_place(side, width, height, i);
        &&& finite(point.0) && finite(point.1)
        &&& value(point.0) * value(cal.fx) + value(cal.cx) == place.0
        &&& value(point.1) * value(cal.fy) + value(cal.cy) == place.1
    } by {
        let place = side_place(side, width, height, i);
        let (x, y) = choose|x: F, y: F|
            {
                &&& point == #[trigger] undistorted(cal, x, y)
                &&& finite(x) && value(x) * value(cal.fx) + value(cal.cx) == place.0
                &&& finite(y) && value(y) * value(cal.fy) + value(cal.cy) == place.1
            };
        lemma_ideal_search(value, finite, cal, x, y, UNDISTORT_ROUNDS as nat);
    }
}

/// The places of a side lie on the image.
proof fn lemma_side_place(side: Side, width: u32, height: u32, i: int)
    requires
        0 <= i < 200,
        width > 0,
        height > 0,
    ensures
        ({
            let (px, py) = side_place(side, width, height, i);
            &&& 0real <= px <= width as real - 1real
            &&& 0real <= py <= height as real - 1real
        }),
{
    let w = width as real - 1real;
    let h = height as real - 1real;
    lemma_share_of(i as real, w);
    lemma_share_of(i as real, h);
}

/// The edges of the border, in pixels, are the first and the last column or row.
proof fn lemma_ideal_edges<F: scalar::Scalar>(
    value: spec_fn(F) -> real,
    finite: spec_fn(F) -> bool,
    cal: DjiCalibration<F>,
    width: u32,
    height: u32,
)
    requires
        is_exact(value, finite),
        is_ideal(value, finite, cal),
        width >= 2,
        height >= 2,
    ensures
        ({
            let left = largest(left_border(cal, width, height), false);
            let right = smallest(right_border(cal, width, height), false);
            let top = largest(top_border(cal, width, height), true);
            let bottom = smallest(bottom_border(cal, width, height), true);
            let all = all_borders(cal, width, height);
            &&& finite(left) && finite(right) && finite(top) && finite(bottom)
            &&& value(left) * value(cal.fx) + value(cal.cx) == 0real
            &&& value(right) * value(cal.fx) + value(cal.cx) == width as real - 1real
            &&& value(top) * value(cal.fy) + value(cal.cy) == 0real
            &&& value(bottom) * value(cal.fy) + value(cal.cy) == height as real - 1real
            &&& smallest(all, false) == left && largest(all, false) == right
            &&& smallest(all, true) == top && largest(all, true) == bottom
        }),
{
    lemma_ideal_border(value, finite, cal, width, height);
    lemma_side_edges(value, finite, cal, width, height, Side::Left, false);
    lemma_side_edges(value, finite, cal, width, height, Side::Right, false);
    lemma_side_edges(value, finite, cal, width, height, Side::Top, true);
    lemma_side_edges(value, finite, cal, width, height, Side::Bottom, true);
    let all = all_borders(cal, width, height);
    lemma_ideal_edge(value, finite, cal, width, height, false);
    lemma_ideal_edge(value, finite, cal, width, height, true);
    let left = largest(left_border(cal, width, height), false);
    let right = smallest(right_border(cal, width, height), false);
    let top = largest(top_border(cal, width, height), true);
    let bottom = smallest(bottom_border(cal, width, height), true);
    lemma_one_on_sensor(value, finite, value(cal.fx), value(cal.cx), smallest(all, false), left);
    lemma_one_on_sensor(value, finite, value(cal.fx), value(cal.cx), largest(all, false), right);
    lemma_one_on_sensor(value, finite, value(cal.fy), value(cal.cy), smallest(all, true), top);
    lemma_one_on_sensor(value, finite, value(cal.fy), value(cal.cy), largest(all, true), bottom);
}

/// The edges of all sides together, in pixels, on one axis.
proof fn lemma_ideal_edge<F: scalar::Scalar>(
    value: spec_fn(F) -> real,
    finite: spec_fn(F) -> bool,
    cal: DjiCalibration<F>,
    width: u32,
    height: u32,
    vertical: bool,
)
    requires
        is_exact(value, finite),
        is_ideal(value, finite, cal),
        width >= 2,
        height >= 2,
    ensures
        ({
            let all = all_borders(cal, width, height);
            let low = smallest(all, vertical);
            let high = largest(all, vertical);
            let f = if vertical { value(cal.fy) } else { value(cal.fx) };
            let c = if vertical { value(cal.cy) } else { value(cal.cx) };
            let end = if vertical { height as real - 1real } else { width as real - 1real };
            &&& finite(low) && finite(high)
            &&& value(low) * f + c == 0real
            &&& value(high) * f + c == end
        }),
{
    let all = all_borders(cal, width, height);
    let low = smallest(all, vertical);
    let high = largest(all, vertical);
    let f = if vertical { value(cal.fy) } else { value(cal.fx) };
    let first = if vertical { Side::Top } else { Side::Left };
    let last = if vertical { Side::Bottom } else { Side::Right };
    lemma_ideal_border(value, finite, cal, width, height);
    lemma_all_edges(value, finite, cal, width, height, vertical);
    lemma_samples(value, finite, cal, width, height, first, 0);
    lemma_samples(value, finite, cal, width, height, last, 0);
    let a = side_points(cal, width, height, first)[0];
    let b = side_points(cal, width, height, last)[0];
    assert(is_sample(value, finite, cal, width, height, first, 0, a));
    assert(is_sample(value, finite, cal, width, height, last, 0, b));
    let (s1, i1, q1) = choose|side: Side, i: int, point: (F, F)| #[trigger]
        is_sample(value, finite, cal, width, height, side, i, point) && value(
            coordinate(point, vertical),
        ) == value(low);
    let (s2, i2, q2) = choose|side: Side, i: int, point: (F, F)| #[trigger]
        is_sample(value, finite, cal, width, height, side, i, point) && value(
            coordinate(point, vertical),
        ) == value(high);
    lemma_side_place(s1, width, height, i1);
    lemma_side_place(s2, width, height, i2);
    lemma_order_times(value(low), value(coordinate(a, vertical)), f);
    lemma_order_times(value(coordinate(b, vertical)), value(high), f);
}

/// A lens that distorts nothing has itself for its new camera, whatever `alpha` is, and
/// both tables keep every pixel where it is.
pub proof fn law_ideal_lens_keeps_the_picture<F: scalar::Scalar>(
    value: spec_fn(F) -> real,
    finite: spec_fn(F) -> bool,
    cal: DjiCalibration<F>,
    width: u32,
    height: u32,
    alpha: F,
    row: int,
    col: int,
)
    requires
        is_exact(value, finite),
        is_ideal(value, finite, cal),
        width >= 2,
        height >= 2,
        finite(alpha),
        0real <= value(alpha) <= 1real,
        0 <= row < height,
        0 <= col < width,
    ensures
        ({
            let camera = new_camera(cal, width, height, alpha);
            let there = undistort_place(cal, camera, row, col);
            let back = redistort_place(cal, camera, row, col);
            &&& camera.fx == cal.fx && camera.fy == cal.fy
            &&& camera.cx == cal.cx && camera.cy == cal.cy
            &&& there == (whole::<F>(col as u32), whole::<F>(row as u32))
            &&& back == (whole::<F>(col as u32), whole::<F>(row as u32))
        }),
{
    let camera = new_camera(cal, width, height, alpha);
    lemma_ideal_camera(value, finite, cal, width, height, alpha);
    let (x, y) = (whole::<F>(col as u32), whole::<F>(row as u32));
    let there = undistort_place(cal, camera, row, col);
    lemma_undistort_place(value, finite, cal, camera, row, col);
    let sx = seen_x(value, camera, col as real);
    let sy = seen_y(value, camera, row as real);
    lemma_ideal(value, finite, cal, sx, sy);
    lemma_over_and_back(col as real - value(cal.cx), value(cal.fx));
    lemma_over_and_back(row as real - value(cal.cy), value(cal.fy));
    lemma_times_one(sx, stretch(value, cal, sx, sy));
    lemma_times_one(sy, stretch(value, cal, sx, sy));
    assert(is_told_apart(value, finite, there.0, x));
    assert(is_told_apart(value, finite, there.1, y));
    let (back, point) = lemma_redistort_place(value, finite, cal, camera, row, col);
    let (px, py) = choose|px: F, py: F|
        {
            &&& point == #[trigger] undistorted(cal, px, py)
            &&& finite(px) && value(px) * value(cal.fx) + value(cal.cx) == col as real
            &&& finite(py) && value(py) * value(cal.fy) + value(cal.cy) == row as real
        };
    lemma_ideal_search(value, finite, cal, px, py, UNDISTORT_ROUNDS as nat);
    lemma_over_and_back(value(back.0) - value(cal.cx), value(cal.fx));
    lemma_over_and_back(value(back.1) - value(cal.cy), value(cal.fy));
    assert(is_told_apart(value, finite, back.0, x));
    assert(is_told_apart(value, finite, back.1, y));
}

proof fn lemma_ideal_camera<F: scalar::Scalar>(
    value: spec_fn(F) -> real,
    finite: spec_fn(F) -> bool,
    cal: DjiCalibration<F>,
    width: u32,
    height: u32,
    alpha: F,
)
    requires
        is_exact(value, finite),
        is_ideal(value, finite, cal),
        width >= 2,
        height >= 2,
        finite(alpha),
        0real <= value(alpha) <= 1real,
    ensures
        ({
            let camera = new_camera(cal, width, height, alpha);
            &&& camera.fx == cal.fx && camera.fy == cal.fy
            &&& camera.cx == cal.cx && camera.cy == cal.cy
        }),
{
    let left = largest(left_border(cal, width, height), false);
    let right = smallest(right_border(cal, width, height), false);
    let top = largest(top_border(cal, width, height), true);
    let bottom = smallest(bottom_border(cal, width, height), true);
    lemma_ideal_edges(value, finite, cal, width, height);
    assert(clamped(alpha, whole(0), whole(1)) == alpha);
    lemma_ideal_axis(
        value,
        finite,
        whole::<F>(width) - whole(1),
        left,
        right,
        alpha,
        cal.fx,
        cal.cx,
    );
    lemma_ideal_axis(
        value,
        finite,
        whole::<F>(height) - whole(1),
        top,
        bottom,
        alpha,
        cal.fy,
        cal.cy,
    );
}

proof fn lemma_ideal_axis<F: scalar::Scalar>(
    value: spec_fn(F) -> real,
    finite: spec_fn(F) -> bool,
    n: F,
    low: F,
    high: F,
    alpha: F,
    focal: F,
    centre: F,
)
    requires
        is_exact(value, finite),
        finite(n) && finite(low) && finite(high) && finite(alpha) && finite(focal) && finite(
            centre,
        ),
        value(n) != 0real,
        value(focal) != 0real,
        value(low) * value(focal) + value(centre) == 0real,
        value(high) * value(focal) + value(centre) == value(n),
    ensures
        ({
            let from = blended(low, low, alpha);
            let to = blended(high, high, alpha);
            let f = n / (to - from);
            f == focal && from.negated() * f == centre
        }),
{
    let from = blended(low, low, alpha);
    let to = blended(high, high, alpha);
    lemma_blend_of_same(value(low), value(low), value(alpha));
    lemma_blend_of_same(value(high), value(high), value(alpha));
    assert(is_told_apart(value, finite, from, low));
    assert(is_told_apart(value, finite, to, high));
    lemma_same_span(value(n), value(low), value(high), value(focal), value(centre));
    let f = n / (to - from);
    assert(is_told_apart(value, finite, f, focal));
    assert(is_told_apart(value, finite, from.negated() * f, centre));
}

} // verus!
