//! Remap tables for a lens, and the images that they give.
use crate::calibration::DjiCalibration;
use crate::lens_laws;
use crate::parallel;
use crate::parallel::cell;
use crate::pixel_laws;
use crate::scalar;
use crate::scalar::{
    clamped, infinity, is_arithmetic, max_of, min_of, negative_infinity, of_byte,
    orders_whole_numbers, whole, widened, widens,
};
use crate::thumbnail_laws;
use vstd::prelude::*;

verus! {

/// Rounds of the fixed-point search that inverts the lens model.
pub const UNDISTORT_ROUNDS: u32 = 50;

/// Points that are looked at along each border of the image.
pub const BORDER_POINTS: u32 = 200;

// ---------------------------------------------------------------------------
// The lens model
// ---------------------------------------------------------------------------

/// The radial factor of the Brown-Conrady model at squared radius `r2`.
pub open spec fn radial_factor<F: scalar::Scalar>(cal: DjiCalibration<F>, r2: F) -> F {
    let r4 = r2 * r2;
    let r6 = r4 * r2;
    whole::<F>(1) + cal.k1 * r2 + cal.k2 * r4 + cal.k3 * r6
}

/// Where the lens puts the point that an ideal camera would see at `(x, y)`, in
/// normalised coordinates: the Brown-Conrady forward model.
pub open spec fn distorted<F: scalar::Scalar>(cal: DjiCalibration<F>, x: F, y: F) -> (F, F) {
    let two = whole::<F>(2);
    let r2 = x * x + y * y;
    let radial = radial_factor(cal, r2);
    (
        x * radial + two * cal.p1 * x * y + cal.p2 * (r2 + two * x * x),
        y * radial + cal.p1 * (r2 + two * y * y) + two * cal.p2 * x * y,
    )
}

/// One round of the search for the point that the lens puts at `(x_d, y_d)`,
/// from the guess `(x, y)`.
#[verifier::opaque]
pub open spec fn undistort_round<F: scalar::Scalar>(
    cal: DjiCalibration<F>,
    x_d: F,
    y_d: F,
    guess: (F, F),
) -> (F, F) {
    let (x, y) = guess;
    let two = whole::<F>(2);
    let r2 = x * x + y * y;
    let radial = radial_factor(cal, r2);
    (
        (x_d - (two * cal.p1 * x * y + cal.p2 * (r2 + two * x * x))) / radial,
        (y_d - (cal.p1 * (r2 + two * y * y) + two * cal.p2 * x * y)) / radial,
    )
}

/// The guess after `rounds` rounds of the search, which starts at `(x_d, y_d)`.
pub open spec fn undistort_search<F: scalar::Scalar>(
    cal: DjiCalibration<F>,
    x_d: F,
    y_d: F,
    rounds: nat,
) -> (F, F)
    decreases rounds,
{
    if rounds == 0 {
        (x_d, y_d)
    } else {
        undistort_round(cal, x_d, y_d, undistort_search(cal, x_d, y_d, (rounds - 1) as nat))
    }
}

/// The point that the lens puts at `(x_d, y_d)`, as the search finds it.
pub open spec fn undistorted<F: scalar::Scalar>(cal: DjiCalibration<F>, x_d: F, y_d: F) -> (F, F) {
    undistort_search(cal, x_d, y_d, UNDISTORT_ROUNDS as nat)
}

fn distort_point<F: scalar::Scalar>(x: F, y: F, cal: &DjiCalibration<F>) -> (r: (F, F))
    requires
        is_arithmetic::<F>(),
    ensures
        r == distorted(*cal, x, y),
{
    let one: F = scalar::from_whole(1);
    let two: F = scalar::from_whole(2);
    let r2 = x * x + y * y;
    let r4 = r2 * r2;
    let r6 = r4 * r2;
    let radial = one + cal.k1 * r2 + cal.k2 * r4 + cal.k3 * r6;
    let x_d = x * radial + two * cal.p1 * x * y + cal.p2 * (r2 + two * x * x);
    let y_d = y * radial + cal.p1 * (r2 + two * y * y) + two * cal.p2 * x * y;
    (x_d, y_d)
}

/// Inverts the Brown-Conrady model by a fixed number of rounds: given distorted
/// normalised coordinates, finds undistorted ones.
pub fn undistort_point<F: scalar::Scalar>(x_d: F, y_d: F, cal: &DjiCalibration<F>) -> (r: (F, F))
    requires
        is_arithmetic::<F>(),
    ensures
        r == undistorted(*cal, x_d, y_d),
        lens_laws::ends_search(*cal, x_d, y_d, r),
{
    proof {
        lens_laws::lemma_ends_search(*cal, x_d, y_d);
    }
    let one: F = scalar::from_whole(1);
    let two: F = scalar::from_whole(2);
    let mut x = x_d;
    let mut y = y_d;
    for i in 0..UNDISTORT_ROUNDS
        invariant
            is_arithmetic::<F>(),
            one == whole::<F>(1),
            two == whole::<F>(2),
            (x, y) == undistort_search(*cal, x_d, y_d, i as nat),
    {
        proof {
            reveal(undistort_round);
        }
        let r2 = x * x + y * y;
        let r4 = r2 * r2;
        let r6 = r4 * r2;
        let radial = one + cal.k1 * r2 + cal.k2 * r4 + cal.k3 * r6;
        let dx = two * cal.p1 * x * y + cal.p2 * (r2 + two * x * x);
        let dy = cal.p1 * (r2 + two * y * y) + two * cal.p2 * x * y;
        x = (x_d - dx) / radial;
        y = (y_d - dy) / radial;
    }
    (x, y)
}

// ---------------------------------------------------------------------------
// The camera of the undistorted image
// ---------------------------------------------------------------------------

/// A pinhole camera: focal lengths and centre, in pixels.
pub struct Intrinsics<F> {
    pub fx: F,
    pub fy: F,
    pub cx: F,
    pub cy: F,
}

/// How far along a border the `i`-th point lies, from 0 to 1.
pub open spec fn border_share<F: scalar::Scalar>(i: int) -> F {
    whole::<F>(i as u32) / whole((BORDER_POINTS - 1) as u32)
}

/// The `i`-th point of the top border of the distorted image, undistorted.
pub open spec fn top_point<F: scalar::Scalar>(
    cal: DjiCalibration<F>,
    width: u32,
    height: u32,
    i: int,
) -> (F, F) {
    undistorted(
        cal,
        (border_share::<F>(i) * (whole::<F>(width) - whole(1)) - cal.cx) / cal.fx,
        (whole::<F>(0) - cal.cy) / cal.fy,
    )
}

/// The `i`-th point of the bottom border of the distorted image, undistorted.
pub open spec fn bottom_point<F: scalar::Scalar>(
    cal: DjiCalibration<F>,
    width: u32,
    height: u32,
    i: int,
) -> (F, F) {
    undistorted(
        cal,
        (border_share::<F>(i) * (whole::<F>(width) - whole(1)) - cal.cx) / cal.fx,
        ((whole::<F>(height) - whole(1)) - cal.cy) / cal.fy,
    )
}

/// The `i`-th point of the left border of the distorted image, undistorted.
pub open spec fn left_point<F: scalar::Scalar>(
    cal: DjiCalibration<F>,
    width: u32,
    height: u32,
    i: int,
) -> (F, F) {
    undistorted(
        cal,
        (whole::<F>(0) - cal.cx) / cal.fx,
        (border_share::<F>(i) * (whole::<F>(height) - whole(1)) - cal.cy) / cal.fy,
    )
}

/// The `i`-th point of the right border of the distorted image, undistorted.
pub open spec fn right_point<F: scalar::Scalar>(
    cal: DjiCalibration<F>,
    width: u32,
    height: u32,
    i: int,
) -> (F, F) {
    undistorted(
        cal,
        ((whole::<F>(width) - whole(1)) - cal.cx) / cal.fx,
        (border_share::<F>(i) * (whole::<F>(height) - whole(1)) - cal.cy) / cal.fy,
    )
}

/// The points of a border, in order.
pub open spec fn border<F>(point: spec_fn(int) -> (F, F)) -> Seq<(F, F)> {
    Seq::new(BORDER_POINTS as nat, point)
}

pub open spec fn top_border<F: scalar::Scalar>(
    cal: DjiCalibration<F>,
    width: u32,
    height: u32,
) -> Seq<(F, F)> {
    border(|i: int| top_point(cal, width, height, i))
}

pub open spec fn bottom_border<F: scalar::Scalar>(
    cal: DjiCalibration<F>,
    width: u32,
    height: u32,
) -> Seq<(F, F)> {
    border(|i: int| bottom_point(cal, width, height, i))
}

pub open spec fn left_border<F: scalar::Scalar>(
    cal: DjiCalibration<F>,
    width: u32,
    height: u32,
) -> Seq<(F, F)> {
    border(|i: int| left_point(cal, width, height, i))
}

pub open spec fn right_border<F: scalar::Scalar>(
    cal: DjiCalibration<F>,
    width: u32,
    height: u32,
) -> Seq<(F, F)> {
    border(|i: int| right_point(cal, width, height, i))
}

/// All four borders: top, bottom, left, right.
pub open spec fn all_borders<F: scalar::Scalar>(
    cal: DjiCalibration<F>,
    width: u32,
    height: u32,
) -> Seq<(F, F)> {
    top_border(cal, width, height) + bottom_border(cal, width, height) + left_border(
        cal,
        width,
        height,
    ) + right_border(cal, width, height)
}

/// The coordinate of a point that `vertical` picks.
pub open spec fn coordinate<F>(point: (F, F), vertical: bool) -> F {
    if vertical {
        point.1
    } else {
        point.0
    }
}

/// The largest coordinate of the points; negative infinity where there are none.
pub open spec fn largest<F: scalar::Scalar>(points: Seq<(F, F)>, vertical: bool) -> F
    decreases points.len(),
{
    if points.len() == 0 {
        negative_infinity()
    } else {
        max_of(largest(points.drop_last(), vertical), coordinate(points.last(), vertical))
    }
}

/// The smallest coordinate of the points; infinity where there are none.
pub open spec fn smallest<F: scalar::Scalar>(points: Seq<(F, F)>, vertical: bool) -> F
    decreases points.len(),
{
    if points.len() == 0 {
        infinity()
    } else {
        min_of(smallest(points.drop_last(), vertical), coordinate(points.last(), vertical))
    }
}

/// `inner` moved towards `outer` by the share `alpha`.
pub open spec fn blended<F: scalar::Scalar>(inner: F, outer: F, alpha: F) -> F {
    inner + alpha * (outer - inner)
}

/// The camera whose image of `width` by `height` pixels shows the undistorted
/// scene from the largest upright rectangle inside the undistorted border
/// (`alpha` 0: no black edges) to the smallest around it (`alpha` 1: all pixels
/// kept).
pub open spec fn new_camera<F: scalar::Scalar>(
    cal: DjiCalibration<F>,
    width: u32,
    height: u32,
    alpha: F,
) -> Intrinsics<F> {
    let alpha = clamped(alpha, whole(0), whole(1));
    let all = all_borders(cal, width, height);
    let x_left = blended(
        largest(left_border(cal, width, height), false),
        smallest(all, false),
        alpha,
    );
    let x_right = blended(
        smallest(right_border(cal, width, height), false),
        largest(all, false),
        alpha,
    );
    let y_top = blended(
        largest(top_border(cal, width, height), true),
        smallest(all, true),
        alpha,
    );
    let y_bottom = blended(
        smallest(bottom_border(cal, width, height), true),
        largest(all, true),
        alpha,
    );
    let fx = (whole::<F>(width) - whole(1)) / (x_right - x_left);
    let fy = (whole::<F>(height) - whole(1)) / (y_bottom - y_top);
    Intrinsics { fx, fy, cx: x_left.negated() * fx, cy: y_top.negated() * fy }
}

/// An `alpha` below 0 or above 1 gives the camera of the nearer of the two.
pub proof fn law_alpha_is_held<F: scalar::Scalar>(
    cal: DjiCalibration<F>,
    width: u32,
    height: u32,
    alpha: F,
)
    requires
        orders_whole_numbers::<F>(),
    ensures
        alpha < whole::<F>(0) ==> new_camera(cal, width, height, alpha) == new_camera(
            cal,
            width,
            height,
            whole(0),
        ),
        !(alpha < whole::<F>(0)) && alpha > whole::<F>(1) ==> new_camera(cal, width, height, alpha)
            == new_camera(cal, width, height, whole(1)),
{
}

fn largest_of<F: scalar::Scalar>(points: &Vec<(F, F)>, vertical: bool) -> (r: F)
    requires
        is_arithmetic::<F>(),
    ensures
        r == largest(points@, vertical),
{
    let one: F = scalar::from_whole(1);
    let zero: F = scalar::from_whole(0);
    let mut r = one.neg() / zero;
    for i in 0..points.len()
        invariant
            is_arithmetic::<F>(),
            r == largest(points@.take(i as int), vertical),
    {
        let p = points[i];
        r = scalar::max(r, if vertical { p.1 } else { p.0 });
        assert(points@.take(i + 1).drop_last() =~= points@.take(i as int));
    }
    assert(points@.take(points@.len() as int) =~= points@);
    r
}

fn smallest_of<F: scalar::Scalar>(points: &Vec<(F, F)>, vertical: bool) -> (r: F)
    requires
        is_arithmetic::<F>(),
    ensures
        r == smallest(points@, vertical),
{
    let one: F = scalar::from_whole(1);
    let zero: F = scalar::from_whole(0);
    let mut r = one / zero;
    for i in 0..points.len()
        invariant
            is_arithmetic::<F>(),
            r == smallest(points@.take(i as int), vertical),
    {
        let p = points[i];
        r = scalar::min(r, if vertical { p.1 } else { p.0 });
        assert(points@.take(i + 1).drop_last() =~= points@.take(i as int));
    }
    assert(points@.take(points@.len() as int) =~= points@);
    r
}

fn append_points<F: scalar::Scalar>(all: &mut Vec<(F, F)>, points: &Vec<(F, F)>)
    ensures
        final(all)@ == old(all)@ + points@,
{
    for i in 0..points.len()
        invariant
            all@ == old(all)@ + points@.take(i as int),
    {
        all.push(points[i]);
    }
}

/// The camera of the undistorted image: samples the borders of the distorted
/// image, undistorts them, and fits the view between the inner and the outer
/// rectangle. `alpha` outside of 0 to 1 counts as the nearer end.
pub fn compute_new_camera_params<F: scalar::Scalar>(
    cal: &DjiCalibration<F>,
    width: u32,
    height: u32,
    alpha: F,
) -> (r: Intrinsics<F>)
    requires
        is_arithmetic::<F>(),
    ensures
        r == new_camera(*cal, width, height, alpha),
        lens_laws::is_new_camera(*cal, width, height, alpha, r),
{
    proof {
        lens_laws::law_alpha_picks_the_view(*cal, width, height, alpha);
    }
    let zero: F = scalar::from_whole(0);
    let one: F = scalar::from_whole(1);
    let w: F = scalar::from_whole(width);
    let h: F = scalar::from_whole(height);
    let alpha = scalar::clamp(alpha, zero, one);

    let mut top: Vec<(F, F)> = Vec::new();
    let mut bottom: Vec<(F, F)> = Vec::new();
    let mut left: Vec<(F, F)> = Vec::new();
    let mut right: Vec<(F, F)> = Vec::new();
    for i in 0..BORDER_POINTS
        invariant
            is_arithmetic::<F>(),
            zero == whole::<F>(0),
            one == whole::<F>(1),
            w == whole::<F>(width),
            h == whole::<F>(height),
            top@ =~= top_border(*cal, width, height).take(i as int),
            bottom@ =~= bottom_border(*cal, width, height).take(i as int),
            left@ =~= left_border(*cal, width, height).take(i as int),
            right@ =~= right_border(*cal, width, height).take(i as int),
    {
        let t = scalar::from_whole::<F>(i) / scalar::from_whole(BORDER_POINTS - 1);
        let xd = (t * (w - one) - cal.cx) / cal.fx;
        top.push(undistort_point(xd, (zero - cal.cy) / cal.fy, cal));
        bottom.push(undistort_point(xd, ((h - one) - cal.cy) / cal.fy, cal));
        let yd = (t * (h - one) - cal.cy) / cal.fy;
        left.push(undistort_point((zero - cal.cx) / cal.fx, yd, cal));
        right.push(undistort_point(((w - one) - cal.cx) / cal.fx, yd, cal));
    }
    assert(top@ =~= top_border(*cal, width, height));
    assert(bottom@ =~= bottom_border(*cal, width, height));
    assert(left@ =~= left_border(*cal, width, height));
    assert(right@ =~= right_border(*cal, width, height));

    let inner_left = largest_of(&left, false);
    let inner_right = smallest_of(&right, false);
    let inner_top = largest_of(&top, true);
    let inner_bottom = smallest_of(&bottom, true);

    let mut all: Vec<(F, F)> = Vec::new();
    append_points(&mut all, &top);
    append_points(&mut all, &bottom);
    append_points(&mut all, &left);
    append_points(&mut all, &right);
    let outer_left = smallest_of(&all, false);
    let outer_right = largest_of(&all, false);
    let outer_top = smallest_of(&all, true);
    let outer_bottom = largest_of(&all, true);

    let x_left = inner_left + alpha * (outer_left - inner_left);
    let x_right = inner_right + alpha * (outer_right - inner_right);
    let y_top = inner_top + alpha * (outer_top - inner_top);
    let y_bottom = inner_bottom + alpha * (outer_bottom - inner_bottom);

    let fx = (w - one) / (x_right - x_left);
    let fy = (h - one) / (y_bottom - y_top);
    Intrinsics { fx, fy, cx: x_left.neg() * fx, cy: y_top.neg() * fy }
}

// ---------------------------------------------------------------------------
// Remap tables
// ---------------------------------------------------------------------------

/// For each pixel of an output image of `width` by `height`, row by row, the
/// place in the input image that it shows.
pub struct RemapLut<G> {
    pub map_x: Vec<G>,
    pub map_y: Vec<G>,
    pub width: u32,
    pub height: u32,
}

impl<G> RemapLut<G> {
    /// Both tables hold one place per pixel.
    pub open spec fn well_formed(&self) -> bool {
        &&& self.map_x@.len() == self.height * self.width
        &&& self.map_y@.len() == self.height * self.width
    }

    /// The place that the pixel at `(col, row)` shows.
    pub open spec fn place(&self, row: int, col: int) -> (G, G) {
        (
            cell(self.map_x@, self.width as int, row, col),
            cell(self.map_y@, self.width as int, row, col),
        )
    }
}

/// The place in the distorted image that pixel `(col, row)` of the undistorted
/// image of `camera` shows.
pub open spec fn undistort_place<F: scalar::Scalar>(
    cal: DjiCalibration<F>,
    camera: Intrinsics<F>,
    row: int,
    col: int,
) -> (F, F) {
    let (x_d, y_d) = distorted(
        cal,
        (whole::<F>(col as u32) - camera.cx) / camera.fx,
        (whole::<F>(row as u32) - camera.cy) / camera.fy,
    );
    (x_d * cal.fx + cal.cx, y_d * cal.fy + cal.cy)
}

/// The place in the undistorted image of `camera` that pixel `(col, row)` of the
/// distorted image shows.
pub open spec fn redistort_place<F: scalar::Scalar>(
    cal: DjiCalibration<F>,
    camera: Intrinsics<F>,
    row: int,
    col: int,
) -> (F, F) {
    let (x_u, y_u) = undistorted(
        cal,
        (whole::<F>(col as u32) - cal.cx) / cal.fx,
        (whole::<F>(row as u32) - cal.cy) / cal.fy,
    );
    (x_u * camera.fx + camera.cx, y_u * camera.fy + camera.cy)
}

/// `stored` is what `narrow` gives for both coordinates of `place`.
pub open spec fn narrowed<F, G, N: Fn(F) -> G>(narrow: N, place: (F, F), stored: (G, G)) -> bool {
    &&& call_ensures(narrow, (place.0,), stored.0)
    &&& call_ensures(narrow, (place.1,), stored.1)
}

/// Parts a table of places into its columns.
fn lut_of_rows<G: Copy>(rows: &Vec<Vec<(G, G)>>, width: u32, height: u32) -> (lut: RemapLut<G>)
    requires
        rows@.len() == height,
        forall|r: int| 0 <= r < height ==> (#[trigger] rows@[r])@.len() == width,
        height * width <= usize::MAX,
    ensures
        lut.well_formed(),
        lut.width == width,
        lut.height == height,
        forall|r: int, c: int|
            0 <= r < height && 0 <= c < width ==> #[trigger] lut.place(r, c) == rows@[r]@[c],
{
    let places = parallel::concat_rows(rows, width as usize);
    let mut map_x: Vec<G> = Vec::with_capacity(places.len());
    let mut map_y: Vec<G> = Vec::with_capacity(places.len());
    for i in 0..places.len()
        invariant
            map_x@.len() == i,
            map_y@.len() == i,
            forall|j: int|
                0 <= j < i ==> (#[trigger] map_x@[j], map_y@[j]) == #[trigger] places@[j],
    {
        let (x, y) = places[i];
        map_x.push(x);
        map_y.push(y);
    }
    let lut = RemapLut { map_x, map_y, width, height };
    assert forall|r: int, c: int| 0 <= r < height && 0 <= c < width implies #[trigger] lut.place(
        r,
        c,
    ) == rows@[r]@[c] by {
        parallel::lemma_cell_in_range(width as int, height as int, r, c);
        assert(cell(places@, width as int, r, c) == rows@[r]@[c]);
    }
    lut
}

/// One row of the undistortion table.
fn undistort_row<F: scalar::Scalar, G, N: Fn(F) -> G>(
    cal: &DjiCalibration<F>,
    camera: &Intrinsics<F>,
    width: u32,
    row: u32,
    narrow: &N,
) -> (out: Vec<(G, G)>)
    requires
        is_arithmetic::<F>(),
        forall|v: F| call_requires(narrow, (v,)),
    ensures
        out@.len() == width,
        forall|c: int|
            0 <= c < width ==> narrowed(
                *narrow,
                undistort_place(*cal, *camera, row as int, c),
                #[trigger] out@[c],
            ),
{
    let mut out: Vec<(G, G)> = Vec::with_capacity(width as usize);
    let y = (scalar::from_whole::<F>(row) - camera.cy) / camera.fy;
    for col in 0..width
        invariant
            is_arithmetic::<F>(),
            forall|v: F| call_requires(narrow, (v,)),
            y == (whole::<F>(row) - camera.cy) / camera.fy,
            out@.len() == col,
            forall|c: int|
                0 <= c < col ==> narrowed(
                    *narrow,
                    undistort_place(*cal, *camera, row as int, c),
                    #[trigger] out@[c],
                ),
    {
        let x = (scalar::from_whole::<F>(col) - camera.cx) / camera.fx;
        let (x_d, y_d) = distort_point(x, y, cal);
        out.push((narrow(x_d * cal.fx + cal.cx), narrow(y_d * cal.fy + cal.cy)));
    }
    out
}

/// One row of the re-distortion table.
fn redistort_row<F: scalar::Scalar, G, N: Fn(F) -> G>(
    cal: &DjiCalibration<F>,
    camera: &Intrinsics<F>,
    width: u32,
    row: u32,
    narrow: &N,
) -> (out: Vec<(G, G)>)
    requires
        is_arithmetic::<F>(),
        forall|v: F| call_requires(narrow, (v,)),
    ensures
        out@.len() == width,
        forall|c: int|
            0 <= c < width ==> narrowed(
                *narrow,
                redistort_place(*cal, *camera, row as int, c),
                #[trigger] out@[c],
            ),
{
    let mut out: Vec<(G, G)> = Vec::with_capacity(width as usize);
    let y_d = (scalar::from_whole::<F>(row) - cal.cy) / cal.fy;
    for col in 0..width
        invariant
            is_arithmetic::<F>(),
            forall|v: F| call_requires(narrow, (v,)),
            y_d == (whole::<F>(row) - cal.cy) / cal.fy,
            out@.len() == col,
            forall|c: int|
                0 <= c < col ==> narrowed(
                    *narrow,
                    redistort_place(*cal, *camera, row as int, c),
                    #[trigger] out@[c],
                ),
    {
        let x_d = (scalar::from_whole::<F>(col) - cal.cx) / cal.fx;
        let (x_u, y_u) = undistort_point(x_d, y_d, cal);
        out.push((narrow(x_u * camera.fx + camera.cx), narrow(y_u * camera.fy + camera.cy)));
    }
    out
}

/// Builds the table that removes the distortion of the lens from an image of
/// `width` by `height` pixels. `alpha` 0 crops to where there are no black
/// edges, 1 keeps all pixels.
///
/// `narrow` makes the numbers that the table holds out of those that the model
/// computes with.
pub fn build_undistort_lut<
    F: scalar::Scalar + Send + Sync,
    G: Copy + Send,
    N: Fn(F) -> G + Send + Sync,
>(cal: &DjiCalibration<F>, width: u32, height: u32, alpha: F, narrow: &N) -> (lut: RemapLut<G>)
    requires
        is_arithmetic::<F>(),
        forall|v: F| call_requires(narrow, (v,)),
        width > 0,
        height * width <= usize::MAX,
    ensures
        lut.well_formed(),
        lut.width == width,
        lut.height == height,
        forall|row: int, col: int|
            0 <= row < height && 0 <= col < width ==> narrowed(
                *narrow,
                undistort_place(*cal, new_camera(*cal, width, height, alpha), row, col),
                #[trigger] lut.place(row, col),
            ),
        lens_laws::removes_distortion(
            *cal,
            new_camera(*cal, width, height, alpha),
            *narrow,
            lut,
        ),
{
    let camera = &compute_new_camera_params(cal, width, height, alpha);
    let row_of = |row: usize| -> (out: Vec<(G, G)>)
        requires
            is_arithmetic::<F>(),
            forall|v: F| call_requires(narrow, (v,)),
            row < height,
        ensures
            out@.len() == width,
            forall|c: int|
                0 <= c < width ==> narrowed(
                    *narrow,
                    undistort_place(*cal, *camera, row as int, c),
                    #[trigger] out@[c],
                ),
        { undistort_row(cal, camera, width, row as u32, narrow) };
    let rows = parallel::par_map(height as usize, row_of);
    let lut = lut_of_rows(&rows, width, height);
    proof {
        lens_laws::lemma_removes_distortion(*cal, *camera, *narrow, lut);
    }
    lut
}

/// Builds the table that puts the distortion of the lens back into an image of
/// `width` by `height` pixels from which it was removed without black edges.
pub fn build_redistort_lut<
    F: scalar::Scalar + Send + Sync,
    G: Copy + Send,
    N: Fn(F) -> G + Send + Sync,
>(cal: &DjiCalibration<F>, width: u32, height: u32, narrow: &N) -> (lut: RemapLut<G>)
    requires
        is_arithmetic::<F>(),
        forall|v: F| call_requires(narrow, (v,)),
        width > 0,
        height * width <= usize::MAX,
    ensures
        lut.well_formed(),
        lut.width == width,
        lut.height == height,
        forall|row: int, col: int|
            0 <= row < height && 0 <= col < width ==> narrowed(
                *narrow,
                redistort_place(*cal, new_camera(*cal, width, height, whole(0)), row, col),
                #[trigger] lut.place(row, col),
            ),
        lens_laws::restores_distortion(
            *cal,
            new_camera(*cal, width, height, whole(0)),
            *narrow,
            lut,
        ),
{
    let camera = &compute_new_camera_params(cal, width, height, scalar::from_whole(0));
    let row_of = |row: usize| -> (out: Vec<(G, G)>)
        requires
            is_arithmetic::<F>(),
            forall|v: F| call_requires(narrow, (v,)),
            row < height,
        ensures
            out@.len() == width,
            forall|c: int|
                0 <= c < width ==> narrowed(
                    *narrow,
                    redistort_place(*cal, *camera, row as int, c),
                    #[trigger] out@[c],
                ),
        { redistort_row(cal, camera, width, row as u32, narrow) };
    let rows = parallel::par_map(height as usize, row_of);
    let lut = lut_of_rows(&rows, width, height);
    proof {
        lens_laws::lemma_restores_distortion(*cal, *camera, *narrow, lut);
    }
    lut
}

// ---------------------------------------------------------------------------
// Remapping an image
// ---------------------------------------------------------------------------

/// Bytes per pixel of an RGB image.
pub const CHANNELS: usize = 3;

/// The bytes of an RGB image of `width` by `height` pixels.
pub open spec fn rgb_len(width: u32, height: u32) -> int {
    height * width * 3
}

/// Channel `c` of the pixel at `(col, row)` of an RGB image of `width` columns.
pub open spec fn channel(image: Seq<u8>, width: u32, row: int, col: int, c: int) -> u8 {
    image[(row * width + col) * 3 + c]
}

/// The place `(sx, sy)`, whose whole parts are `(x0, y0)`, lies in an image of `width`
/// by `height` pixels: from its first column and row to its last.
pub open spec fn inside<F: scalar::Scalar>(
    sx: F,
    sy: F,
    x0: i64,
    y0: i64,
    width: u32,
    height: u32,
) -> bool {
    &&& 0 <= x0 < width
    &&& 0 <= y0 < height
    &&& !(sx > whole::<F>((width - 1) as u32))
    &&& !(sy > whole::<F>((height - 1) as u32))
}

/// All pixels of an image lie in it, those of the last column and row too.
pub proof fn law_every_pixel_is_inside<F: scalar::Scalar>(x: u32, y: u32, width: u32, height: u32)
    requires
        orders_whole_numbers::<F>(),
        x < width,
        y < height,
    ensures
        inside(whole::<F>(x), whole::<F>(y), x as i64, y as i64, width, height),
{
}

/// The coordinate behind `i` among `extent` coordinates; the last has itself behind
/// it.
pub open spec fn next_coordinate(i: int, extent: u32) -> int {
    if i + 1 < extent {
        i + 1
    } else {
        extent - 1
    }
}

/// Channel `c` at the place `(sx, sy)` between the pixel at `(x0, y0)` and those
/// behind it in the row and in the column: their values, weighted by how near they
/// are.
pub open spec fn bilinear<F: scalar::Scalar>(
    image: Seq<u8>,
    width: u32,
    height: u32,
    sx: F,
    sy: F,
    x0: int,
    y0: int,
    c: int,
) -> F {
    let one = whole::<F>(1);
    let fx = sx - whole(x0 as u32);
    let fy = sy - whole(y0 as u32);
    let x1 = next_coordinate(x0, width);
    let y1 = next_coordinate(y0, height);
    (one - fx) * (one - fy) * of_byte(channel(image, width, y0, x0, c)) + fx * (one - fy) * of_byte(
        channel(image, width, y0, x1, c),
    ) + (one - fx) * fy * of_byte(channel(image, width, y1, x0, c)) + fx * fy * of_byte(
        channel(image, width, y1, x1, c),
    )
}

/// `byte` is the channel value that stands for `v`: rounded, held between 0 and
/// 255, and converted.
pub open spec fn quantised<F: scalar::Scalar, R: Fn(F) -> F, B: Fn(F) -> u8>(
    round: R,
    to_byte: B,
    v: F,
    byte: u8,
) -> bool {
    exists|rounded: F|
        #![trigger call_ensures(round, (v,), rounded)]
        call_ensures(round, (v,), rounded) && call_ensures(
            to_byte,
            (clamped(rounded, whole(0), whole(255)),),
            byte,
        )
}

/// The three bytes of `out` from `at` on show the place `(sx, sy)` of the image: black
/// where the place is not inside it, else the pixels around it, interpolated.
pub open spec fn shows<
    F: scalar::Scalar,
    L: Fn(F) -> i64,
    R: Fn(F) -> F,
    B: Fn(F) -> u8,
>(
    floor: L,
    round: R,
    to_byte: B,
    image: Seq<u8>,
    width: u32,
    height: u32,
    sx: F,
    sy: F,
    out: Seq<u8>,
    at: int,
) -> bool {
    exists|x0: i64, y0: i64|
        #![trigger call_ensures(floor, (sx,), x0), call_ensures(floor, (sy,), y0)]
        {
            &&& call_ensures(floor, (sx,), x0)
            &&& call_ensures(floor, (sy,), y0)
            &&& forall|c: int|
                0 <= c < 3 ==> if inside(sx, sy, x0, y0, width, height) {
                    quantised(
                        round,
                        to_byte,
                        bilinear(image, width, height, sx, sy, x0 as int, y0 as int, c),
                        #[trigger] out[at + c],
                    )
                } else {
                    out[at + c] == 0
                }
        }
}

/// The bytes of `out` from `start` on show what row `row` of the table says.
pub open spec fn row_shown<
    F: scalar::Scalar + From<G>,
    G,
    L: Fn(F) -> i64,
    R: Fn(F) -> F,
    B: Fn(F) -> u8,
>(
    floor: L,
    round: R,
    to_byte: B,
    image: Seq<u8>,
    width: u32,
    height: u32,
    lut: RemapLut<G>,
    row: int,
    out: Seq<u8>,
    start: int,
) -> bool {
    forall|col: int|
        0 <= col < lut.width ==> shows(
            floor,
            round,
            to_byte,
            image,
            width,
            height,
            widened::<F, G>((#[trigger] lut.place(row, col)).0),
            widened::<F, G>(lut.place(row, col).1),
            out,
            start + col * 3,
        )
}

proof fn lemma_channel_in_range(width: u32, height: u32, row: int, col: int, c: int)
    requires
        0 <= row < height,
        0 <= col < width,
        0 <= c < 3,
    ensures
        0 <= row * width,
        row * width + col < height * width,
        (row * width + col) * 3 + c < rgb_len(width, height),
{
    parallel::lemma_cell_in_range(width as int, height as int, row, col);
}

/// A pixel that holds the same bytes as one that shows a place shows it too.
proof fn lemma_shows_same<
    F: scalar::Scalar,
    L: Fn(F) -> i64,
    R: Fn(F) -> F,
    B: Fn(F) -> u8,
>(
    floor: L,
    round: R,
    to_byte: B,
    image: Seq<u8>,
    width: u32,
    height: u32,
    sx: F,
    sy: F,
    from: Seq<u8>,
    from_at: int,
    to: Seq<u8>,
    to_at: int,
)
    requires
        shows(floor, round, to_byte, image, width, height, sx, sy, from, from_at),
        forall|c: int| 0 <= c < 3 ==> from[from_at + c] == #[trigger] to[to_at + c],
    ensures
        shows(floor, round, to_byte, image, width, height, sx, sy, to, to_at),
{
    let (x0, y0) = choose|x0: i64, y0: i64|
        #![trigger call_ensures(floor, (sx,), x0), call_ensures(floor, (sy,), y0)]
        {
            &&& call_ensures(floor, (sx,), x0)
            &&& call_ensures(floor, (sy,), y0)
            &&& forall|c: int|
                0 <= c < 3 ==> if inside(sx, sy, x0, y0, width, height) {
                    quantised(
                        round,
                        to_byte,
                        bilinear(image, width, height, sx, sy, x0 as int, y0 as int, c),
                        #[trigger] from[from_at + c],
                    )
                } else {
                    from[from_at + c] == 0
                }
        };
}

/// One row of the remapped image.
fn remap_row<
    F: scalar::Scalar + From<G>,
    G: Copy,
    L: Fn(F) -> i64,
    R: Fn(F) -> F,
    B: Fn(F) -> u8,
>(
    src: &[u8],
    src_width: u32,
    src_height: u32,
    lut: &RemapLut<G>,
    row: usize,
    floor: &L,
    round: &R,
    to_byte: &B,
) -> (out: Vec<u8>)
    requires
        is_arithmetic::<F>(),
        widens::<F, G>(),
        forall|v: F| call_requires(floor, (v,)),
        forall|v: F| call_requires(round, (v,)),
        forall|v: F| call_requires(to_byte, (v,)),
        src@.len() >= rgb_len(src_width, src_height),
        lut.well_formed(),
        row < lut.height,
        lut.width * 3 <= usize::MAX,
    ensures
        out@.len() == lut.width * 3,
        row_shown::<F, G, L, R, B>(
            *floor,
            *round,
            *to_byte,
            src@,
            src_width,
            src_height,
            *lut,
            row as int,
            out@,
            0,
        ),
{
    let one: F = scalar::from_whole(1);
    let zero: F = scalar::from_whole(0);
    let top: F = scalar::from_whole(255);
    let mut out: Vec<u8> = Vec::new();
    for col in 0..lut.width
        invariant
            is_arithmetic::<F>(),
            widens::<F, G>(),
            forall|v: F| call_requires(floor, (v,)),
            forall|v: F| call_requires(round, (v,)),
            forall|v: F| call_requires(to_byte, (v,)),
            src@.len() >= rgb_len(src_width, src_height),
            lut.well_formed(),
            row < lut.height,
            one == whole::<F>(1),
            zero == whole::<F>(0),
            top == whole::<F>(255),
            out@.len() == col * 3,
            forall|k: int|
                0 <= k < col ==> shows(
                    *floor,
                    *round,
                    *to_byte,
                    src@,
                    src_width,
                    src_height,
                    widened::<F, G>((#[trigger] lut.place(row as int, k)).0),
                    widened::<F, G>(lut.place(row as int, k).1),
                    out@,
                    k * 3,
                ),
    {
        let ghost before = out@;
        proof {
            parallel::lemma_cell_in_range(
                lut.width as int,
                lut.height as int,
                row as int,
                col as int,
            );
        }
        assert(lut.map_x.len() == lut.map_x@.len());
        let idx = row * lut.width as usize + col as usize;
        let sx: F = F::from(lut.map_x[idx]);
        let sy: F = F::from(lut.map_y[idx]);
        let x0: i64 = floor(sx);
        let y0: i64 = floor(sy);
        let in_image = 0 <= x0 && 0 <= y0 && x0 < src_width as i64 && y0 < src_height as i64
            && !(sx > scalar::from_whole::<F>(src_width - 1)) && !(sy > scalar::from_whole::<F>(
            src_height - 1,
        ));
        if in_image {
            let x1 = if x0 + 1 < src_width as i64 {
                x0 + 1
            } else {
                src_width as i64 - 1
            };
            let y1 = if y0 + 1 < src_height as i64 {
                y0 + 1
            } else {
                src_height as i64 - 1
            };
            let fx = sx - scalar::from_whole::<F>(x0 as u32);
            let fy = sy - scalar::from_whole::<F>(y0 as u32);
            let w00 = (one - fx) * (one - fy);
            let w10 = fx * (one - fy);
            let w01 = (one - fx) * fy;
            let w11 = fx * fy;
            for c in 0..CHANNELS
                invariant
                    is_arithmetic::<F>(),
                    forall|v: F| call_requires(round, (v,)),
                    forall|v: F| call_requires(to_byte, (v,)),
                    src@.len() >= rgb_len(src_width, src_height),
                    zero == whole::<F>(0),
                    top == whole::<F>(255),
                    one == whole::<F>(1),
                    inside(sx, sy, x0, y0, src_width, src_height),
                    x1 == next_coordinate(x0 as int, src_width),
                    y1 == next_coordinate(y0 as int, src_height),
                    fx == sx - whole::<F>(x0 as u32),
                    fy == sy - whole::<F>(y0 as u32),
                    w00 == (one - fx) * (one - fy),
                    w10 == fx * (one - fy),
                    w01 == (one - fx) * fy,
                    w11 == fx * fy,
                    before.len() == col * 3,
                    out@.len() == col * 3 + c,
                    forall|j: int| 0 <= j < col * 3 ==> out@[j] == before[j],
                    forall|k: int|
                        0 <= k < c ==> quantised(
                            *round,
                            *to_byte,
                            bilinear(src@, src_width, src_height, sx, sy, x0 as int, y0 as int, k),
                            #[trigger] out@[col * 3 + k],
                        ),
            {
                proof {
                    lemma_channel_in_range(src_width, src_height, y0 as int, x0 as int, c as int);
                    lemma_channel_in_range(src_width, src_height, y0 as int, x1 as int, c as int);
                    lemma_channel_in_range(src_width, src_height, y1 as int, x0 as int, c as int);
                    lemma_channel_in_range(src_width, src_height, y1 as int, x1 as int, c as int);
                }
                assert(src.len() == src@.len());
                let upper = y0 as usize * src_width as usize;
                let lower = y1 as usize * src_width as usize;
                let v = w00 * scalar::from_byte::<F>(src[(upper + x0 as usize) * CHANNELS + c])
                    + w10 * scalar::from_byte::<F>(src[(upper + x1 as usize) * CHANNELS + c]) + w01
                    * scalar::from_byte::<F>(src[(lower + x0 as usize) * CHANNELS + c]) + w11
                    * scalar::from_byte::<F>(src[(lower + x1 as usize) * CHANNELS + c]);
                let rounded = round(v);
                let byte: u8 = to_byte(scalar::clamp(rounded, zero, top));
                out.push(byte);
            }
        } else {
            out.push(0);
            out.push(0);
            out.push(0);
        }
        assert forall|k: int| 0 <= k < col + 1 implies shows(
            *floor,
            *round,
            *to_byte,
            src@,
            src_width,
            src_height,
            widened::<F, G>((#[trigger] lut.place(row as int, k)).0),
            widened::<F, G>(lut.place(row as int, k).1),
            out@,
            k * 3,
        ) by {
            if k < col {
                let px = widened::<F, G>(lut.place(row as int, k).0);
                let py = widened::<F, G>(lut.place(row as int, k).1);
                lemma_shows_same(
                    *floor,
                    *round,
                    *to_byte,
                    src@,
                    src_width,
                    src_height,
                    px,
                    py,
                    before,
                    k * 3,
                    out@,
                    k * 3,
                );
            }
        }
    }
    out
}

/// Applies a remap table to an RGB image, by bilinear interpolation, all cores at
/// work on it. What lies outside of the image is black.
///
/// `floor` gives the whole part of a number, `round` the nearest whole number
/// and `to_byte` the byte for a whole number from 0 to 255.
pub fn cpu_remap<
    F: scalar::Scalar + From<G> + Send + Sync,
    G: Copy + Send + Sync,
    L: Fn(F) -> i64 + Send + Sync,
    R: Fn(F) -> F + Send + Sync,
    B: Fn(F) -> u8 + Send + Sync,
>(
    src: &[u8],
    src_width: u32,
    src_height: u32,
    lut: &RemapLut<G>,
    floor: &L,
    round: &R,
    to_byte: &B,
) -> (out: Vec<u8>)
    requires
        is_arithmetic::<F>(),
        widens::<F, G>(),
        forall|v: F| call_requires(floor, (v,)),
        forall|v: F| call_requires(round, (v,)),
        forall|v: F| call_requires(to_byte, (v,)),
        src@.len() >= rgb_len(src_width, src_height),
        lut.well_formed(),
        lut.width > 0,
        rgb_len(lut.width, lut.height) <= usize::MAX,
    ensures
        out@.len() == rgb_len(lut.width, lut.height),
        forall|row: int|
            0 <= row < lut.height ==> #[trigger] row_shown::<F, G, L, R, B>(
                *floor,
                *round,
                *to_byte,
                src@,
                src_width,
                src_height,
                *lut,
                row,
                out@,
                row * lut.width * 3,
            ),
        pixel_laws::is_remap::<F, G, L, R, B>(
            *floor,
            *round,
            *to_byte,
            src@,
            src_width,
            src_height,
            *lut,
            out@,
        ),
{
    let height = lut.height as usize;
    let width = lut.width;
    if height == 0 {
        assert(rgb_len(lut.width, 0) == 0) by (nonlinear_arith);
        return Vec::new();
    }
    proof {
        lemma_row_bytes(width, lut.height);
    }
    let row_of = |row: usize| -> (out: Vec<u8>)
        requires
            is_arithmetic::<F>(),
            widens::<F, G>(),
            forall|v: F| call_requires(floor, (v,)),
            forall|v: F| call_requires(round, (v,)),
            forall|v: F| call_requires(to_byte, (v,)),
            src@.len() >= rgb_len(src_width, src_height),
            lut.well_formed(),
            row < lut.height,
            lut.width * 3 <= usize::MAX,
        ensures
            out@.len() == lut.width * 3,
            row_shown::<F, G, L, R, B>(
                *floor,
                *round,
                *to_byte,
                src@,
                src_width,
                src_height,
                *lut,
                row as int,
                out@,
                0,
            ),
        { remap_row(src, src_width, src_height, lut, row, floor, round, to_byte) };
    let rows = parallel::par_map(height, row_of);
    let row_bytes = width as usize * CHANNELS;
    let out = parallel::concat_rows(&rows, row_bytes);
    assert forall|row: int| 0 <= row < lut.height implies #[trigger] row_shown::<F, G, L, R, B>(
        *floor,
        *round,
        *to_byte,
        src@,
        src_width,
        src_height,
        *lut,
        row,
        out@,
        row * lut.width * 3,
    ) by {
        assert forall|col: int| 0 <= col < lut.width implies shows(
            *floor,
            *round,
            *to_byte,
            src@,
            src_width,
            src_height,
            widened::<F, G>((#[trigger] lut.place(row, col)).0),
            widened::<F, G>(lut.place(row, col).1),
            out@,
            row * lut.width * 3 + col * 3,
        ) by {
            assert forall|c: int| 0 <= c < 3 implies rows@[row]@[col * 3 + c] == #[trigger] out@[
            row * lut.width * 3 + col * 3 + c] by {
                assert(cell(out@, row_bytes as int, row, col * 3 + c) == rows@[row]@[col * 3 + c]);
                assert(row * width * 3 + col * 3 + c == row * (width * 3) + (col * 3 + c))
                    by (nonlinear_arith);
            }
            lemma_shows_same(
                *floor,
                *round,
                *to_byte,
                src@,
                src_width,
                src_height,
                widened::<F, G>(lut.place(row, col).0),
                widened::<F, G>(lut.place(row, col).1),
                rows@[row]@,
                0 + col * 3,
                out@,
                row * lut.width * 3 + col * 3,
            );
        }
    }
    proof {
        pixel_laws::lemma_is_remap::<F, G, L, R, B>(
            *floor,
            *round,
            *to_byte,
            src@,
            src_width,
            src_height,
            *lut,
            out@,
        );
    }
    out
}

proof fn lemma_row_bytes(width: u32, height: u32)
    requires
        height > 0,
    ensures
        width * 3 <= rgb_len(width, height),
        height * (width * 3) == rgb_len(width, height),
{
    assert(width * 3 <= height * (width * 3)) by (nonlinear_arith)
        requires
            height > 0,
    ;
    assert(height * (width * 3) == height * width * 3) by (nonlinear_arith);
}

// ---------------------------------------------------------------------------
// Thumbnails
// ---------------------------------------------------------------------------

/// The factor that fits an image of `width` by `height` pixels into a square of
/// `max_dim`, at most 1.
pub open spec fn thumbnail_scale<F: scalar::Scalar>(width: u32, height: u32, max_dim: u32) -> F {
    min_of(
        min_of(whole::<F>(max_dim) / whole(width), whole::<F>(max_dim) / whole(height)),
        whole(1),
    )
}

/// `scaled` is the thumbnail's extent for an image extent of `extent` pixels:
/// scaled, rounded, and at least 1.
pub open spec fn thumbnail_extent<F: scalar::Scalar, R: Fn(F) -> F, T: Fn(F) -> u32>(
    round: R,
    truncate: T,
    extent: u32,
    scale: F,
    scaled: u32,
) -> bool {
    exists|rounded: F|
        #![trigger call_ensures(round, (whole::<F>(extent) * scale,), rounded)]
        call_ensures(round, (whole::<F>(extent) * scale,), rounded) && call_ensures(
            truncate,
            (max_of(rounded, whole(1)),),
            scaled,
        )
}

/// The coordinate, as a number, that the thumbnail's coordinate `i` is taken
/// from, in an image of `extent` pixels.
pub open spec fn thumbnail_source<F: scalar::Scalar>(i: int, scale: F, extent: u32) -> F {
    min_of(
        (whole::<F>(i as u32) + whole::<F>(1) / whole(2)) / scale,
        whole((extent - 1) as u32),
    )
}

/// `truncate` gives the whole part: of a number that is not above the whole
/// number `n` it makes `n` or less, of one that is not below it `n` or more.
pub open spec fn truncates<F: scalar::Scalar, T: Fn(F) -> u32>(truncate: T) -> bool {
    forall|v: F, n: u32, r: u32|
        #![trigger call_ensures(truncate, (v,), r), whole::<F>(n)]
        call_ensures(truncate, (v,), r) ==> {
            &&& !(v > whole::<F>(n)) ==> r <= n
            &&& v.is_number() && !(whole::<F>(n) > v) ==> r >= n
        }
}

/// Pixel `(x, y)` of a thumbnail `width` pixels wide is the pixel of the image that
/// its centre falls on.
pub open spec fn thumbnail_pixel<F: scalar::Scalar, T: Fn(F) -> u32>(
    truncate: T,
    image: Seq<u8>,
    image_width: u32,
    image_height: u32,
    scale: F,
    thumbnail: Seq<u8>,
    width: u32,
    y: int,
    x: int,
) -> bool {
    exists|sx: u32, sy: u32|
        #![trigger channel(image, image_width, sy as int, sx as int, 0)]
        {
            &&& call_ensures(truncate, (thumbnail_source(x, scale, image_width),), sx)
            &&& call_ensures(truncate, (thumbnail_source(y, scale, image_height),), sy)
            &&& sx < image_width && sy < image_height
            &&& forall|c: int|
                0 <= c < 3 ==> #[trigger] channel(thumbnail, width, y, x, c) == channel(
                    image,
                    image_width,
                    sy as int,
                    sx as int,
                    c,
                )
        }
}

/// The coordinate of the image that coordinate `i` of a thumbnail is taken from.
fn source_coordinate<F: scalar::Scalar, T: Fn(F) -> u32>(
    i: u32,
    scale: F,
    extent: u32,
    truncate: &T,
) -> (r: u32)
    requires
        is_arithmetic::<F>(),
        orders_whole_numbers::<F>(),
        truncates::<F, T>(*truncate),
        forall|v: F| call_requires(truncate, (v,)),
        extent > 0,
    ensures
        call_ensures(truncate, (thumbnail_source(i as int, scale, extent),), r),
        r < extent,
{
    let half = scalar::from_whole::<F>(1) / scalar::from_whole(2);
    let last = scalar::from_whole::<F>(extent - 1);
    let v = scalar::min((scalar::from_whole::<F>(i) + half) / scale, last);
    let r: u32 = truncate(v);
    r
}

/// Shrinks an RGB image, without interpolation, by the factor of a square of
/// `max_dim` pixels. Returns the thumbnail's bytes, width and height: the sides of
/// the image, scaled and rounded, of one pixel at least. With numbers that scale in
/// order both fit `max_dim`: see
/// [`law_thumbnail_fits_its_square`](crate::remap_laws::law_thumbnail_fits_its_square).
///
/// `round` gives the nearest whole number and `truncate` the whole part of a
/// number.
pub fn make_thumbnail<F: scalar::Scalar, R: Fn(F) -> F, T: Fn(F) -> u32>(
    src: &[u8],
    src_w: u32,
    src_h: u32,
    max_dim: u32,
    round: &R,
    truncate: &T,
) -> (r: (Vec<u8>, u32, u32))
    requires
        is_arithmetic::<F>(),
        orders_whole_numbers::<F>(),
        truncates::<F, T>(*truncate),
        forall|v: F| call_requires(round, (v,)),
        forall|v: F| call_requires(truncate, (v,)),
        src_w > 0,
        src_h > 0,
        src@.len() >= rgb_len(src_w, src_h),
    ensures
        thumbnail_extent(
            *round,
            *truncate,
            src_w,
            thumbnail_scale::<F>(src_w, src_h, max_dim),
            r.1,
        ),
        thumbnail_extent(
            *round,
            *truncate,
            src_h,
            thumbnail_scale::<F>(src_w, src_h, max_dim),
            r.2,
        ),
        r.1 >= 1,
        r.2 >= 1,
        r.0@.len() == rgb_len(r.1, r.2),
        forall|y: int, x: int|
            0 <= y < r.2 && 0 <= x < r.1 ==> #[trigger] thumbnail_pixel(
                *truncate,
                src@,
                src_w,
                src_h,
                thumbnail_scale::<F>(src_w, src_h, max_dim),
                r.0@,
                r.1,
                y,
                x,
            ),
        thumbnail_laws::covers_image::<F, R, T>(
            *round,
            *truncate,
            src@,
            src_w,
            src_h,
            max_dim,
            r.0@,
            r.1,
            r.2,
        ),
{
    let max_f: F = scalar::from_whole(max_dim);
    let w_f: F = scalar::from_whole(src_w);
    let h_f: F = scalar::from_whole(src_h);
    let one: F = scalar::from_whole(1);
    let scale = scalar::min(scalar::min(max_f / w_f, max_f / h_f), one);
    let rounded_w: F = round(w_f * scale);
    let tw: u32 = truncate(scalar::max(rounded_w, one));
    let rounded_h: F = round(h_f * scale);
    let th: u32 = truncate(scalar::max(rounded_h, one));
    assert(call_ensures(*round, (whole::<F>(src_w) * scale,), rounded_w));
    assert(call_ensures(*round, (whole::<F>(src_h) * scale,), rounded_h));

    let mut out: Vec<u8> = Vec::new();
    assert(0 * tw * 3 == 0) by (nonlinear_arith);
    for y in 0..th
        invariant
            is_arithmetic::<F>(),
            orders_whole_numbers::<F>(),
            truncates::<F, T>(*truncate),
            forall|v: F| call_requires(truncate, (v,)),
            src_w > 0,
            src_h > 0,
            src@.len() >= rgb_len(src_w, src_h),
            out@.len() == y * tw * 3,
            forall|i: int, j: int|
                0 <= i < y && 0 <= j < tw ==> #[trigger] thumbnail_pixel(
                    *truncate,
                    src@,
                    src_w,
                    src_h,
                    scale,
                    out@,
                    tw,
                    i,
                    j,
                ),
    {
        for x in 0..tw
            invariant
                is_arithmetic::<F>(),
                orders_whole_numbers::<F>(),
                truncates::<F, T>(*truncate),
                forall|v: F| call_requires(truncate, (v,)),
                src_w > 0,
                src_h > 0,
                src@.len() >= rgb_len(src_w, src_h),
                out@.len() == (y * tw + x) * 3,
                forall|i: int, j: int|
                    0 <= i < y && 0 <= j < tw ==> #[trigger] thumbnail_pixel(
                        *truncate,
                        src@,
                        src_w,
                        src_h,
                        scale,
                        out@,
                        tw,
                        i,
                        j,
                    ),
                forall|j: int|
                    0 <= j < x ==> #[trigger] thumbnail_pixel(
                        *truncate,
                        src@,
                        src_w,
                        src_h,
                        scale,
                        out@,
                        tw,
                        y as int,
                        j,
                    ),
        {
            let ghost before = out@;
            let sx = source_coordinate(x, scale, src_w, truncate);
            let sy = source_coordinate(y, scale, src_h, truncate);
            proof {
                lemma_channel_in_range(src_w, src_h, sy as int, sx as int, 0);
            }
            assert(src.len() == src@.len());
            let at = (sy as usize * src_w as usize + sx as usize) * CHANNELS;
            out.push(src[at]);
            out.push(src[at + 1]);
            out.push(src[at + 2]);
            assert(out@.take(before.len() as int) =~= before);
            proof {
                assert(channel(src@, src_w, sy as int, sx as int, 0) == src@[at as int]);
                assert(thumbnail_pixel(
                    *truncate,
                    src@,
                    src_w,
                    src_h,
                    scale,
                    out@,
                    tw,
                    y as int,
                    x as int,
                ));
                assert forall|i: int, j: int|
                    0 <= i <= y && 0 <= j < tw && (i < y || j < x) implies #[trigger] thumbnail_pixel(
                    *truncate,
                    src@,
                    src_w,
                    src_h,
                    scale,
                    out@,
                    tw,
                    i,
                    j,
                ) by {
                    assert(thumbnail_pixel(
                        *truncate,
                        src@,
                        src_w,
                        src_h,
                        scale,
                        before,
                        tw,
                        i,
                        j,
                    ));
                    lemma_thumbnail_pixel_same(
                        *truncate,
                        src@,
                        src_w,
                        src_h,
                        scale,
                        before,
                        out@,
                        tw,
                        y as int,
                        x as int,
                        i,
                        j,
                    );
                }
            }
        }
        assert((y + 1) * tw == y * tw + tw) by (nonlinear_arith);
    }
    proof {
        thumbnail_laws::lemma_covers_image::<F, R, T>(
            *round,
            *truncate,
            src@,
            src_w,
            src_h,
            max_dim,
            out@,
            tw,
            th,
        );
    }
    (out, tw, th)
}

/// Bytes that are added behind a pixel do not change it.
proof fn lemma_thumbnail_pixel_same<F: scalar::Scalar, T: Fn(F) -> u32>(
    truncate: T,
    image: Seq<u8>,
    image_width: u32,
    image_height: u32,
    scale: F,
    before: Seq<u8>,
    after: Seq<u8>,
    width: u32,
    y: int,
    x: int,
    i: int,
    j: int,
)
    requires
        thumbnail_pixel(truncate, image, image_width, image_height, scale, before, width, i, j),
        before.len() == (y * width + x) * 3,
        before.len() <= after.len(),
        after.take(before.len() as int) == before,
        0 <= x <= width,
        0 <= i <= y,
        0 <= j < width,
        i < y || j < x,
    ensures
        thumbnail_pixel(truncate, image, image_width, image_height, scale, after, width, i, j),
{
    assert(i * width + j < y * width + x && 0 <= i * width) by (nonlinear_arith)
        requires
            0 <= i <= y,
            0 <= j < width,
            0 <= x <= width,
            i < y || j < x,
    ;
    assert forall|c: int| 0 <= c < 3 implies #[trigger] channel(after, width, i, j, c) == channel(
        before,
        width,
        i,
        j,
        c,
    ) by {
        assert(after.take(before.len() as int)[(i * width + j) * 3 + c] == after[(i * width + j) * 3
            + c]);
    }
    let (sx, sy) = choose|sx: u32, sy: u32|
        #![trigger channel(image, image_width, sy as int, sx as int, 0)]
        {
            &&& call_ensures(truncate, (thumbnail_source(j, scale, image_width),), sx)
            &&& call_ensures(truncate, (thumbnail_source(i, scale, image_height),), sy)
            &&& sx < image_width && sy < image_height
            &&& forall|c: int|
                0 <= c < 3 ==> #[trigger] channel(before, width, i, j, c) == channel(
                    image,
                    image_width,
                    sy as int,
                    sx as int,
                    c,
                )
        };
    assert(channel(after, width, i, j, 0) == channel(image, image_width, sy as int, sx as int, 0));
}

} // verus!
