//! What remapped images and thumbnails show, in real numbers.
use crate::exact::{floors, is_exact, is_whole, makes_bytes, rounds};
use crate::reals::{
    lemma_form, lemma_mix_is_between, lemma_mix_of_mixes, lemma_times_zero,
};
use crate::remap::{
    bilinear, channel, inside, next_coordinate, quantised, row_shown, shows, RemapLut,
};
use crate::scalar;
use crate::scalar::{clamped, whole, widened};
use vstd::prelude::*;

verus! {

// ---------------------------------------------------------------------------
// Remapped images
// ---------------------------------------------------------------------------

/// The pixel at `(col, row)` lies less than one pixel from the place `(x, y)`, across
/// and down.
pub open spec fn is_near(x: real, y: real, col: int, row: int) -> bool {
    &&& col as real - 1real < x < col as real + 1real
    &&& row as real - 1real < y < row as real + 1real
}

/// What rises by `b` per column and by `d` per row, and by `e` more per row with each
/// column, from `a` on.
pub open spec fn ramp(a: real, b: real, d: real, e: real, x: real, y: real) -> real {
    a + b * x + (d + e * x) * y
}

/// The place lies on an image of `width` by `height` pixels, from the centre of the
/// first pixel to that of the last.
pub open spec fn is_on_image(x: real, y: real, width: u32, height: u32) -> bool {
    &&& 0real <= x <= width as real - 1real
    &&& 0real <= y <= height as real - 1real
}

/// The byte is the nearest to `v`; of two that are as near, the larger.
pub open spec fn is_nearest(byte: u8, v: real) -> bool {
    v - 1real / 2real < byte as real <= v + 1real / 2real
}

/// The value that is interpolated, from the four bytes.
proof fn lemma_bilinear<F: scalar::Scalar>(
    value: spec_fn(F) -> real,
    finite: spec_fn(F) -> bool,
    image: Seq<u8>,
    width: u32,
    height: u32,
    sx: F,
    sy: F,
    x0: int,
    y0: int,
    c: int,
)
    requires
        is_exact(value, finite),
        finite(sx),
        finite(sy),
        0 <= x0 < width,
        0 <= y0 < height,
    ensures
        ({
            let p = value(sx) - x0 as real;
            let q = value(sy) - y0 as real;
            let x1 = next_coordinate(x0, width);
            let y1 = next_coordinate(y0, height);
            let v = bilinear(image, width, height, sx, sy, x0, y0, c);
            &&& finite(v)
            &&& value(v) == (1real - p) * (1real - q) * (channel(image, width, y0, x0, c) as real)
                + p * (1real - q) * (channel(image, width, y0, x1, c) as real) + (1real - p) * q * (
            channel(image, width, y1, x0, c) as real) + p * q * (channel(
                image,
                width,
                y1,
                x1,
                c,
            ) as real)
        }),
{
    let fx = sx - whole::<F>(x0 as u32);
    let fy = sy - whole::<F>(y0 as u32);
    let one = whole::<F>(1);
    let p = value(sx) - x0 as real;
    let q = value(sy) - y0 as real;
    assert(finite(fx) && value(fx) == p);
    assert(finite(fy) && value(fy) == q);
    assert(finite(one - fx) && value(one - fx) == 1real - p);
    assert(finite(one - fy) && value(one - fy) == 1real - q);
}

/// Where the whole parts of a place on the image are found, and that the pixels behind
/// them are near where they count.
proof fn lemma_corner<F: scalar::Scalar, L: Fn(F) -> i64>(
    value: spec_fn(F) -> real,
    finite: spec_fn(F) -> bool,
    floor: L,
    s: F,
    i: i64,
    extent: u32,
)
    requires
        is_exact(value, finite),
        floors(value, finite, floor),
        finite(s),
        call_ensures(floor, (s,), i),
        0real <= value(s) <= extent as real - 1real,
    ensures
        0 <= i < extent,
        0real <= value(s) - (i as real) < 1real,
        !(s > whole::<F>((extent - 1) as u32)),
        value(s) != i as real ==> next_coordinate(i as int, extent) == i + 1,
        (i as int + 1) as real == i as real + 1real,
{
    assert(i as real <= value(s)) by {
        if i == i64::MIN {
            assert((i as real) < 0real);
        }
    }
    assert(extent > 0);
    assert((extent - 1) as u32 as real == extent as real - 1real);
    assert(i < extent);
    assert(value(s) < i as real + 1real);
}

/// The byte that stands for a value from 0 to 255 is the nearest.
proof fn lemma_quantised<F: scalar::Scalar, R: Fn(F) -> F, B: Fn(F) -> u8>(
    value: spec_fn(F) -> real,
    finite: spec_fn(F) -> bool,
    round: R,
    to_byte: B,
    v: F,
    byte: u8,
)
    requires
        is_exact(value, finite),
        rounds(value, finite, round),
        makes_bytes(value, finite, to_byte),
        finite(v),
        0real <= value(v) <= 255real,
        quantised(round, to_byte, v, byte),
    ensures
        is_nearest(byte, value(v)),
{
    let rounded = choose|rounded: F|
        #![trigger call_ensures(round, (v,), rounded)]
        call_ensures(round, (v,), rounded) && call_ensures(
            to_byte,
            (clamped(rounded, whole(0), whole(255)),),
            byte,
        );
    let n = choose|n: int| #[trigger] is_whole(value(rounded), n);
    assert(is_whole(value(rounded), n));
    assert(n as real > 0real - 1real);
    assert((n as real) < 256real);
    assert(0 <= n <= 255);
    assert(clamped(rounded, whole(0), whole(255)) == rounded);
}

/// The four bytes around a place are mixed to a value from 0 to 255.
proof fn lemma_mixed(p: real, q: real, v00: u8, v10: u8, v01: u8, v11: u8)
    requires
        0real <= p <= 1real,
        0real <= q <= 1real,
    ensures
        0real <= (1real - p) * (1real - q) * (v00 as real) + p * (1real - q) * (v10 as real) + (
        1real - p) * q * (v01 as real) + p * q * (v11 as real) <= 255real,
{
    let (a, b, c, d) = (v00 as real, v10 as real, v01 as real, v11 as real);
    lemma_mix_of_mixes(p, q, a, b, c, d);
    lemma_mix_is_between(a, c, q, 255real);
    lemma_mix_is_between(b, d, q, 255real);
    lemma_mix_is_between((1real - q) * a + q * c, (1real - q) * b + q * d, p, 255real);
}

/// The byte that shows channel `c` of a place on the image.
proof fn lemma_shown<F: scalar::Scalar, L: Fn(F) -> i64, R: Fn(F) -> F, B: Fn(F) -> u8>(
    value: spec_fn(F) -> real,
    finite: spec_fn(F) -> bool,
    floor: L,
    round: R,
    to_byte: B,
    image: Seq<u8>,
    width: u32,
    height: u32,
    sx: F,
    sy: F,
    out: Seq<u8>,
    at: int,
    c: int,
) -> (corner: (int, int))
    requires
        is_exact(value, finite),
        floors(value, finite, floor),
        rounds(value, finite, round),
        makes_bytes(value, finite, to_byte),
        finite(sx),
        finite(sy),
        is_on_image(value(sx), value(sy), width, height),
        0 <= c < 3,
        shows(floor, round, to_byte, image, width, height, sx, sy, out, at),
    ensures
        ({
            let (x0, y0) = corner;
            let v = bilinear(image, width, height, sx, sy, x0, y0, c);
            &&& 0 <= x0 < width && 0 <= y0 < height
            &&& 0real <= value(sx) - (x0 as real) < 1real
            &&& 0real <= value(sy) - (y0 as real) < 1real
            &&& value(sx) != x0 as real ==> next_coordinate(x0, width) == x0 + 1
            &&& value(sy) != y0 as real ==> next_coordinate(y0, height) == y0 + 1
            &&& finite(v) && is_nearest(out[at + c], value(v))
        }),
{
    let (x0, y0) = choose|x0: i64, y0: i64|
        #![trigger call_ensures(floor, (sx,), x0), call_ensures(floor, (sy,), y0)]
        {
            &&& call_ensures(floor, (sx,), x0)
            &&& call_ensures(floor, (sy,), y0)
            &&& forall|c: int|
                0 <= c < 3 ==> if inside(sx, sy, x0, y0, width, height) {
                    quantised(
                        round,
                        to_byte,
                        bilinear(image, width, height, sx, sy, x0 as int, y0 as int, c),
                        #[trigger] out[at + c],
                    )
                } else {
                    out[at + c] == 0
                }
        };
    lemma_corner(value, finite, floor, sx, x0, width);
    lemma_corner(value, finite, floor, sy, y0, height);
    assert(inside(sx, sy, x0, y0, width, height));
    let (x, y) = (x0 as int, y0 as int);
    let v = bilinear(image, width, height, sx, sy, x, y, c);
    assert(quantised(round, to_byte, v, out[at + c]));
    lemma_bilinear(value, finite, image, width, height, sx, sy, x, y, c);
    let x1 = next_coordinate(x, width);
    let y1 = next_coordinate(y, height);
    lemma_mixed(
        value(sx) - x as real,
        value(sy) - y as real,
        channel(image, width, y, x, c),
        channel(image, width, y, x1, c),
        channel(image, width, y1, x, c),
        channel(image, width, y1, x1, c),
    );
    lemma_quantised(value, finite, round, to_byte, v, out[at + c]);
    (x, y)
}

/// The value at a place where the near pixels follow a ramp.
proof fn lemma_on_ramp<F: scalar::Scalar>(
    value: spec_fn(F) -> real,
    finite: spec_fn(F) -> bool,
    image: Seq<u8>,
    width: u32,
    height: u32,
    sx: F,
    sy: F,
    x0: int,
    y0: int,
    c: int,
    a: real,
    b: real,
    d: real,
    e: real,
)
    requires
        is_exact(value, finite),
        finite(sx),
        finite(sy),
        0 <= x0 < width,
        0 <= y0 < height,
        0real <= value(sx) - (x0 as real) < 1real,
        0real <= value(sy) - (y0 as real) < 1real,
        value(sx) != x0 as real ==> next_coordinate(x0, width) == x0 + 1,
        value(sy) != y0 as real ==> next_coordinate(y0, height) == y0 + 1,
        forall|col: int, row: int| #[trigger]
            is_near(value(sx), value(sy), col, row) && 0 <= col < width && 0 <= row < height
                ==> image[(row * width + col) * 3 + c] as real == ramp(
                a,
                b,
                d,
                e,
                col as real,
                row as real,
            ),
    ensures
        value(bilinear(image, width, height, sx, sy, x0, y0, c)) == ramp(
            a,
            b,
            d,
            e,
            value(sx),
            value(sy),
        ),
{
    let (x, y) = (value(sx), value(sy));
    let x1 = next_coordinate(x0, width);
    let y1 = next_coordinate(y0, height);
    let p = x - x0 as real;
    let q = y - y0 as real;
    lemma_bilinear(value, finite, image, width, height, sx, sy, x0, y0, c);
    assert(is_near(x, y, x0, y0));
    if p != 0real {
        assert(x1 as real == x0 as real + 1real);
        assert(is_near(x, y, x1, y0));
    }
    if q != 0real {
        assert(y1 as real == y0 as real + 1real);
        assert(is_near(x, y, x0, y1));
    }
    if p != 0real && q != 0real {
        assert(is_near(x, y, x1, y1));
    }
    lemma_form(
        a,
        b,
        d,
        e,
        x0 as real,
        y0 as real,
        p,
        q,
        channel(image, width, y0, x0, c) as real,
        channel(image, width, y0, x1, c) as real,
        channel(image, width, y1, x0, c) as real,
        channel(image, width, y1, x1, c) as real,
    );
}

/// A remapped image shows the place that the table holds for a pixel. Where the pixels
/// less than one pixel from the place rise evenly across and down, as any four
/// neighbours do, each channel has the value of that ramp at the place.
pub proof fn law_remap_interpolates<
    F: scalar::Scalar + From<G>,
    G,
    L: Fn(F) -> i64,
    R: Fn(F) -> F,
    B: Fn(F) -> u8,
>(
    value: spec_fn(F) -> real,
    finite: spec_fn(F) -> bool,
    floor: L,
    round: R,
    to_byte: B,
    image: Seq<u8>,
    width: u32,
    height: u32,
    lut: RemapLut<G>,
    out: Seq<u8>,
    row: int,
    col: int,
    c: int,
    a: real,
    b: real,
    d: real,
    e: real,
)
    requires
        is_exact(value, finite),
        floors(value, finite, floor),
        rounds(value, finite, round),
        makes_bytes(value, finite, to_byte),
        0 <= row < lut.height,
        0 <= col < lut.width,
        0 <= c < 3,
        row_shown::<F, G, L, R, B>(
            floor,
            round,
            to_byte,
            image,
            width,
            height,
            lut,
            row,
            out,
            row * lut.width * 3,
        ),
        finite(widened::<F, G>(lut.map_x@[row * lut.width + col])),
        finite(widened::<F, G>(lut.map_y@[row * lut.width + col])),
        ({
            let x = value(widened::<F, G>(lut.map_x@[row * lut.width + col]));
            let y = value(widened::<F, G>(lut.map_y@[row * lut.width + col]));
            &&& is_on_image(x, y, width, height)
            &&& forall|i: int, j: int| #[trigger]
                is_near(x, y, i, j) && 0 <= i < width && 0 <= j < height ==> image[(j * width + i)
                    * 3 + c] as real == ramp(a, b, d, e, i as real, j as real)
        }),
    ensures
        ({
            let x = value(widened::<F, G>(lut.map_x@[row * lut.width + col]));
            let y = value(widened::<F, G>(lut.map_y@[row * lut.width + col]));
            is_nearest(out[(row * lut.width + col) * 3 + c], ramp(a, b, d, e, x, y))
        }),
{
    let sx = widened::<F, G>(lut.map_x@[row * lut.width + col]);
    let sy = widened::<F, G>(lut.map_y@[row * lut.width + col]);
    let at = row * lut.width * 3 + col * 3;
    assert(lut.place(row, col) == (
        lut.map_x@[row * lut.width + col],
        lut.map_y@[row * lut.width + col],
    ));
    assert(shows(floor, round, to_byte, image, width, height, sx, sy, out, at));
    let (x0, y0) = lemma_shown(
        value,
        finite,
        floor,
        round,
        to_byte,
        image,
        width,
        height,
        sx,
        sy,
        out,
        at,
        c,
    );
    lemma_on_ramp(value, finite, image, width, height, sx, sy, x0, y0, c, a, b, d, e);
    assert(at + c == (row * lut.width + col) * 3 + c);
}

/// A remapped image is black where the table holds a place that is not on the image.
pub proof fn law_remap_is_black_outside<
    F: scalar::Scalar + From<G>,
    G,
    L: Fn(F) -> i64,
    R: Fn(F) -> F,
    B: Fn(F) -> u8,
>(
    value: spec_fn(F) -> real,
    finite: spec_fn(F) -> bool,
    floor: L,
    round: R,
    to_byte: B,
    image: Seq<u8>,
    width: u32,
    height: u32,
    lut: RemapLut<G>,
    out: Seq<u8>,
    row: int,
    col: int,
    c: int,
)
    requires
        is_exact(value, finite),
        floors(value, finite, floor),
        0 <= row < lut.height,
        0 <= col < lut.width,
        0 <= c < 3,
        row_shown::<F, G, L, R, B>(
            floor,
            round,
            to_byte,
            image,
            width,
            height,
            lut,
            row,
            out,
            row * lut.width * 3,
        ),
        finite(widened::<F, G>(lut.map_x@[row * lut.width + col])),
        finite(widened::<F, G>(lut.map_y@[row * lut.width + col])),
        !is_on_image(
            value(widened::<F, G>(lut.map_x@[row * lut.width + col])),
            value(widened::<F, G>(lut.map_y@[row * lut.width + col])),
            width,
            height,
        ),
    ensures
        out[(row * lut.width + col) * 3 + c] == 0,
{
    let sx = widened::<F, G>(lut.map_x@[row * lut.width + col]);
    let sy = widened::<F, G>(lut.map_y@[row * lut.width + col]);
    let at = row * lut.width * 3 + col * 3;
    assert(lut.place(row, col) == (
        lut.map_x@[row * lut.width + col],
        lut.map_y@[row * lut.width + col],
    ));
    assert(shows(floor, round, to_byte, image, width, height, sx, sy, out, at));
    let (x0, y0) = choose|x0: i64, y0: i64|
        #![trigger call_ensures(floor, (sx,), x0), call_ensures(floor, (sy,), y0)]
        {
            &&& call_ensures(floor, (sx,), x0)
            &&& call_ensures(floor, (sy,), y0)
            &&& forall|c: int|
                0 <= c < 3 ==> if inside(sx, sy, x0, y0, width, height) {
                    quantised(
                        round,
                        to_byte,
                        bilinear(image, width, height, sx, sy, x0 as int, y0 as int, c),
                        #[trigger] out[at + c],
                    )
                } else {
                    out[at + c] == 0
                }
        };
    if inside(sx, sy, x0, y0, width, height) {
        assert(x0 as real <= value(sx) && y0 as real <= value(sy));
        assert((width - 1) as u32 as real == width as real - 1real);
        assert((height - 1) as u32 as real == height as real - 1real);
        assert(is_on_image(value(sx), value(sy), width, height));
    }
    assert(out[at + c] == 0);
    assert(at + c == (row * lut.width + col) * 3 + c);
}

/// What a remapped image shows of a place depends on the pixels less than one pixel
/// from it alone: from two images that agree there, the same table gives the same
/// bytes.
pub proof fn law_far_pixels_do_not_count<
    F: scalar::Scalar + From<G>,
    G,
    L: Fn(F) -> i64,
    R: Fn(F) -> F,
    B: Fn(F) -> u8,
>(
    value: spec_fn(F) -> real,
    finite: spec_fn(F) -> bool,
    floor: L,
    round: R,
    to_byte: B,
    image: Seq<u8>,
    other: Seq<u8>,
    width: u32,
    height: u32,
    lut: RemapLut<G>,
    out: Seq<u8>,
    other_out: Seq<u8>,
    row: int,
    col: int,
    c: int,
)
    requires
        is_exact(value, finite),
        floors(value, finite, floor),
        rounds(value, finite, round),
        makes_bytes(value, finite, to_byte),
        0 <= row < lut.height,
        0 <= col < lut.width,
        0 <= c < 3,
        row_shown::<F, G, L, R, B>(
            floor,
            round,
            to_byte,
            image,
            width,
            height,
            lut,
            row,
            out,
            row * lut.width * 3,
        ),
        row_shown::<F, G, L, R, B>(
            floor,
            round,
            to_byte,
            other,
            width,
            height,
            lut,
            row,
            other_out,
            row * lut.width * 3,
        ),
        finite(widened::<F, G>(lut.map_x@[row * lut.width + col])),
        finite(widened::<F, G>(lut.map_y@[row * lut.width + col])),
        ({
            let x = value(widened::<F, G>(lut.map_x@[row * lut.width + col]));
            let y = value(widened::<F, G>(lut.map_y@[row * lut.width + col]));
            forall|i: int, j: int| #[trigger]
                is_near(x, y, i, j) && 0 <= i < width && 0 <= j < height ==> image[(j * width + i)
                    * 3 + c] == other[(j * width + i) * 3 + c]
        }),
    ensures
        out[(row * lut.width + col) * 3 + c] == other_out[(row * lut.width + col) * 3 + c],
{
    let sx = widened::<F, G>(lut.map_x@[row * lut.width + col]);
    let sy = widened::<F, G>(lut.map_y@[row * lut.width + col]);
    let at = row * lut.width * 3 + col * 3;
    assert(lut.place(row, col) == (
        lut.map_x@[row * lut.width + col],
        lut.map_y@[row * lut.width + col],
    ));
    assert(at + c == (row * lut.width + col) * 3 + c);
    if is_on_image(value(sx), value(sy), width, height) {
        assert(shows(floor, round, to_byte, image, width, height, sx, sy, out, at));
        assert(shows(floor, round, to_byte, other, width, height, sx, sy, other_out, at));
        let (x0, y0) = lemma_shown(
            value,
            finite,
            floor,
            round,
            to_byte,
            image,
            width,
            height,
            sx,
            sy,
            out,
            at,
            c,
        );
        let (x2, y2) = lemma_shown(
            value,
            finite,
            floor,
            round,
            to_byte,
            other,
            width,
            height,
            sx,
            sy,
            other_out,
            at,
            c,
        );
        assert(x0 == x2 && y0 == y2);
        lemma_same_value(value, finite, image, other, width, height, sx, sy, x0, y0, c);
        lemma_one_nearest(
            out[at + c],
            other_out[at + c],
            value(bilinear(image, width, height, sx, sy, x0, y0, c)),
        );
    } else {
        law_remap_is_black_outside::<F, G, L, R, B>(
            value,
            finite,
            floor,
            round,
            to_byte,
            image,
            width,
            height,
            lut,
            out,
            row,
            col,
            c,
        );
        law_remap_is_black_outside::<F, G, L, R, B>(
            value,
            finite,
            floor,
            round,
            to_byte,
            other,
            width,
            height,
            lut,
            other_out,
            row,
            col,
            c,
        );
    }
}

/// Only one byte is the nearest to a number.
proof fn lemma_one_nearest(a: u8, b: u8, v: real)
    requires
        is_nearest(a, v),
        is_nearest(b, v),
    ensures
        a == b,
{
    assert((a as int - b as int) as real == a as real - b as real);
    assert((b as int - a as int) as real == b as real - a as real);
}

proof fn lemma_same_value<F: scalar::Scalar>(
    value: spec_fn(F) -> real,
    finite: spec_fn(F) -> bool,
    image: Seq<u8>,
    other: Seq<u8>,
    width: u32,
    height: u32,
    sx: F,
    sy: F,
    x0: int,
    y0: int,
    c: int,
)
    requires
        is_exact(value, finite),
        finite(sx),
        finite(sy),
        0 <= x0 < width,
        0 <= y0 < height,
        0real <= value(sx) - (x0 as real) < 1real,
        0real <= value(sy) - (y0 as real) < 1real,
        value(sx) != x0 as real ==> next_coordinate(x0, width) == x0 + 1,
        value(sy) != y0 as real ==> next_coordinate(y0, height) == y0 + 1,
        forall|i: int, j: int| #[trigger]
            is_near(value(sx), value(sy), i, j) && 0 <= i < width && 0 <= j < height ==> image[(j
                * width + i) * 3 + c] == other[(j * width + i) * 3 + c],
    ensures
        value(bilinear(image, width, height, sx, sy, x0, y0, c)) == value(
            bilinear(other, width, height, sx, sy, x0, y0, c),
        ),
{
    let (x, y) = (value(sx), value(sy));
    let x1 = next_coordinate(x0, width);
    let y1 = next_coordinate(y0, height);
    let p = x - x0 as real;
    let q = y - y0 as real;
    lemma_bilinear(value, finite, image, width, height, sx, sy, x0, y0, c);
    lemma_bilinear(value, finite, other, width, height, sx, sy, x0, y0, c);
    assert(is_near(x, y, x0, y0));
    if p != 0real {
        assert(x1 as real == x0 as real + 1real);
        assert(is_near(x, y, x1, y0));
    } else {
        lemma_times_zero(1real - q, p);
        lemma_times_zero(q, p);
        lemma_times_zero(channel(image, width, y0, x1, c) as real, p * (1real - q));
        lemma_times_zero(channel(other, width, y0, x1, c) as real, p * (1real - q));
        lemma_times_zero(channel(image, width, y1, x1, c) as real, p * q);
        lemma_times_zero(channel(other, width, y1, x1, c) as real, p * q);
    }
    if q != 0real {
        assert(y1 as real == y0 as real + 1real);
        assert(is_near(x, y, x0, y1));
    } else {
        lemma_times_zero(1real - p, q);
        lemma_times_zero(p, q);
        lemma_times_zero(channel(image, width, y1, x0, c) as real, (1real - p) * q);
        lemma_times_zero(channel(other, width, y1, x0, c) as real, (1real - p) * q);
        lemma_times_zero(channel(image, width, y1, x1, c) as real, p * q);
        lemma_times_zero(channel(other, width, y1, x1, c) as real, p * q);
    }
    if p != 0real && q != 0real {
        assert(is_near(x, y, x1, y1));
    }
}

/// Channel `c` of the pixels of an image that are near the place follows a ramp.
pub open spec fn is_ramp_near(
    image: Seq<u8>,
    width: u32,
    height: u32,
    c: int,
    x: real,
    y: real,
    a: real,
    b: real,
    d: real,
    e: real,
) -> bool {
    forall|i: int, j: int| #[trigger]
        is_near(x, y, i, j) && 0 <= i < width && 0 <= j < height ==> image[(j * width + i) * 3 + c]
            as real == ramp(a, b, d, e, i as real, j as real)
}

/// The byte shows channel `c` of the place `(x, y)` of an image: black where the place
/// is not on it, else the value at the place of the ramp that its near pixels follow.
pub open spec fn is_shown(
    image: Seq<u8>,
    width: u32,
    height: u32,
    c: int,
    x: real,
    y: real,
    byte: u8,
) -> bool {
    if is_on_image(x, y, width, height) {
        forall|a: real, b: real, d: real, e: real| #[trigger]
            is_ramp_near(image, width, height, c, x, y, a, b, d, e) ==> is_nearest(
                byte,
                ramp(a, b, d, e, x, y),
            )
    } else {
        byte == 0
    }
}

/// Pixel `(col, row)` of `out` shows, in channel `c`, the place that the table holds for
/// it, where that is finite.
pub open spec fn shows_entry<F: scalar::Scalar + From<G>, G>(
    value: spec_fn(F) -> real,
    finite: spec_fn(F) -> bool,
    image: Seq<u8>,
    width: u32,
    height: u32,
    lut: RemapLut<G>,
    out: Seq<u8>,
    row: int,
    col: int,
    c: int,
) -> bool {
    let k = row * lut.width + col;
    let x = widened::<F, G>(lut.map_x@[k]);
    let y = widened::<F, G>(lut.map_y@[k]);
    finite(x) && finite(y) ==> is_shown(
        image,
        width,
        height,
        c,
        value(x),
        value(y),
        out[k * 3 + c],
    )
}

/// `out` is the image remapped by the table: each of its pixels shows the place that the
/// table holds for it.
pub open spec fn is_remap<
    F: scalar::Scalar + From<G>,
    G,
    L: Fn(F) -> i64,
    R: Fn(F) -> F,
    B: Fn(F) -> u8,
>(
    floor: L,
    round: R,
    to_byte: B,
    image: Seq<u8>,
    width: u32,
    height: u32,
    lut: RemapLut<G>,
    out: Seq<u8>,
) -> bool {
    forall|value: spec_fn(F) -> real, finite: spec_fn(F) -> bool, row: int, col: int, c: int|
        {
            &&& is_exact(value, finite)
            &&& floors(value, finite, floor)
            &&& rounds(value, finite, round)
            &&& makes_bytes(value, finite, to_byte)
            &&& 0 <= row < lut.height && 0 <= col < lut.width && 0 <= c < 3
        } ==> #[trigger] shows_entry::<F, G>(
            value,
            finite,
            image,
            width,
            height,
            lut,
            out,
            row,
            col,
            c,
        )
}

pub(crate) proof fn lemma_is_remap<
    F: scalar::Scalar + From<G>,
    G,
    L: Fn(F) -> i64,
    R: Fn(F) -> F,
    B: Fn(F) -> u8,
>(
    floor: L,
    round: R,
    to_byte: B,
    image: Seq<u8>,
    width: u32,
    height: u32,
    lut: RemapLut<G>,
    out: Seq<u8>,
)
    requires
        forall|row: int|
            0 <= row < lut.height ==> #[trigger] row_shown::<F, G, L, R, B>(
                floor,
                round,
                to_byte,
                image,
                width,
                height,
                lut,
                row,
                out,
                row * lut.width * 3,
            ),
    ensures
        is_remap::<F, G, L, R, B>(floor, round, to_byte, image, width, height, lut, out),
{
    assert forall|value: spec_fn(F) -> real, finite: spec_fn(F) -> bool, row: int, col: int, c: int|
        {
            &&& is_exact(value, finite)
            &&& floors(value, finite, floor)
            &&& rounds(value, finite, round)
            &&& makes_bytes(value, finite, to_byte)
            &&& 0 <= row < lut.height && 0 <= col < lut.width && 0 <= c < 3
        } implies #[trigger] shows_entry::<F, G>(
        value,
        finite,
        image,
        width,
        height,
        lut,
        out,
        row,
        col,
        c,
    ) by {
        lemma_shows_entry::<F, G, L, R, B>(
            value,
            finite,
            floor,
            round,
            to_byte,
            image,
            width,
            height,
            lut,
            out,
            row,
            col,
            c,
        );
    }
}

proof fn lemma_shows_entry<
    F: scalar::Scalar + From<G>,
    G,
    L: Fn(F) -> i64,
    R: Fn(F) -> F,
    B: Fn(F) -> u8,
>(
    value: spec_fn(F) -> real,
    finite: spec_fn(F) -> bool,
    floor: L,
    round: R,
    to_byte: B,
    image: Seq<u8>,
    width: u32,
    height: u32,
    lut: RemapLut<G>,
    out: Seq<u8>,
    row: int,
    col: int,
    c: int,
)
    requires
        is_exact(value, finite),
        floors(value, finite, floor),
        rounds(value, finite, round),
        makes_bytes(value, finite, to_byte),
        0 <= row < lut.height,
        0 <= col < lut.width,
        0 <= c < 3,
        row_shown::<F, G, L, R, B>(
            floor,
            round,
            to_byte,
            image,
            width,
            height,
            lut,
            row,
            out,
            row * lut.width * 3,
        ),
    ensures
        shows_entry::<F, G>(value, finite, image, width, height, lut, out, row, col, c),
{
    let k = row * lut.width + col;
    let sx = widened::<F, G>(lut.map_x@[k]);
    let sy = widened::<F, G>(lut.map_y@[k]);
    if finite(sx) && finite(sy) {
        if is_on_image(value(sx), value(sy), width, height) {
            assert forall|a: real, b: real, d: real, e: real| #[trigger]
                is_ramp_near(image, width, height, c, value(sx), value(sy), a, b, d, e) implies
                is_nearest(out[k * 3 + c], ramp(a, b, d, e, value(sx), value(sy))) by {
                law_remap_interpolates::<F, G, L, R, B>(
                    value,
                    finite,
                    floor,
                    round,
                    to_byte,
                    image,
                    width,
                    height,
                    lut,
                    out,
                    row,
                    col,
                    c,
                    a,
                    b,
                    d,
                    e,
                );
            }
        } else {
            law_remap_is_black_outside::<F, G, L, R, B>(
                value,
                finite,
                floor,
                round,
                to_byte,
                image,
                width,
                height,
                lut,
                out,
                row,
                col,
                c,
            );
        }
    }
}

} // verus!
