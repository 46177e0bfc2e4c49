//! How a thumbnail covers its image, in real numbers.
use crate::exact::{cuts, is_exact, is_whole, rounds};
use crate::reals::{
    lemma_back_and_over, lemma_less_times, lemma_order_times, lemma_over_and_back, lemma_times_one,
    lemma_times_zero,
};
use crate::remap::{
    channel, thumbnail_extent, thumbnail_pixel, thumbnail_scale, thumbnail_source,
};
use crate::scalar;
use crate::scalar::{max_of, min_of, whole};
use vstd::prelude::*;

verus! {

/// `scale` is the largest factor, up to 1, by which an image of `width` by `height`
/// pixels fits a square of `max_dim`.
pub open spec fn is_fit(scale: real, width: u32, height: u32, max_dim: u32) -> bool {
    &&& 0real < scale <= 1real
    &&& scale * (width as real) <= max_dim as real
    &&& scale * (height as real) <= max_dim as real
    &&& scale == 1real || scale * (width as real) == max_dim as real || scale * (height as real)
        == max_dim as real
}

/// `scaled` is the whole number nearest to `extent` scaled, but at least 1.
pub open spec fn is_scaled(scale: real, extent: u32, scaled: u32) -> bool {
    let exact = scale * (extent as real);
    &&& scaled >= 1
    &&& exact - 1real / 2real < scaled as real
    &&& scaled as real <= exact + 1real / 2real || scaled == 1
}

/// Coordinate `source` of an image of `extent` pixels is the one that the centre of
/// coordinate `i` of its thumbnail falls on, or the last.
pub open spec fn is_source(scale: real, extent: u32, i: int, source: int) -> bool {
    let centre = i as real + 1real / 2real;
    &&& 0 <= source < extent
    &&& source as real * scale <= centre
    &&& centre < (source as real + 1real) * scale || source == extent - 1
}

proof fn lemma_ratio<F: scalar::Scalar>(
    value: spec_fn(F) -> real,
    finite: spec_fn(F) -> bool,
    max_dim: u32,
    extent: u32,
)
    requires
        is_exact(value, finite),
        max_dim > 0,
        extent > 0,
    ensures
        finite(whole::<F>(max_dim) / whole(extent)),
        value(whole::<F>(max_dim) / whole(extent)) > 0real,
        value(whole::<F>(max_dim) / whole(extent)) * (extent as real) == max_dim as real,
{
    let r = whole::<F>(max_dim) / whole(extent);
    let (m, e) = (max_dim as real, extent as real);
    assert(value(whole::<F>(max_dim)) == m && value(whole::<F>(extent)) == e);
    assert(m > 0real && e > 0real);
    assert(finite(r) && value(r) == m / e);
    lemma_over_and_back(m, e);
    if m / e <= 0real {
        lemma_order_times(m / e, 0real, e);
        lemma_times_zero(e, 0real);
    }
}

proof fn lemma_scale<F: scalar::Scalar>(
    value: spec_fn(F) -> real,
    finite: spec_fn(F) -> bool,
    width: u32,
    height: u32,
    max_dim: u32,
)
    requires
        is_exact(value, finite),
        max_dim > 0,
        width > 0,
        height > 0,
    ensures
        finite(thumbnail_scale::<F>(width, height, max_dim)),
        is_fit(value(thumbnail_scale::<F>(width, height, max_dim)), width, height, max_dim),
{
    let across = whole::<F>(max_dim) / whole(width);
    let down = whole::<F>(max_dim) / whole(height);
    lemma_ratio(value, finite, max_dim, width);
    lemma_ratio(value, finite, max_dim, height);
    let least = min_of(across, down);
    let scale = min_of(least, whole::<F>(1));
    assert(value(whole::<F>(1)) == 1real);
    assert(finite(least) && value(least) <= value(across) && value(least) <= value(down));
    assert(finite(scale) && value(scale) <= value(least) && value(scale) <= 1real);
    lemma_order_times(value(scale), value(across), width as real);
    lemma_order_times(value(scale), value(down), height as real);
}

proof fn lemma_extent<F: scalar::Scalar, R: Fn(F) -> F, T: Fn(F) -> u32>(
    value: spec_fn(F) -> real,
    finite: spec_fn(F) -> bool,
    round: R,
    truncate: T,
    extent: u32,
    scale: F,
    scaled: u32,
)
    requires
        is_exact(value, finite),
        rounds(value, finite, round),
        cuts(value, finite, truncate),
        finite(scale),
        0real < value(scale) <= 1real,
        extent > 0,
        thumbnail_extent(round, truncate, extent, scale, scaled),
    ensures
        is_scaled(value(scale), extent, scaled),
{
    let v = whole::<F>(extent) * scale;
    let one = whole::<F>(1);
    let rounded = choose|rounded: F|
        #![trigger call_ensures(round, (v,), rounded)]
        call_ensures(round, (v,), rounded) && call_ensures(
            truncate,
            (max_of(rounded, whole(1)),),
            scaled,
        );
    let (e, s) = (extent as real, value(scale));
    assert(value(whole::<F>(extent)) == e);
    assert(finite(v) && value(v) == e * s);
    crate::reals::lemma_commute(e, s);
    lemma_order_times(s, 1real, e);
    lemma_times_one(e, 1real);
    crate::reals::lemma_commute(e, 1real);
    lemma_order_times(0real, s, e);
    lemma_times_zero(e, 0real);
    assert(0real <= value(v) <= e);
    let n = choose|n: int| #[trigger] is_whole(value(rounded), n);
    assert(is_whole(value(rounded), n));
    assert(n as real <= e + 1real / 2real);
    assert(n <= extent);
    let top = max_of(rounded, one);
    assert(finite(top));
    let k = if n > 1 { n } else { 1 };
    assert(value(top) == k as real);
    assert(scaled as real <= k as real && (k as real) < scaled as real + 1real);
    assert((scaled + 1) as real == scaled as real + 1real);
    assert(scaled == k);
}

proof fn lemma_source<F: scalar::Scalar, T: Fn(F) -> u32>(
    value: spec_fn(F) -> real,
    finite: spec_fn(F) -> bool,
    truncate: T,
    extent: u32,
    scale: F,
    i: int,
    source: u32,
)
    requires
        is_exact(value, finite),
        cuts(value, finite, truncate),
        finite(scale),
        value(scale) > 0real,
        extent > 0,
        0 <= i <= u32::MAX,
        call_ensures(truncate, (thumbnail_source(i, scale, extent),), source),
    ensures
        is_source(value(scale), extent, i, source as int),
{
    let s = value(scale);
    let half = whole::<F>(1) / whole(2);
    let centre = whole::<F>(i as u32) + half;
    let c = i as real + 1real / 2real;
    assert(finite(half) && value(half) == 1real / 2real);
    assert(finite(centre) && value(centre) == c);
    let v = centre / scale;
    assert(finite(v) && value(v) == c / s);
    lemma_over_and_back(c, s);
    if c / s < 0real {
        lemma_less_times(c / s, 0real, s);
        lemma_times_zero(s, 0real);
    }
    let last = whole::<F>((extent - 1) as u32);
    let at = thumbnail_source(i, scale, extent);
    assert(at == min_of(v, last));
    assert((extent - 1) as u32 as real == extent as real - 1real);
    assert(finite(at) && value(at) <= value(v) && 0real <= value(at) <= value(last));
    assert(source as real <= value(at) && value(at) < source as real + 1real);
    assert(source as real <= extent as real - 1real);
    assert(source < extent);
    lemma_order_times(source as real, c / s, s);
    if value(at) == value(v) {
        lemma_less_times(c / s, source as real + 1real, s);
    } else {
        assert(value(at) == value(last));
        assert((source + 1) as real == source as real + 1real);
        assert(source == extent - 1);
    }
}

/// A thumbnail covers its image evenly. One factor fits the image into the square of
/// `max_dim` pixels and scales both of its sides, and each pixel is the pixel of the
/// image that its centre falls on at that factor, in all three channels.
pub proof fn law_thumbnail_covers_its_image<F: scalar::Scalar, R: Fn(F) -> F, T: Fn(F) -> u32>(
    value: spec_fn(F) -> real,
    finite: spec_fn(F) -> bool,
    round: R,
    truncate: T,
    image: Seq<u8>,
    src_w: u32,
    src_h: u32,
    max_dim: u32,
    thumbnail: Seq<u8>,
    width: u32,
    height: u32,
    x: int,
    y: int,
) -> (r: (real, int, int))
    requires
        is_exact(value, finite),
        rounds(value, finite, round),
        cuts(value, finite, truncate),
        src_w > 0,
        src_h > 0,
        max_dim > 0,
        0 <= x < width,
        0 <= y < height,
        thumbnail_extent(
            round,
            truncate,
            src_w,
            thumbnail_scale::<F>(src_w, src_h, max_dim),
            width,
        ),
        thumbnail_extent(
            round,
            truncate,
            src_h,
            thumbnail_scale::<F>(src_w, src_h, max_dim),
            height,
        ),
        thumbnail_pixel(
            truncate,
            image,
            src_w,
            src_h,
            thumbnail_scale::<F>(src_w, src_h, max_dim),
            thumbnail,
            width,
            y,
            x,
        ),
    ensures
        ({
            let (scale, sx, sy) = r;
            &&& is_fit(scale, src_w, src_h, max_dim)
            &&& is_scaled(scale, src_w, width)
            &&& is_scaled(scale, src_h, height)
            &&& is_source(scale, src_w, x, sx)
            &&& is_source(scale, src_h, y, sy)
            &&& thumbnail[(y * width + x) * 3] == image[(sy * src_w + sx) * 3]
            &&& thumbnail[(y * width + x) * 3 + 1] == image[(sy * src_w + sx) * 3 + 1]
            &&& thumbnail[(y * width + x) * 3 + 2] == image[(sy * src_w + sx) * 3 + 2]
        }),
{
    let scale = thumbnail_scale::<F>(src_w, src_h, max_dim);
    lemma_scale(value, finite, src_w, src_h, max_dim);
    lemma_extent(value, finite, round, truncate, src_w, scale, width);
    lemma_extent(value, finite, round, truncate, src_h, scale, height);
    let (sx, sy) = choose|sx: u32, sy: u32|
        #![trigger call_ensures(truncate, (thumbnail_source(x, scale, src_w),), sx), call_ensures(truncate, (thumbnail_source(y, scale, src_h),), sy)]
        {
            &&& call_ensures(truncate, (thumbnail_source(x, scale, src_w),), sx)
            &&& call_ensures(truncate, (thumbnail_source(y, scale, src_h),), sy)
            &&& sx < src_w && sy < src_h
            &&& forall|c: int|
                0 <= c < 3 ==> #[trigger] channel(thumbnail, width, y, x, c) == channel(
                    image,
                    src_w,
                    sy as int,
                    sx as int,
                    c,
                )
        };
    lemma_source(value, finite, truncate, src_w, scale, x, sx);
    lemma_source(value, finite, truncate, src_h, scale, y, sy);
    let (cx, cy) = (sx as int, sy as int);
    assert(channel(thumbnail, width, y, x, 0) == channel(image, src_w, cy, cx, 0));
    assert(channel(thumbnail, width, y, x, 1) == channel(image, src_w, cy, cx, 1));
    assert(channel(thumbnail, width, y, x, 2) == channel(image, src_w, cy, cx, 2));
    (value(scale), cx, cy)
}

/// A factor of 1 is the only one that fits an image that is not larger than the square.
proof fn lemma_fits_as_it_is(scale: real, width: u32, height: u32, max_dim: u32)
    requires
        is_fit(scale, width, height, max_dim),
        0 < width <= max_dim,
        0 < height <= max_dim,
    ensures
        scale == 1real,
{
    let (w, h, m) = (width as real, height as real, max_dim as real);
    lemma_back_and_over(scale, w);
    lemma_back_and_over(1real, w);
    lemma_back_and_over(scale, h);
    lemma_back_and_over(1real, h);
    crate::reals::lemma_commute(1real, w);
    crate::reals::lemma_commute(1real, h);
    lemma_times_one(w, 1real);
    lemma_times_one(h, 1real);
    lemma_order_times(scale, 1real, w);
    lemma_order_times(scale, 1real, h);
}

proof fn lemma_own_side(extent: u32, scaled: u32)
    requires
        is_scaled(1real, extent, scaled),
        extent > 0,
    ensures
        scaled == extent,
{
    crate::reals::lemma_commute(1real, extent as real);
    lemma_times_one(extent as real, 1real);
    assert((scaled as int - extent as int) as real == scaled as real - extent as real);
}

proof fn lemma_own_source(extent: u32, i: int, source: int)
    requires
        is_source(1real, extent, i, source),
        0 <= i < extent,
    ensures
        source == i,
{
    lemma_times_one(source as real, 1real);
    lemma_times_one(source as real + 1real, 1real);
    assert((source - i) as real == source as real - i as real);
}

/// An image that fits the square is its own thumbnail, byte for byte.
pub proof fn law_small_image_is_its_own_thumbnail<
    F: scalar::Scalar,
    R: Fn(F) -> F,
    T: Fn(F) -> u32,
>(
    value: spec_fn(F) -> real,
    finite: spec_fn(F) -> bool,
    round: R,
    truncate: T,
    image: Seq<u8>,
    src_w: u32,
    src_h: u32,
    max_dim: u32,
    thumbnail: Seq<u8>,
    width: u32,
    height: u32,
    x: int,
    y: int,
)
    requires
        is_exact(value, finite),
        rounds(value, finite, round),
        cuts(value, finite, truncate),
        0 < src_w <= max_dim,
        0 < src_h <= max_dim,
        0 <= x < width,
        0 <= y < height,
        thumbnail_extent(
            round,
            truncate,
            src_w,
            thumbnail_scale::<F>(src_w, src_h, max_dim),
            width,
        ),
        thumbnail_extent(
            round,
            truncate,
            src_h,
            thumbnail_scale::<F>(src_w, src_h, max_dim),
            height,
        ),
        thumbnail_pixel(
            truncate,
            image,
            src_w,
            src_h,
            thumbnail_scale::<F>(src_w, src_h, max_dim),
            thumbnail,
            width,
            y,
            x,
        ),
    ensures
        width == src_w,
        height == src_h,
        thumbnail[(y * width + x) * 3] == image[(y * width + x) * 3],
        thumbnail[(y * width + x) * 3 + 1] == image[(y * width + x) * 3 + 1],
        thumbnail[(y * width + x) * 3 + 2] == image[(y * width + x) * 3 + 2],
{
    let (scale, sx, sy) = law_thumbnail_covers_its_image(
        value,
        finite,
        round,
        truncate,
        image,
        src_w,
        src_h,
        max_dim,
        thumbnail,
        width,
        height,
        x,
        y,
    );
    lemma_fits_as_it_is(scale, src_w, src_h, max_dim);
    lemma_own_side(src_w, width);
    lemma_own_side(src_h, height);
    lemma_own_source(src_w, x, sx);
    lemma_own_source(src_h, y, sy);
}

/// Pixel `(x, y)` of a thumbnail is the pixel of the image that its centre falls on at
/// the one factor that fits the image and scales both of its sides.
pub open spec fn is_covered(
    image: Seq<u8>,
    src_w: u32,
    src_h: u32,
    max_dim: u32,
    thumbnail: Seq<u8>,
    width: u32,
    height: u32,
    x: int,
    y: int,
) -> bool {
    exists|scale: real, sx: int, sy: int|
        {
            &&& is_fit(scale, src_w, src_h, max_dim)
            &&& is_scaled(scale, src_w, width)
            &&& is_scaled(scale, src_h, height)
            &&& #[trigger] is_source(scale, src_w, x, sx)
            &&& #[trigger] is_source(scale, src_h, y, sy)
            &&& thumbnail[(y * width + x) * 3] == image[(sy * src_w + sx) * 3]
            &&& thumbnail[(y * width + x) * 3 + 1] == image[(sy * src_w + sx) * 3 + 1]
            &&& thumbnail[(y * width + x) * 3 + 2] == image[(sy * src_w + sx) * 3 + 2]
        }
}

/// The thumbnail covers the image evenly, for numbers that compute exactly.
pub open spec fn covers_image<F: scalar::Scalar, R: Fn(F) -> F, T: Fn(F) -> u32>(
    round: R,
    truncate: T,
    image: Seq<u8>,
    src_w: u32,
    src_h: u32,
    max_dim: u32,
    thumbnail: Seq<u8>,
    width: u32,
    height: u32,
) -> bool {
    max_dim > 0 && (exists|value: spec_fn(F) -> real, finite: spec_fn(F) -> bool|
        #![trigger rounds(value, finite, round), cuts(value, finite, truncate)]
        is_exact(value, finite) && rounds(value, finite, round) && cuts(value, finite, truncate))
        ==> forall|x: int, y: int|
        0 <= x < width && 0 <= y < height ==> #[trigger] is_covered(
            image,
            src_w,
            src_h,
            max_dim,
            thumbnail,
            width,
            height,
            x,
            y,
        )
}

pub(crate) proof fn lemma_covers_image<F: scalar::Scalar, R: Fn(F) -> F, T: Fn(F) -> u32>(
    round: R,
    truncate: T,
    image: Seq<u8>,
    src_w: u32,
    src_h: u32,
    max_dim: u32,
    thumbnail: Seq<u8>,
    width: u32,
    height: u32,
)
    requires
        src_w > 0,
        src_h > 0,
        thumbnail_extent(
            round,
            truncate,
            src_w,
            thumbnail_scale::<F>(src_w, src_h, max_dim),
            width,
        ),
        thumbnail_extent(
            round,
            truncate,
            src_h,
            thumbnail_scale::<F>(src_w, src_h, max_dim),
            height,
        ),
        forall|y: int, x: int|
            0 <= y < height && 0 <= x < width ==> #[trigger] thumbnail_pixel(
                truncate,
                image,
                src_w,
                src_h,
                thumbnail_scale::<F>(src_w, src_h, max_dim),
                thumbnail,
                width,
                y,
                x,
            ),
    ensures
        covers_image::<F, R, T>(
            round,
            truncate,
            image,
            src_w,
            src_h,
            max_dim,
            thumbnail,
            width,
            height,
        ),
{
    if max_dim > 0 && exists|value: spec_fn(F) -> real, finite: spec_fn(F) -> bool|
        #![trigger rounds(value, finite, round), cuts(value, finite, truncate)]
        is_exact(value, finite) && rounds(value, finite, round) && cuts(value, finite, truncate) {
        let (value, finite) = choose|value: spec_fn(F) -> real, finite: spec_fn(F) -> bool|
            #![trigger rounds(value, finite, round), cuts(value, finite, truncate)]
            is_exact(value, finite) && rounds(value, finite, round) && cuts(
                value,
                finite,
                truncate,
            );
        assert forall|x: int, y: int| 0 <= x < width && 0 <= y < height implies #[trigger] is_covered(
            image,
            src_w,
            src_h,
            max_dim,
            thumbnail,
            width,
            height,
            x,
            y,
        ) by {
            assert(thumbnail_pixel(
                truncate,
                image,
                src_w,
                src_h,
                thumbnail_scale::<F>(src_w, src_h, max_dim),
                thumbnail,
                width,
                y,
                x,
            ));
            let (scale, sx, sy) = law_thumbnail_covers_its_image(
                value,
                finite,
                round,
                truncate,
                image,
                src_w,
                src_h,
                max_dim,
                thumbnail,
                width,
                height,
                x,
                y,
            );
            assert(is_source(scale, src_w, x, sx) && is_source(scale, src_h, y, sy));
        }
    }
}

} // verus!
