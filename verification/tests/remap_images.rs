use camera_dewarp::calibration::DjiCalibration;
use camera_dewarp::remap::{build_undistort_lut, cpu_remap, make_thumbnail, RemapLut};

fn floor(v: f64) -> i64 {
    v.floor() as i64
}

fn round(v: f64) -> f64 {
    v.round()
}

fn to_byte(v: f64) -> u8 {
    v as u8
}

#[test]
fn identity_table_keeps_the_image() {
    let (w, h) = (3u32, 3u32);
    let src: Vec<u8> = (0..27).collect();
    let mut map_x: Vec<f32> = Vec::new();
    let mut map_y: Vec<f32> = Vec::new();
    for y in 0..h {
        for x in 0..w {
            map_x.push(x as f32);
            map_y.push(y as f32);
        }
    }
    let lut = RemapLut { map_x, map_y, width: w, height: h };
    let out = cpu_remap(&src, w, h, &lut, &floor, &round, &to_byte);
    assert_eq!(out, src);
}

#[test]
fn small_image_keeps_its_size() {
    let src: Vec<u8> = (0..12).collect();
    let truncate = |v: f64| v as u32;
    let (out, w, h) = make_thumbnail(&src, 2, 2, 300, &round, &truncate);
    assert_eq!((w, h), (2, 2));
    assert_eq!(out, src);
}

fn table(places: &[(f32, f32)], width: u32, height: u32) -> RemapLut<f32> {
    RemapLut {
        map_x: places.iter().map(|p| p.0).collect(),
        map_y: places.iter().map(|p| p.1).collect(),
        width,
        height,
    }
}

#[test]
fn places_between_pixels_are_interpolated() {
    let src = [0u8, 10, 20, 100, 110, 120, 200, 210, 220, 40, 50, 60];
    let lut = table(&[(0.5, 0.5), (0.25, 0.0), (0.0, 0.75)], 3, 1);
    let out = cpu_remap(&src, 2, 2, &lut, &floor, &round, &to_byte);
    assert_eq!(out, vec![85, 95, 105, 25, 35, 45, 150, 160, 170]);
}

#[test]
fn places_outside_are_black() {
    let src = [255u8; 12];
    let lut = table(
        &[
            (-0.01, 0.0),
            (0.0, -0.01),
            (1.01, 0.0),
            (0.0, 1.01),
            (f32::INFINITY, 0.0),
            (0.0, f32::NEG_INFINITY),
            (f32::MAX, f32::MAX),
            (f32::NAN, 0.0),
            (2.0, 0.0),
            (0.99, 0.99),
            (1.0, 0.0),
            (0.0, 1.0),
            (1.0, 1.0),
        ],
        13,
        1,
    );
    let out = cpu_remap(&src, 2, 2, &lut, &floor, &round, &to_byte);
    assert_eq!(&out[..27], &[0u8; 27][..]);
    assert_eq!(&out[27..], &[255u8; 12][..]);
}

#[test]
fn cropped_image_of_a_plain_lens_has_no_black_edges() {
    let cal = DjiCalibration {
        fx: 1.0,
        fy: 1.0,
        cx: 1.0,
        cy: 1.0,
        k1: 0.0,
        k2: 0.0,
        k3: 0.0,
        p1: 0.0,
        p2: 0.0,
        calibration_date: String::new(),
        dewarp_flag: 0,
    };
    let lut = build_undistort_lut(&cal, 3, 3, 0.0, &|v: f64| v as f32);
    let out = cpu_remap(&[255u8; 27], 3, 3, &lut, &floor, &round, &to_byte);
    assert_eq!(out, vec![255u8; 27]);
    let src: Vec<u8> = (0..27).collect();
    assert_eq!(cpu_remap(&src, 3, 3, &lut, &floor, &round, &to_byte), src);
}

#[test]
fn last_column_is_interpolated_along_its_rows() {
    let src = [0u8, 0, 0, 100, 100, 100, 0, 0, 0, 200, 200, 200];
    let lut = table(&[(1.0, 0.5), (0.5, 1.0)], 2, 1);
    let out = cpu_remap(&src, 2, 2, &lut, &floor, &round, &to_byte);
    assert_eq!(out, vec![150, 150, 150, 100, 100, 100]);
    let one = table(&[(0.0, 0.0)], 1, 1);
    assert_eq!(cpu_remap(&[7, 8, 9], 1, 1, &one, &floor, &round, &to_byte), vec![7, 8, 9]);
}

#[test]
fn table_without_rows_gives_no_image() {
    let lut = table(&[], 4, 0);
    assert!(cpu_remap(&[], 0, 0, &lut, &floor, &round, &to_byte).is_empty());
}

#[test]
fn thumbnail_takes_the_nearest_pixels() {
    let src: Vec<u8> = (0..24).collect();
    let truncate = |v: f64| v as u32;
    let (out, w, h) = make_thumbnail(&src, 4, 2, 2, &round, &truncate);
    assert_eq!((w, h), (2, 1));
    assert_eq!(out, vec![15, 16, 17, 21, 22, 23]);
}

#[test]
fn thumbnail_has_one_pixel_at_least() {
    let src: Vec<u8> = (0..30).collect();
    let truncate = |v: f64| v as u32;
    let (out, w, h) = make_thumbnail(&src, 10, 1, 2, &round, &truncate);
    assert_eq!((w, h), (2, 1));
    assert_eq!(out, vec![6, 7, 8, 21, 22, 23]);
}

#[test]
fn thumbnail_fits_its_square() {
    let truncate = |v: f64| v as u32;
    let size = |w: u32, h: u32, max_dim: u32| {
        let src = vec![9u8; (w * h * 3) as usize];
        let (out, tw, th) = make_thumbnail(&src, w, h, max_dim, &round, &truncate);
        assert_eq!(out.len(), (tw * th * 3) as usize);
        (tw, th)
    };
    assert_eq!(size(400, 300, 100), (100, 75));
    assert_eq!(size(7, 3, 3), (3, 1));
    assert_eq!(size(1, 500, 300), (1, 300));
    assert_eq!(size(30, 20, 30), (30, 20));
    for w in 1..25 {
        for h in 1..25 {
            for max_dim in [1, 2, 3, 7, 11, 24] {
                let (tw, th) = size(w, h, max_dim);
                assert!(tw <= max_dim && th <= max_dim);
                if w <= max_dim && h <= max_dim {
                    assert_eq!((tw, th), (w, h));
                } else {
                    assert!(tw == max_dim || th == max_dim);
                }
            }
        }
    }
}
