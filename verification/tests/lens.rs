use camera_dewarp::calibration::DjiCalibration;
use camera_dewarp::remap::{
    build_redistort_lut, build_undistort_lut, compute_new_camera_params, undistort_point,
};

fn cal() -> DjiCalibration<f64> {
    DjiCalibration {
        fx: 36.5,
        fy: 37.25,
        cx: 24.75,
        cy: 15.5,
        k1: -0.112,
        k2: 0.0145,
        k3: -0.0012,
        p1: 0.00021,
        p2: -0.00037,
        calibration_date: String::new(),
        dewarp_flag: 0,
    }
}

fn pinhole() -> DjiCalibration<f64> {
    DjiCalibration { k1: 0.0, k2: 0.0, k3: 0.0, p1: 0.0, p2: 0.0, ..cal() }
}

fn narrow(v: f64) -> f32 {
    v as f32
}

fn distort(x: f64, y: f64, cal: &DjiCalibration<f64>) -> (f64, f64) {
    let r2 = x * x + y * y;
    let r4 = r2 * r2;
    let r6 = r4 * r2;
    let radial = 1.0 + cal.k1 * r2 + cal.k2 * r4 + cal.k3 * r6;
    (
        x * radial + 2.0 * cal.p1 * x * y + cal.p2 * (r2 + 2.0 * x * x),
        y * radial + cal.p1 * (r2 + 2.0 * y * y) + 2.0 * cal.p2 * x * y,
    )
}

fn undistort(x_d: f64, y_d: f64, cal: &DjiCalibration<f64>) -> (f64, f64) {
    let mut x = x_d;
    let mut y = y_d;
    for _ in 0..50 {
        let r2 = x * x + y * y;
        let r4 = r2 * r2;
        let r6 = r4 * r2;
        let radial = 1.0 + cal.k1 * r2 + cal.k2 * r4 + cal.k3 * r6;
        let dx = 2.0 * cal.p1 * x * y + cal.p2 * (r2 + 2.0 * x * x);
        let dy = cal.p1 * (r2 + 2.0 * y * y) + 2.0 * cal.p2 * x * y;
        x = (x_d - dx) / radial;
        y = (y_d - dy) / radial;
    }
    (x, y)
}

fn camera(cal: &DjiCalibration<f64>, width: u32, height: u32, alpha: f64) -> (f64, f64, f64, f64) {
    let (w, h) = (width as f64, height as f64);
    let alpha = alpha.clamp(0.0, 1.0);
    let (mut top, mut bottom, mut left, mut right) = (vec![], vec![], vec![], vec![]);
    for i in 0..200 {
        let t = i as f64 / 199.0;
        let x = (t * (w - 1.0) - cal.cx) / cal.fx;
        let y = (t * (h - 1.0) - cal.cy) / cal.fy;
        top.push(undistort(x, (0.0 - cal.cy) / cal.fy, cal));
        bottom.push(undistort(x, ((h - 1.0) - cal.cy) / cal.fy, cal));
        left.push(undistort((0.0 - cal.cx) / cal.fx, y, cal));
        right.push(undistort(((w - 1.0) - cal.cx) / cal.fx, y, cal));
    }
    let high = |points: &[(f64, f64)], vertical: bool| {
        points.iter().map(|p| if vertical { p.1 } else { p.0 }).fold(f64::NEG_INFINITY, f64::max)
    };
    let low = |points: &[(f64, f64)], vertical: bool| {
        points.iter().map(|p| if vertical { p.1 } else { p.0 }).fold(f64::INFINITY, f64::min)
    };
    let all = [top.clone(), bottom.clone(), left.clone(), right.clone()].concat();
    let blend = |inner: f64, outer: f64| inner + alpha * (outer - inner);
    let x_left = blend(high(&left, false), low(&all, false));
    let x_right = blend(low(&right, false), high(&all, false));
    let y_top = blend(high(&top, true), low(&all, true));
    let y_bottom = blend(low(&bottom, true), high(&all, true));
    let fx = (w - 1.0) / (x_right - x_left);
    let fy = (h - 1.0) / (y_bottom - y_top);
    (fx, fy, -x_left * fx, -y_top * fy)
}

#[test]
fn undistorted_point_is_the_fixed_point() {
    let (x, y) = undistort_point(0.31, -0.22, &cal());
    assert_eq!((x, y), undistort(0.31, -0.22, &cal()));
    let (x_d, y_d) = distort(x, y, &cal());
    assert!((x_d - 0.31).abs() < 1e-14 && (y_d + 0.22).abs() < 1e-14);
}

#[test]
fn lens_without_distortion_keeps_points() {
    assert_eq!(undistort_point(0.5, -0.25, &pinhole()), (0.5, -0.25));
}

#[test]
fn new_camera_is_computed_from_the_borders() {
    for alpha in [0.0, 0.3, 1.0] {
        let new = compute_new_camera_params(&cal(), 50, 32, alpha);
        assert_eq!((new.fx, new.fy, new.cx, new.cy), camera(&cal(), 50, 32, alpha));
    }
}

#[test]
fn alpha_beyond_its_range_is_held_at_the_nearer_end() {
    let at = |alpha: f64| {
        let new = compute_new_camera_params(&cal(), 50, 32, alpha);
        (new.fx, new.fy, new.cx, new.cy)
    };
    assert_eq!(at(-3.0), at(0.0));
    assert_eq!(at(7.5), at(1.0));
    assert_ne!(at(0.0), at(1.0));
}

#[test]
fn undistort_table_follows_the_forward_model() {
    let cal = cal();
    let (fx, fy, cx, cy) = camera(&cal, 50, 32, 0.25);
    let lut = build_undistort_lut(&cal, 50, 32, 0.25, &narrow);
    assert_eq!((lut.width, lut.height), (50, 32));
    assert_eq!((lut.map_x.len(), lut.map_y.len()), (1600, 1600));
    for row in 0..32usize {
        for col in 0..50usize {
            let (x_d, y_d) = distort((col as f64 - cx) / fx, (row as f64 - cy) / fy, &cal);
            assert_eq!(lut.map_x[row * 50 + col], (x_d * cal.fx + cal.cx) as f32);
            assert_eq!(lut.map_y[row * 50 + col], (y_d * cal.fy + cal.cy) as f32);
        }
    }
}

#[test]
fn redistort_table_inverts_the_model() {
    let cal = cal();
    let (fx, fy, cx, cy) = camera(&cal, 50, 32, 0.0);
    let lut = build_redistort_lut(&cal, 50, 32, &narrow);
    for row in 0..32usize {
        for col in 0..50usize {
            let (x, y) =
                undistort((col as f64 - cal.cx) / cal.fx, (row as f64 - cal.cy) / cal.fy, &cal);
            assert_eq!(lut.map_x[row * 50 + col], (x * fx + cx) as f32);
            assert_eq!(lut.map_y[row * 50 + col], (y * fy + cy) as f32);
        }
    }
}

#[test]
fn cropped_table_stays_inside_the_image() {
    let lut = build_undistort_lut(&cal(), 50, 32, 0.0, &narrow);
    for (x, y) in lut.map_x.iter().zip(&lut.map_y) {
        assert!(-0.01 <= *x && *x <= 49.01 && -0.01 <= *y && *y <= 31.01);
    }
}

#[test]
fn table_of_no_rows_is_empty() {
    let lut = build_undistort_lut(&cal(), 5, 0, 0.0, &narrow);
    assert_eq!((lut.map_x.len(), lut.width, lut.height), (0, 5, 0));
}

#[test]
fn larger_alpha_never_narrows_the_view() {
    let lenses = [cal(), pinhole(), DjiCalibration { k1: 0.08, k2: 0.01, ..cal() }];
    for lens in lenses {
        let at = |alpha: f64| {
            let new = compute_new_camera_params(&lens, 50, 32, alpha);
            (new.fx, new.fy)
        };
        let (fx, fy) = at(0.0);
        assert!(fx > 0.0 && fx.is_finite() && fy > 0.0 && fy.is_finite());
        let alphas = [-1.0, -0.0, 0.0, 0.001, 0.25, 0.5, 0.75, 1.0, 2.0];
        for pair in alphas.windows(2) {
            let (less, more) = (at(pair[0]), at(pair[1]));
            assert!(more.0 <= less.0 && more.1 <= less.1, "{less:?} {more:?}");
        }
    }
    let wide = compute_new_camera_params(&cal(), 50, 32, 1.0);
    let narrow = compute_new_camera_params(&cal(), 50, 32, 0.0);
    assert!(wide.fx < narrow.fx && wide.fy < narrow.fy);
}
