use camera_dewarp::calibration::DjiCalibration;
use camera_dewarp::cli::{default_output_name, info_lines, message_print, Print};
use camera_dewarp::pipeline::{BatchSummary, PreviewData, ProgressMsg};

fn cal(flag: i32) -> DjiCalibration<f64> {
    DjiCalibration {
        fx: 1.0,
        fy: 2.0,
        cx: 3.0,
        cy: 4.0,
        k1: 5.0,
        k2: 6.0,
        k3: 7.0,
        p1: 8.0,
        p2: -0.5,
        calibration_date: "day".to_string(),
        dewarp_flag: flag,
    }
}

fn fixed(v: f64, digits: usize) -> String {
    format!("{v:.digits$}")
}

fn count(n: usize) -> f64 {
    n as f64
}

fn lines(message: ProgressMsg<f64>) -> Vec<String> {
    match message_print(&message, "in/out", &count, &fixed) {
        Print::Lines(lines) => lines,
        Print::Failure(line) => panic!("failed with {line}"),
    }
}

#[test]
fn output_folder_stands_beside_the_input() {
    assert_eq!(default_output_name(b"mission"), "mission_dewarped");
    assert_eq!(default_output_name(b"photo.jpg"), "photo.jpg_dewarped");
    assert_eq!(default_output_name(b"m\xFF"), "m\u{FFFD}_dewarped");
}

#[test]
fn info_is_printed_line_by_line() {
    assert_eq!(
        info_lines(b"a.jpg", &cal(0), &fixed),
        vec![
            "Image:       a.jpg",
            "DewarpFlag:  0  (needs dewarping)",
            "Calibration: day",
            "  fx = 1.000000",
            "  fy = 2.000000",
            "  cx = 3.000000",
            "  cy = 4.000000",
            "  k1 = 5.000000000000",
            "  k2 = 6.000000000000",
            "  k3 = 7.000000000000",
            "  p1 = 8.000000000000",
            "  p2 = -0.500000000000",
        ]
    );
    assert_eq!(info_lines(b"a", &cal(1), &fixed)[1], "DewarpFlag:  1  (already dewarped)");
    assert_eq!(
        info_lines(b"a", &cal(i32::MIN), &fixed)[1],
        "DewarpFlag:  -2147483648  (already dewarped)"
    );
}

#[test]
fn reverse_mode_is_announced() {
    assert!(lines(ProgressMsg::CalibrationLoaded(cal(0))).is_empty());
    assert_eq!(
        lines(ProgressMsg::CalibrationLoaded(cal(-1))),
        vec!["  DewarpFlag=-1 -> REVERSE mode (re-applying barrel distortion)\n"]
    );
}

#[test]
fn images_are_listed_as_they_are_begun() {
    let message = ProgressMsg::Processing { current: 9, total: 100, name: "x.png".to_string() };
    assert_eq!(lines(message), vec!["  [9/100] x.png"]);
    let preview =
        PreviewData { original_thumb: vec![], dewarped_thumb: vec![], thumb_w: 0, thumb_h: 0 };
    assert!(lines(ProgressMsg::Preview(preview)).is_empty());
}

#[test]
fn summary_is_printed_at_the_end() {
    let summary = BatchSummary { total: 8, processed: 8, skipped: 0, elapsed_secs: 10.0 };
    assert_eq!(
        lines(ProgressMsg::Done(summary)),
        vec!["\nProcessed 8/8 images in 10.0s (1.25s/image)", "Output: in/out"]
    );
    let nothing = BatchSummary { total: 2, processed: 0, skipped: 2, elapsed_secs: 0.5 };
    assert_eq!(
        lines(ProgressMsg::Done(nothing)),
        vec!["\nProcessed 0/2 images in 0.5s (0.50s/image)", "Skipped: 2", "Output: in/out"]
    );
}

#[test]
fn error_fails_the_tool() {
    let message: ProgressMsg<f64> = ProgressMsg::Error("Cannot read x".to_string());
    match message_print(&message, "out", &count, &fixed) {
        Print::Failure(line) => assert_eq!(line, "Error: Cannot read x"),
        Print::Lines(_) => panic!("went on"),
    }
}
