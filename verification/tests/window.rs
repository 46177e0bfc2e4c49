use camera_dewarp::calibration::DjiCalibration;
use camera_dewarp::gui::{output_folder_name, DewarpGui};
use camera_dewarp::pipeline::{BatchSummary, PreviewData, ProgressMsg};

fn cal(flag: i32) -> DjiCalibration<f64> {
    DjiCalibration {
        fx: 3700.456,
        fy: 3701.5,
        cx: 2640.0,
        cy: 1978.25,
        k1: -0.11234,
        k2: 0.5,
        k3: 0.25,
        p1: 0.125,
        p2: -1.0,
        calibration_date: "2023-04-05".to_string(),
        dewarp_flag: flag,
    }
}

fn fixed(v: f64, digits: usize) -> String {
    format!("{v:.digits$}")
}

fn count(n: usize) -> f64 {
    n as f64
}

fn window() -> DewarpGui<f64> {
    let mut gui = DewarpGui::new();
    gui.input_folder = "mission".to_string();
    gui
}

#[test]
fn window_opens_ready() {
    let gui: DewarpGui<f64> = DewarpGui::new();
    assert_eq!(gui.status_msg, "Ready");
    assert_eq!((gui.input_folder.as_str(), gui.output_folder.as_str()), ("", ""));
    assert_eq!(gui.quality, 95);
    assert!(gui.crop_edges && gui.dewarp_enabled);
    assert!(!gui.use_gpu && !gui.recursive && !gui.reverse_mode && !gui.processing);
    assert!(!gui.cal_from_file && !gui.needs_cal_file && !gui.show_about && !gui.show_calibration);
    assert!(gui.calibration.is_none());
    assert_eq!((gui.image_count, gui.progress_current, gui.progress_total), (0, 0, 0));
    assert_eq!((gui.progress_name.as_str(), gui.images_per_sec), ("", 0.0));
}

#[test]
fn no_folder_is_not_loaded() {
    let mut gui: DewarpGui<f64> = DewarpGui::new();
    assert!(!gui.load_input_folder(5, Some(cal(0))));
    assert_eq!((gui.image_count, gui.status_msg.as_str()), (0, "Ready"));
    assert!(gui.calibration.is_none());
}

#[test]
fn empty_folder_forgets_the_calibration() {
    let mut gui = window();
    gui.calibration = Some(cal(0));
    assert!(!gui.load_input_folder(0, None));
    assert_eq!(gui.status_msg, "No supported images in folder.");
    assert!(gui.calibration.is_none() && !gui.needs_cal_file);
}

#[test]
fn folder_with_calibration_sets_the_mode() {
    let mut gui = window();
    gui.cal_from_file = true;
    assert!(gui.load_input_folder(12, Some(cal(0))));
    assert_eq!(gui.status_msg, "12 images found  |  Mode: Dewarp");
    assert!(!gui.reverse_mode && !gui.cal_from_file && !gui.needs_cal_file);
    assert!(gui.load_input_folder(3556, Some(cal(1))));
    assert_eq!(gui.status_msg, "3556 images found  |  Mode: REVERSE");
    assert!(gui.reverse_mode);
    assert_eq!(gui.calibration.unwrap().dewarp_flag, 1);
}

#[test]
fn folder_without_calibration_asks_for_a_file() {
    let mut gui = window();
    gui.calibration = Some(cal(0));
    assert!(!gui.load_input_folder(7, None));
    assert_eq!(
        gui.status_msg,
        "7 images — no embedded calibration. Load a calibration file to proceed."
    );
    assert!(gui.calibration.is_none() && gui.needs_cal_file && gui.reverse_mode);
}

#[test]
fn calibration_from_a_file_is_kept() {
    let mut gui = window();
    gui.load_input_folder(7, None);
    assert!(gui.load_calibration_file(Some(cal(3))));
    assert_eq!(gui.status_msg, "7 images  |  Calibration loaded from file  |  Mode: REVERSE");
    assert!(gui.cal_from_file && !gui.needs_cal_file && gui.reverse_mode);
    assert_eq!(gui.calibration.as_ref().unwrap().dewarp_flag, 0);
    assert!(gui.load_input_folder(8, None));
    assert!(gui.cal_from_file && !gui.reverse_mode);
    assert_eq!(gui.status_msg, "8 images found  |  Mode: Dewarp");
}

#[test]
fn calibration_file_without_calibration_is_reported() {
    let mut gui = window();
    assert!(!gui.load_calibration_file(None));
    assert_eq!(gui.status_msg, "Failed to parse calibration file.");
    assert!(gui.calibration.is_none() && !gui.cal_from_file);
}

#[test]
fn batch_starts_with_the_settings_of_the_window() {
    let mut gui = window();
    gui.calibration = Some(cal(0));
    gui.cal_from_file = true;
    gui.reverse_mode = true;
    gui.crop_edges = false;
    gui.recursive = true;
    gui.quality = 80;
    gui.progress_current = 5;
    let settings = gui.start_processing("mission_warped".to_string()).unwrap();
    assert_eq!((settings.quality, settings.alpha), (80, 1.0));
    assert!(settings.recursive && !settings.use_gpu);
    assert_eq!(settings.reverse, Some(true));
    assert_eq!(settings.external_cal.unwrap().fx, 3700.456);
    assert_eq!(gui.output_folder, "mission_warped");
    assert!(gui.processing);
    assert_eq!((gui.progress_current, gui.progress_total), (0, 0));
    assert!(gui.start_processing("other".to_string()).is_none());
    assert_eq!(gui.output_folder, "mission_warped");
}

#[test]
fn batch_keeps_a_given_output_folder() {
    let mut gui = window();
    gui.calibration = Some(cal(0));
    gui.output_folder = "out".to_string();
    let settings = gui.start_processing("mission_dewarped".to_string()).unwrap();
    assert_eq!(gui.output_folder, "out");
    assert_eq!((settings.alpha, settings.reverse), (0.0, Some(false)));
    assert!(settings.external_cal.is_none());
    let mut empty: DewarpGui<f64> = DewarpGui::new();
    assert!(empty.start_processing("x".to_string()).is_none());
    assert!(!empty.processing);
}

#[test]
fn output_folder_is_named_after_the_input() {
    assert_eq!(output_folder_name(b"mission", false), "mission_dewarped");
    assert_eq!(output_folder_name(b"mission", true), "mission_warped");
    assert_eq!(output_folder_name(b"", false), "_dewarped");
}

#[test]
fn messages_of_a_batch_move_the_window() {
    let mut gui = window();
    gui.start_processing("out".to_string());
    let (preview, over) =
        gui.poll_progress(ProgressMsg::CalibrationLoaded(cal(4)), Some(0.1), &count, &fixed);
    assert!(preview.is_none() && !over);
    assert_eq!(gui.calibration.as_ref().unwrap().dewarp_flag, 4);

    let image = |current| ProgressMsg::Processing { current, total: 40, name: "a.jpg".to_string() };
    gui.poll_progress(image(1), Some(0.5), &count, &fixed);
    assert_eq!(gui.images_per_sec, 0.0);
    gui.poll_progress(image(2), None, &count, &fixed);
    assert_eq!(gui.images_per_sec, 0.0);
    gui.poll_progress(image(30), Some(2.0), &count, &fixed);
    assert_eq!((gui.progress_current, gui.progress_total), (30, 40));
    assert_eq!((gui.progress_name.as_str(), gui.images_per_sec), ("a.jpg", 15.0));
    assert_eq!(gui.progress(), Some((30, 40)));
    assert_eq!(gui.progress_text(&fixed), "30 / 40   15.0 img/s   a.jpg");

    let data =
        PreviewData { original_thumb: vec![1, 2, 3], dewarped_thumb: vec![4, 5, 6], thumb_w: 1, thumb_h: 1 };
    let (preview, over) = gui.poll_progress(ProgressMsg::Preview(data), Some(3.0), &count, &fixed);
    assert_eq!(preview.unwrap().dewarped_thumb, vec![4, 5, 6]);
    assert!(!over && gui.processing);

    let summary = BatchSummary { total: 40, processed: 38, skipped: 2, elapsed_secs: 4.0 };
    let (_, over) = gui.poll_progress(ProgressMsg::Done(summary), Some(4.0), &count, &fixed);
    assert!(over && !gui.processing);
    assert_eq!(gui.status_msg, "Done! 38/40 images in 4.0s (9.5 img/s)");
}

#[test]
fn very_short_batch_has_a_finite_rate() {
    let mut gui = window();
    let summary = BatchSummary { total: 1, processed: 1, skipped: 0, elapsed_secs: 0.0 };
    gui.poll_progress(ProgressMsg::Done(summary), None, &count, &fixed);
    assert_eq!(gui.status_msg, "Done! 1/1 images in 0.0s (1000.0 img/s)");
}

#[test]
fn error_ends_the_batch() {
    let mut gui = window();
    gui.start_processing("out".to_string());
    let (preview, over) =
        gui.poll_progress(ProgressMsg::Error("Cannot read x".to_string()), Some(1.0), &count, &fixed);
    assert!(preview.is_none() && over && !gui.processing);
    assert_eq!(gui.status_msg, "Error: Cannot read x");
}

#[test]
fn button_needs_folder_calibration_and_consent() {
    let mut gui = window();
    assert!(!gui.button_enabled());
    gui.calibration = Some(cal(0));
    assert!(gui.button_enabled());
    assert_eq!(gui.button_label(), "  Dewarp Batch  ");
    assert_eq!(gui.preview_label(), "Preview  (Original | Dewarped)");
    gui.reverse_mode = true;
    assert_eq!(gui.button_label(), "  Re-distort Batch  ");
    assert_eq!(gui.preview_label(), "Preview  (Dewarped | Re-distorted)");
    gui.dewarp_enabled = false;
    assert!(!gui.button_enabled());
    gui.dewarp_enabled = true;
    gui.processing = true;
    assert!(!gui.button_enabled());
    gui.processing = false;
    gui.input_folder = String::new();
    assert!(!gui.button_enabled());
}

#[test]
fn calibration_is_shown_in_words() {
    let mut gui = window();
    assert_eq!(gui.calibration_header(&fixed), "Lens Calibration  (no image loaded)");
    assert_eq!(
        gui.calibration_lines(&fixed),
        vec!["Load a folder with DJI images to see calibration data."]
    );
    assert!(!gui.calibration_open());
    gui.needs_cal_file = true;
    assert_eq!(gui.calibration_header(&fixed), "Lens Calibration  (not found — load file)");
    assert_eq!(
        gui.calibration_lines(&fixed),
        vec!["No embedded DewarpData. Load a calibration file extracted from a raw capture."]
    );
    assert!(gui.calibration_open());
    gui.needs_cal_file = false;
    gui.calibration = Some(cal(-1));
    assert_eq!(
        gui.calibration_header(&fixed),
        "Lens Calibration   (fx=3700.5  k1=-0.1123  Flag: -1  src: XMP)"
    );
    gui.cal_from_file = true;
    assert!(gui.calibration_header(&fixed).ends_with("src: file)"));
    assert_eq!(
        gui.calibration_lines(&fixed),
        vec![
            "Cal: 2023-04-05   fx=3700.46  fy=3701.50   cx=2640.00  cy=1978.25",
            "k1=-0.11234000  k2=0.50000000  k3=0.25000000  p1=0.12500000  p2=-1.00000000",
        ]
    );
    assert_eq!(gui.progress(), None);
    assert_eq!(gui.progress_text(&fixed), "0 / 0   0.0 img/s   ");
}

#[test]
fn preview_needs_a_calibration() {
    let narrow = |v: f64| v as f32;
    let floor = |v: f64| v.floor() as i64;
    let round = |v: f64| v.round();
    let to_byte = |v: f64| v as u8;
    let truncate = |v: f64| v as u32;
    let rgb = [50u8, 60, 70].repeat(800 * 4);
    let mut gui = window();
    assert!(gui
        .generate_preview(&rgb, 800, 4, &narrow, &floor, &round, &to_byte, &truncate)
        .is_none());
    gui.calibration = Some(DjiCalibration {
        fx: 300.0,
        fy: 300.0,
        cx: 200.0,
        cy: 1.0,
        k1: 0.0,
        k2: 0.0,
        k3: 0.0,
        p1: 0.0,
        p2: 0.0,
        calibration_date: String::new(),
        dewarp_flag: 0,
    });
    let preview = gui
        .generate_preview(&rgb, 800, 4, &narrow, &floor, &round, &to_byte, &truncate)
        .unwrap();
    assert_eq!((preview.thumb_w, preview.thumb_h), (400, 2));
    assert_eq!(preview.original_thumb, [50u8, 60, 70].repeat(800));
    assert_eq!(preview.dewarped_thumb.len(), 2400);
    assert_eq!(&preview.dewarped_thumb[300..303], &[50, 60, 70]);
}
