use camera_dewarp::calibration::DjiCalibration;
use camera_dewarp::jpeg::extract_jpeg_metadata;
use camera_dewarp::paths::{is_supported_image, output_name, output_path};
use camera_dewarp::pipeline::{
    batch_dewarp, batch_preview, collect_images, mode_lut, process_image, shows_preview,
    BatchEvent, BatchSettings, BatchState, BatchSummary, Entry, Input, PreviewData, ProgressMsg,
};
use camera_dewarp::remap::{build_redistort_lut, build_undistort_lut, cpu_remap, RemapLut};

fn cal(flag: i32) -> DjiCalibration<f64> {
    DjiCalibration {
        fx: 9.0,
        fy: 9.5,
        cx: 4.0,
        cy: 3.0,
        k1: -0.05,
        k2: 0.01,
        k3: 0.0,
        p1: 0.001,
        p2: 0.002,
        calibration_date: "day".to_string(),
        dewarp_flag: flag,
    }
}

fn settings(reverse: Option<bool>, external_cal: Option<DjiCalibration<f64>>) -> BatchSettings<f64> {
    BatchSettings { quality: 95, alpha: 0.0, recursive: false, use_gpu: false, reverse, external_cal }
}

fn entry(path: &str, is_dir: bool, is_file: bool) -> Entry {
    Entry { path: path.split('/').map(|name| name.as_bytes().to_vec()).collect(), is_dir, is_file }
}

fn file(path: &str) -> Entry {
    entry(path, false, true)
}

#[test]
fn extensions_decide_what_is_an_image() {
    for name in ["a.jpg", "a.JPEG", "a.png", "a.Tif", "a.tiff", "a.bmp", "a.WebP", "a.b.jpg", "..png"] {
        assert!(is_supported_image(name.as_bytes()), "{name}");
    }
    for name in ["", "jpg", ".jpg", "a.jpg.txt", "a.", "a.gif", "a.jp", "a.jpgg", "a.jpg ", "a.ｊｐｇ"] {
        assert!(!is_supported_image(name.as_bytes()), "{name}");
    }
    assert!(!is_supported_image(b"a.jpg\xFF"));
    assert!(is_supported_image(b"\xFF.jpg"));
}

#[test]
fn single_file_is_its_own_batch() {
    assert_eq!(collect_images(&Input::File(b"photo.JPG".to_vec()), false), vec![0]);
    assert_eq!(collect_images(&Input::File(b"photo.txt".to_vec()), true), Vec::<usize>::new());
}

#[test]
fn images_of_a_folder_come_in_order() {
    let entries = vec![
        file("b.jpg"),
        file("notes.txt"),
        file("a10.jpg"),
        file("B.png"),
        entry("folder.jpg", true, false),
        file("a1.jpg"),
        entry("gone.jpg", false, false),
        file("a.jpg"),
    ];
    assert_eq!(collect_images(&Input::Folder(entries), false), vec![3, 7, 5, 2, 0]);
}

#[test]
fn walked_folders_are_ordered_by_their_paths() {
    let entries = vec![
        file("z.jpg"),
        file("sub/b.jpg"),
        entry("sub", true, false),
        file("sub.jpg"),
        file("sub/a/c.jpg"),
        entry("odd.jpg", false, false),
        file("sub-1/x.jpg"),
    ];
    let images = collect_images(&Input::Folder(entries), true);
    assert_eq!(images, vec![5, 4, 1, 6, 3, 0]);
    let paths = ["z.jpg", "sub/b.jpg", "sub", "sub.jpg", "sub/a/c.jpg", "odd.jpg", "sub-1/x.jpg"];
    let mut sorted: Vec<&std::path::Path> =
        images.iter().map(|&i| std::path::Path::new(paths[i])).collect();
    let listed = sorted.clone();
    sorted.sort();
    assert_eq!(listed, sorted);
}

#[test]
fn same_paths_keep_their_places() {
    let entries = vec![file("x.jpg"), file("a.jpg"), file("x.jpg"), file("a.jpg")];
    assert_eq!(collect_images(&Input::Folder(entries), false), vec![1, 3, 0, 2]);
    assert_eq!(collect_images(&Input::Folder(vec![]), true), Vec::<usize>::new());
}

#[test]
fn new_images_are_named_after_the_old() {
    assert_eq!(output_name(b"DJI_0001.JPG", false), "DJI_0001_dewarped.JPG");
    assert_eq!(output_name(b"DJI_0001.JPG", true), "DJI_0001_warped.JPG");
    assert_eq!(output_name(b"a.b.png", false), "a.b_dewarped.png");
    assert_eq!(output_name(b".png", true), ".png_warped.");
    assert_eq!(output_name(b"\xFF.tif", false), "\u{FFFD}_dewarped.tif");
}

#[test]
fn new_images_lie_in_the_folders_of_the_old() {
    let rel = |path: &str| -> Vec<Vec<u8>> {
        path.split('/').map(|name| name.as_bytes().to_vec()).collect()
    };
    assert_eq!(
        output_path(&rel("day/one/a.jpg"), false),
        (rel("day/one"), "a_dewarped.jpg".to_string())
    );
    assert_eq!(output_path(&rel("b.png"), true), (vec![], "b_warped.png".to_string()));
}

fn start(total: usize) -> BatchState<f64> {
    let (state, message) =
        batch_dewarp(BatchState::Listing, BatchEvent::Listed { total }, &settings(None, None));
    assert!(message.is_none());
    assert!(matches!(state, BatchState::Calibrating { total: t } if t == total));
    state
}

fn searched(embedded: Option<DjiCalibration<f64>>) -> BatchEvent<f64> {
    BatchEvent::Searched { file_name: b"first.jpg".to_vec(), embedded }
}

#[test]
fn batch_without_images_is_an_error() {
    let (state, message) =
        batch_dewarp(BatchState::Listing, BatchEvent::Listed { total: 0 }, &settings(None, None));
    assert!(matches!(state, BatchState::Ended));
    assert!(matches!(message, Some(ProgressMsg::Error(text)) if text == "No supported images found."));
}

#[test]
fn batch_without_calibration_is_an_error() {
    let (state, message) = batch_dewarp(start(2), searched(None), &settings(None, None));
    assert!(matches!(state, BatchState::Ended));
    assert!(matches!(message, Some(ProgressMsg::Error(text))
        if text == "No DJI DewarpData in first.jpg — load a calibration file"));
}

#[test]
fn batch_whose_first_image_cannot_be_read_is_an_error() {
    let settings = settings(None, Some(cal(0)));
    let (state, _) = batch_dewarp(start(2), searched(None), &settings);
    let event = BatchEvent::Opened { path: "in/first.jpg".to_string(), size: None };
    let (state, message) = batch_dewarp(state, event, &settings);
    assert!(matches!(state, BatchState::Ended));
    assert!(matches!(message, Some(ProgressMsg::Error(text)) if text == "Cannot read in/first.jpg"));
}

#[test]
fn calibration_decides_the_mode() {
    let mode = |embedded: Option<DjiCalibration<f64>>, settings: BatchSettings<f64>| {
        match batch_dewarp(start(1), searched(embedded), &settings) {
            (BatchState::Opening { total: 1, cal, reverse }, Some(ProgressMsg::CalibrationLoaded(said))) => {
                assert_eq!(cal.dewarp_flag, said.dewarp_flag);
                (cal.dewarp_flag, reverse)
            }
            _ => panic!("not opening"),
        }
    };
    assert_eq!(mode(Some(cal(0)), settings(None, None)), (0, false));
    assert_eq!(mode(Some(cal(1)), settings(None, None)), (1, true));
    assert_eq!(mode(Some(cal(-1)), settings(None, Some(cal(5)))), (-1, true));
    assert_eq!(mode(None, settings(None, Some(cal(0)))), (0, true));
    assert_eq!(mode(None, settings(Some(false), Some(cal(0)))), (0, false));
    assert_eq!(mode(Some(cal(0)), settings(Some(true), None)), (0, true));
}

fn running(total: usize) -> BatchState<f64> {
    let settings = settings(None, None);
    let (state, _) = batch_dewarp(start(total), searched(Some(cal(0))), &settings);
    let event = BatchEvent::Opened { path: String::new(), size: Some((8, 6)) };
    let (state, message) = batch_dewarp(state, event, &settings);
    assert!(message.is_none());
    state
}

#[test]
fn batch_counts_its_images() {
    let settings = settings(None, None);
    let mut state = running(3);
    for number in 1..=3usize {
        let event = BatchEvent::Started { file_name: format!("{number}.jpg").into_bytes() };
        let (next, message) = batch_dewarp(state, event, &settings);
        match message {
            Some(ProgressMsg::Processing { current, total, name }) => {
                assert_eq!((current, total, name), (number, 3, format!("{number}.jpg")));
            }
            _ => panic!("no image was begun"),
        }
        state = next;
        if number == 2 {
            let (next, message) = batch_dewarp(state, BatchEvent::Skipped, &settings);
            assert!(message.is_none());
            state = next;
        }
    }
    let (state, message) =
        batch_dewarp(state, BatchEvent::Finished { elapsed_secs: 2.5 }, &settings);
    assert!(matches!(state, BatchState::Ended));
    match message {
        Some(ProgressMsg::Done(summary)) => {
            assert_eq!((summary.total, summary.processed, summary.skipped), (3, 2, 1));
            assert_eq!(summary.elapsed_secs, 2.5);
            assert_eq!(summary.processed + summary.skipped, summary.total);
        }
        _ => panic!("no summary"),
    }
}

#[test]
fn events_out_of_place_change_nothing() {
    let settings = settings(None, None);
    let (state, message) = batch_dewarp(running(1), BatchEvent::Skipped, &settings);
    assert!(message.is_none());
    let (state, message) = batch_dewarp(state, BatchEvent::Finished { elapsed_secs: 1.0 }, &settings);
    assert!(message.is_none());
    let (state, message) = batch_dewarp(state, BatchEvent::Listed { total: 0 }, &settings);
    assert!(message.is_none());
    match state {
        BatchState::Running(run) => {
            assert_eq!((run.total, run.started, run.skipped), (1, 0, 0));
            assert_eq!((run.width, run.height, run.reverse), (8, 6, false));
        }
        _ => panic!("not running"),
    }
    let ended: BatchState<f64> = BatchState::Ended;
    let (ended, message) = batch_dewarp(ended, BatchEvent::Started { file_name: vec![] }, &settings);
    assert!(matches!(ended, BatchState::Ended) && message.is_none());
}

#[test]
fn previews_are_shown_once_an_image_was_begun() {
    let settings = settings(None, None);
    let preview = || PreviewData {
        original_thumb: vec![1, 2, 3],
        dewarped_thumb: vec![4, 5, 6],
        thumb_w: 1,
        thumb_h: 1,
    };
    let shown = |preview| BatchEvent::Shown { preview };
    let (state, message) = batch_dewarp(running(2), shown(preview()), &settings);
    assert!(message.is_none());
    let event = BatchEvent::Started { file_name: b"a.jpg".to_vec() };
    let (state, _) = batch_dewarp(state, event, &settings);
    let (state, message) = batch_dewarp(state, shown(preview()), &settings);
    match message {
        Some(ProgressMsg::Preview(shown)) => assert_eq!(shown.dewarped_thumb, vec![4, 5, 6]),
        _ => panic!("no preview"),
    }
    match state {
        BatchState::Running(run) => assert_eq!((run.started, run.skipped), (1, 0)),
        _ => panic!("not running"),
    }
}

#[test]
fn previews_are_of_the_first_and_every_tenth() {
    let shown: Vec<usize> = (1..=31).filter(|&n| shows_preview(n)).collect();
    assert_eq!(shown, vec![1, 10, 20, 30]);
}

fn narrow(v: f64) -> f32 {
    v as f32
}

fn floor(v: f64) -> i64 {
    v.floor() as i64
}

fn round(v: f64) -> f64 {
    v.round()
}

fn to_byte(v: f64) -> u8 {
    v as u8
}

fn truncate(v: f64) -> u32 {
    v as u32
}

#[test]
fn mode_picks_the_table() {
    let cal = cal(0);
    let undistort: RemapLut<f32> = mode_lut(&cal, false, 8, 6, 0.5, &narrow);
    let direct: RemapLut<f32> = build_undistort_lut(&cal, 8, 6, 0.5, &narrow);
    assert_eq!((undistort.map_x, undistort.map_y), (direct.map_x, direct.map_y));
    let redistort: RemapLut<f32> = mode_lut(&cal, true, 8, 6, 0.5, &narrow);
    let direct: RemapLut<f32> = build_redistort_lut(&cal, 8, 6, &narrow);
    assert_eq!((redistort.map_x, redistort.map_y), (direct.map_x, direct.map_y));
}

#[test]
fn image_is_remapped_and_saved() {
    let src: Vec<u8> = (0..8 * 6 * 3).map(|i| (i * 5 % 256) as u8).collect();
    let lut: RemapLut<f32> = mode_lut(&cal(0), false, 8, 6, 0.0, &narrow);
    let source = b"\xFF\xD8\xFF\xFE\x00\x10DewarpFlag=\"0\"\xFF\xD9\x00\x00";
    let (pixels, saved) = process_image(&src, &lut, 90, source, false, &floor, &round, &to_byte);
    assert_eq!(pixels, cpu_remap(&src, 8, 6, &lut, &floor, &round, &to_byte));
    let saved = saved.unwrap();
    assert_eq!(extract_jpeg_metadata(&saved), vec![b"\xFF\xFE\x00\x10DewarpFlag=\"1\"".to_vec()]);
    let image = image::load_from_memory(&saved).unwrap();
    assert_eq!((image.width(), image.height()), (8, 6));
}

#[test]
fn previews_are_small_images_of_one_size() {
    let original = [7u8, 8, 9].repeat(600 * 3);
    let dewarped = [1u8, 2, 3].repeat(600 * 3);
    let preview = batch_preview(&original, &dewarped, 600, 3, &round, &truncate);
    assert_eq!((preview.thumb_w, preview.thumb_h), (300, 2));
    assert_eq!(preview.original_thumb, [7u8, 8, 9].repeat(600));
    assert_eq!(preview.dewarped_thumb, [1u8, 2, 3].repeat(600));
}

#[test]
fn summaries_and_previews_can_be_cloned() {
    let summary = BatchSummary { total: 4, processed: 3, skipped: 1, elapsed_secs: 0.5 }.clone();
    assert_eq!((summary.total, summary.processed, summary.skipped, summary.elapsed_secs), (4, 3, 1, 0.5));
    let preview =
        PreviewData { original_thumb: vec![1, 2, 3], dewarped_thumb: vec![4, 5, 6], thumb_w: 1, thumb_h: 1 };
    let copy = preview.clone();
    assert_eq!((copy.original_thumb, copy.dewarped_thumb), (vec![1, 2, 3], vec![4, 5, 6]));
    assert_eq!((copy.thumb_w, copy.thumb_h), (1, 1));
}

#[test]
fn batch_ends_with_a_summary_where_nothing_is_missing() {
    let run = |total: usize, embedded: bool, external: bool, readable: bool| {
        let settings = settings(None, if external { Some(cal(0)) } else { None });
        let mut events = vec![
            BatchEvent::Listed { total },
            searched(if embedded { Some(cal(0)) } else { None }),
            BatchEvent::Opened {
                path: String::new(),
                size: if readable { Some((8, 6)) } else { None },
            },
        ];
        for number in 0..total {
            events.push(BatchEvent::Started { file_name: format!("{number}.jpg").into_bytes() });
        }
        events.push(BatchEvent::Finished { elapsed_secs: 1.0 });
        let mut state = BatchState::Listing;
        let mut names = Vec::new();
        let mut last = None;
        for event in events {
            let (next, message) = batch_dewarp(state, event, &settings);
            state = next;
            if let Some(message) = message {
                if let ProgressMsg::Processing { name, .. } = &message {
                    names.push(name.clone());
                }
                last = Some(message);
            }
        }
        assert!(matches!(state, BatchState::Ended));
        match last {
            Some(ProgressMsg::Done(_)) => Some(names),
            Some(ProgressMsg::Error(_)) => None,
            _ => panic!("no end"),
        }
    };
    assert_eq!(run(2, true, false, true), Some(vec!["0.jpg".to_string(), "1.jpg".to_string()]));
    assert_eq!(run(1, false, true, true), Some(vec!["0.jpg".to_string()]));
    assert_eq!(run(0, true, true, true), None);
    assert_eq!(run(1, false, false, true), None);
    assert_eq!(run(1, true, true, false), None);
}

#[test]
fn summary_counts_the_images_that_cannot_be_read() {
    let settings = settings(None, None);
    for readable in [vec![true, true], vec![false, true, false], vec![false]] {
        let total = readable.len();
        let mut events = vec![
            BatchEvent::Listed { total },
            searched(Some(cal(0))),
            BatchEvent::Opened { path: String::new(), size: Some((8, 6)) },
        ];
        for read in &readable {
            events.push(BatchEvent::Started { file_name: b"a.jpg".to_vec() });
            if !read {
                events.push(BatchEvent::Skipped);
            }
        }
        events.push(BatchEvent::Finished { elapsed_secs: 4.0 });
        let mut state = BatchState::Listing;
        let mut last = None;
        for event in events {
            let (next, message) = batch_dewarp(state, event, &settings);
            state = next;
            last = message.or(last);
        }
        let skipped = readable.iter().filter(|read| !**read).count();
        match last {
            Some(ProgressMsg::Done(summary)) => {
                assert_eq!((summary.total, summary.skipped), (total, skipped));
                assert_eq!(summary.processed + summary.skipped, total);
                assert_eq!(summary.elapsed_secs, 4.0);
            }
            _ => panic!("no summary"),
        }
    }
}
