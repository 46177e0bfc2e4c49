use camera_dewarp::calibration::read_dji_calibration;
use camera_dewarp::jpeg::{
    carry_metadata, extract_jpeg_metadata, insert_metadata, patch_dewarp_flag, save_jpeg,
};
use camera_dewarp::search::find_subsequence;

fn parse(text: &str) -> Option<f64> {
    text.parse().ok()
}

fn segment(marker: u8, content: &[u8]) -> Vec<u8> {
    let len = content.len() + 2;
    let mut s = vec![0xFF, marker, (len >> 8) as u8, (len & 0xFF) as u8];
    s.extend(content);
    s
}

fn source(segments: &[Vec<u8>]) -> Vec<u8> {
    let mut data = vec![0xFF, 0xD8];
    for s in segments {
        data.extend(s);
    }
    data.extend([0xFF, 0xDA, 0x00, 0x02, 0x12, 0x34, 0xFF, 0xD9]);
    data
}

const XMP: &[u8] = b"http://ns.adobe.com/xap/1.0/\0<x:xmpmeta \
drone-dji:DewarpData=\"d;1,2,3,4,5,6,7,8,9\" drone-dji:DewarpFlag=\"0\" \
drone-dji:CalibratedOpticalCenterX=\"1\" drone-dji:CalibratedOpticalCenterY=\"2\"/></x:xmpmeta>";

#[test]
fn subsequence_is_found_at_its_first_place() {
    assert_eq!(find_subsequence(b"abcabc", b"bc"), Some(1));
    assert_eq!(find_subsequence(b"abcabc", b"abcabc"), Some(0));
    assert_eq!(find_subsequence(b"abc", b"abcd"), None);
    assert_eq!(find_subsequence(b"abc", b"x"), None);
    assert_eq!(find_subsequence(b"", b"x"), None);
}

#[test]
fn metadata_is_app1_to_app15_and_comments() {
    let jfif = segment(0xE0, b"JFIF");
    let exif = segment(0xE1, b"Exif");
    let icc = segment(0xE2, b"ICC");
    let last = segment(0xEF, b"");
    let table = segment(0xDB, b"table");
    let comment = segment(0xFE, b"hello");
    let data = source(&[
        jfif,
        exif.clone(),
        icc.clone(),
        table,
        last.clone(),
        comment.clone(),
    ]);
    assert_eq!(extract_jpeg_metadata(&data), vec![exif, icc, last, comment]);
}

#[test]
fn metadata_walk_steps_over_fill_bytes_and_restarts() {
    let exif = segment(0xE1, b"Exif");
    let mut data = vec![0xFF, 0xD8, 0xFF];
    data.extend(&exif);
    data.extend([0xFF, 0xD9, 0, 0]);
    assert_eq!(extract_jpeg_metadata(&data), vec![exif.clone()]);
    let mut restart = vec![0xFF, 0xD8, 0xFF, 0xD0];
    restart.extend(&exif);
    restart.extend([0, 0, 0, 0]);
    assert_eq!(extract_jpeg_metadata(&restart), Vec::<Vec<u8>>::new());
}

#[test]
fn metadata_walk_stops_where_the_file_is_no_jpeg() {
    assert!(extract_jpeg_metadata(b"").is_empty());
    assert!(extract_jpeg_metadata(&[0xFF, 0xD8, 0xFF]).is_empty());
    assert!(extract_jpeg_metadata(b"\x89PNG\r\n\x1a\n").is_empty());
    let exif = segment(0xE1, b"Exif");
    let mut cut = vec![0xFF, 0xD8];
    cut.extend(&exif);
    cut.extend([0xFF, 0xE1, 0x01, 0x00, 1, 2, 3]);
    assert_eq!(extract_jpeg_metadata(&cut), vec![exif]);
}

#[test]
fn flag_of_equal_length_is_replaced() {
    let mut segments = vec![b"x DewarpFlag=\"0\" y".to_vec(), b"none".to_vec()];
    patch_dewarp_flag(&mut segments, b"1");
    assert_eq!(segments, vec![b"x DewarpFlag=\"1\" y".to_vec(), b"none".to_vec()]);
}

#[test]
fn flag_of_another_length_stays() {
    let before = vec![
        b"DewarpFlag=\"12\"".to_vec(),
        b"DewarpFlag=\"-12\" DewarpFlag=\"7\"".to_vec(),
    ];
    let mut segments = before.clone();
    patch_dewarp_flag(&mut segments, b"1");
    assert_eq!(segments, before);
    patch_dewarp_flag(&mut segments, b"00");
    assert_eq!(segments[0], b"DewarpFlag=\"00\"".to_vec());
    assert_eq!(segments[1], before[1]);
}

#[test]
fn empty_or_open_flag_stays() {
    let before = vec![b"DewarpFlag=\"\"".to_vec(), b"DewarpFlag=\"0".to_vec()];
    let mut segments = before.clone();
    patch_dewarp_flag(&mut segments, b"1");
    assert_eq!(segments, before);
}

#[test]
fn patching_keeps_lengths_and_other_bytes() {
    let before = segment(0xE1, XMP);
    let mut segments = vec![before.clone()];
    patch_dewarp_flag(&mut segments, b"1");
    assert_eq!(segments[0].len(), before.len());
    let changed: Vec<usize> = (0..before.len()).filter(|&i| before[i] != segments[0][i]).collect();
    let at = find_subsequence(&before, b"DewarpFlag=\"").unwrap() + 12;
    assert_eq!(changed, vec![at]);
    assert_eq!(segments[0][at], b'1');
}

#[test]
fn metadata_goes_behind_the_jfif_segment() {
    let jfif = segment(0xE0, b"JFIF");
    let exif = segment(0xE1, b"Exif");
    let with = [vec![0xFF, 0xD8], jfif.clone(), vec![0xFF, 0xDB, 9]].concat();
    assert_eq!(
        insert_metadata(&with, &vec![exif.clone()]),
        [vec![0xFF, 0xD8], jfif, exif.clone(), vec![0xFF, 0xDB, 9]].concat()
    );
    let without = vec![0xFF, 0xD8, 0xFF, 0xDB, 0, 2, 9];
    assert_eq!(
        insert_metadata(&without, &vec![exif.clone()]),
        [vec![0xFF, 0xD8], exif, vec![0xFF, 0xDB, 0, 2, 9]].concat()
    );
}

#[test]
fn inserted_metadata_is_extracted_again() {
    let jfif = segment(0xE0, b"JFIF");
    let jpeg = [vec![0xFF, 0xD8], jfif, vec![0xFF, 0xDA, 0, 2, 0, 0]].concat();
    let segments = vec![segment(0xE1, b"one"), segment(0xFE, b""), segment(0xEF, b"three")];
    let out = insert_metadata(&jpeg, &segments);
    assert_eq!(extract_jpeg_metadata(&out), segments);
}

#[test]
fn segment_cut_short_by_its_header_is_not_read_back() {
    let jpeg = vec![0xFF, 0xD8, 0xFF, 0xDA, 0, 2, 0, 0];
    let segments = vec![vec![0xFF, 0xE1]];
    let out = insert_metadata(&jpeg, &segments);
    assert_ne!(extract_jpeg_metadata(&out), segments);
}

#[test]
fn file_without_metadata_is_written_as_encoded() {
    let jpeg = vec![0xFF, 0xD8, 0xFF, 0xD9];
    assert_eq!(carry_metadata(jpeg.clone(), b"no jpeg", false), jpeg);
}

#[test]
fn saved_file_is_a_jpeg_of_the_image() {
    let pixels = [200u8, 40, 90].repeat(16 * 8);
    let file = save_jpeg(&pixels, 16, 8, 95, b"", false).unwrap();
    assert_eq!(&file[..4], &[0xFF, 0xD8, 0xFF, 0xE0]);
    let image = image::load_from_memory(&file).unwrap().into_rgb8();
    assert_eq!((image.width(), image.height()), (16, 8));
    for (a, b) in image.as_raw().iter().zip(&pixels) {
        assert!((*a as i32 - *b as i32).abs() <= 4);
    }
}

#[test]
fn quality_changes_the_file() {
    let pixels: Vec<u8> = (0..32 * 32 * 3).map(|i| (i * 7919 % 251) as u8).collect();
    let low = save_jpeg(&pixels, 32, 32, 10, b"", false).unwrap();
    let high = save_jpeg(&pixels, 32, 32, 95, b"", false).unwrap();
    assert!(low.len() < high.len());
}

#[test]
fn saved_file_carries_metadata_and_the_new_flag() {
    let exif = segment(0xE1, b"Exif\0\0gps");
    let xmp = segment(0xE1, XMP);
    let data = source(&[segment(0xE0, b"JFIF"), exif.clone(), xmp]);
    let pixels = [10u8, 20, 30].repeat(8 * 8);
    assert_eq!(read_dji_calibration(&data, &parse).unwrap().dewarp_flag, 0);

    let dewarped = save_jpeg(&pixels, 8, 8, 90, &data, false).unwrap();
    let kept = extract_jpeg_metadata(&dewarped);
    assert_eq!(kept.len(), 2);
    assert_eq!(kept[0], exif);
    assert_eq!(read_dji_calibration(&dewarped, &parse).unwrap().dewarp_flag, 1);
    assert!(image::load_from_memory(&dewarped).is_ok());

    let warped = save_jpeg(&pixels, 8, 8, 90, &dewarped, true).unwrap();
    assert_eq!(read_dji_calibration(&warped, &parse).unwrap().dewarp_flag, 0);
    assert_eq!(extract_jpeg_metadata(&warped), extract_jpeg_metadata(&data));
}

#[test]
fn image_too_wide_or_empty_cannot_be_saved() {
    let wide = vec![0u8; 70_000 * 3];
    assert!(save_jpeg(&wide, 70_000, 1, 90, b"", false).is_none());
    assert!(save_jpeg(&[], 0, 5, 90, b"", false).is_none());
}

#[test]
fn patched_flag_is_read_from_the_text() {
    let text = "é drone-dji:DewarpFlag=\"0\" DewarpFlag=\"7\"";
    let mut segments = vec![text.as_bytes().to_vec()];
    patch_dewarp_flag(&mut segments, b"1");
    let patched = String::from_utf8(segments.remove(0)).unwrap();
    assert_eq!(patched, "é drone-dji:DewarpFlag=\"1\" DewarpFlag=\"7\"");
    assert_eq!(camera_dewarp::xmp::dewarp_flag(text), 0);
    assert_eq!(camera_dewarp::xmp::dewarp_flag(&patched), 1);
}
