use camera_dewarp::calibration::{assemble_calibration, read_dji_calibration, read_record, DjiCalibration};
use camera_dewarp::xmp;

fn parse(text: &str) -> Option<f64> {
    text.parse().ok()
}

fn fixed(v: f64, digits: usize) -> String {
    format!("{v:.digits$}")
}

fn packet(attributes: &str) -> Vec<u8> {
    format!("<x:xmpmeta xmlns:x=\"adobe:ns:meta/\"><rdf:Description {attributes}/></x:xmpmeta>").into_bytes()
}

const DATA: &str = "drone-dji:DewarpData=\"2023-04-05;3700.5,3701.25,10.5,-20.25,-0.1,0.02,0.001,-0.002,0.0003\"";
const CENTER: &str = "drone-dji:CalibratedOpticalCenterX=\"2640.0\" drone-dji:CalibratedOpticalCenterY=\"1978.0\"";

fn attributes(flag: &str) -> String {
    format!("{DATA} {flag} {CENTER}")
}

fn sample() -> DjiCalibration<f64> {
    DjiCalibration {
        fx: 3700.5,
        fy: 3701.25,
        cx: 2650.5,
        cy: 1957.75,
        k1: -0.1,
        k2: 0.02,
        k3: 0.0003,
        p1: 0.001,
        p2: -0.002,
        calibration_date: "2023-04-05".to_string(),
        dewarp_flag: 0,
    }
}

fn numbers(cal: &DjiCalibration<f64>) -> [f64; 9] {
    [cal.fx, cal.fy, cal.cx, cal.cy, cal.k1, cal.k2, cal.k3, cal.p1, cal.p2]
}

#[test]
fn reads_a_calibration_from_xmp() {
    let mut data = vec![0xFF, 0xD8, 0x80, 0xFE];
    data.extend(packet(&attributes("drone-dji:DewarpFlag=\"0\"")));
    let cal = read_dji_calibration(&data, &parse).unwrap();
    assert_eq!(numbers(&cal), numbers(&sample()));
    assert_eq!(cal.calibration_date, "2023-04-05");
    assert_eq!(cal.dewarp_flag, 0);
}

#[test]
fn flag_is_minus_one_where_it_is_missing_or_no_number() {
    let missing = packet(&attributes(""));
    assert_eq!(read_dji_calibration(&missing, &parse).unwrap().dewarp_flag, -1);
    let words = packet(&attributes("drone-dji:DewarpFlag=\"yes\""));
    assert_eq!(read_dji_calibration(&words, &parse).unwrap().dewarp_flag, -1);
    let large = packet(&attributes("drone-dji:DewarpFlag=\"2147483648\""));
    assert_eq!(read_dji_calibration(&large, &parse).unwrap().dewarp_flag, -1);
    let spaced = packet(&attributes("drone-dji:DewarpFlag=\"1 \""));
    assert_eq!(read_dji_calibration(&spaced, &parse).unwrap().dewarp_flag, -1);
    let signed = packet(&attributes("drone-dji:DewarpFlag=\"-7\""));
    assert_eq!(read_dji_calibration(&signed, &parse).unwrap().dewarp_flag, -7);
}

#[test]
fn no_calibration_without_its_parts() {
    assert!(read_dji_calibration::<f64, _>(b"", &parse).is_none());
    assert!(read_dji_calibration::<f64, _>(b"<x:xmpmeta drone-dji:DewarpData=\"", &parse).is_none());
    assert!(read_dji_calibration(&packet(CENTER), &parse).is_none());
    assert!(read_dji_calibration(&packet(DATA), &parse).is_none());
    let no_date = "drone-dji:DewarpData=\"1,2,3,4,5,6,7,8,9\"";
    assert!(read_dji_calibration(&packet(&format!("{no_date} {CENTER}")), &parse).is_none());
    let eight = "drone-dji:DewarpData=\"d;1,2,3,4,5,6,7,8\"";
    assert!(read_dji_calibration(&packet(&format!("{eight} {CENTER}")), &parse).is_none());
    let ten = "drone-dji:DewarpData=\"d;1,2,3,4,5,6,7,8,9,10\"";
    assert!(read_dji_calibration(&packet(&format!("{ten} {CENTER}")), &parse).is_none());
    let center = "drone-dji:CalibratedOpticalCenterX=\"left\" drone-dji:CalibratedOpticalCenterY=\"1\"";
    assert!(read_dji_calibration(&packet(&format!("{DATA} {center}")), &parse).is_none());
}

#[test]
fn fields_that_are_no_numbers_are_passed_over() {
    let data = "drone-dji:DewarpData=\"d;1,x,2,3,,4,5,6,7,8,9\"";
    let cal = read_dji_calibration(&packet(&format!("{data} {CENTER}")), &parse).unwrap();
    assert_eq!((cal.fx, cal.fy, cal.k3), (1.0, 2.0, 9.0));
    assert_eq!(cal.calibration_date, "d");
}

#[test]
fn date_ends_at_the_first_semicolon() {
    let data = "drone-dji:DewarpData=\"a;1,2,3,4,5,6,7,8,9;b\"";
    assert!(read_dji_calibration(&packet(&format!("{data} {CENTER}")), &parse).is_none());
    let record = read_record(&format!("{data} {CENTER}")).unwrap();
    assert_eq!(record.date, "a");
    assert_eq!(record.fields.len(), 9);
    assert_eq!(record.fields[8], "9;b");
}

#[test]
fn only_the_head_of_a_file_is_searched() {
    let packet = packet(&attributes("drone-dji:DewarpFlag=\"1\""));
    let mut inside = vec![0u8; 65536 - packet.len()];
    inside.extend(&packet);
    assert_eq!(read_dji_calibration(&inside, &parse).unwrap().dewarp_flag, 1);
    inside.extend(vec![7u8; 1000]);
    assert_eq!(read_dji_calibration(&inside, &parse).unwrap().dewarp_flag, 1);
    let mut beyond = vec![0u8; 65537 - packet.len()];
    beyond.extend(&packet);
    assert!(read_dji_calibration(&beyond, &parse).is_none());
}

#[test]
fn packet_that_is_not_utf8_is_still_read() {
    let mut data = b"<x:xmpmeta \xFF\xFE ".to_vec();
    data.extend(attributes("drone-dji:DewarpFlag=\"2\"").bytes());
    data.extend(b"</x:xmpmeta>");
    assert!(xmp::find_xmp(&data).unwrap().contains('\u{FFFD}'));
    assert_eq!(read_dji_calibration(&data, &parse).unwrap().dewarp_flag, 2);
}

#[test]
fn attributes_are_found_by_their_names() {
    let xmp = format!("before {} after", attributes("drone-dji:DewarpFlag=\"3\""));
    assert_eq!(
        xmp::dewarp_data(&xmp).unwrap(),
        "2023-04-05;3700.5,3701.25,10.5,-20.25,-0.1,0.02,0.001,-0.002,0.0003"
    );
    assert_eq!(xmp::center_x(&xmp).unwrap(), "2640.0");
    assert_eq!(xmp::center_y(&xmp).unwrap(), "1978.0");
    assert_eq!(xmp::dewarp_flag(&xmp), 3);
    assert_eq!(xmp::dewarp_data("drone-dji:DewarpData=\"open"), None);
    assert_eq!(xmp::dewarp_data("drone-dji:DewarpData=\"\""), Some(String::new()));
    assert_eq!(xmp::dewarp_flag("drone-dji:DewarpFlag=\"4\" drone-dji:DewarpFlag=\"5\""), 4);
}

#[test]
fn center_is_moved_by_the_offsets() {
    let record = read_record(&attributes("drone-dji:DewarpFlag=\"0\"")).unwrap();
    let values: Vec<Option<f64>> = (1..10).map(|v| Some(v as f64)).collect();
    let cal = assemble_calibration(record, Some(100.0), Some(200.0), &values).unwrap();
    assert_eq!(numbers(&cal), [1.0, 2.0, 103.0, 204.0, 5.0, 6.0, 9.0, 7.0, 8.0]);
}

#[test]
fn clone_is_the_same_calibration() {
    let cal = sample();
    let copy = cal.clone();
    assert_eq!(numbers(&copy), numbers(&cal));
    assert_eq!(copy.calibration_date, cal.calibration_date);
    assert_eq!(copy.dewarp_flag, cal.dewarp_flag);
}

#[test]
fn calibration_file_has_this_text() {
    let text = sample().save_to_file(&fixed);
    assert_eq!(
        text,
        "# Camera Dewarp — Lens Calibration File\n\
         # Extracted from DJI XMP DewarpData\n\
         calibration_date=2023-04-05\n\
         fx=3700.500000000000\n\
         fy=3701.250000000000\n\
         cx=2650.500000000000\n\
         cy=1957.750000000000\n\
         k1=-0.100000000000000\n\
         k2=0.020000000000000\n\
         k3=0.000300000000000\n\
         p1=0.001000000000000\n\
         p2=-0.002000000000000\n"
    );
}

#[test]
fn saved_calibration_is_loaded_again() {
    let text = sample().save_to_file(&fixed);
    let cal = DjiCalibration::load_from_file(text.as_bytes(), &parse).unwrap();
    assert_eq!(numbers(&cal), numbers(&sample()));
    assert_eq!(cal.calibration_date, "2023-04-05");
    assert_eq!(cal.dewarp_flag, 0);
}

#[test]
fn spaces_around_a_date_are_lost() {
    let mut cal = sample();
    cal.calibration_date = " 2023 ".to_string();
    cal.dewarp_flag = 9;
    let text = cal.save_to_file(&fixed);
    let loaded = DjiCalibration::load_from_file(text.as_bytes(), &parse).unwrap();
    assert_eq!(loaded.calibration_date, "2023");
    assert_eq!(loaded.dewarp_flag, 0);
}

#[test]
fn calibration_file_may_be_written_by_hand() {
    let text = "\u{3000}\r\n  # a comment = 5\r\n\
                fx = 1 \r\n fy=2\ncx=3\ncy=4\nno value here\nk1=5\nk2=6\nk3=7\nother=x\n\
                p1=8\np2=9\nfx=10\n calibration_date = may=2023 \n";
    let cal = DjiCalibration::load_from_file(text.as_bytes(), &parse).unwrap();
    assert_eq!(numbers(&cal), [10.0, 2.0, 3.0, 4.0, 5.0, 6.0, 7.0, 8.0, 9.0]);
    assert_eq!(cal.calibration_date, "may=2023");
}

#[test]
fn repeated_names_count_as_numbers_given() {
    let text = "fx=1\nfx=2\nfx=3\nfx=4\nfx=5\nfx=6\nfx=7\nfx=8\nfx=9";
    let cal = DjiCalibration::load_from_file(text.as_bytes(), &parse).unwrap();
    assert_eq!(numbers(&cal), [9.0, 0.0, 0.0, 0.0, 0.0, 0.0, 0.0, 0.0, 0.0]);
    assert_eq!(cal.calibration_date, "");
}

#[test]
fn calibration_file_with_faults_is_refused() {
    assert!(DjiCalibration::<f64>::load_from_file(b"", &parse).is_none());
    let eight = b"fx=1\nfy=2\ncx=3\ncy=4\nk1=5\nk2=6\nk3=7\np1=8\n";
    assert!(DjiCalibration::<f64>::load_from_file(eight, &parse).is_none());
    let word = b"fx=1\nfy=2\ncx=3\ncy=4\nk1=5\nk2=6\nk3=7\np1=8\np2=9\nfx=wide\n";
    assert!(DjiCalibration::<f64>::load_from_file(word, &parse).is_none());
}

#[test]
fn calibration_file_is_read_up_to_a_line_that_is_not_utf8() {
    let late = b"fx=1\nfy=2\ncx=3\ncy=4\nk1=5\nk2=6\nk3=7\np1=8\np2=9\n\xFF\nfx=20\n";
    let cal = DjiCalibration::load_from_file(late, &parse).unwrap();
    assert_eq!(cal.fx, 1.0);
    let early = b"fx=1\nfy=2\n\xFF\ncx=3\ncy=4\nk1=5\nk2=6\nk3=7\np1=8\np2=9\n";
    assert!(DjiCalibration::<f64>::load_from_file(early, &parse).is_none());
}

#[test]
fn files_with_equal_heads_give_the_same_calibration() {
    let mut a = packet(&attributes("drone-dji:DewarpFlag=\"0\""));
    a.resize(65536, 0);
    let mut b = a.clone();
    a.extend(b"one tail");
    b.extend(packet(&attributes("drone-dji:DewarpFlag=\"1\"")));
    let (a, b) = (read_dji_calibration(&a, &parse).unwrap(), read_dji_calibration(&b, &parse).unwrap());
    assert_eq!(numbers(&a), numbers(&b));
    assert_eq!((a.calibration_date, a.dewarp_flag), (b.calibration_date, b.dewarp_flag));
}

#[test]
fn packet_must_end_in_the_head() {
    let whole = packet(&attributes("drone-dji:DewarpFlag=\"0\""));
    let mut cut = vec![0u8; 65536 - whole.len() + 1];
    cut.extend(&whole);
    assert!(read_dji_calibration(&cut, &parse).is_none());
}

#[test]
fn calibration_saved_again_has_the_same_text() {
    let mut cal = sample();
    cal.fx = 3700.1234567890123456;
    cal.k1 = -0.11234567890123456789;
    cal.p1 = 1.0 / 3.0;
    cal.dewarp_flag = 1;
    let first = cal.save_to_file(&fixed);
    let loaded = DjiCalibration::load_from_file(first.as_bytes(), &parse).unwrap();
    assert_eq!(loaded.save_to_file(&fixed), first);
}

#[test]
fn order_blanks_and_other_lines_do_not_count() {
    let plain = "calibration_date=day\nfx=1\nfy=2\ncx=3\ncy=4\nk1=5\nk2=6\nk3=7\np1=8\np2=9\n";
    let wild = "p2=9\n\n # k1=0\n\tp1 =  8\nk3=7\u{2003}\ndewarp_flag=1\nk2=6\n  k1= 5\nno sign\ncy=4\n\
                cx=3\ncalibration_date =\tday \nfy=2\nzoom=3\nfx=1";
    let a = DjiCalibration::load_from_file(plain.as_bytes(), &parse).unwrap();
    let b = DjiCalibration::load_from_file(wild.as_bytes(), &parse).unwrap();
    assert_eq!(numbers(&a), numbers(&b));
    assert_eq!((a.calibration_date.as_str(), a.dewarp_flag), ("day", 0));
    assert_eq!((b.calibration_date.as_str(), b.dewarp_flag), ("day", 0));
}
