use camera_dewarp::text::{parse_i32, white_space};

#[test]
fn white_space_is_that_of_unicode() {
    for v in 0..=0x10_FFFFu32 {
        if let Some(c) = char::from_u32(v) {
            assert_eq!(white_space(c), c.is_whitespace());
        }
    }
}

#[test]
fn integers_are_read_as_the_standard_library_reads_them() {
    let texts = [
        "", "0", "-0", "+0", "7", "-7", "+7", "--7", "+-7", "+", "-", "007", "1_000", " 1", "1 ",
        "2147483647", "2147483648", "-2147483648", "-2147483649", "99999999999999999999999",
        "00000000000000000000000000001", "1.0", "0x10", "١", "１", "-00000000000002147483648",
    ];
    for text in texts {
        assert_eq!(parse_i32(text), text.parse::<i32>().ok(), "{text}");
    }
}
