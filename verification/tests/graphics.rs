use camera_dewarp::gpu::{needs_upload, pack_pixels, unpack_pixels, workgroups, Dispatch};

#[test]
fn pixels_are_packed_from_red_up() {
    assert_eq!(pack_pixels(&[1, 2, 3, 255, 0, 16], 2, 1), vec![0xFF03_0201, 0xFF10_00FF]);
    assert_eq!(pack_pixels(&[1, 2, 3, 4], 1, 1), vec![0xFF03_0201]);
    assert_eq!(pack_pixels(&[], 0, 7), Vec::<u32>::new());
}

#[test]
fn packed_pixels_unpack_to_themselves() {
    let rgb: Vec<u8> = (0..=254).collect();
    let words = pack_pixels(&rgb, 17, 5);
    assert_eq!(unpack_pixels(&words, 85), rgb);
    assert_eq!(unpack_pixels(&words, 1), vec![0, 1, 2]);
}

#[test]
fn workgroups_cover_all_pixels() {
    assert_eq!(workgroups(0), 0);
    assert_eq!(workgroups(1), 1);
    assert_eq!(workgroups(16), 1);
    assert_eq!(workgroups(17), 2);
    assert_eq!(workgroups(5280), 330);
}

#[test]
fn table_is_uploaded_when_its_sides_change() {
    assert!(needs_upload((0, 0), 4, 3));
    assert!(!needs_upload((4, 3), 4, 3));
    assert!(needs_upload((4, 3), 3, 4));
}

#[test]
fn job_holds_sides_pixels_and_sizes() {
    let job = Dispatch::new(&[9, 8, 7, 6, 5, 4], 2, 1, 33, 16);
    assert_eq!(job.params, vec![33, 16, 2, 1]);
    assert_eq!(job.source, vec![0xFF07_0809, 0xFF04_0506]);
    assert_eq!(job.pixels, 528);
    assert_eq!(job.buffer_size, 2112);
    assert_eq!(job.groups, (3, 1));
}

#[test]
fn job_shows_its_words_as_bytes() {
    let job = Dispatch::new(&[9, 8, 7], 1, 1, 1, 1);
    let mut params: Vec<u8> = Vec::new();
    for word in [1u32, 1, 1, 1] {
        params.extend(word.to_ne_bytes());
    }
    assert_eq!(job.param_bytes(), &params[..]);
    assert_eq!(job.source_bytes(), &0xFF07_0809u32.to_ne_bytes()[..]);
}

#[test]
fn answer_is_read_back_as_pixels() {
    let job = Dispatch::new(&[0; 6], 2, 1, 2, 1);
    let words = [0xFF03_0201u32, 0x0006_0504];
    let bytes: &[u8] = bytemuck::cast_slice(&words);
    assert_eq!(job.read_back(bytes), Some(vec![1, 2, 3, 4, 5, 6]));
    assert_eq!(job.read_back(&bytes[..4]), None);
    assert_eq!(job.read_back(&bytes[..7]), None);
    assert_eq!(job.read_back(&bytes[1..8]), None);
    let longer = [0xFF03_0201u32, 0x0006_0504, 0xFFFF_FFFF];
    assert_eq!(job.read_back(bytemuck::cast_slice(&longer)), Some(vec![1, 2, 3, 4, 5, 6]));
}

#[test]
fn answer_is_read_back_wherever_it_lies() {
    let job = Dispatch::new(&[0; 6], 2, 1, 2, 1);
    for offset in 0..4 {
        let mut buffer = vec![0u8; offset];
        buffer.extend(0xFF03_0201u32.to_ne_bytes());
        buffer.extend(0x0006_0504u32.to_ne_bytes());
        assert_eq!(job.read_back(&buffer[offset..]), Some(vec![1, 2, 3, 4, 5, 6]));
    }
    let nothing = Dispatch::new(&[], 0, 0, 0, 0);
    assert_eq!(nothing.read_back(&[]), Some(Vec::new()));
}
