use camera_dewarp::images::load_rgb_image;
use camera_dewarp::jpeg::save_jpeg;
use std::io::Cursor;

fn encoded(pixels: &[u8], width: u32, height: u32, format: image::ImageFormat) -> Vec<u8> {
    let image = image::RgbImage::from_raw(width, height, pixels.to_vec()).unwrap();
    let mut file = Cursor::new(Vec::new());
    image.write_to(&mut file, format).unwrap();
    file.into_inner()
}

#[test]
fn lossless_files_decode_to_their_pixels() {
    let pixels: Vec<u8> = (0..3 * 4 * 5).collect();
    let formats = [
        ("a.png", image::ImageFormat::Png),
        ("a.BMP", image::ImageFormat::Bmp),
        ("a.tif", image::ImageFormat::Tiff),
        ("a.b.tiff", image::ImageFormat::Tiff),
    ];
    for (name, format) in formats {
        let image = load_rgb_image(name.as_bytes(), &encoded(&pixels, 4, 5, format)).unwrap();
        assert_eq!((image.width, image.height), (4, 5));
        assert_eq!(image.data, pixels);
    }
}

#[test]
fn saved_jpeg_decodes_to_an_image_of_its_size() {
    let file = save_jpeg(&[9u8, 9, 9].repeat(12), 4, 3, 95, b"", false).unwrap();
    let image = load_rgb_image(b"x.jpg", &file).unwrap();
    assert_eq!((image.width, image.height, image.data.len()), (4, 3, 36));
    assert_eq!(image.data[0], 9);
}

#[test]
fn gray_image_becomes_rgb() {
    let gray = image::GrayImage::from_raw(2, 1, vec![7, 200]).unwrap();
    let mut file = Cursor::new(Vec::new());
    gray.write_to(&mut file, image::ImageFormat::Png).unwrap();
    let image = load_rgb_image(b"g.png", &file.into_inner()).unwrap();
    assert_eq!(image.data, vec![7, 7, 7, 200, 200, 200]);
}

#[test]
fn extension_says_how_a_file_is_decoded() {
    let png = encoded(&[1, 2, 3], 1, 1, image::ImageFormat::Png);
    assert!(load_rgb_image(b"a.png", &png).is_some());
    assert!(load_rgb_image(b"a.jpg", &png).is_none());
    assert!(load_rgb_image(b"png", &png).is_none());
    assert!(load_rgb_image(b"a.", &png).is_none());
    assert!(load_rgb_image(b"a.text", &png).is_none());
    assert!(load_rgb_image(b"a.png\xFF", &png).is_none());
}

#[test]
fn broken_file_does_not_decode() {
    assert!(load_rgb_image(b"a.png", b"").is_none());
    assert!(load_rgb_image(b"a.jpg", &[0xFF, 0xD8, 0xFF]).is_none());
}
