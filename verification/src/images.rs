//! Decoding image files.
use crate::paths;
use crate::paths::name_parts;
use crate::remap::rgb_len;
use crate::text;
use image::{ImageFormat, ImageReader};
use vstd::prelude::*;
use vstd::utf8::{decode_utf8, valid_utf8};

verus! {

/// An RGB image, row by row, three bytes for each pixel.
pub struct RgbImage {
    pub data: Vec<u8>,
    pub width: u32,
    pub height: u32,
}

impl RgbImage {
    /// There are bytes for all pixels.
    pub open spec fn well_formed(&self) -> bool {
        self.data@.len() >= rgb_len(self.width, self.height)
    }
}

/// The width, height and bytes of an image.
pub open spec fn pixels_of(image: Option<RgbImage>) -> Option<(u32, u32, Seq<u8>)> {
    match image {
        Some(image) => Some((image.width, image.height, image.data@)),
        None => None,
    }
}

/// `image` is something that `image`'s decoder makes of a file with this extension,
/// on some machine.
pub uninterp spec fn is_decoding(
    file: Seq<u8>,
    extension: Seq<char>,
    image: Option<(u32, u32, Seq<u8>)>,
) -> bool;

/// Calls `image`'s `ImageFormat::from_extension`, `ImageReader::with_format`,
/// `ImageReader::decode` and `DynamicImage::into_rgb8` on a file in memory.
///
/// Believed of it: what comes out is one of the things that may come out for the
/// file and the extension, and an image has bytes for all its pixels. Which files
/// decode, and to what pixels, is left unsaid: the decoders pick their code by the
/// processor, and their limits by its address width.
#[verifier::external_body]
fn decode_rgb(file: &[u8], extension: &str) -> (r: Option<RgbImage>)
    ensures
        is_decoding(file@, extension@, pixels_of(r)),
        r matches Some(image) ==> image.well_formed(),
{
    let format = ImageFormat::from_extension(extension)?;
    let image = ImageReader::with_format(std::io::Cursor::new(file), format).decode().ok()?;
    let rgb = image.into_rgb8();
    let (width, height) = rgb.dimensions();
    Some(RgbImage { data: rgb.into_raw(), width, height })
}

/// The extension of a file of this name, as text.
pub open spec fn extension_text(name: Seq<u8>) -> Option<Seq<char>> {
    match name_parts(name).1 {
        Some(extension) => if valid_utf8(extension) {
            Some(decode_utf8(extension))
        } else {
            None
        },
        None => None,
    }
}

/// Decodes the bytes of a file of this name; the extension says how. `None` where
/// there is no extension, or the bytes do not decode.
pub fn load_rgb_image(name: &[u8], file: &[u8]) -> (r: Option<RgbImage>)
    ensures
        match extension_text(name@) {
            Some(extension) => is_decoding(file@, extension, pixels_of(r)),
            None => r is None,
        },
        r matches Some(image) ==> image.well_formed(),
{
    let len = name.len();
    let dot = paths::find_extension_dot(name)?;
    let extension = vstd::slice::slice_subrange(name, dot + 1, len);
    decode_rgb(file, text::decode(extension)?)
}

} // verus!
