//! What a remap on the graphics processor is given, and what is made of its
//! answer: pixels packed into words, buffer sizes and workgroups.
use crate::remap::rgb_len;
use vstd::prelude::*;

verus! {

/// Pixels along a side of the square that one workgroup works on.
pub const WORKGROUP_SIDE: u32 = 16;

/// The word for a pixel: red in the lowest byte, then green and blue, and full
/// opacity in the highest.
pub open spec fn packed(r: u8, g: u8, b: u8) -> int {
    r + g * 0x100 + b * 0x1_0000 + 255 * 0x100_0000
}

/// Byte `k` of a word, from the lowest.
pub open spec fn word_byte(word: u32, k: int) -> u8 {
    if k == 0 {
        (word % 0x100) as u8
    } else if k == 1 {
        (word / 0x100 % 0x100) as u8
    } else if k == 2 {
        (word / 0x1_0000 % 0x100) as u8
    } else {
        (word / 0x100_0000) as u8
    }
}

/// The bytes of the words, in memory order, on a machine that stores the lowest
/// byte of a word first.
pub open spec fn little_endian(words: Seq<u32>, bytes: Seq<u8>) -> bool {
    &&& bytes.len() == words.len() * 4
    &&& forall|i: int, k: int|
        0 <= i < words.len() && 0 <= k < 4 ==> bytes[i * 4 + k] == #[trigger] word_byte(
            words[i],
            k,
        )
}

/// The bytes of the words, in memory order, on a machine that stores the highest
/// byte of a word first.
pub open spec fn big_endian(words: Seq<u32>, bytes: Seq<u8>) -> bool {
    &&& bytes.len() == words.len() * 4
    &&& forall|i: int, k: int|
        0 <= i < words.len() && 0 <= k < 4 ==> bytes[i * 4 + (3 - k)] == #[trigger] word_byte(
            words[i],
            k,
        )
}

/// The bytes are those of the words, in the order of the machine.
pub open spec fn in_memory(words: Seq<u32>, bytes: Seq<u8>) -> bool {
    little_endian(words, bytes) || big_endian(words, bytes)
}

/// Calls `bytemuck`'s `cast_slice` from words to bytes.
///
/// Believed of it: it shows the memory of the words, four bytes each, in the byte
/// order of the machine. It does not fail in this direction, where the bytes need
/// no alignment and leave none over. Which of the two orders the machine has is
/// left unsaid.
#[verifier::external_body]
fn word_bytes(words: &[u32]) -> (bytes: &[u8])
    ensures
        in_memory(words@, bytes@),
{
    bytemuck::cast_slice(words)
}

/// Calls `bytemuck`'s `pod_collect_to_vec` from bytes to words.
///
/// Believed of it, for bytes that make up whole words: it copies them, wherever they
/// lie in memory, into words that have these bytes in the byte order of the machine.
/// Which of the two orders the machine has is left unsaid.
#[verifier::external_body]
fn byte_words(bytes: &[u8]) -> (words: Vec<u32>)
    requires
        bytes@.len() % 4 == 0,
    ensures
        in_memory(words@, bytes@),
{
    bytemuck::pod_collect_to_vec(bytes)
}

/// Packs the first `width * height` pixels of an RGB image into words.
pub fn pack_pixels(rgb: &[u8], width: u32, height: u32) -> (words: Vec<u32>)
    requires
        height * width <= u32::MAX,
        rgb@.len() >= rgb_len(width, height),
    ensures
        words@.len() == height * width,
        forall|i: int|
            0 <= i < words@.len() ==> #[trigger] words@[i] == packed(
                rgb@[i * 3],
                rgb@[i * 3 + 1],
                rgb@[i * 3 + 2],
            ),
{
    assert(rgb.len() == rgb@.len());
    assert(width * height == height * width) by (nonlinear_arith);
    let count = (width * height) as usize;
    let mut words: Vec<u32> = Vec::with_capacity(count);
    for i in 0..count
        invariant
            count * 3 <= rgb@.len() <= usize::MAX,
            words@.len() == i,
            forall|j: int|
                0 <= j < i ==> #[trigger] words@[j] == packed(
                    rgb@[j * 3],
                    rgb@[j * 3 + 1],
                    rgb@[j * 3 + 2],
                ),
    {
        let r = rgb[i * 3] as u32;
        let g = rgb[i * 3 + 1] as u32;
        let b = rgb[i * 3 + 2] as u32;
        words.push(r + g * 0x100 + b * 0x1_0000 + 255 * 0x100_0000);
    }
    words
}

/// Unpacks the first `count` words into the bytes of an RGB image.
pub fn unpack_pixels(words: &[u32], count: usize) -> (rgb: Vec<u8>)
    requires
        count <= words@.len(),
        count * 3 <= usize::MAX,
    ensures
        rgb@.len() == count * 3,
        forall|i: int, k: int|
            0 <= i < count && 0 <= k < 3 ==> rgb@[i * 3 + k] == #[trigger] word_byte(words@[i], k),
{
    let mut rgb: Vec<u8> = Vec::with_capacity(count * 3);
    for i in 0..count
        invariant
            count <= words@.len(),
            rgb@.len() == i * 3,
            forall|j: int, k: int|
                0 <= j < i && 0 <= k < 3 ==> rgb@[j * 3 + k] == #[trigger] word_byte(words@[j], k),
    {
        let word = words[i];
        rgb.push((word % 0x100) as u8);
        rgb.push((word / 0x100 % 0x100) as u8);
        rgb.push((word / 0x1_0000 % 0x100) as u8);
    }
    rgb
}

/// The three lower bytes of the word for a pixel are the pixel.
proof fn lemma_packed_bytes(word: u32, r: u8, g: u8, b: u8)
    requires
        word == packed(r, g, b),
    ensures
        word_byte(word, 0) == r,
        word_byte(word, 1) == g,
        word_byte(word, 2) == b,
{
}

/// The bits of the word for a pixel: red in the lowest eight, then green, then blue,
/// and all of the highest eight set.
pub proof fn law_pixel_fills_its_word(r: u8, g: u8, b: u8)
    ensures
        packed(r, g, b) == (r as u32 | (g as u32) << 8 | (b as u32) << 16 | 0xff00_0000u32),
{
    assert((r as u32 | (g as u32) << 8 | (b as u32) << 16 | 0xff00_0000u32) == r as u32 + g as u32
        * 0x100 + b as u32 * 0x1_0000 + 0xff00_0000u32) by (bit_vector);
}

/// Byte `k` of a word are the eight bits from bit `8 k` on.
pub proof fn law_bytes_of_a_word(word: u32)
    ensures
        word_byte(word, 0) == word & 0xff,
        word_byte(word, 1) == (word >> 8) & 0xff,
        word_byte(word, 2) == (word >> 16) & 0xff,
        word_byte(word, 3) == word >> 24,
{
    assert(word & 0xff == word % 0x100) by (bit_vector);
    assert((word >> 8) & 0xff == word / 0x100 % 0x100) by (bit_vector);
    assert((word >> 16) & 0xff == word / 0x1_0000 % 0x100) by (bit_vector);
    assert(word >> 24 == word / 0x100_0000) by (bit_vector);
}

/// An image that was packed into words unpacks to itself.
pub proof fn law_unpack_undoes_pack(rgb: Seq<u8>, words: Seq<u32>, back: Seq<u8>)
    requires
        rgb.len() == words.len() * 3,
        forall|i: int|
            0 <= i < words.len() ==> #[trigger] words[i] == packed(
                rgb[i * 3],
                rgb[i * 3 + 1],
                rgb[i * 3 + 2],
            ),
        back.len() == words.len() * 3,
        forall|i: int, k: int|
            0 <= i < words.len() && 0 <= k < 3 ==> back[i * 3 + k] == #[trigger] word_byte(
                words[i],
                k,
            ),
    ensures
        back == rgb,
{
    assert forall|j: int| 0 <= j < rgb.len() implies back[j] == rgb[j] by {
        let i = j / 3;
        let k = j % 3;
        lemma_packed_bytes(words[i], rgb[i * 3], rgb[i * 3 + 1], rgb[i * 3 + 2]);
        assert(back[i * 3 + k] == word_byte(words[i], k));
    }
}

/// The least number of workgroups that cover `pixels` pixels in one direction.
pub fn workgroups(pixels: u32) -> (groups: u32)
    requires
        pixels <= u32::MAX - 15,
    ensures
        pixels <= groups * 16 < pixels + 16,
{
    (pixels + 15) / WORKGROUP_SIDE
}

/// Whether a table of `width` by `height` has to be uploaded, where the one that
/// was uploaded last has the sides `cached`.
pub fn needs_upload(cached: (u32, u32), width: u32, height: u32) -> (r: bool)
    ensures
        r <==> cached != (width, height),
{
    !(cached.0 == width && cached.1 == height)
}

/// What one remap on the graphics processor is given.
pub struct Dispatch {
    /// The sides of the output and of the input: width, height, width, height.
    pub params: Vec<u32>,
    /// The pixels of the input.
    pub source: Vec<u32>,
    /// The pixels of the output.
    pub pixels: usize,
    /// The bytes of the output buffer.
    pub buffer_size: u64,
    /// The workgroups across and down.
    pub groups: (u32, u32),
}

impl Dispatch {
    /// The job fits a remap from `src_width` by `src_height` to `dst_width` by
    /// `dst_height`.
    pub open spec fn is_for(
        &self,
        src_width: u32,
        src_height: u32,
        dst_width: u32,
        dst_height: u32,
    ) -> bool {
        &&& self.params@ == seq![dst_width, dst_height, src_width, src_height]
        &&& self.pixels == dst_height * dst_width
        &&& self.buffer_size == dst_height * dst_width * 4
        &&& dst_width <= self.groups.0 * 16 < dst_width + 16
        &&& dst_height <= self.groups.1 * 16 < dst_height + 16
    }

    /// Prepares the remap of an RGB image.
    pub fn new(
        src_rgb: &[u8],
        src_width: u32,
        src_height: u32,
        dst_width: u32,
        dst_height: u32,
    ) -> (job: Self)
        requires
            src_height * src_width <= u32::MAX,
            dst_height * dst_width <= u32::MAX,
            src_rgb@.len() >= rgb_len(src_width, src_height),
            dst_width <= u32::MAX - 15,
            dst_height <= u32::MAX - 15,
        ensures
            job.is_for(src_width, src_height, dst_width, dst_height),
            job.source@.len() == src_height * src_width,
            forall|i: int|
                0 <= i < job.source@.len() ==> #[trigger] job.source@[i] == packed(
                    src_rgb@[i * 3],
                    src_rgb@[i * 3 + 1],
                    src_rgb@[i * 3 + 2],
                ),
    {
        let source = pack_pixels(src_rgb, src_width, src_height);
        let mut params: Vec<u32> = Vec::new();
        params.push(dst_width);
        params.push(dst_height);
        params.push(src_width);
        params.push(src_height);
        assert(params@ =~= seq![dst_width, dst_height, src_width, src_height]);
        let pixels = dst_width * dst_height;
        Dispatch {
            params,
            source,
            pixels: pixels as usize,
            buffer_size: pixels as u64 * 4,
            groups: (workgroups(dst_width), workgroups(dst_height)),
        }
    }

    /// The bytes of the parameters, as the machine stores them.
    pub fn param_bytes(&self) -> (bytes: &[u8])
        ensures
            in_memory(self.params@, bytes@),
    {
        word_bytes(self.params.as_slice())
    }

    /// The bytes of the input pixels, as the machine stores them.
    pub fn source_bytes(&self) -> (bytes: &[u8])
        ensures
            in_memory(self.source@, bytes@),
    {
        word_bytes(self.source.as_slice())
    }

    /// The RGB image in the bytes of the output buffer. `None` where the bytes do
    /// not make up whole words, or too few for the pixels.
    pub fn read_back(&self, bytes: &[u8]) -> (r: Option<Vec<u8>>)
        requires
            self.pixels * 3 <= usize::MAX,
        ensures
            r is Some <==> bytes@.len() % 4 == 0 && bytes@.len() >= self.pixels * 4,
            r matches Some(rgb) ==> exists|words: Seq<u32>|
                #![trigger in_memory(words, bytes@)]
                {
                    &&& in_memory(words, bytes@)
                    &&& self.pixels <= words.len()
                    &&& rgb@.len() == self.pixels * 3
                    &&& forall|i: int, k: int|
                        0 <= i < self.pixels && 0 <= k < 3 ==> rgb@[i * 3 + k]
                            == #[trigger] word_byte(words[i], k)
                },
    {
        if bytes.len() % 4 != 0 {
            return None;
        }
        let words = byte_words(bytes);
        if words.len() < self.pixels {
            None
        } else {
            Some(unpack_pixels(words.as_slice(), self.pixels))
        }
    }
}

} // verus!
