//! JPEG files: their metadata segments, and putting those of one file into
//! another.
use crate::search::{find_byte, find_subsequence, first_item, first_of, is_first_item, occurs_at};
use crate::text::contents;
use image::codecs::jpeg::JpegEncoder;
use vstd::prelude::*;
use vstd::utf8::encode_utf8;

verus! {

// ---------------------------------------------------------------------------
// Segments
// ---------------------------------------------------------------------------

/// The number that two bytes stand for, most significant first.
pub open spec fn be16(high: u8, low: u8) -> int {
    high * 256 + low
}

/// The file begins with the start-of-image marker.
pub open spec fn starts_image(data: Seq<u8>) -> bool {
    data.len() >= 2 && data[0] == 0xFF && data[1] == 0xD8
}

/// The marker after which no metadata comes: start of scan, end of image.
pub open spec fn ends_headers(marker: u8) -> bool {
    marker == 0xDA || marker == 0xD9
}

/// The marker is followed by no length: a stuffed or fill byte, a restart.
pub open spec fn is_bare(marker: u8) -> bool {
    marker == 0x00 || 0xD0 <= marker <= 0xD7 || marker == 0xFF
}

/// The marker begins metadata that is carried over: APP1 to APP15 and comments,
/// not APP0 (JFIF), of which an encoder writes its own.
pub open spec fn is_kept(marker: u8) -> bool {
    0xE1 <= marker <= 0xEF || marker == 0xFE
}

/// The metadata segments that a walk over the headers from `pos` on meets, each
/// with its marker and length.
pub open spec fn metadata_from(data: Seq<u8>, pos: int) -> Seq<Seq<u8>>
    decreases data.len() - pos,
{
    if pos < 0 || pos + 3 >= data.len() || data[pos] != 0xFF || ends_headers(data[pos + 1]) {
        Seq::empty()
    } else if is_bare(data[pos + 1]) {
        metadata_from(data, pos + 1)
    } else {
        let end = pos + 2 + be16(data[pos + 2], data[pos + 3]);
        if end > data.len() {
            Seq::empty()
        } else if is_kept(data[pos + 1]) {
            seq![data.subrange(pos, end)] + metadata_from(data, end)
        } else {
            metadata_from(data, end)
        }
    }
}

/// The metadata segments of a JPEG file; none where it is not one.
pub open spec fn jpeg_metadata(data: Seq<u8>) -> Seq<Seq<u8>> {
    if data.len() < 4 || !starts_image(data) {
        Seq::empty()
    } else {
        metadata_from(data, 2)
    }
}

/// A copy of the bytes from `from` up to `to`.
fn copy_range(data: &[u8], from: usize, to: usize) -> (r: Vec<u8>)
    requires
        from <= to <= data@.len(),
    ensures
        r@ == data@.subrange(from as int, to as int),
{
    let mut r: Vec<u8> = Vec::with_capacity(to - from);
    append_range(&mut r, data, from, to);
    r
}

/// Appends the bytes from `from` up to `to`.
fn append_range(out: &mut Vec<u8>, data: &[u8], from: usize, to: usize)
    requires
        from <= to <= data@.len(),
    ensures
        final(out)@ == old(out)@ + data@.subrange(from as int, to as int),
{
    let mut i = from;
    while i < to
        invariant
            from <= i <= to <= data@.len(),
            out@ == old(out)@ + data@.subrange(from as int, i as int),
        decreases to - i,
    {
        out.push(data[i]);
        assert(data@.subrange(from as int, i + 1) =~= data@.subrange(from as int, i as int).push(
            data@[i as int],
        ));
        i = i + 1;
    }
}

/// Extracts the metadata segments (EXIF, XMP, ICC profile, comments) of a JPEG
/// file, with their markers and length headers. Leaves out APP0 (JFIF), since an
/// encoder writes its own.
pub fn extract_jpeg_metadata(data: &[u8]) -> (segments: Vec<Vec<u8>>)
    ensures
        contents(segments@) == jpeg_metadata(data@),
{
    let mut segments: Vec<Vec<u8>> = Vec::new();
    let n = data.len();
    if n < 4 || data[0] != 0xFF || data[1] != 0xD8 {
        return segments;
    }
    let mut pos: usize = 2;
    while n >= 4 && pos < n - 3
        invariant_except_break
            n == data@.len(),
            n >= 4,
            2 <= pos <= n,
            contents(segments@) + metadata_from(data@, pos as int) == metadata_from(data@, 2),
        ensures
            contents(segments@) == metadata_from(data@, 2),
        decreases n - pos,
    {
        let marker = data[pos + 1];
        if data[pos] != 0xFF || marker == 0xDA || marker == 0xD9 {
            break;
        }
        if marker == 0x00 || (0xD0 <= marker && marker <= 0xD7) || marker == 0xFF {
            pos = pos + 1;
        } else {
            let total_len = 2 + data[pos + 2] as usize * 256 + data[pos + 3] as usize;
            if total_len > n - pos {
                break;
            }
            let end = pos + total_len;
            if (marker >= 0xE1 && marker <= 0xEF) || marker == 0xFE {
                let ghost before = segments@;
                let segment = copy_range(data, pos, end);
                segments.push(segment);
                assert(contents(segments@) + metadata_from(data@, end as int) =~= contents(before)
                    + metadata_from(data@, pos as int));
            }
            pos = end;
        }
    }
    segments
}

// ---------------------------------------------------------------------------
// The dewarp flag
// ---------------------------------------------------------------------------

/// What stands in front of the value of the dewarp flag in XMP metadata.
pub open spec fn flag_key() -> Seq<u8> {
    encode_utf8("DewarpFlag=\""@)
}

/// Where the value of the dewarp flag begins in a segment, and how many bytes it
/// has up to the closing quote.
pub open spec fn flag_place(segment: Seq<u8>) -> Option<(int, int)> {
    match first_of(segment, flag_key()) {
        Some(at) => {
            let start = at + flag_key().len();
            match first_item(segment.skip(start), 0x22) {
                Some(len) => Some((start, len)),
                None => None,
            }
        },
        None => None,
    }
}

/// The segment with `value` for its dewarp flag, where it has one of the same length;
/// else the segment as it is.
pub open spec fn patched(segment: Seq<u8>, value: Seq<u8>) -> Seq<u8> {
    match flag_place(segment) {
        Some((start, len)) => if value.len() == len {
            segment.take(start) + value + segment.skip(start + len)
        } else {
            segment
        },
        None => segment,
    }
}

proof fn lemma_flag_key()
    ensures
        flag_key().len() == 12,
        forall|i: int| 0 <= i < 12 ==> #[trigger] flag_key()[i] < 0x80,
{
    reveal_strlit("DewarpFlag=\"");
    vstd::utf8::is_ascii_chars_encode_utf8("DewarpFlag=\""@);
}

/// Patches the dewarp flag of one segment.
fn patch_segment(segment: &mut Vec<u8>, new_value: &[u8])
    ensures
        final(segment)@ == patched(old(segment)@, new_value@),
{
    let key = "DewarpFlag=\"".as_bytes();
    proof {
        lemma_flag_key();
    }
    let Some(at) = find_subsequence(segment.as_slice(), key) else {
        return ;
    };
    assert(segment.len() == segment@.len());
    let start = at + key.len();
    let Some(len) = find_byte(segment.as_slice(), start, 0x22) else {
        return ;
    };
    if new_value.len() != len {
        return ;
    }
    let ghost before = segment@;
    for i in 0..len
        invariant
            start + len <= before.len() <= usize::MAX,
            new_value@.len() == len,
            segment@ =~= before.take(start as int) + new_value@.take(i as int) + before.skip(
                start + i,
            ),
    {
        segment.set(start + i, new_value[i]);
    }
    assert(new_value@.take(len as int) =~= new_value@);
}

/// Sets the value of the dewarp flag in each segment that holds one of the same
/// length as the new value, so that no segment changes its length; the others stay
/// as they are.
pub fn patch_dewarp_flag(segments: &mut Vec<Vec<u8>>, new_value: &[u8])
    ensures
        final(segments)@.len() == old(segments)@.len(),
        forall|i: int|
            0 <= i < old(segments)@.len() ==> (#[trigger] final(segments)@[i])@ == patched(
                old(segments)@[i]@,
                new_value@,
            ),
{
    let n = segments.len();
    for i in 0..n
        invariant
            n == old(segments)@.len(),
            segments@.len() == n,
            forall|j: int|
                0 <= j < i ==> (#[trigger] segments@[j])@ == patched(
                    old(segments)@[j]@,
                    new_value@,
                ),
            forall|j: int| i <= j < segments@.len() ==> segments@[j] == old(segments)@[j],
    {
        patch_segment(&mut segments[i], new_value);
    }
}

/// Patching a flag keeps the length of the segment, the place of its flag, and
/// all bytes outside of the flag's value.
pub proof fn law_patch_keeps_the_rest(segment: Seq<u8>, value: Seq<u8>)
    requires
        !value.contains(0x22),
    ensures
        patched(segment, value).len() == segment.len(),
        flag_place(patched(segment, value)) == flag_place(segment),
        forall|i: int|
            0 <= i < segment.len() && !(flag_place(segment) matches Some((start, len)) && start <= i
                < start + len) ==> #[trigger] patched(segment, value)[i] == segment[i],
{
    lemma_flag_key();
    let key = flag_key();
    if let Some((start, len)) = flag_place(segment) {
        lemma_flag_place(segment);
        if value.len() == len {
            let after = patched(segment, value);
            let at = start - key.len();
            assert forall|j: int| 0 <= j <= at implies (#[trigger] occurs_at(after, key, j)
                == occurs_at(segment, key, j)) by {
                assert(after.subrange(j, j + key.len()) =~= segment.subrange(j, j + key.len()));
            }
            crate::search::lemma_first_of(after, key, at);
            crate::search::lemma_first_item(after.skip(start), 0x22, len);
        }
    }
}

/// A flag of the same length as the value is the value after the patch; patching it
/// again changes nothing.
pub proof fn law_patch_sets_the_flag(segment: Seq<u8>, value: Seq<u8>)
    requires
        !value.contains(0x22),
        flag_place(segment) matches Some(place) && value.len() == place.1,
    ensures
        ({
            let (start, len) = flag_place(segment)->0;
            patched(segment, value).subrange(start, start + len) == value
        }),
        patched(patched(segment, value), value) == patched(segment, value),
{
    lemma_flag_place(segment);
    law_patch_keeps_the_rest(segment, value);
    let (start, len) = flag_place(segment)->0;
}

/// What the place of a flag says.
proof fn lemma_flag_place(segment: Seq<u8>)
    requires
        flag_place(segment) is Some,
    ensures
        ({
            let (start, len) = flag_place(segment)->0;
            &&& 12 <= start
            &&& 0 <= len
            &&& start + len < segment.len()
            &&& crate::search::is_first_at(segment, flag_key(), start - 12)
            &&& is_first_item(segment.skip(start), 0x22, len)
        }),
{
    lemma_flag_key();
}

// ---------------------------------------------------------------------------
// Carrying metadata over
// ---------------------------------------------------------------------------

/// Where the leading APP0 (JFIF) segment of a JPEG file ends; behind the
/// start-of-image marker where there is none that is whole.
pub open spec fn jfif_end(jpeg: Seq<u8>) -> int {
    if jpeg.len() > 5 && jpeg[2] == 0xFF && jpeg[3] == 0xE0 && 4 + be16(jpeg[4], jpeg[5])
        <= jpeg.len() {
        4 + be16(jpeg[4], jpeg[5])
    } else {
        2
    }
}

/// The JPEG file with the segments put behind its leading JFIF segment.
pub open spec fn with_metadata(jpeg: Seq<u8>, segments: Seq<Seq<u8>>) -> Seq<u8> {
    seq![0xFFu8, 0xD8u8] + jpeg.subrange(2, jfif_end(jpeg)) + segments.flatten() + jpeg.skip(
        jfif_end(jpeg),
    )
}

/// Puts metadata segments into a JPEG file, behind its leading JFIF segment.
pub fn insert_metadata(jpeg: &[u8], segments: &Vec<Vec<u8>>) -> (out: Vec<u8>)
    requires
        jpeg@.len() >= 2,
    ensures
        out@ == with_metadata(jpeg@, contents(segments@)),
{
    let mut out: Vec<u8> = Vec::new();
    out.push(0xFF);
    out.push(0xD8);
    let mut end: usize = 2;
    if jpeg.len() > 5 && jpeg[2] == 0xFF && jpeg[3] == 0xE0 {
        let jfif = 4 + jpeg[4] as usize * 256 + jpeg[5] as usize;
        if jfif <= jpeg.len() {
            end = jfif;
        }
    }
    append_range(&mut out, jpeg, 2, end);
    let ghost head = out@;
    let ghost all = contents(segments@);
    for i in 0..segments.len()
        invariant
            all == contents(segments@),
            out@ == head + all.take(i as int).flatten(),
    {
        let segment = segments[i].as_slice();
        append_range(&mut out, segment, 0, segment.len());
        proof {
            assert(all.take(i + 1) =~= all.take(i as int).push(segment@));
            lemma_flatten_push(all.take(i as int), segment@);
        }
    }
    assert(all.take(segments@.len() as int) =~= all);
    append_range(&mut out, jpeg, end, jpeg.len());
    out
}

proof fn lemma_flatten_push(parts: Seq<Seq<u8>>, part: Seq<u8>)
    ensures
        parts.push(part).flatten() == parts.flatten() + part,
    decreases parts.len(),
{
    if parts.len() == 0 {
        assert(parts.push(part).drop_first() =~= Seq::empty());
        assert(Seq::<Seq<u8>>::empty().flatten() =~= Seq::empty());
    } else {
        assert(parts.push(part).drop_first() =~= parts.drop_first().push(part));
        lemma_flatten_push(parts.drop_first(), part);
    }
}

/// The segment begins with a marker that is carried over, and its length header
/// tells its length.
pub open spec fn is_metadata_segment(segment: Seq<u8>) -> bool {
    &&& segment.len() >= 4
    &&& segment[0] == 0xFF
    &&& is_kept(segment[1])
    &&& segment.len() == 2 + be16(segment[2], segment[3])
}

/// A walk over the headers looks only at what comes from its place on.
pub(crate) proof fn lemma_metadata_suffix(before: Seq<u8>, data: Seq<u8>, pos: int)
    requires
        0 <= pos,
    ensures
        metadata_from(before + data, before.len() + pos) == metadata_from(data, pos),
    decreases data.len() - pos,
{
    let whole = before + data;
    let at = before.len() + pos;
    if pos + 3 < data.len() && data[pos] == 0xFF && !ends_headers(data[pos + 1]) {
        if is_bare(data[pos + 1]) {
            lemma_metadata_suffix(before, data, pos + 1);
        } else {
            let end = pos + 2 + be16(data[pos + 2], data[pos + 3]);
            if end <= data.len() {
                lemma_metadata_suffix(before, data, end);
                assert(whole.subrange(at, before.len() + end) =~= data.subrange(pos, end));
            }
        }
    }
}

/// A walk meets a whole metadata segment that it begins with.
proof fn lemma_metadata_first(segment: Seq<u8>, rest: Seq<u8>)
    requires
        is_metadata_segment(segment),
    ensures
        metadata_from(segment + rest, 0) == seq![segment] + metadata_from(rest, 0),
{
    let data = segment + rest;
    let n = segment.len() as int;
    assert(data[0] == segment[0] && data[1] == segment[1] && data[2] == segment[2] && data[3]
        == segment[3]);
    assert(data.subrange(0, n) =~= segment);
    lemma_metadata_suffix(segment, rest, 0);
}

proof fn lemma_metadata_all(segments: Seq<Seq<u8>>, rest: Seq<u8>)
    requires
        forall|i: int| 0 <= i < segments.len() ==> is_metadata_segment(#[trigger] segments[i]),
    ensures
        metadata_from(segments.flatten() + rest, 0) == segments + metadata_from(rest, 0),
    decreases segments.len(),
{
    if segments.len() > 0 {
        let tail = segments.drop_first();
        lemma_metadata_all(tail, rest);
        lemma_metadata_first(segments.first(), tail.flatten() + rest);
        assert(segments.flatten() + rest =~= segments.first() + (tail.flatten() + rest));
        assert(segments + metadata_from(rest, 0) =~= seq![segments.first()] + (tail
            + metadata_from(rest, 0)));
    }
}

/// The JPEG file begins with the start-of-image marker, and where an APP0 marker
/// follows, the segment is whole.
pub open spec fn has_whole_head(jpeg: Seq<u8>) -> bool {
    &&& starts_image(jpeg)
    &&& jpeg.len() > 3 && jpeg[2] == 0xFF && jpeg[3] == 0xE0 ==> {
        &&& jpeg.len() > 5
        &&& 2 <= be16(jpeg[4], jpeg[5])
        &&& 4 + be16(jpeg[4], jpeg[5]) <= jpeg.len()
    }
}

/// Metadata that was put into a JPEG file reads back from it, in order, in front
/// of what the file had: none of it is lost or changed.
pub proof fn law_metadata_reads_back(jpeg: Seq<u8>, segments: Seq<Seq<u8>>)
    requires
        has_whole_head(jpeg),
        jpeg.len() >= 4,
        forall|i: int| 0 <= i < segments.len() ==> is_metadata_segment(#[trigger] segments[i]),
    ensures
        jpeg_metadata(with_metadata(jpeg, segments)) == segments + jpeg_metadata(jpeg),
{
    let end = jfif_end(jpeg);
    let rest = jpeg.skip(end);
    let tail = segments.flatten() + rest;
    let head = seq![0xFFu8, 0xD8u8] + jpeg.subrange(2, end);
    let out = with_metadata(jpeg, segments);
    assert(out =~= head + tail);
    lemma_metadata_all(segments, rest);
    assert(jpeg =~= jpeg.take(end) + rest);
    lemma_metadata_suffix(jpeg.take(end), rest, 0);
    lemma_metadata_suffix(head, tail, 0);
}

/// Whatever a walk over a JPEG file keeps begins with a marker that is carried
/// over; it has its whole length header unless that header is less than 2.
pub proof fn law_metadata_is_kept(data: Seq<u8>, i: int)
    requires
        0 <= i < jpeg_metadata(data).len(),
    ensures
        ({
            let segment = jpeg_metadata(data)[i];
            &&& segment.len() >= 2
            &&& segment[0] == 0xFF
            &&& is_kept(segment[1])
            &&& segment.len() >= 4 ==> is_metadata_segment(segment)
        }),
{
    lemma_metadata_from_is_kept(data, 2, i);
}

proof fn lemma_metadata_from_is_kept(data: Seq<u8>, pos: int, i: int)
    requires
        0 <= pos,
        0 <= i < metadata_from(data, pos).len(),
    ensures
        ({
            let segment = metadata_from(data, pos)[i];
            &&& segment.len() >= 2
            &&& segment[0] == 0xFF
            &&& is_kept(segment[1])
            &&& segment.len() >= 4 ==> is_metadata_segment(segment)
        }),
    decreases data.len() - pos,
{
    if is_bare(data[pos + 1]) {
        lemma_metadata_from_is_kept(data, pos + 1, i);
    } else {
        let end = pos + 2 + be16(data[pos + 2], data[pos + 3]);
        if is_kept(data[pos + 1]) {
            if i > 0 {
                lemma_metadata_from_is_kept(data, end, i - 1);
            }
        } else {
            lemma_metadata_from_is_kept(data, end, i);
        }
    }
}

// ---------------------------------------------------------------------------
// The image file
// ---------------------------------------------------------------------------

/// The JPEG file that `image`'s encoder makes of an RGB image.
pub uninterp spec fn jpeg_encoding(image: Seq<u8>, width: u32, height: u32, quality: u8) -> Seq<
    u8,
>;

/// The sides that a JPEG file can have.
pub open spec fn fits_jpeg(width: u32, height: u32) -> bool {
    1 <= width <= 65535 && 1 <= height <= 65535
}

/// Calls `image`'s `JpegEncoder::new_with_quality` and `JpegEncoder::encode` on an
/// RGB image, into a vector.
///
/// Believed of it: it fails just where a side of the image is 0 or above 65535;
/// what it writes is a function of the image, its sides and the quality; and that
/// begins with a start-of-image marker and a JFIF segment whose length header is
/// 16, with no other segment that is carried over as metadata in front of the
/// scan.
#[verifier::external_body]
fn encode_rgb(image: &[u8], width: u32, height: u32, quality: u8) -> (r: Option<Vec<u8>>)
    requires
        image@.len() == height * width * 3,
    ensures
        r is Some <==> fits_jpeg(width, height),
        r matches Some(jpeg) ==> {
            &&& jpeg@ == jpeg_encoding(image@, width, height, quality)
            &&& jpeg@.len() >= 20
            &&& jpeg@.take(6) == seq![0xFFu8, 0xD8u8, 0xFFu8, 0xE0u8, 0x00u8, 0x10u8]
            &&& jpeg_metadata(jpeg@) == Seq::<Seq<u8>>::empty()
        },
{
    let mut jpeg = Vec::new();
    let mut encoder = JpegEncoder::new_with_quality(std::io::Cursor::new(&mut jpeg), quality);
    match encoder.encode(image, width, height, image::ExtendedColorType::Rgb8) {
        Ok(()) => Some(jpeg),
        Err(_) => None,
    }
}

/// The flag that a written image carries: 1 once the lens distortion is removed, 0
/// once it is put back.
pub open spec fn written_flag(reverse: bool) -> Seq<u8> {
    if reverse {
        seq![0x30u8]
    } else {
        seq![0x31u8]
    }
}

/// The segments, each with the flag of a written image where it has a flag of one
/// byte.
pub open spec fn flagged(segments: Seq<Seq<u8>>, reverse: bool) -> Seq<Seq<u8>> {
    segments.map_values(|segment: Seq<u8>| patched(segment, written_flag(reverse)))
}

/// The file to write for an encoded image: with the metadata of the file that it
/// was made from, the dewarp flag set to what the image now is.
pub open spec fn written_file(jpeg: Seq<u8>, source: Seq<u8>, reverse: bool) -> Seq<u8> {
    if jpeg_metadata(source).len() == 0 {
        jpeg
    } else {
        with_metadata(jpeg, flagged(jpeg_metadata(source), reverse))
    }
}

/// Puts the metadata of the file `source` into the encoded image `jpeg`, with the
/// dewarp flag set to what the image now is.
pub fn carry_metadata(jpeg: Vec<u8>, source: &[u8], reverse: bool) -> (out: Vec<u8>)
    requires
        jpeg@.len() >= 2,
    ensures
        out@ == written_file(jpeg@, source@, reverse),
{
    let mut metadata = extract_jpeg_metadata(source);
    if metadata.len() == 0 {
        return jpeg;
    }
    let mut flag: Vec<u8> = Vec::new();
    flag.push(if reverse { 0x30 } else { 0x31 });
    patch_dewarp_flag(&mut metadata, flag.as_slice());
    assert(contents(metadata@) =~= flagged(jpeg_metadata(source@), reverse));
    insert_metadata(jpeg.as_slice(), &metadata)
}

/// The bytes of the JPEG file to save for an RGB image that was made from the file
/// `source`, by removing the distortion or (`reverse`) by putting it back. `None`
/// where a JPEG file cannot have the image's sides.
///
/// Where no segment of the source is cut short by its own length header, the file
/// holds all of the source's metadata, in order, each dewarp flag of one byte set.
pub fn save_jpeg(
    data: &[u8],
    width: u32,
    height: u32,
    quality: u8,
    source: &[u8],
    reverse: bool,
) -> (r: Option<Vec<u8>>)
    requires
        data@.len() == height * width * 3,
    ensures
        r is Some <==> fits_jpeg(width, height),
        r is Some ==> has_whole_head(jpeg_encoding(data@, width, height, quality)),
        r is Some ==> jpeg_encoding(data@, width, height, quality).len() >= 20,
        r matches Some(file) ==> file@ == written_file(
            jpeg_encoding(data@, width, height, quality),
            source@,
            reverse,
        ),
        r matches Some(file) ==> (forall|i: int|
            0 <= i < jpeg_metadata(source@).len() ==> (#[trigger] jpeg_metadata(source@)[i]).len()
                >= 4) ==> jpeg_metadata(file@) == flagged(jpeg_metadata(source@), reverse),
{
    let Some(jpeg) = encode_rgb(data, width, height, quality) else {
        return None;
    };
    assert(jpeg@[0] == jpeg@.take(6)[0] && jpeg@[1] == jpeg@.take(6)[1] && jpeg@[2] == jpeg@.take(
        6,
    )[2] && jpeg@[3] == jpeg@.take(6)[3] && jpeg@[4] == jpeg@.take(6)[4] && jpeg@[5] == jpeg@.take(
        6,
    )[5]);
    let ghost encoded = jpeg@;
    let file = carry_metadata(jpeg, source, reverse);
    proof {
        let segments = jpeg_metadata(source@);
        if forall|i: int| 0 <= i < segments.len() ==> (#[trigger] segments[i]).len() >= 4 {
            if segments.len() > 0 {
                assert forall|i: int|
                    0 <= i < segments.len() implies is_metadata_segment(
                    #[trigger] flagged(segments, reverse)[i],
                ) by {
                    law_metadata_is_kept(source@, i);
                    lemma_patched_is_metadata(segments[i], written_flag(reverse));
                }
                law_metadata_reads_back(encoded, flagged(segments, reverse));
                assert(flagged(segments, reverse) + jpeg_metadata(encoded) =~= flagged(
                    segments,
                    reverse,
                ));
            }
        }
    }
    Some(file)
}

proof fn lemma_patched_is_metadata(segment: Seq<u8>, value: Seq<u8>)
    requires
        is_metadata_segment(segment),
    ensures
        is_metadata_segment(patched(segment, value)),
{
    if flag_place(segment) is Some {
        lemma_flag_place(segment);
    }
}

} // verus!
