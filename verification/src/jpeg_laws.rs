//! What holds of the segments of a JPEG file, in terms of its bytes.
use crate::jpeg::{be16, jfif_end, jpeg_metadata, lemma_metadata_suffix, metadata_from, with_metadata};
use vstd::prelude::*;

verus! {

/// The length that the header bytes `high` and `low` of a segment tell, as a 16-bit
/// number: the one byte above the other.
pub open spec fn header_length(high: u8, low: u8) -> u16 {
    ((high as u16) << 8) | low as u16
}

proof fn lemma_header_length(high: u8, low: u8)
    ensures
        be16(high, low) == header_length(high, low),
{
    assert((((high as u16) << 8) | low as u16) == high * 256 + low) by (bit_vector);
}

/// Every number of 16 bits is the length of exactly one pair of header bytes: its
/// upper and its lower byte.
pub proof fn law_each_length_has_one_header(n: u16, high: u8, low: u8)
    ensures
        be16((n >> 8) as u8, (n & 0xff) as u8) == n,
        be16(high, low) == n ==> high == (n >> 8) as u8 && low == (n & 0xff) as u8,
{
    let (h, l) = ((n >> 8) as u8, (n & 0xff) as u8);
    lemma_header_length(h, l);
    lemma_header_length(high, low);
    assert((((h as u16) << 8) | l as u16) == n) by (bit_vector)
        requires
            h == (n >> 8) as u8,
            l == (n & 0xff) as u8,
    ;
    assert((((high as u16) << 8) | low as u16) == n ==> high == (n >> 8) as u8 && low == (n
        & 0xff) as u8) by (bit_vector);
}

/// The length that follows one more in the lower byte is one more; behind the last
/// lower byte the upper one goes on.
pub proof fn law_lengths_follow_each_other(high: u8, low: u8)
    ensures
        low < 0xff ==> be16(high, (low + 1) as u8) == be16(high, low) + 1,
        high < 0xff ==> be16((high + 1) as u8, 0) == be16(high, 0xff) + 1,
        be16(0, 0) == 0,
{
    if low < 0xff {
        assert((low + 1) as u8 == low + 1);
    }
    if high < 0xff {
        assert((high + 1) as u8 == high + 1);
    }
}

/// The bytes of a segment: the marker, two header bytes and what they tell the length
/// of.
pub open spec fn segment_bytes(marker: u8, high: u8, low: u8, payload: Seq<u8>) -> Seq<u8> {
    seq![0xFFu8, marker, high, low] + payload
}

proof fn lemma_behind_start(rest: Seq<u8>)
    ensures
        jpeg_metadata(seq![0xFFu8, 0xD8u8] + rest) == metadata_from(rest, 0),
{
    lemma_metadata_suffix(seq![0xFFu8, 0xD8u8], rest, 0);
}

/// The metadata of a JPEG file is taken from it segment by segment. A whole segment of
/// APP1 to APP15, or a comment, is kept with its marker and header, byte for byte; any
/// other is passed over, whatever it holds; and the file goes on right behind it.
pub proof fn law_metadata_is_taken_segment_by_segment(
    marker: u8,
    high: u8,
    low: u8,
    payload: Seq<u8>,
    rest: Seq<u8>,
)
    requires
        marker != 0x00,
        marker != 0xFF,
        !(0xD0 <= marker <= 0xD7),
        marker != 0xD9,
        marker != 0xDA,
        payload.len() == header_length(high, low) - 2,
    ensures
        ({
            let segment = segment_bytes(marker, high, low, payload);
            let start = seq![0xFFu8, 0xD8u8];
            let kept = 0xE1 <= marker <= 0xEF || marker == 0xFE;
            jpeg_metadata(start + (segment + rest)) == (if kept {
                seq![segment]
            } else {
                Seq::<Seq<u8>>::empty()
            }) + jpeg_metadata(start + rest)
        }),
{
    let segment = segment_bytes(marker, high, low, payload);
    let data = segment + rest;
    lemma_header_length(high, low);
    lemma_behind_start(data);
    lemma_behind_start(rest);
    let end = segment.len() as int;
    assert(data[0] == 0xFF && data[1] == marker && data[2] == high && data[3] == low);
    assert(data.subrange(0, end) =~= segment);
    lemma_metadata_suffix(segment, rest, 0);
    assert(Seq::<Seq<u8>>::empty() + metadata_from(rest, 0) =~= metadata_from(rest, 0));
}

/// A fill byte, a stuffed byte or a restart marker has no length: the walk goes on at
/// the next byte.
pub proof fn law_bare_markers_are_passed_over(marker: u8, rest: Seq<u8>)
    requires
        marker == 0x00 || marker == 0xFF || 0xD0 <= marker <= 0xD7,
        rest.len() >= 2,
    ensures
        ({
            let start = seq![0xFFu8, 0xD8u8];
            jpeg_metadata(start + (seq![0xFFu8, marker] + rest)) == jpeg_metadata(
                start + (seq![marker] + rest),
            )
        }),
{
    let data = seq![0xFFu8, marker] + rest;
    lemma_behind_start(data);
    lemma_behind_start(seq![marker] + rest);
    assert(data =~= seq![0xFFu8] + (seq![marker] + rest));
    lemma_metadata_suffix(seq![0xFFu8], seq![marker] + rest, 0);
}

/// The walk ends at the scan, at the end of the image, at what is no marker, and where
/// a segment is longer than the file: there is no metadata from there on. A file that
/// does not begin as a JPEG file has none.
pub proof fn law_metadata_ends(data: Seq<u8>)
    ensures
        ({
            let file = seq![0xFFu8, 0xD8u8] + data;
            let none = Seq::<Seq<u8>>::empty();
            &&& data.len() < 4 ==> jpeg_metadata(file) == none
            &&& data.len() >= 4 && data[0] != 0xFF ==> jpeg_metadata(file) == none
            &&& data.len() >= 4 && (data[1] == 0xDA || data[1] == 0xD9) ==> jpeg_metadata(file)
                == none
            &&& data.len() >= 4 && 0x01 <= data[1] <= 0xFE && !(0xD0 <= data[1] <= 0xD7)
                && data.len() < 2 + header_length(data[2], data[3]) ==> jpeg_metadata(file) == none
            &&& data.len() >= 2 && !(data[0] == 0xFF && data[1] == 0xD8) ==> jpeg_metadata(data)
                == none
        }),
{
    lemma_behind_start(data);
    if data.len() >= 4 {
        lemma_header_length(data[2], data[3]);
    }
}

/// Metadata comes right behind the leading JFIF segment of the file that it is put
/// into, or behind the start of the image where the file has none; all other bytes
/// stay, in order.
pub proof fn law_metadata_comes_behind_jfif(
    high: u8,
    low: u8,
    payload: Seq<u8>,
    rest: Seq<u8>,
    segments: Seq<Seq<u8>>,
)
    ensures
        ({
            let start = seq![0xFFu8, 0xD8u8];
            let jfif = segment_bytes(0xE0, high, low, payload);
            &&& payload.len() == header_length(high, low) - 2 ==> with_metadata(
                start + (jfif + rest),
                segments,
            ) == start + (jfif + (segments.flatten() + rest))
            &&& rest.len() < 2 || rest[0] != 0xFF || rest[1] != 0xE0 ==> with_metadata(
                start + rest,
                segments,
            ) == start + (segments.flatten() + rest)
        }),
{
    let start = seq![0xFFu8, 0xD8u8];
    let jfif = segment_bytes(0xE0, high, low, payload);
    lemma_header_length(high, low);
    if payload.len() == header_length(high, low) - 2 {
        let file = start + (jfif + rest);
        assert(file[2] == 0xFF && file[3] == 0xE0 && file[4] == high && file[5] == low);
        assert(jfif_end(file) == 2 + jfif.len());
        assert(with_metadata(file, segments) =~= start + (jfif + (segments.flatten() + rest)));
    }
    if rest.len() < 2 || rest[0] != 0xFF || rest[1] != 0xE0 {
        let file = start + rest;
        if rest.len() >= 2 {
            assert(file[2] == rest[0] && file[3] == rest[1]);
        }
        assert(jfif_end(file) == 2);
        assert(with_metadata(file, segments) =~= start + (segments.flatten() + rest));
    }
}

} // verus!
