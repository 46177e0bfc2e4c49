//! The XMP packet of an image file, and the attributes in it.
use crate::search::{find_subsequence, first_item, first_of};
use crate::text::{parse_i32, parsed_i32, show, shown_text};
use regex::Regex;
use vstd::prelude::*;
use vstd::utf8::encode_utf8;

verus! {

/// How much of a file is looked at for its XMP packet.
pub const SCAN_LIMIT: usize = 65536;

/// The part of a file that is looked at: its first 64 KiB.
pub open spec fn head_of(data: Seq<u8>) -> Seq<u8> {
    if data.len() > SCAN_LIMIT {
        data.take(SCAN_LIMIT as int)
    } else {
        data
    }
}

pub open spec fn packet_start() -> Seq<u8> {
    encode_utf8("<x:xmpmeta"@)
}

pub open spec fn packet_end() -> Seq<u8> {
    encode_utf8("</x:xmpmeta>"@)
}

/// The XMP packet in the bytes: from the first opening tag to the first closing
/// tag behind it.
pub open spec fn packet_in(head: Seq<u8>) -> Option<Seq<u8>> {
    match first_of(head, packet_start()) {
        Some(start) => match first_of(head.skip(start), packet_end()) {
            Some(len) => Some(head.subrange(start, start + len + packet_end().len())),
            None => None,
        },
        None => None,
    }
}

/// What stands in quotes behind the first `key` in `text`.
pub open spec fn quoted_after(text: Seq<char>, key: Seq<char>) -> Option<Seq<char>> {
    match first_of(text, key) {
        Some(at) => {
            let start = at + key.len();
            match first_item(text.skip(start), '"') {
                Some(len) => Some(text.subrange(start, start + len)),
                None => None,
            }
        },
        None => None,
    }
}

/// The character stands for itself in a regular expression.
pub open spec fn is_literal(c: char) -> bool {
    ||| 'a' <= c <= 'z'
    ||| 'A' <= c <= 'Z'
    ||| '0' <= c <= '9'
    ||| c == '-'
    ||| c == ':'
    ||| c == '='
    ||| c == '"'
}

/// The end of the patterns that are used here: a group of characters other than a
/// quote, and the quote behind them.
pub open spec fn group_and_quote() -> Seq<char> {
    "([^\"]*)\""@
}

/// The pattern is `key`, a short literal text, in front of a quoted group.
pub open spec fn is_quoted_pattern(pattern: Seq<char>, key: Seq<char>) -> bool {
    &&& pattern == key + group_and_quote()
    &&& key.len() <= 256
    &&& forall|i: int| 0 <= i < key.len() ==> is_literal(#[trigger] key[i])
}

/// Calls `regex`'s `Regex::new` and `Regex::captures`, and takes the text of the
/// first group.
///
/// Believed of it, for a pattern that is a literal key in front of a quoted group:
/// the pattern compiles, and the group of the leftmost match is what stands
/// between the first key in the text and the next quote behind it.
#[verifier::external_body]
fn first_group(pattern: &str, text: &str) -> (r: Option<String>)
    requires
        exists|key: Seq<char>| is_quoted_pattern(pattern@, key),
    ensures
        forall|key: Seq<char>| #[trigger]
            is_quoted_pattern(pattern@, key) ==> match r {
                Some(group) => quoted_after(text@, key) == Some(group@),
                None => quoted_after(text@, key) is None,
            },
{
    let captures = Regex::new(pattern).ok()?.captures(text)?;
    captures.get(1).map(|group| group.as_str().to_string())
}

/// The attributes that are read.
pub open spec fn data_key() -> Seq<char> {
    "drone-dji:DewarpData=\""@
}

pub open spec fn flag_key() -> Seq<char> {
    "drone-dji:DewarpFlag=\""@
}

pub open spec fn center_x_key() -> Seq<char> {
    "drone-dji:CalibratedOpticalCenterX=\""@
}

pub open spec fn center_y_key() -> Seq<char> {
    "drone-dji:CalibratedOpticalCenterY=\""@
}

/// The text of the XMP packet of a file.
pub open spec fn xmp_of(data: Seq<u8>) -> Option<Seq<char>> {
    match packet_in(head_of(data)) {
        Some(packet) => Some(shown_text(packet)),
        None => None,
    }
}

proof fn lemma_packet_tags()
    ensures
        packet_start().len() == 10,
        packet_end().len() == 12,
{
    reveal_strlit("<x:xmpmeta");
    reveal_strlit("</x:xmpmeta>");
    vstd::utf8::is_ascii_chars_encode_utf8("<x:xmpmeta"@);
    vstd::utf8::is_ascii_chars_encode_utf8("</x:xmpmeta>"@);
}

/// Finds the XMP packet in the first 64 KiB of a file.
pub fn find_xmp(data: &[u8]) -> (r: Option<String>)
    ensures
        match r {
            Some(text) => xmp_of(data@) == Some(text@),
            None => xmp_of(data@) is None,
        },
{
    proof {
        lemma_packet_tags();
    }
    let limit = if data.len() > SCAN_LIMIT {
        SCAN_LIMIT
    } else {
        data.len()
    };
    let head = vstd::slice::slice_subrange(data, 0, limit);
    assert(head@ =~= head_of(data@));
    let start = find_subsequence(head, "<x:xmpmeta".as_bytes())?;
    let tail = vstd::slice::slice_subrange(head, start, limit);
    let end_tag = "</x:xmpmeta>".as_bytes();
    let len = find_subsequence(tail, end_tag)?;
    let packet = vstd::slice::slice_subrange(tail, 0, len + end_tag.len());
    assert(packet@ =~= head@.subrange(start as int, start + len + packet_end().len()));
    Some(show(packet))
}

/// The DewarpData attribute of an XMP packet.
pub fn dewarp_data(xmp: &str) -> (r: Option<String>)
    ensures
        match r {
            Some(value) => quoted_after(xmp@, data_key()) == Some(value@),
            None => quoted_after(xmp@, data_key()) is None,
        },
{
    proof {
        reveal_strlit("drone-dji:DewarpData=\"([^\"]*)\"");
        reveal_strlit("drone-dji:DewarpData=\"");
        reveal_strlit("([^\"]*)\"");
        assert("drone-dji:DewarpData=\"([^\"]*)\""@ =~= data_key() + group_and_quote());
        assert(is_quoted_pattern("drone-dji:DewarpData=\"([^\"]*)\""@, data_key()));
    }
    first_group("drone-dji:DewarpData=\"([^\"]*)\"", xmp)
}

/// The horizontal optical centre that an XMP packet gives.
pub fn center_x(xmp: &str) -> (r: Option<String>)
    ensures
        match r {
            Some(value) => quoted_after(xmp@, center_x_key()) == Some(value@),
            None => quoted_after(xmp@, center_x_key()) is None,
        },
{
    proof {
        reveal_strlit("drone-dji:CalibratedOpticalCenterX=\"([^\"]*)\"");
        reveal_strlit("drone-dji:CalibratedOpticalCenterX=\"");
        reveal_strlit("([^\"]*)\"");
        assert("drone-dji:CalibratedOpticalCenterX=\"([^\"]*)\""@ =~= center_x_key() + group_and_quote());
        assert(is_quoted_pattern(
            "drone-dji:CalibratedOpticalCenterX=\"([^\"]*)\""@,
            center_x_key(),
        ));
    }
    first_group("drone-dji:CalibratedOpticalCenterX=\"([^\"]*)\"", xmp)
}

/// The vertical optical centre that an XMP packet gives.
pub fn center_y(xmp: &str) -> (r: Option<String>)
    ensures
        match r {
            Some(value) => quoted_after(xmp@, center_y_key()) == Some(value@),
            None => quoted_after(xmp@, center_y_key()) is None,
        },
{
    proof {
        reveal_strlit("drone-dji:CalibratedOpticalCenterY=\"([^\"]*)\"");
        reveal_strlit("drone-dji:CalibratedOpticalCenterY=\"");
        reveal_strlit("([^\"]*)\"");
        assert("drone-dji:CalibratedOpticalCenterY=\"([^\"]*)\""@ =~= center_y_key() + group_and_quote());
        assert(is_quoted_pattern(
            "drone-dji:CalibratedOpticalCenterY=\"([^\"]*)\""@,
            center_y_key(),
        ));
    }
    first_group("drone-dji:CalibratedOpticalCenterY=\"([^\"]*)\"", xmp)
}

/// The dewarp flag of an XMP packet, as it is written.
fn flag_text(xmp: &str) -> (r: Option<String>)
    ensures
        match r {
            Some(value) => quoted_after(xmp@, flag_key()) == Some(value@),
            None => quoted_after(xmp@, flag_key()) is None,
        },
{
    proof {
        reveal_strlit("drone-dji:DewarpFlag=\"([^\"]*)\"");
        reveal_strlit("drone-dji:DewarpFlag=\"");
        reveal_strlit("([^\"]*)\"");
        assert("drone-dji:DewarpFlag=\"([^\"]*)\""@ =~= flag_key() + group_and_quote());
        assert(is_quoted_pattern(
            "drone-dji:DewarpFlag=\"([^\"]*)\""@,
            flag_key(),
        ));
    }
    first_group("drone-dji:DewarpFlag=\"([^\"]*)\"", xmp)
}

/// The dewarp flag of an XMP packet: -1 where there is none, or none that is a
/// number.
pub open spec fn flag_of(xmp: Seq<char>) -> i32 {
    match quoted_after(xmp, flag_key()) {
        Some(value) => match parsed_i32(value) {
            Some(flag) => flag,
            None => -1i32,
        },
        None => -1i32,
    }
}

/// Reads the dewarp flag of an XMP packet.
pub fn dewarp_flag(xmp: &str) -> (r: i32)
    ensures
        r == flag_of(xmp@),
{
    match flag_text(xmp) {
        Some(value) => match parse_i32(value.as_str()) {
            Some(flag) => flag,
            None => -1,
        },
        None => -1,
    }
}

} // verus!
