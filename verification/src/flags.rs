//! The dewarp flag of an image, as the bytes that are patched and as the text that
//! is read.
use crate::jpeg::patched;
use crate::search::{first_item, first_of, is_first_at, is_first_item, occurs_at};
use crate::search::{lemma_first_item, lemma_first_of};
use crate::text::{lemma_encode_scalar, parsed_i32};
use crate::xmp::{flag_of, quoted_after};
use crate::{jpeg, xmp};
use vstd::prelude::*;
use vstd::utf8::{encode_scalar, encode_utf8, is_ascii_chars, is_ascii_chars_encode_utf8};

verus! {

proof fn lemma_encode_concat(a: Seq<char>, b: Seq<char>)
    ensures
        encode_utf8(a + b) == encode_utf8(a) + encode_utf8(b),
    decreases a.len(),
{
    if a.len() > 0 {
        assert((a + b).drop_first() =~= a.drop_first() + b);
        lemma_encode_concat(a.drop_first(), b);
    }
}

proof fn lemma_ascii_char(c: char)
    requires
        (c as u32) < 0x80,
    ensures
        c as u8 == c as u32,
        (c as u8) as char == c,
{
}

/// An ASCII byte in an encoded text is a character of the text.
proof fn lemma_ascii_byte(text: Seq<char>, b: int) -> (j: int)
    requires
        0 <= b < encode_utf8(text).len(),
        encode_utf8(text)[b] < 0x80,
    ensures
        0 <= j < text.len(),
        b == encode_utf8(text.take(j)).len(),
        text[j] == encode_utf8(text)[b] as char,
    decreases text.len(),
{
    assert(text.len() > 0);
    let first = encode_scalar(text[0] as u32);
    lemma_encode_scalar(text[0]);
    if b < first.len() {
        lemma_ascii_char(text[0]);
        0
    } else {
        let rest = text.drop_first();
        let j = lemma_ascii_byte(rest, b - first.len());
        assert(text.take(j + 1).drop_first() =~= rest.take(j));
        j + 1
    }
}

/// A text whose encoding begins with ASCII characters begins with them.
proof fn lemma_ascii_start(text: Seq<char>, part: Seq<char>)
    requires
        is_ascii_chars(part),
        occurs_at(encode_utf8(text), encode_utf8(part), 0),
    ensures
        occurs_at(text, part, 0),
    decreases part.len(),
{
    let bytes = encode_utf8(text);
    let key = encode_utf8(part);
    is_ascii_chars_encode_utf8(part);
    if part.len() == 0 {
        assert(text.subrange(0, 0) =~= part);
    } else {
        let j = lemma_ascii_byte(text, 0);
        lemma_encode_scalar(text[0]);
        if j > 0 {
            let first = encode_scalar(text[0] as u32);
        }
        let rest = part.drop_first();
        lemma_encode_scalar(part[0]);
        assert(encode_utf8(text.drop_first()).subrange(0, encode_utf8(rest).len() as int)
            =~= encode_utf8(rest)) by {
            assert forall|i: int| 0 <= i < encode_utf8(rest).len() implies encode_utf8(
                text.drop_first(),
            )[i] == encode_utf8(rest)[i] by {
                assert(bytes.subrange(0, key.len() as int)[i + 1] == key[i + 1]);
            }
        }
        lemma_ascii_start(text.drop_first(), rest);
        assert(text.subrange(0, part.len() as int) =~= part) by {
            assert forall|i: int| 0 <= i < part.len() implies text[i] == part[i] by {
                if i > 0 {
                    assert(text.drop_first().subrange(0, rest.len() as int)[i - 1] == rest[i - 1]);
                }
            }
        }
    }
}

/// The first place of ASCII characters in a text is their first place in its
/// encoding.
proof fn lemma_first_of_encoded(text: Seq<char>, part: Seq<char>)
    requires
        is_ascii_chars(part),
        part.len() > 0,
        first_of(text, part) is Some,
    ensures
        ({
            let at = first_of(text, part)->0;
            &&& is_first_at(text, part, at)
            &&& first_of(encode_utf8(text), encode_utf8(part)) == Some(
                encode_utf8(text.take(at)).len() as int,
            )
        }),
{
    let at = first_of(text, part)->0;
    let bytes = encode_utf8(text);
    let key = encode_utf8(part);
    let place = encode_utf8(text.take(at)).len() as int;
    is_ascii_chars_encode_utf8(part);
    assert(text =~= text.take(at) + (part + text.skip(at + part.len())));
    lemma_encode_concat(text.take(at), part + text.skip(at + part.len()));
    lemma_encode_concat(part, text.skip(at + part.len()));
    assert(bytes.subrange(place, place + key.len()) =~= key);
    assert forall|b: int| 0 <= b < place implies !#[trigger] occurs_at(bytes, key, b) by {
        if occurs_at(bytes, key, b) {
            let j = lemma_ascii_byte(text, b);
            if j >= at {
                assert(text.take(j) =~= text.take(at) + text.subrange(at, j));
                lemma_encode_concat(text.take(at), text.subrange(at, j));
            }
            assert(text =~= text.take(j) + text.skip(j));
            lemma_encode_concat(text.take(j), text.skip(j));
            assert(encode_utf8(text.skip(j)).subrange(0, key.len() as int) =~= bytes.subrange(
                b,
                b + key.len(),
            ));
            lemma_ascii_start(text.skip(j), part);
            assert(text.subrange(j, j + part.len()) =~= text.skip(j).subrange(
                0,
                part.len() as int,
            ));
            assert(occurs_at(text, part, j));
        }
    }
    lemma_first_of(bytes, key, place);
}

/// The first place of an ASCII character in a text is its first place in its
/// encoding.
proof fn lemma_first_item_encoded(text: Seq<char>, c: char)
    requires
        (c as u32) < 0x80,
        first_item(text, c) is Some,
    ensures
        ({
            let at = first_item(text, c)->0;
            &&& is_first_item(text, c, at)
            &&& first_item(encode_utf8(text), c as u8) == Some(
                encode_utf8(text.take(at)).len() as int,
            )
        }),
{
    let at = first_item(text, c)->0;
    let bytes = encode_utf8(text);
    let place = encode_utf8(text.take(at)).len() as int;
    assert(text =~= text.take(at) + text.skip(at));
    lemma_encode_concat(text.take(at), text.skip(at));
    lemma_encode_scalar(c);
    assert forall|b: int| 0 <= b < place implies #[trigger] bytes[b] != c as u8 by {
        if bytes[b] == c as u8 {
            let j = lemma_ascii_byte(text, b);
            if j >= at {
                assert(text.take(j) =~= text.take(at) + text.subrange(at, j));
                lemma_encode_concat(text.take(at), text.subrange(at, j));
            }
        }
    }
    lemma_first_item(bytes, c as u8, place);
}

/// The text of a packet with `value` for its dewarp flag.
pub open spec fn with_flag(text: Seq<char>, value: Seq<char>) -> Seq<char> {
    let start = first_of(text, xmp::flag_key())->0 + xmp::flag_key().len();
    let old = quoted_after(text, xmp::flag_key())->0;
    text.take(start) + value + text.skip(start + old.len())
}

/// The flag that is read of a packet is the one that is patched: the first flag in
/// its text is the drone's own.
pub open spec fn flag_is_first(text: Seq<char>) -> bool {
    &&& first_of(text, xmp::flag_key()) is Some
    &&& first_of(text, "DewarpFlag=\""@) == Some(first_of(text, xmp::flag_key())->0 + 10)
}

/// Patching the bytes of a packet is putting the value into its text.
proof fn lemma_patched_bytes(text: Seq<char>, value: Seq<char>)
    requires
        flag_is_first(text),
        quoted_after(text, xmp::flag_key()) matches Some(old) && encode_utf8(old).len()
            == encode_utf8(value).len(),
    ensures
        patched(encode_utf8(text), encode_utf8(value)) == encode_utf8(with_flag(text, value)),
{
    let key = xmp::flag_key();
    let short = "DewarpFlag=\""@;
    reveal_strlit("drone-dji:DewarpFlag=\"");
    reveal_strlit("DewarpFlag=\"");
    is_ascii_chars_encode_utf8(short);
    lemma_first_of_encoded(text, key);
    lemma_first_of_encoded(text, short);
    let at = first_of(text, key)->0;
    let start = at + key.len();
    let old = quoted_after(text, key)->0;
    let tail = text.skip(start);
    lemma_first_item_encoded(tail, '"');
    assert(old =~= tail.take(old.len() as int));
    let bytes = encode_utf8(text);
    let bytes_start = encode_utf8(text.take(start)).len() as int;

    // The place of the flag in the bytes.
    assert(text.take(start) =~= text.take(at + 10) + short);
    lemma_encode_concat(text.take(at + 10), short);
    assert(text =~= text.take(start) + tail);
    lemma_encode_concat(text.take(start), tail);
    assert(bytes.skip(bytes_start) =~= encode_utf8(tail));

    // The bytes after the patch.
    let rest = tail.skip(old.len() as int);
    assert(tail =~= old + rest);
    lemma_encode_concat(old, rest);
    assert(with_flag(text, value) =~= text.take(start) + (value + rest));
    lemma_encode_concat(text.take(start), value + rest);
    lemma_encode_concat(value, rest);
}

/// What is put into the text of a packet is read back.
proof fn lemma_flag_reads_back(text: Seq<char>, value: Seq<char>)
    requires
        quoted_after(text, xmp::flag_key()) is Some,
        !value.contains('"'),
    ensures
        quoted_after(with_flag(text, value), xmp::flag_key()) == Some(value),
{
    let key = xmp::flag_key();
    let at = first_of(text, key)->0;
    let start = at + key.len();
    let after = with_flag(text, value);
    assert forall|j: int| 0 <= j <= at implies (#[trigger] occurs_at(after, key, j) == occurs_at(
        text,
        key,
        j,
    )) by {
        assert(after.subrange(j, j + key.len()) =~= text.subrange(j, j + key.len()));
    }
    lemma_first_of(after, key, at);
    let tail = after.skip(start);
    lemma_first_item(tail, '"', value.len() as int);
}

/// A packet whose flag is patched to a value of the same length reads with that
/// value: where the first flag of the packet is the drone's, the patched bytes are
/// the text with the value in its place, and the value is what is read back.
pub proof fn law_patched_flag_is_read(text: Seq<char>, value: Seq<char>)
    requires
        flag_is_first(text),
        quoted_after(text, xmp::flag_key()) matches Some(old) && encode_utf8(old).len()
            == encode_utf8(value).len(),
        !value.contains('"'),
    ensures
        patched(encode_utf8(text), encode_utf8(value)) == encode_utf8(with_flag(text, value)),
        quoted_after(with_flag(text, value), xmp::flag_key()) == Some(value),
        flag_of(with_flag(text, value)) == match parsed_i32(value) {
            Some(flag) => flag,
            None => -1i32,
        },
{
    lemma_patched_bytes(text, value);
    lemma_flag_reads_back(text, value);
}

} // verus!
