//! Text: taking it apart, trimming it, and numbers in decimal.
use crate::search::{first_item, is_first_item, lemma_first_item};
use vstd::prelude::*;
use vstd::utf8::{decode_utf8, encode_scalar, encode_utf8, valid_utf8};

verus! {

/// `String::push` of the standard library appends one character.
pub assume_specification[ String::push ](s: &mut String, c: char)
    ensures
        final(s)@ == old(s)@.push(c),
;

/// Calls `core::str::from_utf8`.
///
/// Believed of it: it accepts just the bytes that are UTF-8, and gives the text
/// that they encode.
#[verifier::external_body]
pub(crate) fn decode(bytes: &[u8]) -> (r: Option<&str>)
    ensures
        r is Some <==> valid_utf8(bytes@),
        r matches Some(text) ==> text@ == decode_utf8(bytes@),
{
    core::str::from_utf8(bytes).ok()
}

/// The text that the standard library makes of bytes, with replacement
/// characters for what is not UTF-8.
pub uninterp spec fn lossy_text(bytes: Seq<u8>) -> Seq<char>;

/// Calls `String::from_utf8_lossy`.
///
/// Believed of it: the text is a function of the bytes, and where they are UTF-8
/// it is the text that they encode.
#[verifier::external_body]
fn decode_lossy(bytes: &[u8]) -> (r: String)
    ensures
        r@ == lossy_text(bytes@),
        valid_utf8(bytes@) ==> r@ == decode_utf8(bytes@),
{
    String::from_utf8_lossy(bytes).into_owned()
}

/// The text that bytes are shown as: the one that they encode where they are UTF-8,
/// else one with replacement characters.
pub open spec fn shown_text(bytes: Seq<u8>) -> Seq<char> {
    if valid_utf8(bytes) {
        decode_utf8(bytes)
    } else {
        lossy_text(bytes)
    }
}

pub(crate) fn show(bytes: &[u8]) -> (r: String)
    ensures
        r@ == shown_text(bytes@),
{
    decode_lossy(bytes)
}

/// The characters of a text.
pub(crate) fn chars_of(text: &str) -> (r: Vec<char>)
    ensures
        r@ == text@,
{
    let mut r: Vec<char> = Vec::new();
    for c in iter: text.chars()
        invariant
            r@ == text@.take(iter.index() as int),
            iter.seq() == text@,
    {
        r.push(c);
    }
    r
}

/// The text of the characters from `from` up to `to`.
pub(crate) fn text_of(chars: &Vec<char>, from: usize, to: usize) -> (r: String)
    requires
        from <= to <= chars@.len(),
    ensures
        r@ == chars@.subrange(from as int, to as int),
{
    let mut r = String::new();
    let mut i = from;
    while i < to
        invariant
            from <= i <= to <= chars@.len(),
            r@ == chars@.subrange(from as int, i as int),
        decreases to - i,
    {
        r.push(chars[i]);
        assert(chars@.subrange(from as int, i + 1) =~= chars@.subrange(from as int, i as int).push(
            chars@[i as int],
        ));
        i = i + 1;
    }
    r
}

/// Whether two texts are the same.
pub(crate) fn same_text(a: &Vec<char>, b: &str) -> (r: bool)
    ensures
        r == (a@ == b@),
{
    let other = chars_of(b);
    if a.len() != other.len() {
        return false;
    }
    for i in 0..a.len()
        invariant
            a@.len() == other@.len(),
            other@ == b@,
            forall|j: int| 0 <= j < i ==> a@[j] == #[trigger] other@[j],
    {
        if a[i] != other[i] {
            return false;
        }
    }
    assert(a@ =~= other@);
    true
}

// ---------------------------------------------------------------------------
// White space
// ---------------------------------------------------------------------------

/// The characters that Unicode calls white space.
pub open spec fn is_white_space(c: char) -> bool {
    let v = c as u32;
    ||| 0x09 <= v <= 0x0D
    ||| v == 0x20
    ||| v == 0x85
    ||| v == 0xA0
    ||| v == 0x1680
    ||| 0x2000 <= v <= 0x200A
    ||| v == 0x2028
    ||| v == 0x2029
    ||| v == 0x202F
    ||| v == 0x205F
    ||| v == 0x3000
}

/// Whether a character is white space.
pub fn white_space(c: char) -> (r: bool)
    ensures
        r == is_white_space(c),
{
    let v = c as u32;
    (0x09 <= v && v <= 0x0D) || v == 0x20 || v == 0x85 || v == 0xA0 || v == 0x1680 || (0x2000 <= v
        && v <= 0x200A) || v == 0x2028 || v == 0x2029 || v == 0x202F || v == 0x205F || v == 0x3000
}

/// The text without the white space in front.
pub open spec fn trimmed_front(text: Seq<char>) -> Seq<char>
    decreases text.len(),
{
    if text.len() > 0 && is_white_space(text.first()) {
        trimmed_front(text.drop_first())
    } else {
        text
    }
}

/// The text without the white space at the end.
pub open spec fn trimmed_back(text: Seq<char>) -> Seq<char>
    decreases text.len(),
{
    if text.len() > 0 && is_white_space(text.last()) {
        trimmed_back(text.drop_last())
    } else {
        text
    }
}

/// The text without the white space around it.
pub open spec fn trimmed(text: Seq<char>) -> Seq<char> {
    trimmed_back(trimmed_front(text))
}

/// The part from `from` up to `to` without the white space around it.
pub(crate) fn trim(chars: &Vec<char>, from: usize, to: usize) -> (r: (usize, usize))
    requires
        from <= to <= chars@.len(),
    ensures
        from <= r.0 <= r.1 <= to,
        chars@.subrange(r.0 as int, r.1 as int) == trimmed(
            chars@.subrange(from as int, to as int),
        ),
{
    let ghost whole = chars@.subrange(from as int, to as int);
    let mut start = from;
    while start < to && white_space(chars[start])
        invariant
            from <= start <= to <= chars@.len(),
            trimmed_front(chars@.subrange(start as int, to as int)) == trimmed_front(whole),
        decreases to - start,
    {
        assert(chars@.subrange(start as int, to as int).drop_first() =~= chars@.subrange(
            start + 1,
            to as int,
        ));
        start = start + 1;
    }
    let mut end = to;
    while end > start && white_space(chars[end - 1])
        invariant
            from <= start <= end <= to <= chars@.len(),
            trimmed_back(chars@.subrange(start as int, end as int)) == trimmed(whole),
        decreases end - start,
    {
        assert(chars@.subrange(start as int, end as int).drop_last() =~= chars@.subrange(
            start as int,
            end - 1,
        ));
        end = end - 1;
    }
    (start, end)
}

/// Trimming leaves a text as it is that has no white space at its ends.
pub(crate) proof fn lemma_trimmed(text: Seq<char>)
    requires
        text.len() > 0 ==> !is_white_space(text.first()) && !is_white_space(text.last()),
    ensures
        trimmed(text) == text,
{
}

// ---------------------------------------------------------------------------
// Parts
// ---------------------------------------------------------------------------

/// The parts of a text between separators: one more than there are separators.
pub open spec fn split_on<T>(text: Seq<T>, separator: T) -> Seq<Seq<T>>
    decreases text.len(),
{
    if text.len() == 0 {
        seq![Seq::empty()]
    } else {
        let parts = split_on(text.drop_last(), separator);
        if text.last() == separator {
            parts.push(Seq::empty())
        } else {
            parts.drop_last().push(parts.last().push(text.last()))
        }
    }
}

pub(crate) proof fn lemma_split_on_some<T>(text: Seq<T>, separator: T)
    ensures
        split_on(text, separator).len() > 0,
    decreases text.len(),
{
    if text.len() > 0 {
        lemma_split_on_some(text.drop_last(), separator);
    }
}

/// What each of a sequence of strings says.
pub open spec fn texts(strings: Seq<String>) -> Seq<Seq<char>> {
    strings.map_values(|s: String| s@)
}

/// Splits the part from `from` up to `to` at each separator.
pub(crate) fn split(chars: &Vec<char>, from: usize, to: usize, separator: char) -> (r: Vec<String>)
    requires
        from <= to <= chars@.len(),
    ensures
        texts(r@) == split_on(chars@.subrange(from as int, to as int), separator),
{
    let mut parts: Vec<String> = Vec::new();
    let mut part = String::new();
    let mut i = from;
    assert(texts(parts@).push(part@) =~= split_on(
        chars@.subrange(from as int, from as int),
        separator,
    ));
    while i < to
        invariant
            from <= i <= to <= chars@.len(),
            texts(parts@).push(part@) == split_on(
                chars@.subrange(from as int, i as int),
                separator,
            ),
        decreases to - i,
    {
        let c = chars[i];
        assert(chars@.subrange(from as int, i + 1).drop_last() =~= chars@.subrange(
            from as int,
            i as int,
        ));
        if c == separator {
            parts.push(part);
            part = String::new();
        } else {
            part.push(c);
        }
        i = i + 1;
    }
    parts.push(part);
    parts
}

/// What each of a sequence of byte vectors holds.
pub open spec fn contents(parts: Seq<Vec<u8>>) -> Seq<Seq<u8>> {
    parts.map_values(|part: Vec<u8>| part@)
}

/// Splits bytes at each separator.
pub(crate) fn split_bytes(data: &[u8], separator: u8) -> (r: Vec<Vec<u8>>)
    ensures
        contents(r@) == split_on(data@, separator),
{
    let mut parts: Vec<Vec<u8>> = Vec::new();
    let mut part: Vec<u8> = Vec::new();
    for i in 0..data.len()
        invariant
            contents(parts@).push(part@) == split_on(data@.take(i as int), separator),
    {
        let byte = data[i];
        assert(data@.take(i + 1).drop_last() =~= data@.take(i as int));
        if byte == separator {
            parts.push(part);
            part = Vec::new();
        } else {
            part.push(byte);
        }
    }
    assert(data@.take(data@.len() as int) =~= data@);
    parts.push(part);
    parts
}

/// The texts of lines, up to the first that is not UTF-8.
pub open spec fn readable(lines: Seq<Seq<u8>>) -> Seq<Seq<char>>
    decreases lines.len(),
{
    if lines.len() == 0 || !valid_utf8(lines.first()) {
        Seq::empty()
    } else {
        seq![decode_utf8(lines.first())] + readable(lines.drop_first())
    }
}

/// The lines of a text file, up to the first that is not UTF-8.
pub open spec fn lines_of(data: Seq<u8>) -> Seq<Seq<char>> {
    readable(split_on(data, 0x0A))
}

/// Reads the lines of a text file, up to the first that is not UTF-8.
pub(crate) fn read_lines(data: &[u8]) -> (r: Vec<String>)
    ensures
        texts(r@) == lines_of(data@),
{
    let parts = split_bytes(data, 0x0A);
    let ghost all = contents(parts@);
    let mut lines: Vec<String> = Vec::new();
    assert(all.skip(0) =~= all);
    for i in 0..parts.len()
        invariant
            all == contents(parts@),
            all == split_on(data@, 0x0A),
            texts(lines@) + readable(all.skip(i as int)) == lines_of(data@),
    {
        let ghost before = texts(lines@);
        match decode(parts[i].as_slice()) {
            Some(line) => {
                let line = line.to_owned();
                lines.push(line);
                assert(all.skip(i as int).drop_first() =~= all.skip(i + 1));
                assert(texts(lines@) + readable(all.skip(i + 1)) =~= before + readable(
                    all.skip(i as int),
                ));
            },
            None => {
                return lines;
            },
        }
    }
    lines
}

/// Splitting what was appended without a separator: it belongs to the last part.
pub(crate) proof fn lemma_split_append<T>(text: Seq<T>, more: Seq<T>, separator: T)
    requires
        !more.contains(separator),
    ensures
        split_on(text + more, separator) == split_on(text, separator).drop_last().push(
            split_on(text, separator).last() + more,
        ),
    decreases more.len(),
{
    lemma_split_on_some(text, separator);
    let parts = split_on(text, separator);
    if more.len() > 0 {
        let most = more.drop_last();
        assert(!most.contains(separator)) by {
            if most.contains(separator) {
                let i = choose|i: int| 0 <= i < most.len() && most[i] == separator;
            }
        }
        lemma_split_append(text, most, separator);
        assert((text + more).drop_last() =~= text + most);
        assert((parts.last() + most).push(more.last()) =~= parts.last() + more);
    }
}

/// Splitting a text with a line and a separator appended.
pub(crate) proof fn lemma_split_line<T>(text: Seq<T>, line: Seq<T>, separator: T, parts: Seq<Seq<T>>)
    requires
        split_on(text, separator) == parts.push(Seq::empty()),
        !line.contains(separator),
    ensures
        split_on(text + line + seq![separator], separator) == parts.push(line).push(Seq::empty()),
{
    lemma_split_append(text, line, separator);
    assert((text + line + seq![separator]).drop_last() =~= text + line);
}

/// The encoding of a text with a character appended.
proof fn lemma_encode_push(text: Seq<char>, c: char)
    ensures
        encode_utf8(text.push(c)) == encode_utf8(text) + encode_scalar(c as u32),
    decreases text.len(),
{
    if text.len() == 0 {
        assert(text.push(c).drop_first() =~= Seq::empty());
        assert(encode_utf8(Seq::<char>::empty()) =~= Seq::empty());
    } else {
        assert(text.push(c).drop_first() =~= text.drop_first().push(c));
        lemma_encode_push(text.drop_first(), c);
    }
}

/// An ASCII character is encoded as itself, and no ASCII byte stands in the encoding
/// of another character.
pub(crate) proof fn lemma_encode_scalar(c: char)
    ensures
        (c as u32) < 0x80 ==> encode_scalar(c as u32) == seq![c as u8],
        (c as u32) >= 0x80 ==> forall|i: int|
            0 <= i < encode_scalar(c as u32).len() ==> #[trigger] encode_scalar(c as u32)[i] >= 0x80,
{
    let v = c as u32;
    assert(v <= 0x7F ==> (v & 0x7F) as u8 == v) by (bit_vector);
    assert(0xC0u8 | ((v >> 6) & 0x1F) as u8 >= 0x80) by (bit_vector);
    assert(0xE0u8 | ((v >> 12) & 0x0F) as u8 >= 0x80) by (bit_vector);
    assert(0xF0u8 | ((v >> 18) & 0x07) as u8 >= 0x80) by (bit_vector);
    assert(0x80u8 | (v & 0x3F) as u8 >= 0x80) by (bit_vector);
    assert(0x80u8 | ((v >> 6) & 0x3F) as u8 >= 0x80) by (bit_vector);
    assert(0x80u8 | ((v >> 12) & 0x3F) as u8 >= 0x80) by (bit_vector);
    vstd::utf8::char_is_scalar(c);
}

/// A line feed is encoded as one byte, which stands in the encoding of no other
/// character.
proof fn lemma_encode_line_feed(c: char)
    ensures
        c == '\n' ==> encode_scalar(c as u32) == seq![0x0Au8],
        c != '\n' ==> !encode_scalar(c as u32).contains(0x0A),
{
    lemma_encode_scalar(c);
}

/// The lines of an encoded text are the encodings of its lines.
proof fn lemma_split_encoded(text: Seq<char>)
    ensures
        split_on(encode_utf8(text), 0x0A) == split_on(text, '\n').map_values(
            |line: Seq<char>| encode_utf8(line),
        ),
    decreases text.len(),
{
    if text.len() > 0 {
        let most = text.drop_last();
        let c = text.last();
        let bytes = encode_utf8(most);
        lemma_split_encoded(most);
        lemma_split_on_some(most, '\n');
        assert(text =~= most.push(c));
        lemma_encode_push(most, c);
        lemma_encode_line_feed(c);
        let parts = split_on(most, '\n');
        if c == '\n' {
            assert((bytes + seq![0x0Au8]).drop_last() =~= bytes);
        } else {
            lemma_split_append(bytes, encode_scalar(c as u32), 0x0A);
            lemma_encode_push(parts.last(), c);
        }
    }
}

proof fn lemma_readable_encoded(lines: Seq<Seq<char>>)
    ensures
        readable(lines.map_values(|line: Seq<char>| encode_utf8(line))) == lines,
    decreases lines.len(),
{
    let encode = |line: Seq<char>| encode_utf8(line);
    if lines.len() > 0 {
        vstd::utf8::encode_utf8_valid_utf8(lines.first());
        vstd::utf8::encode_utf8_decode_utf8(lines.first());
        lemma_readable_encoded(lines.drop_first());
        assert(lines.map_values(encode).drop_first() =~= lines.drop_first().map_values(encode));
    }
}

/// The lines of the file that holds a text are the lines of the text.
pub(crate) proof fn lemma_lines_of_encoded(text: Seq<char>)
    ensures
        lines_of(encode_utf8(text)) == split_on(text, '\n'),
{
    lemma_split_encoded(text);
    lemma_readable_encoded(split_on(text, '\n'));
}

/// The first place of the character `item` between `from` and `to`, counted from
/// `from`.
pub(crate) fn find_char(chars: &Vec<char>, from: usize, to: usize, item: char) -> (r: Option<usize>)
    requires
        from <= to <= chars@.len(),
    ensures
        match r {
            Some(i) => {
                &&& first_item(chars@.subrange(from as int, to as int), item) == Some(i as int)
                &&& is_first_item(chars@.subrange(from as int, to as int), item, i as int)
            },
            None => first_item(chars@.subrange(from as int, to as int), item) is None,
        },
{
    let ghost part = chars@.subrange(from as int, to as int);
    for i in 0..to - from
        invariant
            from <= to <= chars@.len(),
            part == chars@.subrange(from as int, to as int),
            forall|j: int| 0 <= j < i ==> #[trigger] part[j] != item,
    {
        if chars[from + i] == item {
            proof {
                lemma_first_item(part, item, i as int);
            }
            return Some(i);
        }
    }
    None
}

// ---------------------------------------------------------------------------
// Numbers
// ---------------------------------------------------------------------------

/// The text is a decimal number without a sign.
pub open spec fn is_digits(text: Seq<char>) -> bool {
    &&& text.len() > 0
    &&& forall|i: int| 0 <= i < text.len() ==> '0' <= #[trigger] text[i] <= '9'
}

/// The value of decimal digits.
pub open spec fn digits_value(digits: Seq<char>) -> int
    decreases digits.len(),
{
    if digits.len() == 0 {
        0
    } else {
        digits_value(digits.drop_last()) * 10 + (digits.last() as int - '0' as int)
    }
}

/// The number that a text says, where it is a decimal number, with or without a
/// sign, that an `i32` can hold.
pub open spec fn parsed_i32(text: Seq<char>) -> Option<i32> {
    let signed = text.len() > 0 && (text[0] == '-' || text[0] == '+');
    let digits = if signed {
        text.skip(1)
    } else {
        text
    };
    let value = if signed && text[0] == '-' {
        -digits_value(digits)
    } else {
        digits_value(digits)
    };
    if is_digits(digits) && i32::MIN <= value <= i32::MAX {
        Some(value as i32)
    } else {
        None
    }
}

/// Reads a decimal number.
pub fn parse_i32(text: &str) -> (r: Option<i32>)
    ensures
        r == parsed_i32(text@),
{
    let chars = chars_of(text);
    let signed = chars.len() > 0 && (chars[0] == '-' || chars[0] == '+');
    let start: usize = if signed {
        1
    } else {
        0
    };
    let ghost digits = chars@.skip(start as int);
    assert(chars@.skip(0) =~= chars@);
    if start == chars.len() {
        return None;
    }
    let mut value: i64 = 0;
    let mut too_large = false;
    for i in start..chars.len()
        invariant
            start < chars@.len(),
            digits == chars@.skip(start as int),
            !is_digits(digits) ==> parsed_i32(text@) is None,
            forall|j: int| 0 <= j < i - start ==> '0' <= #[trigger] digits[j] <= '9',
            0 <= value <= 0x8000_0000,
            !too_large ==> value == digits_value(digits.take(i - start)),
            too_large ==> digits_value(digits.take(i - start)) > 0x8000_0000,
    {
        let c = chars[i];
        assert(digits[i - start] == c);
        if c < '0' || c > '9' {
            return None;
        }
        assert(digits.take(i + 1 - start).drop_last() =~= digits.take(i - start));
        if !too_large {
            let next = value * 10 + (c as i64 - '0' as i64);
            if next > 0x8000_0000 {
                too_large = true;
            } else {
                value = next;
            }
        }
    }
    assert(digits.take(digits.len() as int) =~= digits);
    if too_large {
        return None;
    }
    let value = if signed && chars[0] == '-' {
        -value
    } else {
        value
    };
    if value <= i32::MAX as i64 {
        Some(value as i32)
    } else {
        None
    }
}

/// The character for a decimal digit.
pub open spec fn digit_char(d: int) -> char {
    ('0' as int + d) as char
}

/// A number in decimal.
pub open spec fn decimal(n: nat) -> Seq<char>
    decreases n,
{
    if n < 10 {
        seq![digit_char(n as int)]
    } else {
        decimal(n / 10).push(digit_char((n % 10) as int))
    }
}

/// A number in decimal, with a sign where it is negative.
pub open spec fn decimal_int(n: int) -> Seq<char> {
    if n < 0 {
        seq!['-'] + decimal((-n) as nat)
    } else {
        decimal(n as nat)
    }
}

proof fn lemma_decimal(n: nat)
    ensures
        is_digits(decimal(n)),
        digits_value(decimal(n)) == n,
        decimal(n).len() == 1 <==> n < 10,
    decreases n,
{
    if n >= 10 {
        lemma_decimal(n / 10);
        assert(decimal(n).drop_last() =~= decimal(n / 10));
    } else {
        assert(decimal(n).drop_last() =~= Seq::<char>::empty());
        assert(digits_value(Seq::<char>::empty()) == 0);
    }
}

/// A number in decimal reads back; ten is the first that takes two digits.
pub proof fn law_decimal_reads_back(n: i32)
    ensures
        parsed_i32(decimal_int(n as int)) == Some(n),
        n >= 0 ==> (decimal_int(n as int).len() == 1 <==> n < 10),
{
    let text = decimal_int(n as int);
    if n < 0 {
        lemma_decimal((-n) as nat);
        assert(text.skip(1) =~= decimal((-n) as nat));
    } else {
        lemma_decimal(n as nat);
    }
}

/// Appends a number in decimal.
pub(crate) fn push_decimal(out: &mut String, n: u64)
    ensures
        final(out)@ == old(out)@ + decimal(n as nat),
    decreases n,
{
    if n >= 10 {
        push_decimal(out, n / 10);
    }
    out.push((48 + (n % 10) as u8) as char);
}

/// Appends a number in decimal, with a sign where it is negative.
pub(crate) fn push_decimal_int(out: &mut String, n: i32)
    ensures
        final(out)@ == old(out)@ + decimal_int(n as int),
{
    if n < 0 {
        out.push('-');
        push_decimal(out, (-(n as i64)) as u64);
    } else {
        push_decimal(out, n as u64);
    }
}

} // verus!
