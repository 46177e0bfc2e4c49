//! The text file that a calibration is kept in: comments, and lines that give a
//! name its value.
use crate::calibration::{all_parse, parses, present, DjiCalibration};
use crate::scalar;
use crate::scalar::{is_arithmetic, whole};
use crate::search::{first_item, is_first_item, lemma_first_item};
use crate::text;
use crate::text::{lines_of, split_on, texts, trimmed};
use vstd::prelude::*;
use vstd::utf8::encode_utf8;

verus! {

// ---------------------------------------------------------------------------
// Writing
// ---------------------------------------------------------------------------

/// Digits behind the point of focal lengths and of the optical centre.
pub const PIXEL_DIGITS: usize = 12;

/// Digits behind the point of the lens coefficients.
pub const COEFFICIENT_DIGITS: usize = 15;

/// The names of the numbers, in the order in which they are written.
pub open spec fn number_names() -> Seq<Seq<char>> {
    seq!["fx"@, "fy"@, "cx"@, "cy"@, "k1"@, "k2"@, "k3"@, "p1"@, "p2"@]
}

/// The line that gives `name` the value `value`.
pub open spec fn line_of(name: Seq<char>, value: Seq<char>) -> Seq<char> {
    name + "="@ + value
}

/// The lines of a file that holds the date and the numbers.
pub open spec fn file_lines(date: Seq<char>, numbers: Seq<Seq<char>>) -> Seq<Seq<char>> {
    seq![
        "# Camera Dewarp — Lens Calibration File"@,
        "# Extracted from DJI XMP DewarpData"@,
        line_of("calibration_date"@, date),
    ] + Seq::new(9, |i: int| line_of(number_names()[i], numbers[i]))
}

/// The lines, each with a line feed at its end.
pub open spec fn joined(lines: Seq<Seq<char>>) -> Seq<char>
    decreases lines.len(),
{
    if lines.len() == 0 {
        Seq::empty()
    } else {
        joined(lines.drop_last()) + lines.last() + "\n"@
    }
}

/// `number` is `v`, written by `fixed` with `digits` digits behind the point.
pub open spec fn written<F, W: Fn(F, usize) -> String>(
    fixed: W,
    v: F,
    digits: usize,
    number: Seq<char>,
) -> bool {
    exists|s: String| #[trigger] call_ensures(fixed, (v, digits), s) && s@ == number
}

/// `numbers` are those of the calibration, written by `fixed`.
pub open spec fn numbers_written<F, W: Fn(F, usize) -> String>(
    fixed: W,
    cal: DjiCalibration<F>,
    numbers: Seq<Seq<char>>,
) -> bool {
    &&& numbers.len() == 9
    &&& written(fixed, cal.fx, PIXEL_DIGITS, numbers[0])
    &&& written(fixed, cal.fy, PIXEL_DIGITS, numbers[1])
    &&& written(fixed, cal.cx, PIXEL_DIGITS, numbers[2])
    &&& written(fixed, cal.cy, PIXEL_DIGITS, numbers[3])
    &&& written(fixed, cal.k1, COEFFICIENT_DIGITS, numbers[4])
    &&& written(fixed, cal.k2, COEFFICIENT_DIGITS, numbers[5])
    &&& written(fixed, cal.k3, COEFFICIENT_DIGITS, numbers[6])
    &&& written(fixed, cal.p1, COEFFICIENT_DIGITS, numbers[7])
    &&& written(fixed, cal.p2, COEFFICIENT_DIGITS, numbers[8])
}

fn push_line(out: &mut String, line: &str)
    ensures
        final(out)@ == old(out)@ + line@ + "\n"@,
{
    out.append(line);
    out.append("\n");
}

fn push_assignment(out: &mut String, name: &str, value: &str)
    ensures
        final(out)@ == old(out)@ + line_of(name@, value@) + "\n"@,
{
    out.append(name);
    out.append("=");
    out.append(value);
    out.append("\n");
}

/// The name of the `i`-th number.
fn number_name(i: usize) -> (name: &'static str)
    requires
        i < 9,
    ensures
        name@ == number_names()[i as int],
{
    match i {
        0 => "fx",
        1 => "fy",
        2 => "cx",
        3 => "cy",
        4 => "k1",
        5 => "k2",
        6 => "k3",
        7 => "p1",
        _ => "p2",
    }
}

impl<F: scalar::Scalar> DjiCalibration<F> {
    /// The text of the file that keeps the calibration. `fixed` writes a number
    /// with a given number of digits behind the point.
    pub fn save_to_file<W: Fn(F, usize) -> String>(&self, fixed: &W) -> (text: String)
        requires
            forall|v: F, digits: usize| call_requires(fixed, (v, digits)),
        ensures
            exists|numbers: Seq<Seq<char>>| #[trigger]
                numbers_written(*fixed, *self, numbers) && text@ == joined(
                    file_lines(self.calibration_date@, numbers),
                ),
    {
        let mut numbers: Vec<String> = Vec::new();
        numbers.push(fixed(self.fx, PIXEL_DIGITS));
        numbers.push(fixed(self.fy, PIXEL_DIGITS));
        numbers.push(fixed(self.cx, PIXEL_DIGITS));
        numbers.push(fixed(self.cy, PIXEL_DIGITS));
        numbers.push(fixed(self.k1, COEFFICIENT_DIGITS));
        numbers.push(fixed(self.k2, COEFFICIENT_DIGITS));
        numbers.push(fixed(self.k3, COEFFICIENT_DIGITS));
        numbers.push(fixed(self.p1, COEFFICIENT_DIGITS));
        numbers.push(fixed(self.p2, COEFFICIENT_DIGITS));
        let ghost said = texts(numbers@);
        assert(numbers_written(*fixed, *self, said));

        let ghost lines = file_lines(self.calibration_date@, said);
        let mut text = String::new();
        assert(text@ =~= joined(lines.take(0)));
        push_line(&mut text, "# Camera Dewarp — Lens Calibration File");
        assert(lines.take(1).drop_last() =~= lines.take(0));
        assert(text@ =~= joined(lines.take(1)));
        push_line(&mut text, "# Extracted from DJI XMP DewarpData");
        assert(lines.take(2).drop_last() =~= lines.take(1));
        assert(text@ =~= joined(lines.take(2)));
        push_assignment(&mut text, "calibration_date", self.calibration_date.as_str());
        assert(lines.take(3).drop_last() =~= lines.take(2));
        for i in 0..9usize
            invariant
                numbers@.len() == 9,
                said == texts(numbers@),
                lines == file_lines(self.calibration_date@, said),
                text@ == joined(lines.take(3 + i)),
        {
            push_assignment(&mut text, number_name(i), numbers[i].as_str());
            assert(lines.take(4 + i).drop_last() =~= lines.take(3 + i));
        }
        assert(lines.take(12) =~= lines);
        text
    }
}

// ---------------------------------------------------------------------------
// Reading
// ---------------------------------------------------------------------------

/// The name and the value that a line gives it; none where the line is blank, a
/// comment, or has no equals sign.
pub open spec fn assignment_in(line: Seq<char>) -> Option<(Seq<char>, Seq<char>)> {
    let line = trimmed(line);
    if line.len() == 0 || line[0] == '#' {
        None
    } else {
        match first_item(line, '=') {
            Some(at) => Some((trimmed(line.take(at)), trimmed(line.skip(at + 1)))),
            None => None,
        }
    }
}

/// The names and values that the lines give, in order.
pub open spec fn assignments(lines: Seq<Seq<char>>) -> Seq<(Seq<char>, Seq<char>)>
    decreases lines.len(),
{
    if lines.len() == 0 {
        Seq::empty()
    } else {
        match assignment_in(lines.last()) {
            Some(assignment) => assignments(lines.drop_last()).push(assignment),
            None => assignments(lines.drop_last()),
        }
    }
}

/// The values that are given to names of numbers, each with the place of its name
/// in [`number_names`].
pub open spec fn numbers_given(given: Seq<(Seq<char>, Seq<char>)>) -> Seq<(int, Seq<char>)>
    decreases given.len(),
{
    if given.len() == 0 {
        Seq::empty()
    } else {
        match first_item(number_names(), given.last().0) {
            Some(name) => numbers_given(given.drop_last()).push((name, given.last().1)),
            None => numbers_given(given.drop_last()),
        }
    }
}

/// The date that is given last; an empty text where none is.
pub open spec fn date_given(given: Seq<(Seq<char>, Seq<char>)>) -> Seq<char>
    decreases given.len(),
{
    if given.len() == 0 {
        Seq::empty()
    } else if given.last().0 == "calibration_date"@ {
        given.last().1
    } else {
        date_given(given.drop_last())
    }
}

/// The number that `name` is given last; zero where it is given none.
pub open spec fn last_given<F: scalar::Scalar>(
    given: Seq<(int, Seq<char>)>,
    numbers: Seq<F>,
    name: int,
) -> F
    decreases given.len(),
{
    if given.len() == 0 {
        whole(0)
    } else if given.last().0 == name {
        numbers[given.len() - 1]
    } else {
        last_given(given.drop_last(), numbers, name)
    }
}

/// The texts of the numbers that are given.
pub open spec fn number_texts(given: Seq<(int, Seq<char>)>) -> Seq<Seq<char>> {
    given.map_values(|g: (int, Seq<char>)| g.1)
}

/// `r` is the calibration that the file says, where its numbers are `numbers`:
/// there is one where all of them are numbers, and there are nine at least.
pub open spec fn is_calibration_said<F: scalar::Scalar>(
    r: Option<DjiCalibration<F>>,
    said: Seq<(Seq<char>, Seq<char>)>,
    numbers: Seq<Option<F>>,
) -> bool {
    let given = numbers_given(said);
    let values = present(numbers);
    if values.len() == numbers.len() && numbers.len() >= 9 {
        &&& r matches Some(cal)
        &&& cal.fx == last_given(given, values, 0)
        &&& cal.fy == last_given(given, values, 1)
        &&& cal.cx == last_given(given, values, 2)
        &&& cal.cy == last_given(given, values, 3)
        &&& cal.k1 == last_given(given, values, 4)
        &&& cal.k2 == last_given(given, values, 5)
        &&& cal.k3 == last_given(given, values, 6)
        &&& cal.p1 == last_given(given, values, 7)
        &&& cal.p2 == last_given(given, values, 8)
        &&& cal.calibration_date@ == date_given(said)
        &&& cal.dewarp_flag == 0
    } else {
        r is None
    }
}

/// `r` is the calibration that the file says, where `parse` reads its numbers.
pub open spec fn is_loaded<F: scalar::Scalar, P: Fn(&str) -> Option<F>>(
    parse: P,
    r: Option<DjiCalibration<F>>,
    said: Seq<(Seq<char>, Seq<char>)>,
) -> bool {
    exists|numbers: Seq<Option<F>>|
        #![trigger is_calibration_said(r, said, numbers)]
        all_parse(parse, number_texts(numbers_given(said)), numbers) && is_calibration_said(
            r,
            said,
            numbers,
        )
}

/// The place of a name among the names of numbers.
fn name_place(name: &Vec<char>) -> (r: Option<usize>)
    ensures
        match r {
            Some(i) => i < 9 && first_item(number_names(), name@) == Some(i as int),
            None => first_item(number_names(), name@) is None,
        },
{
    for i in 0..9usize
        invariant
            forall|j: int| 0 <= j < i ==> #[trigger] number_names()[j] != name@,
    {
        if text::same_text(name, number_name(i)) {
            proof {
                lemma_first_item(number_names(), name@, i as int);
            }
            return Some(i);
        }
    }
    None
}

/// The characters from `from` up to `to`.
fn part_of(chars: &Vec<char>, from: usize, to: usize) -> (r: Vec<char>)
    requires
        from <= to <= chars@.len(),
    ensures
        r@ == chars@.subrange(from as int, to as int),
{
    let mut r: Vec<char> = Vec::new();
    let mut i = from;
    while i < to
        invariant
            from <= i <= to <= chars@.len(),
            r@ == chars@.subrange(from as int, i as int),
        decreases to - i,
    {
        r.push(chars[i]);
        assert(chars@.subrange(from as int, i + 1) =~= chars@.subrange(from as int, i as int).push(
            chars@[i as int],
        ));
        i = i + 1;
    }
    r
}

/// Reads the name and the value that a line gives it.
fn read_assignment(line: &str) -> (r: Option<(Vec<char>, String)>)
    ensures
        match r {
            Some(a) => assignment_in(line@) == Some((a.0@, a.1@)),
            None => assignment_in(line@) is None,
        },
{
    let chars = text::chars_of(line);
    assert(chars@.subrange(0, chars@.len() as int) =~= chars@);
    let (start, end) = text::trim(&chars, 0, chars.len());
    let ghost body = trimmed(line@);
    if start == end || chars[start] == '#' {
        return None;
    }
    let at = start + text::find_char(&chars, start, end, '=')?;
    let (name_start, name_end) = text::trim(&chars, start, at);
    let (value_start, value_end) = text::trim(&chars, at + 1, end);
    assert(chars@.subrange(start as int, at as int) =~= body.take(at - start));
    assert(chars@.subrange(at + 1, end as int) =~= body.skip(at - start + 1));
    Some((part_of(&chars, name_start, name_end), text::text_of(&chars, value_start, value_end)))
}

/// What the lines of a file say, before its numbers are read.
struct Said {
    date: String,
    /// The place of each name among the names of numbers, and the value given.
    numbers: Vec<(usize, String)>,
}

/// What each value that is given to the name of a number says.
spec fn numbers_view(numbers: Seq<(usize, String)>) -> Seq<(int, Seq<char>)> {
    numbers.map_values(|n: (usize, String)| (n.0 as int, n.1@))
}

/// Collects what the lines of a file say.
fn read_said(lines: &Vec<String>) -> (r: Said)
    ensures
        r.date@ == date_given(assignments(texts(lines@))),
        numbers_view(r.numbers@) == numbers_given(assignments(texts(lines@))),
        forall|i: int| 0 <= i < r.numbers@.len() ==> (#[trigger] r.numbers@[i]).0 < 9,
{
    let ghost all = texts(lines@);
    let mut date = String::new();
    let mut numbers: Vec<(usize, String)> = Vec::new();
    for i in 0..lines.len()
        invariant
            all == texts(lines@),
            date@ == date_given(assignments(all.take(i as int))),
            numbers_view(numbers@) == numbers_given(assignments(all.take(i as int))),
            forall|j: int| 0 <= j < numbers@.len() ==> (#[trigger] numbers@[j]).0 < 9,
    {
        let ghost before = assignments(all.take(i as int));
        let ghost old_numbers = numbers@;
        assert(all.take(i + 1).drop_last() =~= all.take(i as int));
        if let Some((name, value)) = read_assignment(lines[i].as_str()) {
            let ghost now = before.push((name@, value@));
            assert(now.drop_last() =~= before);
            match name_place(&name) {
                Some(place) => {
                    proof {
                        lemma_date_is_no_number(place as int);
                    }
                    numbers.push((place, value));
                    assert(numbers_view(numbers@) =~= numbers_view(old_numbers).push(
                        (place as int, value@),
                    ));
                },
                None => {
                    if text::same_text(&name, "calibration_date") {
                        date = value;
                    }
                },
            }
        }
    }
    assert(all.take(lines@.len() as int) =~= all);
    Said { date, numbers }
}

proof fn lemma_date_is_no_number(i: int)
    requires
        0 <= i < 9,
    ensures
        number_names()[i] != "calibration_date"@,
{
    reveal_strlit("calibration_date");
    reveal_strlit("fx");
    reveal_strlit("fy");
    reveal_strlit("cx");
    reveal_strlit("cy");
    reveal_strlit("k1");
    reveal_strlit("k2");
    reveal_strlit("k3");
    reveal_strlit("p1");
    reveal_strlit("p2");
    assert(number_names()[i].len() == 2);
}

/// The number that `name` is given last.
fn find_last<F: scalar::Scalar>(given: &Vec<(usize, String)>, numbers: &Vec<F>, name: usize) -> (r:
    F)
    requires
        is_arithmetic::<F>(),
        given@.len() == numbers@.len(),
    ensures
        r == last_given(numbers_view(given@), numbers@, name as int),
{
    let ghost all = numbers_view(given@);
    let mut r: F = scalar::from_whole(0);
    for i in 0..given.len()
        invariant
            all == numbers_view(given@),
            given@.len() == numbers@.len(),
            r == last_given(all.take(i as int), numbers@, name as int),
    {
        assert(all.take(i + 1).drop_last() =~= all.take(i as int));
        if given[i].0 == name {
            r = numbers[i];
        }
    }
    assert(all.take(given@.len() as int) =~= all);
    r
}

impl<F: scalar::Scalar> DjiCalibration<F> {
    /// Reads the calibration out of the bytes of a file that keeps one. `parse`
    /// reads a number. `None` where a value that is given to the name of a number
    /// is none, or fewer than nine are given.
    pub fn load_from_file<P: Fn(&str) -> Option<F>>(data: &[u8], parse: &P) -> (r: Option<Self>)
        requires
            is_arithmetic::<F>(),
            forall|s: &str| call_requires(parse, (s,)),
        ensures
            is_loaded(*parse, r, assignments(lines_of(data@))),
    {
        let lines = text::read_lines(data);
        let said = read_said(&lines);
        let ghost given = numbers_view(said.numbers@);
        let ghost all = assignments(lines_of(data@));
        let mut numbers: Vec<Option<F>> = Vec::new();
        let mut values: Vec<F> = Vec::new();
        for i in 0..said.numbers.len()
            invariant
                forall|s: &str| call_requires(parse, (s,)),
                given == numbers_view(said.numbers@),
                numbers@.len() == i,
                values@ == present(numbers@),
                forall|j: int|
                    0 <= j < i ==> parses(*parse, number_texts(given)[j], #[trigger] numbers@[j]),
        {
            let number: Option<F> = parse(said.numbers[i].1.as_str());
            let ghost before = numbers@;
            numbers.push(number);
            assert(numbers@.drop_last() =~= before);
            if let Some(value) = number {
                values.push(value);
            }
        }
        let r = if values.len() == numbers.len() && numbers.len() >= 9 {
            Some(
                DjiCalibration {
                    fx: find_last(&said.numbers, &values, 0),
                    fy: find_last(&said.numbers, &values, 1),
                    cx: find_last(&said.numbers, &values, 2),
                    cy: find_last(&said.numbers, &values, 3),
                    k1: find_last(&said.numbers, &values, 4),
                    k2: find_last(&said.numbers, &values, 5),
                    k3: find_last(&said.numbers, &values, 6),
                    p1: find_last(&said.numbers, &values, 7),
                    p2: find_last(&said.numbers, &values, 8),
                    calibration_date: said.date,
                    dewarp_flag: 0,
                },
            )
        } else {
            None
        };
        assert(is_calibration_said(r, all, numbers@));
        r
    }
}

// ---------------------------------------------------------------------------
// What was written reads back
// ---------------------------------------------------------------------------

/// The text fits on a line behind an equals sign: it has no line feed, and no
/// white space at its ends.
pub open spec fn is_plain_value(value: Seq<char>) -> bool {
    &&& !value.contains('\n')
    &&& trimmed(value) == value
}

/// What a file that holds the date and the numbers gives.
pub open spec fn file_assignments(date: Seq<char>, numbers: Seq<Seq<char>>) -> Seq<
    (Seq<char>, Seq<char>),
> {
    seq![("calibration_date"@, date)] + Seq::new(9, |i: int| (number_names()[i], numbers[i]))
}

/// What trimming leaves of a text has no white space at its ends.
proof fn lemma_trimmed_ends(text: Seq<char>)
    requires
        trimmed(text) == text,
        text.len() > 0,
    ensures
        !text::is_white_space(text.first()),
        !text::is_white_space(text.last()),
{
    lemma_trimmed_front_shorter(text);
    lemma_trimmed_back_shorter(text::trimmed_front(text));
}

proof fn lemma_trimmed_front_shorter(text: Seq<char>)
    ensures
        text::trimmed_front(text).len() <= text.len(),
        text::trimmed_front(text).len() == text.len() ==> text::trimmed_front(text) == text && (
        text.len() > 0 ==> !text::is_white_space(text.first())),
    decreases text.len(),
{
    if text.len() > 0 && text::is_white_space(text.first()) {
        lemma_trimmed_front_shorter(text.drop_first());
    }
}

proof fn lemma_trimmed_back_shorter(text: Seq<char>)
    ensures
        text::trimmed_back(text).len() <= text.len(),
        text::trimmed_back(text).len() == text.len() ==> (text.len() > 0 ==> !text::is_white_space(
            text.last(),
        )),
    decreases text.len(),
{
    if text.len() > 0 && text::is_white_space(text.last()) {
        lemma_trimmed_back_shorter(text.drop_last());
    }
}

/// The name is one that a line can begin with.
pub open spec fn is_plain_name(name: Seq<char>) -> bool {
    &&& name.len() > 0
    &&& forall|i: int|
        0 <= i < name.len() ==> {
            let c = #[trigger] name[i];
            c != '=' && c != '#' && c != '\n' && !text::is_white_space(c)
        }
}

/// The line that gives a name its value reads as that.
proof fn lemma_line_reads_back(name: Seq<char>, value: Seq<char>)
    requires
        is_plain_name(name),
        is_plain_value(value),
    ensures
        assignment_in(line_of(name, value)) == Some((name, value)),
        !line_of(name, value).contains('\n'),
{
    reveal_strlit("=");
    let line = line_of(name, value);
    let at = name.len() as int;
    if value.len() > 0 {
        lemma_trimmed_ends(value);
    }
    text::lemma_trimmed(line);
    text::lemma_trimmed(name);
    lemma_first_item(line, '=', at);
    if line.contains('\n') {
        let i = choose|i: int| 0 <= i < line.len() && line[i] == '\n';
    }
}

pub(crate) proof fn lemma_names_are_plain(i: int)
    requires
        0 <= i < 9,
    ensures
        is_plain_name(number_names()[i]),
        first_item(number_names(), number_names()[i]) == Some(i),
{
    reveal_strlit("fx");
    reveal_strlit("fy");
    reveal_strlit("cx");
    reveal_strlit("cy");
    reveal_strlit("k1");
    reveal_strlit("k2");
    reveal_strlit("k3");
    reveal_strlit("p1");
    reveal_strlit("p2");
    assert forall|j: int| 0 <= j < i implies #[trigger] number_names()[j] != number_names()[i] by {
        assert(number_names()[j][0] != number_names()[i][0] || number_names()[j][1]
            != number_names()[i][1]);
    }
    lemma_first_item(number_names(), number_names()[i], i);
}

proof fn lemma_split_joined(lines: Seq<Seq<char>>)
    requires
        forall|i: int| 0 <= i < lines.len() ==> !(#[trigger] lines[i]).contains('\n'),
    ensures
        split_on(joined(lines), '\n') == lines.push(Seq::empty()),
    decreases lines.len(),
{
    reveal_strlit("\n");
    if lines.len() > 0 {
        let most = lines.drop_last();
        lemma_split_joined(most);
        text::lemma_split_line(joined(most), lines.last(), '\n', most);
        assert("\n"@ =~= seq!['\n']);
    }
}

proof fn lemma_comments()
    ensures
        assignment_in("# Camera Dewarp — Lens Calibration File"@) is None,
        assignment_in("# Extracted from DJI XMP DewarpData"@) is None,
        !"# Camera Dewarp — Lens Calibration File"@.contains('\n'),
        !"# Extracted from DJI XMP DewarpData"@.contains('\n'),
{
    reveal_strlit("# Camera Dewarp — Lens Calibration File");
    reveal_strlit("# Extracted from DJI XMP DewarpData");
    text::lemma_trimmed("# Camera Dewarp — Lens Calibration File"@);
    text::lemma_trimmed("# Extracted from DJI XMP DewarpData"@);
}

proof fn lemma_date_name()
    ensures
        is_plain_name("calibration_date"@),
        first_item(number_names(), "calibration_date"@) is None,
{
    reveal_strlit("calibration_date");
    if first_item(number_names(), "calibration_date"@) is Some {
        let i = choose|i: int| is_first_item(number_names(), "calibration_date"@, i);
        lemma_date_is_no_number(i);
    }
}

/// The numbers of a file are given in the order of their names.
proof fn lemma_file_gives_numbers(date: Seq<char>, numbers: Seq<Seq<char>>, n: nat)
    requires
        numbers.len() == 9,
        n <= 9,
    ensures
        ({
            let given = file_assignments(date, numbers).take(1 + n as int);
            &&& numbers_given(given) == Seq::new(n, |i: int| (i, numbers[i]))
            &&& date_given(given) == date
        }),
    decreases n,
{
    let all = file_assignments(date, numbers);
    let given = all.take(1 + n as int);
    lemma_date_name();
    if n == 0 {
        assert(given.drop_last() =~= Seq::empty());
        assert(numbers_given(Seq::empty()) =~= Seq::empty());
    } else {
        lemma_file_gives_numbers(date, numbers, (n - 1) as nat);
        assert(given.drop_last() =~= all.take(n as int));
        lemma_names_are_plain(n - 1);
        lemma_date_is_no_number(n - 1);
    }
}

/// A calibration file reads back as what was written into it: the date, and each
/// number under its name.
pub proof fn law_file_reads_back(date: Seq<char>, numbers: Seq<Seq<char>>)
    requires
        numbers.len() == 9,
        is_plain_value(date),
        forall|i: int| 0 <= i < 9 ==> is_plain_value(#[trigger] numbers[i]),
    ensures
        ({
            let said = assignments(lines_of(encode_utf8(joined(file_lines(date, numbers)))));
            &&& said == file_assignments(date, numbers)
            &&& date_given(said) == date
            &&& numbers_given(said) == Seq::new(9, |i: int| (i, numbers[i]))
            &&& number_texts(numbers_given(said)) == numbers
        }),
{
    let lines = file_lines(date, numbers);
    let text = joined(lines);
    lemma_comments();
    lemma_date_name();
    lemma_line_reads_back("calibration_date"@, date);
    assert forall|i: int| 0 <= i < 9 implies {
        &&& assignment_in(#[trigger] line_of(number_names()[i], numbers[i])) == Some(
            (number_names()[i], numbers[i]),
        )
        &&& !line_of(number_names()[i], numbers[i]).contains('\n')
    } by {
        lemma_names_are_plain(i);
        lemma_line_reads_back(number_names()[i], numbers[i]);
    }
    lemma_split_joined(lines);
    text::lemma_lines_of_encoded(text);
    let read = lines.push(Seq::empty());
    assert(read.drop_last() =~= lines);
    assert(assignments(lines.take(0)) =~= Seq::empty());
    assert(lines.take(1).drop_last() =~= lines.take(0));
    assert(assignments(lines.take(1)) =~= Seq::empty());
    assert(lines.take(2).drop_last() =~= lines.take(1));
    lemma_file_lines_give(date, numbers, 9);
    assert(lines.take(12) =~= lines);
    lemma_file_gives_numbers(date, numbers, 9);
}

proof fn lemma_file_lines_give(date: Seq<char>, numbers: Seq<Seq<char>>, n: nat)
    requires
        numbers.len() == 9,
        n <= 9,
        assignments(file_lines(date, numbers).take(2)) == Seq::<(Seq<char>, Seq<char>)>::empty(),
        assignment_in(line_of("calibration_date"@, date)) == Some(("calibration_date"@, date)),
        forall|i: int|
            0 <= i < 9 ==> assignment_in(#[trigger] line_of(number_names()[i], numbers[i])) == Some(
                (number_names()[i], numbers[i]),
            ),
    ensures
        assignments(file_lines(date, numbers).take(3 + n as int)) == file_assignments(date, numbers).take(
            1 + n as int,
        ),
    decreases n,
{
    let lines = file_lines(date, numbers);
    let all = file_assignments(date, numbers);
    if n == 0 {
        assert(lines.take(3).drop_last() =~= lines.take(2));
    } else {
        lemma_file_lines_give(date, numbers, (n - 1) as nat);
        assert(lines.take(3 + n as int).drop_last() =~= lines.take(2 + n as int));
    }
}

/// Where all are there, those that there are are all.
proof fn lemma_all_present<F>(numbers: Seq<Option<F>>, values: Seq<F>)
    requires
        numbers.len() == values.len(),
        forall|i: int| 0 <= i < values.len() ==> #[trigger] numbers[i] == Some(values[i]),
    ensures
        present(numbers) == values,
    decreases values.len(),
{
    if values.len() > 0 {
        lemma_all_present(numbers.drop_last(), values.drop_last());
    }
}

/// A calibration that was saved loads again: where `parse` reads each number of
/// the file as `values` says, the calibration that is loaded has those numbers,
/// the date of the one that was saved, and the flag of an image that needs
/// dewarping.
pub proof fn law_saved_calibration_loads<F: scalar::Scalar, P: Fn(&str) -> Option<F>>(
    date: Seq<char>,
    numbers: Seq<Seq<char>>,
    parse: P,
    values: Seq<F>,
    r: Option<DjiCalibration<F>>,
)
    requires
        numbers.len() == 9,
        is_plain_value(date),
        forall|i: int| 0 <= i < 9 ==> is_plain_value(#[trigger] numbers[i]),
        values.len() == 9,
        forall|i: int, x: Option<F>|
            0 <= i < 9 && #[trigger] parses(parse, numbers[i], x) ==> x == Some(values[i]),
        is_loaded(
            parse,
            r,
            assignments(lines_of(encode_utf8(joined(file_lines(date, numbers))))),
        ),
    ensures
        r matches Some(cal) && {
            &&& cal.fx == values[0]
            &&& cal.fy == values[1]
            &&& cal.cx == values[2]
            &&& cal.cy == values[3]
            &&& cal.k1 == values[4]
            &&& cal.k2 == values[5]
            &&& cal.k3 == values[6]
            &&& cal.p1 == values[7]
            &&& cal.p2 == values[8]
            &&& cal.calibration_date@ == date
            &&& cal.dewarp_flag == 0
        },
{
    law_file_reads_back(date, numbers);
    let said = assignments(lines_of(encode_utf8(joined(file_lines(date, numbers)))));
    let read = choose|read: Seq<Option<F>>|
        #![trigger is_calibration_said(r, said, read)]
        all_parse(parse, number_texts(numbers_given(said)), read) && is_calibration_said(
            r,
            said,
            read,
        );
    lemma_all_present(read, values);
    let given = numbers_given(said);
    assert forall|name: int| 0 <= name < 9 implies #[trigger] last_given(given, values, name)
        == values[name] by {
        lemma_last_given(numbers, values, name, 9);
    }
}

proof fn lemma_last_given<F: scalar::Scalar>(
    numbers: Seq<Seq<char>>,
    values: Seq<F>,
    name: int,
    n: nat,
)
    requires
        numbers.len() == 9,
        values.len() == 9,
        0 <= name < n <= 9,
    ensures
        last_given(Seq::new(n, |i: int| (i, numbers[i])), values, name) == values[name],
    decreases n,
{
    let given = Seq::new(n, |i: int| (i, numbers[i]));
    if name < n - 1 {
        lemma_last_given(numbers, values, name, (n - 1) as nat);
        assert(given.drop_last() =~= Seq::new((n - 1) as nat, |i: int| (i, numbers[i])));
    }
}

} // verus!
