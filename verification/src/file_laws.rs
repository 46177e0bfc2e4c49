//! What does and does not count in a calibration file.
use crate::calibration::{
    all_parse, parses, present, reads_alike, same_calibration, DjiCalibration,
};
use crate::calibration_file::{
    assignment_in, assignments, date_given, file_lines, is_calibration_said, is_loaded,
    is_plain_value, joined, last_given, law_file_reads_back, law_saved_calibration_loads,
    lemma_names_are_plain, line_of, number_names, number_texts, numbers_given, numbers_written,
    written,
};
use crate::scalar;
use crate::search::{first_item, lemma_first_item};
use crate::text::{is_white_space, lines_of, trimmed, trimmed_back, trimmed_front};
use vstd::prelude::*;
use vstd::utf8::encode_utf8;

verus! {

// ---------------------------------------------------------------------------
// Saving again
// ---------------------------------------------------------------------------

/// A number that is written and read is written the same again.
pub open spec fn settles<F, W: Fn(F, usize) -> String, P: Fn(&str) -> Option<F>>(
    fixed: W,
    parse: P,
) -> bool {
    forall|v: F, digits: usize, text: Seq<char>, read: Option<F>|
        #[trigger] written(fixed, v, digits, text) && #[trigger] parses(parse, text, read)
            ==> is_settled(fixed, digits, text, read)
}

/// `read` is a number, and `text` the only way in which `fixed` writes it.
pub open spec fn is_settled<F, W: Fn(F, usize) -> String>(
    fixed: W,
    digits: usize,
    text: Seq<char>,
    read: Option<F>,
) -> bool {
    read matches Some(v) && forall|again: Seq<char>| #[trigger]
        written(fixed, v, digits, again) ==> again == text
}

/// A calibration that was saved and loaded is saved as the same text again, where
/// each of its numbers settles by being written and read once.
pub proof fn law_saved_again_is_the_same<
    F: scalar::Scalar,
    W: Fn(F, usize) -> String,
    P: Fn(&str) -> Option<F>,
>(
    fixed: W,
    parse: P,
    cal: DjiCalibration<F>,
    numbers: Seq<Seq<char>>,
    loaded: Option<DjiCalibration<F>>,
)
    requires
        reads_alike(parse),
        settles(fixed, parse),
        numbers_written(fixed, cal, numbers),
        is_plain_value(cal.calibration_date@),
        forall|i: int| 0 <= i < 9 ==> is_plain_value(#[trigger] numbers[i]),
        is_loaded(
            parse,
            loaded,
            assignments(
                lines_of(encode_utf8(joined(file_lines(cal.calibration_date@, numbers)))),
            ),
        ),
    ensures
        loaded matches Some(read) && forall|again: Seq<Seq<char>>| #[trigger]
            numbers_written(fixed, read, again) ==> joined(
                file_lines(read.calibration_date@, again),
            ) == joined(file_lines(cal.calibration_date@, numbers)),
{
    let date = cal.calibration_date@;
    let said = assignments(lines_of(encode_utf8(joined(file_lines(date, numbers)))));
    law_file_reads_back(date, numbers);
    let read = choose|read: Seq<Option<F>>|
        #![trigger is_calibration_said(loaded, said, read)]
        all_parse(parse, number_texts(numbers_given(said)), read) && is_calibration_said(
            loaded,
            said,
            read,
        );
    assert forall|i: int| 0 <= i < 9 implies parses(parse, numbers[i], #[trigger] read[i]) by {
        assert(number_texts(numbers_given(said))[i] == numbers[i]);
    }
    let values = Seq::new(9, |i: int| read[i]->0);
    assert forall|i: int, x: Option<F>|
        0 <= i < 9 && #[trigger] parses(parse, numbers[i], x) implies x == Some(values[i]) by {
        assert(parses(parse, numbers[i], read[i]));
        assert(is_settled(fixed, 12, numbers[i], read[i]) || is_settled(
            fixed,
            15,
            numbers[i],
            read[i],
        ));
    }
    law_saved_calibration_loads(date, numbers, parse, values, loaded);
    let cal_read = loaded->0;
    assert forall|again: Seq<Seq<char>>| #[trigger]
        numbers_written(fixed, cal_read, again) implies again == numbers by {
        assert(parses(parse, numbers[0], read[0]) && parses(parse, numbers[1], read[1]));
        assert(parses(parse, numbers[2], read[2]) && parses(parse, numbers[3], read[3]));
        assert(parses(parse, numbers[4], read[4]) && parses(parse, numbers[5], read[5]));
        assert(parses(parse, numbers[6], read[6]) && parses(parse, numbers[7], read[7]));
        assert(parses(parse, numbers[8], read[8]));
        assert(again =~= numbers);
    }
}

// ---------------------------------------------------------------------------
// Lines and their order
// ---------------------------------------------------------------------------

/// The line gives `name` a value.
pub open spec fn gives(line: Seq<char>, name: Seq<char>) -> bool {
    assignment_in(line) matches Some(assignment) && assignment.0 == name
}

/// How many lines give `name` a value.
pub open spec fn times_given(lines: Seq<Seq<char>>, name: Seq<char>) -> nat
    decreases lines.len(),
{
    if lines.len() == 0 {
        0
    } else if gives(lines.last(), name) {
        times_given(lines.drop_last(), name) + 1
    } else {
        times_given(lines.drop_last(), name)
    }
}

/// How many lines give `name` the value `value`.
pub open spec fn times_said(lines: Seq<Seq<char>>, name: Seq<char>, value: Seq<char>) -> nat
    decreases lines.len(),
{
    if lines.len() == 0 {
        0
    } else if assignment_in(lines.last()) == Some((name, value)) {
        times_said(lines.drop_last(), name, value) + 1
    } else {
        times_said(lines.drop_last(), name, value)
    }
}

/// The value that `name` is given last.
pub open spec fn value_given(lines: Seq<Seq<char>>, name: Seq<char>) -> Option<Seq<char>>
    decreases lines.len(),
{
    if lines.len() == 0 {
        None
    } else if gives(lines.last(), name) {
        Some((assignment_in(lines.last())->0).1)
    } else {
        value_given(lines.drop_last(), name)
    }
}

/// Each of the nine numbers is given once.
pub open spec fn gives_each_once(lines: Seq<Seq<char>>) -> bool {
    forall|k: int| 0 <= k < 9 ==> times_given(lines, #[trigger] number_names()[k]) == 1
}

/// How many of the values are given to the `k`-th name.
spec fn times_placed(given: Seq<(int, Seq<char>)>, k: int) -> nat
    decreases given.len(),
{
    if given.len() == 0 {
        0
    } else if given.last().0 == k {
        times_placed(given.drop_last(), k) + 1
    } else {
        times_placed(given.drop_last(), k)
    }
}

/// The value that the `k`-th name is given last.
spec fn last_placed(given: Seq<(int, Seq<char>)>, k: int) -> Option<Seq<char>>
    decreases given.len(),
{
    if given.len() == 0 {
        None
    } else if given.last().0 == k {
        Some(given.last().1)
    } else {
        last_placed(given.drop_last(), k)
    }
}

/// What the lines give a number is what is placed under it.
proof fn lemma_placed(lines: Seq<Seq<char>>, k: int)
    requires
        0 <= k < 9,
    ensures
        times_placed(numbers_given(assignments(lines)), k) == times_given(
            lines,
            number_names()[k],
        ),
        last_placed(numbers_given(assignments(lines)), k) == value_given(lines, number_names()[k]),
    decreases lines.len(),
{
    if lines.len() > 0 {
        let most = lines.drop_last();
        lemma_placed(most, k);
        lemma_names_are_plain(k);
        if let Some(assignment) = assignment_in(lines.last()) {
            let said = assignments(most);
            assert(said.push(assignment).drop_last() =~= said);
            if let Some(place) = first_item(number_names(), assignment.0) {
                assert(crate::search::is_first_item(number_names(), assignment.0, place));
                let given = numbers_given(said);
                assert(given.push((place, assignment.1)).drop_last() =~= given);
            } else if assignment.0 == number_names()[k] {
                assert(first_item(number_names(), assignment.0) is Some);
            }
        }
    }
}

/// All values are placed under one of the nine names.
proof fn lemma_places(said: Seq<(Seq<char>, Seq<char>)>)
    ensures
        ({
            let given = numbers_given(said);
            &&& given.len() == times_placed(given, 0) + times_placed(given, 1) + times_placed(
                given,
                2,
            ) + times_placed(given, 3) + times_placed(given, 4) + times_placed(given, 5)
                + times_placed(given, 6) + times_placed(given, 7) + times_placed(given, 8)
            &&& forall|i: int| 0 <= i < given.len() ==> 0 <= (#[trigger] given[i]).0 < 9
        }),
    decreases said.len(),
{
    if said.len() > 0 {
        lemma_places(said.drop_last());
        if let Some(place) = first_item(number_names(), said.last().0) {
            assert(crate::search::is_first_item(number_names(), said.last().0, place));
            let given = numbers_given(said.drop_last());
            assert(given.push((place, said.last().1)).drop_last() =~= given);
        }
    }
}

/// A value under a name that is given once is the value that the name is given.
proof fn lemma_placed_once(given: Seq<(int, Seq<char>)>, k: int, i: int)
    requires
        times_placed(given, k) <= 1,
        0 <= i < given.len(),
        given[i].0 == k,
    ensures
        last_placed(given, k) == Some(given[i].1),
    decreases given.len(),
{
    if i < given.len() - 1 {
        assert(given.drop_last()[i] == given[i]);
        lemma_placed_once(given.drop_last(), k, i);
        if given.last().0 == k {
            lemma_placed_somewhere(given.drop_last(), k, i);
        }
    }
}

proof fn lemma_placed_somewhere(given: Seq<(int, Seq<char>)>, k: int, i: int)
    requires
        0 <= i < given.len(),
        given[i].0 == k,
    ensures
        times_placed(given, k) >= 1,
    decreases given.len(),
{
    if i < given.len() - 1 {
        assert(given.drop_last()[i] == given[i]);
        lemma_placed_somewhere(given.drop_last(), k, i);
    }
}

/// Where the value that a name is given last stands.
proof fn lemma_last_place<F: scalar::Scalar>(
    given: Seq<(int, Seq<char>)>,
    values: Seq<F>,
    k: int,
) -> (i: int)
    requires
        times_placed(given, k) >= 1,
    ensures
        0 <= i < given.len(),
        given[i].0 == k,
        last_placed(given, k) == Some(given[i].1),
        last_given(given, values, k) == values[i],
    decreases given.len(),
{
    if given.last().0 == k {
        given.len() - 1
    } else {
        lemma_last_place(given.drop_last(), values, k)
    }
}

/// As many as there are, all are there.
proof fn lemma_present_all<F>(numbers: Seq<Option<F>>)
    ensures
        present(numbers).len() <= numbers.len(),
        present(numbers).len() == numbers.len() ==> forall|i: int|
            0 <= i < numbers.len() ==> #[trigger] numbers[i] == Some(present(numbers)[i]),
        present(numbers).len() < numbers.len() ==> exists|i: int|
            0 <= i < numbers.len() && (#[trigger] numbers[i]) is None,
    decreases numbers.len(),
{
    if numbers.len() > 0 {
        let most = numbers.drop_last();
        lemma_present_all(most);
        if present(most).len() < most.len() {
            let i = choose|i: int| 0 <= i < most.len() && (#[trigger] most[i]) is None;
            assert(numbers[i] is None);
        } else if numbers.last() is None {
            assert(numbers[numbers.len() - 1] is None);
        } else {
            assert forall|i: int| 0 <= i < numbers.len() implies #[trigger] numbers[i] == Some(
                present(numbers)[i],
            ) by {
                if i < most.len() {
                    assert(most[i] == numbers[i]);
                }
            }
        }
    }
}

/// The date that is given last.
proof fn lemma_date(lines: Seq<Seq<char>>)
    ensures
        date_given(assignments(lines)) == match value_given(lines, "calibration_date"@) {
            Some(date) => date,
            None => Seq::empty(),
        },
    decreases lines.len(),
{
    if lines.len() > 0 {
        let most = lines.drop_last();
        lemma_date(most);
        if let Some(assignment) = assignment_in(lines.last()) {
            assert(assignments(most).push(assignment).drop_last() =~= assignments(most));
        }
    }
}

/// `number` is what `parse` makes of the value that `name` is given.
pub open spec fn is_own<F, P: Fn(&str) -> Option<F>>(
    parse: P,
    lines: Seq<Seq<char>>,
    name: Seq<char>,
    number: F,
) -> bool {
    value_given(lines, name) matches Some(value) && parses(parse, value, Some(number))
}

/// `parse` finds no number in the value that the `k`-th name is given.
pub open spec fn is_no_number<F, P: Fn(&str) -> Option<F>>(
    parse: P,
    lines: Seq<Seq<char>>,
    k: int,
) -> bool {
    value_given(lines, number_names()[k]) matches Some(value) && parses(parse, value, None::<F>)
}

/// The calibration holds the number that each name is given, the date, and the flag
/// of an image that needs dewarping.
pub open spec fn holds_own<F, P: Fn(&str) -> Option<F>>(
    parse: P,
    lines: Seq<Seq<char>>,
    cal: DjiCalibration<F>,
) -> bool {
    &&& is_own(parse, lines, "fx"@, cal.fx)
    &&& is_own(parse, lines, "fy"@, cal.fy)
    &&& is_own(parse, lines, "cx"@, cal.cx)
    &&& is_own(parse, lines, "cy"@, cal.cy)
    &&& is_own(parse, lines, "k1"@, cal.k1)
    &&& is_own(parse, lines, "k2"@, cal.k2)
    &&& is_own(parse, lines, "k3"@, cal.k3)
    &&& is_own(parse, lines, "p1"@, cal.p1)
    &&& is_own(parse, lines, "p2"@, cal.p2)
    &&& cal.calibration_date@ == match value_given(lines, "calibration_date"@) {
        Some(date) => date,
        None => Seq::empty(),
    }
    &&& cal.dewarp_flag == 0
}

/// A file that gives each number once loads as the numbers that are given to the
/// names, unless one of them is no number; where no date is given it is empty.
pub proof fn law_numbers_load_under_their_names<F: scalar::Scalar, P: Fn(&str) -> Option<F>>(
    parse: P,
    lines: Seq<Seq<char>>,
    r: Option<DjiCalibration<F>>,
)
    requires
        gives_each_once(lines),
        is_loaded(parse, r, assignments(lines)),
    ensures
        match r {
            Some(cal) => holds_own(parse, lines, cal),
            None => exists|k: int| 0 <= k < 9 && #[trigger] is_no_number::<F, P>(parse, lines, k),
        },
{
    let said = assignments(lines);
    let given = numbers_given(said);
    let read = choose|read: Seq<Option<F>>|
        #![trigger is_calibration_said(r, said, read)]
        all_parse(parse, number_texts(given), read) && is_calibration_said(r, said, read);
    assert forall|k: int| 0 <= k < 9 implies #[trigger] times_placed(given, k) == 1 && last_placed(
        given,
        k,
    ) == value_given(lines, number_names()[k]) by {
        assert(times_given(lines, number_names()[k]) == 1);
        lemma_placed(lines, k);
    }
    lemma_places(said);
    lemma_present_all(read);
    lemma_date(lines);
    let values = present(read);
    assert(given.len() == 9) by {
        assert(times_placed(given, 0) == 1 && times_placed(given, 1) == 1 && times_placed(given, 2)
            == 1 && times_placed(given, 3) == 1 && times_placed(given, 4) == 1 && times_placed(
            given,
            5,
        ) == 1 && times_placed(given, 6) == 1 && times_placed(given, 7) == 1 && times_placed(
            given,
            8,
        ) == 1);
    }
    if values.len() == read.len() {
        assert forall|k: int| 0 <= k < 9 implies #[trigger] is_own(
            parse,
            lines,
            number_names()[k],
            last_given(given, values, k),
        ) by {
            assert(times_placed(given, k) == 1);
            let i = lemma_last_place(given, values, k);
            assert(number_texts(given)[i] == given[i].1);
            assert(parses(parse, given[i].1, read[i]));
            assert(read[i] == Some(values[i]));
        }
        assert(is_own(parse, lines, number_names()[0], last_given(given, values, 0)));
        assert(is_own(parse, lines, number_names()[1], last_given(given, values, 1)));
        assert(is_own(parse, lines, number_names()[2], last_given(given, values, 2)));
        assert(is_own(parse, lines, number_names()[3], last_given(given, values, 3)));
        assert(is_own(parse, lines, number_names()[4], last_given(given, values, 4)));
        assert(is_own(parse, lines, number_names()[5], last_given(given, values, 5)));
        assert(is_own(parse, lines, number_names()[6], last_given(given, values, 6)));
        assert(is_own(parse, lines, number_names()[7], last_given(given, values, 7)));
        assert(is_own(parse, lines, number_names()[8], last_given(given, values, 8)));
    } else {
        let i = choose|i: int| 0 <= i < read.len() && (#[trigger] read[i]) is None;
        let k = given[i].0;
        assert(times_placed(given, k) == 1);
        lemma_placed_once(given, k, i);
        assert(number_texts(given)[i] == given[i].1);
        assert(parses(parse, given[i].1, read[i]));
        assert(is_no_number::<F, P>(parse, lines, k));
    }
}

/// The name is one that a calibration file has a use for.
pub open spec fn is_known(name: Seq<char>) -> bool {
    name == "calibration_date"@ || number_names().contains(name)
}

/// Both files say the same of the names that a calibration file has a use for, in
/// whatever order and among whatever else.
pub open spec fn say_the_same(a: Seq<Seq<char>>, b: Seq<Seq<char>>) -> bool {
    forall|name: Seq<char>, value: Seq<char>|
        is_known(name) ==> #[trigger] times_said(a, name, value) == times_said(b, name, value)
}

proof fn lemma_said_is_given(lines: Seq<Seq<char>>, name: Seq<char>, value: Seq<char>)
    ensures
        times_said(lines, name, value) <= times_given(lines, name),
        value_given(lines, name) == Some(value) ==> times_said(lines, name, value) >= 1,
        times_given(lines, name) == 0 ==> value_given(lines, name) is None,
        value_given(lines, name) is None ==> times_given(lines, name) == 0,
        times_said(lines, name, value) >= 1 && times_given(lines, name) <= 1 ==> value_given(
            lines,
            name,
        ) == Some(value),
    decreases lines.len(),
{
    if lines.len() > 0 {
        lemma_said_is_given(lines.drop_last(), name, value);
    }
}

proof fn lemma_same_value(a: Seq<Seq<char>>, b: Seq<Seq<char>>, name: Seq<char>)
    requires
        say_the_same(a, b),
        is_known(name),
        times_given(a, name) <= 1,
        times_given(b, name) <= 1,
    ensures
        value_given(a, name) == value_given(b, name),
{
    if let Some(value) = value_given(a, name) {
        lemma_said_is_given(a, name, value);
        lemma_said_is_given(b, name, value);
    } else if let Some(value) = value_given(b, name) {
        lemma_said_is_given(a, name, value);
        lemma_said_is_given(b, name, value);
    }
}

/// Files that give each number once, and the date once at most, load as the same
/// calibration where they say the same: the order of the lines does not matter, nor
/// do blank lines, comments and other names.
pub proof fn law_files_that_say_the_same_load_alike<
    F: scalar::Scalar,
    P: Fn(&str) -> Option<F>,
>(
    parse: P,
    a: Seq<Seq<char>>,
    b: Seq<Seq<char>>,
    loaded_a: Option<DjiCalibration<F>>,
    loaded_b: Option<DjiCalibration<F>>,
)
    requires
        reads_alike(parse),
        gives_each_once(a),
        gives_each_once(b),
        times_given(a, "calibration_date"@) <= 1,
        times_given(b, "calibration_date"@) <= 1,
        say_the_same(a, b),
        is_loaded(parse, loaded_a, assignments(a)),
        is_loaded(parse, loaded_b, assignments(b)),
    ensures
        same_calibration(loaded_a, loaded_b),
{
    law_numbers_load_under_their_names(parse, a, loaded_a);
    law_numbers_load_under_their_names(parse, b, loaded_b);
    assert forall|k: int| 0 <= k < 9 implies value_given(a, #[trigger] number_names()[k])
        == value_given(b, number_names()[k]) by {
        assert(number_names().contains(number_names()[k]));
        lemma_same_value(a, b, number_names()[k]);
    }
    lemma_same_value(a, b, "calibration_date"@);
    assert(number_names()[0] == "fx"@ && number_names()[1] == "fy"@ && number_names()[2] == "cx"@
        && number_names()[3] == "cy"@ && number_names()[4] == "k1"@ && number_names()[5] == "k2"@
        && number_names()[6] == "k3"@ && number_names()[7] == "p1"@ && number_names()[8] == "p2"@);
    match (loaded_a, loaded_b) {
        (Some(cal), None) => {
            let k = choose|k: int| 0 <= k < 9 && #[trigger] is_no_number::<F, P>(parse, b, k);
            lemma_own_number(parse, a, cal, k);
        },
        (None, Some(cal)) => {
            let k = choose|k: int| 0 <= k < 9 && #[trigger] is_no_number::<F, P>(parse, a, k);
            lemma_own_number(parse, b, cal, k);
        },
        _ => {},
    }
}

/// A calibration that holds its own numbers has one for each name.
proof fn lemma_own_number<F, P: Fn(&str) -> Option<F>>(
    parse: P,
    lines: Seq<Seq<char>>,
    cal: DjiCalibration<F>,
    k: int,
) -> (number: F)
    requires
        holds_own(parse, lines, cal),
        0 <= k < 9,
    ensures
        is_own(parse, lines, number_names()[k], number),
{
    if k == 0 {
        cal.fx
    } else if k == 1 {
        cal.fy
    } else if k == 2 {
        cal.cx
    } else if k == 3 {
        cal.cy
    } else if k == 4 {
        cal.k1
    } else if k == 5 {
        cal.k2
    } else if k == 6 {
        cal.k3
    } else if k == 7 {
        cal.p1
    } else {
        cal.p2
    }
}

proof fn lemma_times_concat(
    a: Seq<Seq<char>>,
    b: Seq<Seq<char>>,
    name: Seq<char>,
    value: Seq<char>,
)
    ensures
        times_given(a + b, name) == times_given(a, name) + times_given(b, name),
        times_said(a + b, name, value) == times_said(a, name, value) + times_said(b, name, value),
    decreases b.len(),
{
    if b.len() > 0 {
        assert((a + b).drop_last() =~= a + b.drop_last());
        lemma_times_concat(a, b.drop_last(), name, value);
    } else {
        assert(a + b =~= a);
    }
}

proof fn lemma_times_order(
    a: Seq<Seq<char>>,
    b: Seq<Seq<char>>,
    name: Seq<char>,
    value: Seq<char>,
)
    requires
        a.to_multiset() == b.to_multiset(),
    ensures
        times_given(a, name) == times_given(b, name),
        times_said(a, name, value) == times_said(b, name, value),
    decreases a.len(),
{
    a.to_multiset_ensures();
    b.to_multiset_ensures();
    if a.len() > 0 {
        let line = a.last();
        assert(a.contains(line));
        assert(b.to_multiset().count(line) > 0);
        assert(b.contains(line));
        let j = choose|j: int| 0 <= j < b.len() && b[j] == line;
        let rest = b.remove(j);
        assert(a.remove(a.len() - 1) =~= a.drop_last());
        assert(a.drop_last().to_multiset() =~= rest.to_multiset());
        lemma_times_order(a.drop_last(), rest, name, value);
        let front = b.take(j);
        let back = b.skip(j + 1);
        assert(b =~= front.push(line) + back);
        assert(rest =~= front + back);
        assert(front.push(line).drop_last() =~= front);
        lemma_times_concat(front.push(line), back, name, value);
        lemma_times_concat(front, back, name, value);
    }
}

/// Files with the same lines in another order say the same.
pub proof fn law_order_of_lines_does_not_count(a: Seq<Seq<char>>, b: Seq<Seq<char>>)
    requires
        a.to_multiset() == b.to_multiset(),
    ensures
        say_the_same(a, b),
        forall|name: Seq<char>| #[trigger] times_given(a, name) == times_given(b, name),
{
    assert forall|name: Seq<char>, value: Seq<char>| #[trigger]
        times_said(a, name, value) == times_said(b, name, value) by {
        lemma_times_order(a, b, name, value);
    }
    assert forall|name: Seq<char>| #[trigger] times_given(a, name) == times_given(b, name) by {
        lemma_times_order(a, b, name, name);
    }
}

/// The line gives nothing that a calibration file has a use for: it is blank, a
/// comment, has no equals sign, or gives another name a value.
pub open spec fn is_idle(line: Seq<char>) -> bool {
    assignment_in(line) matches Some(assignment) ==> !is_known(assignment.0)
}

proof fn lemma_idle(lines: Seq<Seq<char>>, name: Seq<char>, value: Seq<char>)
    requires
        forall|i: int| 0 <= i < lines.len() ==> is_idle(#[trigger] lines[i]),
        is_known(name),
    ensures
        times_given(lines, name) == 0,
        times_said(lines, name, value) == 0,
    decreases lines.len(),
{
    if lines.len() > 0 {
        assert(is_idle(lines[lines.len() - 1]));
        lemma_idle(lines.drop_last(), name, value);
    }
}

/// A file says the same with idle lines put into it.
pub proof fn law_idle_lines_do_not_count(
    a: Seq<Seq<char>>,
    idle: Seq<Seq<char>>,
    b: Seq<Seq<char>>,
)
    requires
        forall|i: int| 0 <= i < idle.len() ==> is_idle(#[trigger] idle[i]),
    ensures
        say_the_same(a + idle + b, a + b),
        forall|name: Seq<char>|
            is_known(name) ==> #[trigger] times_given(a + idle + b, name) == times_given(
                a + b,
                name,
            ),
{
    assert forall|name: Seq<char>, value: Seq<char>| is_known(name) implies #[trigger] times_said(
        a + idle + b,
        name,
        value,
    ) == times_said(a + b, name, value) by {
        lemma_idle(idle, name, value);
        lemma_times_concat(a, idle, name, value);
        lemma_times_concat(a + idle, b, name, value);
        lemma_times_concat(a, b, name, value);
    }
    assert forall|name: Seq<char>| is_known(name) implies #[trigger] times_given(
        a + idle + b,
        name,
    ) == times_given(a + b, name) by {
        lemma_idle(idle, name, name);
        lemma_times_concat(a, idle, name, name);
        lemma_times_concat(a + idle, b, name, name);
        lemma_times_concat(a, b, name, name);
    }
}

// ---------------------------------------------------------------------------
// Blanks
// ---------------------------------------------------------------------------

/// The text is white space.
pub open spec fn is_blank(text: Seq<char>) -> bool {
    forall|i: int| 0 <= i < text.len() ==> is_white_space(#[trigger] text[i])
}

proof fn lemma_front(a: Seq<char>, b: Seq<char>)
    ensures
        trimmed_front(a + b) == if trimmed_front(a).len() > 0 {
            trimmed_front(a) + b
        } else {
            trimmed_front(b)
        },
        is_blank(a) ==> trimmed_front(a).len() == 0,
    decreases a.len(),
{
    if a.len() > 0 {
        assert((a + b).drop_first() =~= a.drop_first() + b);
        lemma_front(a.drop_first(), b);
        if is_blank(a) {
            assert(is_white_space(a[0]));
            assert forall|i: int| 0 <= i < a.drop_first().len() implies is_white_space(
                #[trigger] a.drop_first()[i],
            ) by {
                assert(is_white_space(a[i + 1]));
            }
        }
    } else {
        assert(a + b =~= b);
    }
}

proof fn lemma_back(a: Seq<char>, b: Seq<char>)
    ensures
        trimmed_back(a + b) == if trimmed_back(b).len() > 0 {
            a + trimmed_back(b)
        } else {
            trimmed_back(a)
        },
        is_blank(b) ==> trimmed_back(b).len() == 0,
    decreases b.len(),
{
    if b.len() > 0 {
        assert((a + b).drop_last() =~= a + b.drop_last());
        lemma_back(a, b.drop_last());
        if is_blank(b) {
            assert(is_white_space(b[b.len() - 1]));
            assert forall|i: int| 0 <= i < b.drop_last().len() implies is_white_space(
                #[trigger] b.drop_last()[i],
            ) by {
                assert(is_white_space(b[i]));
            }
        }
    } else {
        assert(a + b =~= a);
    }
}

/// Blanks around a text are trimmed away.
proof fn lemma_trimmed_blanks(before: Seq<char>, text: Seq<char>, after: Seq<char>)
    requires
        is_blank(before),
        is_blank(after),
    ensures
        trimmed(before + text + after) == trimmed(text),
        trimmed_front(before + text + after).len() > 0 <==> trimmed_front(text).len() > 0,
        trimmed_front(text).len() > 0 ==> trimmed_front(before + text + after)[0]
            == trimmed_front(text)[0],
{
    assert(before + text + after =~= before + (text + after));
    lemma_front(before, text + after);
    lemma_front(text, after);
    lemma_front(after, Seq::empty());
    lemma_back(trimmed_front(text), after);
    if trimmed_front(text).len() == 0 {
        assert(trimmed_front(text) =~= Seq::empty());
        assert(trimmed_front(after) =~= Seq::empty());
    }
}

/// What trimming one end takes away is blank.
proof fn lemma_trimmed_away(text: Seq<char>)
    ensures
        ({
            let front = trimmed_front(text);
            &&& front.len() <= text.len()
            &&& text.skip(text.len() - front.len()) == front
            &&& is_blank(text.take(text.len() - front.len()))
            &&& front.len() > 0 ==> !is_white_space(front[0])
        }),
    decreases text.len(),
{
    if text.len() > 0 && is_white_space(text.first()) {
        let rest = text.drop_first();
        lemma_trimmed_away(rest);
        let front = trimmed_front(rest);
        let n = text.len() - front.len();
        assert(text.skip(n) =~= rest.skip(n - 1));
        assert forall|i: int| 0 <= i < n implies is_white_space(#[trigger] text.take(n)[i]) by {
            if i > 0 {
                assert(rest.take(n - 1)[i - 1] == text[i]);
                assert(is_white_space(rest.take(n - 1)[i - 1]));
            }
        }
    } else {
        assert(text.skip(0) =~= text);
    }
}

proof fn lemma_trimmed_off(text: Seq<char>)
    ensures
        ({
            let back = trimmed_back(text);
            &&& back.len() <= text.len()
            &&& text.take(back.len() as int) == back
            &&& is_blank(text.skip(back.len() as int))
        }),
    decreases text.len(),
{
    if text.len() > 0 && is_white_space(text.last()) {
        let rest = text.drop_last();
        lemma_trimmed_off(rest);
        let n = trimmed_back(rest).len() as int;
        assert(text.take(n) =~= rest.take(n));
        assert forall|i: int| 0 <= i < text.len() - n implies is_white_space(
            #[trigger] text.skip(n)[i],
        ) by {
            if i < rest.len() - n {
                assert(rest.skip(n)[i] == text[n + i]);
                assert(is_white_space(rest.skip(n)[i]));
            }
        }
    } else {
        assert(text.take(text.len() as int) =~= text);
    }
}

/// What a line with an equals sign says.
proof fn lemma_assignment(name: Seq<char>, value: Seq<char>)
    requires
        !name.contains('='),
    ensures
        assignment_in(line_of(name, value)) == if trimmed_front(name).len() > 0 && trimmed_front(
            name,
        )[0] == '#' {
            None
        } else {
            Some((trimmed(name), trimmed(value)))
        },
{
    reveal_strlit("=");
    let sign = "="@;
    let front = trimmed_front(name);
    let back = trimmed_back(value);
    let line = line_of(name, value);
    let rest = sign + value;
    assert(line =~= name + rest);
    lemma_front(name, rest);
    assert(!is_white_space('='));
    assert(trimmed_front(rest) == rest);
    assert(trimmed_front(line) =~= front + sign + value);
    lemma_back(front + sign, value);
    assert((front + sign).last() == '=');
    assert(trimmed_back(front + sign) == front + sign);
    let shown = trimmed(line);
    assert(shown =~= front + sign + back);
    lemma_trimmed_away(name);
    lemma_trimmed_off(value);
    let at = front.len() as int;
    let blank = name.take(name.len() - at);
    assert forall|j: int| 0 <= j < at implies #[trigger] shown[j] != '=' by {
        assert(front[j] == name.skip(name.len() - at)[j]);
        assert(name.contains(name[name.len() - at + j]));
    }
    lemma_first_item(shown, '=', at);
    assert(shown.take(at) =~= front);
    assert(shown.skip(at + 1) =~= back);
    let none = Seq::<char>::empty();
    lemma_trimmed_blanks(blank, front, none);
    assert(blank + front + none =~= name);
    lemma_trimmed_blanks(none, back, value.skip(back.len() as int));
    assert(none + back + value.skip(back.len() as int) =~= value);
}

/// Blanks around a line do not change what it says.
pub proof fn law_blanks_around_a_line_do_not_count(
    before: Seq<char>,
    line: Seq<char>,
    after: Seq<char>,
)
    requires
        is_blank(before),
        is_blank(after),
    ensures
        assignment_in(before + line + after) == assignment_in(line),
{
    lemma_trimmed_blanks(before, line, after);
}

/// Blanks around the name and around the value of a line do not change what it says.
pub proof fn law_blanks_around_a_value_do_not_count(
    name: Seq<char>,
    value: Seq<char>,
    before_name: Seq<char>,
    after_name: Seq<char>,
    before_value: Seq<char>,
    after_value: Seq<char>,
)
    requires
        !name.contains('='),
        is_blank(before_name),
        is_blank(after_name),
        is_blank(before_value),
        is_blank(after_value),
    ensures
        assignment_in(
            line_of(before_name + name + after_name, before_value + value + after_value),
        ) == assignment_in(line_of(name, value)),
{
    let wide = before_name + name + after_name;
    assert(!wide.contains('=')) by {
        if wide.contains('=') {
            let i = choose|i: int| 0 <= i < wide.len() && wide[i] == '=';
            let n = before_name.len() as int;
            if i < n {
                assert(is_white_space(before_name[i]));
            } else if i < n + name.len() {
                assert(name.contains(name[i - n]));
            } else {
                assert(is_white_space(after_name[i - n - name.len()]));
            }
        }
    }
    lemma_assignment(name, value);
    lemma_assignment(wide, before_value + value + after_value);
    lemma_trimmed_blanks(before_name, name, after_name);
    lemma_trimmed_blanks(before_value, value, after_value);
}

} // verus!
