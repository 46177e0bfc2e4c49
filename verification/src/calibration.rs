//! Lens calibrations, and reading them out of image files.
use crate::scalar;
use crate::scalar::is_arithmetic;
use crate::search::{first_item, first_of, is_first_at, lemma_first_of_some};
use crate::text;
use crate::text::{split_on, texts};
use crate::xmp;
use vstd::prelude::*;

verus! {

/// A lens calibration: focal lengths and optical centre in pixels, and the
/// radial (`k1`, `k2`, `k3`) and tangential (`p1`, `p2`) coefficients of the
/// Brown-Conrady model.
#[derive(Debug)]
pub struct DjiCalibration<F> {
    pub fx: F,
    pub fy: F,
    pub cx: F,
    pub cy: F,
    pub k1: F,
    pub k2: F,
    pub k3: F,
    pub p1: F,
    pub p2: F,
    pub calibration_date: String,
    pub dewarp_flag: i32,
}

impl<F: Copy> Clone for DjiCalibration<F> {
    fn clone(&self) -> (r: Self)
        ensures
            r == *self,
    {
        DjiCalibration {
            fx: self.fx,
            fy: self.fy,
            cx: self.cx,
            cy: self.cy,
            k1: self.k1,
            k2: self.k2,
            k3: self.k3,
            p1: self.p1,
            p2: self.p2,
            calibration_date: self.calibration_date.clone(),
            dewarp_flag: self.dewarp_flag,
        }
    }
}

// ---------------------------------------------------------------------------
// Calibrations in image files
// ---------------------------------------------------------------------------

/// What an XMP packet says of the lens, the numbers still as text.
pub struct DewarpRecord {
    /// The day of the calibration.
    pub date: String,
    /// The fields behind the date: `fx`, `fy`, the offsets of the optical centre,
    /// `k1`, `k2`, `p1`, `p2`, `k3`.
    pub fields: Vec<String>,
    /// The optical centre that the offsets start from.
    pub center_x: String,
    pub center_y: String,
    pub dewarp_flag: i32,
}

/// The texts of a [`DewarpRecord`].
pub struct RecordText {
    pub date: Seq<char>,
    pub fields: Seq<Seq<char>>,
    pub center_x: Seq<char>,
    pub center_y: Seq<char>,
    pub dewarp_flag: i32,
}

impl View for DewarpRecord {
    type V = RecordText;

    open spec fn view(&self) -> RecordText {
        RecordText {
            date: self.date@,
            fields: texts(self.fields@),
            center_x: self.center_x@,
            center_y: self.center_y@,
            dewarp_flag: self.dewarp_flag,
        }
    }
}

/// The record in an XMP packet: there is one where the packet has the DewarpData
/// attribute, a date and a semicolon in front of the fields, and both coordinates
/// of the optical centre.
pub open spec fn record_in(packet: Seq<char>) -> Option<RecordText> {
    match (
        xmp::quoted_after(packet, xmp::data_key()),
        xmp::quoted_after(packet, xmp::center_x_key()),
        xmp::quoted_after(packet, xmp::center_y_key()),
    ) {
        (Some(data), Some(center_x), Some(center_y)) => match first_item(data, ';') {
            Some(at) => Some(
                RecordText {
                    date: data.take(at),
                    fields: split_on(data.skip(at + 1), ','),
                    center_x,
                    center_y,
                    dewarp_flag: xmp::flag_of(packet),
                },
            ),
            None => None,
        },
        _ => None,
    }
}

/// The record in an image file.
pub open spec fn record_of(data: Seq<u8>) -> Option<RecordText> {
    match xmp::xmp_of(data) {
        Some(packet) => record_in(packet),
        None => None,
    }
}

/// Only the head of an image file is searched: what follows it changes nothing.
pub proof fn law_record_is_in_the_head(data: Seq<u8>)
    ensures
        record_of(data) == record_of(xmp::head_of(data)),
{
}

/// Reads the record in an XMP packet.
pub fn read_record(packet: &str) -> (r: Option<DewarpRecord>)
    ensures
        match r {
            Some(record) => record_in(packet@) == Some(record@),
            None => record_in(packet@) is None,
        },
{
    let data = xmp::dewarp_data(packet)?;
    let dewarp_flag = xmp::dewarp_flag(packet);
    let center_x = xmp::center_x(packet)?;
    let center_y = xmp::center_y(packet)?;
    let chars = text::chars_of(data.as_str());
    let n = chars.len();
    assert(chars@.subrange(0, n as int) =~= chars@);
    let at = text::find_char(&chars, 0, n, ';')?;
    let date = text::text_of(&chars, 0, at);
    let fields = text::split(&chars, at + 1, n, ',');
    let record = DewarpRecord { date, fields, center_x, center_y, dewarp_flag };
    Some(record)
}

/// `number` is what `parse` makes of the text.
pub open spec fn parses<F, P: Fn(&str) -> Option<F>>(
    parse: P,
    text: Seq<char>,
    number: Option<F>,
) -> bool {
    exists|s: &str| s@ == text && #[trigger] call_ensures(parse, (s,), number)
}

/// `numbers` are what `parse` makes of the texts.
pub open spec fn all_parse<F, P: Fn(&str) -> Option<F>>(
    parse: P,
    texts: Seq<Seq<char>>,
    numbers: Seq<Option<F>>,
) -> bool {
    &&& numbers.len() == texts.len()
    &&& forall|i: int| 0 <= i < texts.len() ==> parses(parse, texts[i], #[trigger] numbers[i])
}

/// Those that there are, in order.
pub open spec fn present<F>(numbers: Seq<Option<F>>) -> Seq<F>
    decreases numbers.len(),
{
    if numbers.len() == 0 {
        Seq::empty()
    } else {
        match numbers.last() {
            Some(number) => present(numbers.drop_last()).push(number),
            None => present(numbers.drop_last()),
        }
    }
}

/// The calibration holds the numbers of a record: `values` are those of its
/// fields, and the optical centre is the given one moved by the third and fourth.
pub open spec fn holds_record<F: scalar::Scalar>(
    cal: DjiCalibration<F>,
    record: RecordText,
    center_x: F,
    center_y: F,
    values: Seq<F>,
) -> bool {
    &&& cal.fx == values[0]
    &&& cal.fy == values[1]
    &&& cal.cx == center_x + values[2]
    &&& cal.cy == center_y + values[3]
    &&& cal.k1 == values[4]
    &&& cal.k2 == values[5]
    &&& cal.p1 == values[6]
    &&& cal.p2 == values[7]
    &&& cal.k3 == values[8]
    &&& cal.calibration_date@ == record.date
    &&& cal.dewarp_flag == record.dewarp_flag
}

/// `r` is the calibration of a record whose texts say the numbers `center_x`,
/// `center_y` and `values`: there is one where both coordinates of the centre are
/// numbers and just nine of the fields are.
pub open spec fn is_calibration_of<F: scalar::Scalar>(
    r: Option<DjiCalibration<F>>,
    record: RecordText,
    center_x: Option<F>,
    center_y: Option<F>,
    values: Seq<Option<F>>,
) -> bool {
    match (center_x, center_y) {
        (Some(x), Some(y)) => if present(values).len() == 9 {
            r matches Some(cal) && holds_record(cal, record, x, y, present(values))
        } else {
            r is None
        },
        _ => r is None,
    }
}

/// `r` is the calibration of a record whose numbers `parse` reads.
pub open spec fn is_parsed_calibration<F: scalar::Scalar, P: Fn(&str) -> Option<F>>(
    parse: P,
    r: Option<DjiCalibration<F>>,
    record: RecordText,
) -> bool {
    exists|x: Option<F>, y: Option<F>, values: Seq<Option<F>>|
        #![trigger is_calibration_of(r, record, x, y, values)]
        {
            &&& parses(parse, record.center_x, x)
            &&& parses(parse, record.center_y, y)
            &&& all_parse(parse, record.fields, values)
            &&& is_calibration_of(r, record, x, y, values)
        }
}

/// `r` is the calibration in an image file, where `parse` reads its numbers.
pub open spec fn is_read<F: scalar::Scalar, P: Fn(&str) -> Option<F>>(
    parse: P,
    data: Seq<u8>,
    r: Option<DjiCalibration<F>>,
) -> bool {
    match record_of(data) {
        Some(record) => is_parsed_calibration(parse, r, record),
        None => r is None,
    }
}

/// What `parse` makes of a text is a function of the text.
pub open spec fn reads_alike<F, P: Fn(&str) -> Option<F>>(parse: P) -> bool {
    forall|text: Seq<char>, a: Option<F>, b: Option<F>|
        #[trigger] parses(parse, text, a) && #[trigger] parses(parse, text, b) ==> a == b
}

/// Both are no calibration, or calibrations that hold the same.
pub open spec fn same_calibration<F>(
    a: Option<DjiCalibration<F>>,
    b: Option<DjiCalibration<F>>,
) -> bool {
    match (a, b) {
        (Some(a), Some(b)) => {
            &&& a.fx == b.fx
            &&& a.fy == b.fy
            &&& a.cx == b.cx
            &&& a.cy == b.cy
            &&& a.k1 == b.k1
            &&& a.k2 == b.k2
            &&& a.k3 == b.k3
            &&& a.p1 == b.p1
            &&& a.p2 == b.p2
            &&& a.calibration_date@ == b.calibration_date@
            &&& a.dewarp_flag == b.dewarp_flag
        },
        (None, None) => true,
        _ => false,
    }
}

/// Files whose heads are equal give the same calibration, whatever follows.
pub proof fn law_equal_heads_read_alike<F: scalar::Scalar, P: Fn(&str) -> Option<F>>(
    parse: P,
    a: Seq<u8>,
    b: Seq<u8>,
    read_a: Option<DjiCalibration<F>>,
    read_b: Option<DjiCalibration<F>>,
)
    requires
        reads_alike(parse),
        xmp::head_of(a) == xmp::head_of(b),
        is_read(parse, a, read_a),
        is_read(parse, b, read_b),
    ensures
        same_calibration(read_a, read_b),
{
    if let Some(record) = record_of(a) {
        assert(record_of(b) == Some(record));
        let (x_a, y_a, values_a) = choose|x: Option<F>, y: Option<F>, values: Seq<Option<F>>|
            #![trigger is_calibration_of(read_a, record, x, y, values)]
            {
                &&& parses(parse, record.center_x, x)
                &&& parses(parse, record.center_y, y)
                &&& all_parse(parse, record.fields, values)
                &&& is_calibration_of(read_a, record, x, y, values)
            };
        let (x_b, y_b, values_b) = choose|x: Option<F>, y: Option<F>, values: Seq<Option<F>>|
            #![trigger is_calibration_of(read_b, record, x, y, values)]
            {
                &&& parses(parse, record.center_x, x)
                &&& parses(parse, record.center_y, y)
                &&& all_parse(parse, record.fields, values)
                &&& is_calibration_of(read_b, record, x, y, values)
            };
        assert forall|i: int| 0 <= i < values_a.len() implies values_a[i] == values_b[i] by {
            assert(parses(parse, record.fields[i], values_a[i]));
            assert(parses(parse, record.fields[i], values_b[i]));
        }
        assert(values_a =~= values_b);
    }
}

/// A file whose head holds no closing tag of a packet has no calibration.
pub proof fn law_packet_ends_in_the_head<F: scalar::Scalar, P: Fn(&str) -> Option<F>>(
    parse: P,
    data: Seq<u8>,
    r: Option<DjiCalibration<F>>,
)
    requires
        first_of(xmp::head_of(data), xmp::packet_end()) is None,
        is_read(parse, data, r),
    ensures
        r is None,
{
    let head = xmp::head_of(data);
    let end = xmp::packet_end();
    if let Some(start) = first_of(head, xmp::packet_start()) {
        assert(is_first_at(head, xmp::packet_start(), start));
        if let Some(len) = first_of(head.skip(start), end) {
            assert(is_first_at(head.skip(start), end, len));
            assert(head.subrange(start + len, start + len + end.len()) =~= head.skip(
                start,
            ).subrange(len, len + end.len()));
            lemma_first_of_some(head, end, start + len);
        }
    }
}

/// Makes a calibration out of the numbers of a record.
pub fn assemble_calibration<F: scalar::Scalar>(
    record: DewarpRecord,
    center_x: Option<F>,
    center_y: Option<F>,
    values: &Vec<Option<F>>,
) -> (r: Option<DjiCalibration<F>>)
    requires
        is_arithmetic::<F>(),
    ensures
        is_calibration_of(r, record@, center_x, center_y, values@),
{
    let mut numbers: Vec<F> = Vec::new();
    for i in 0..values.len()
        invariant
            numbers@ == present(values@.take(i as int)),
    {
        assert(values@.take(i + 1).drop_last() =~= values@.take(i as int));
        if let Some(number) = values[i] {
            numbers.push(number);
        }
    }
    assert(values@.take(values@.len() as int) =~= values@);
    let x = center_x?;
    let y = center_y?;
    if numbers.len() != 9 {
        return None;
    }
    Some(
        DjiCalibration {
            fx: numbers[0],
            fy: numbers[1],
            cx: x + numbers[2],
            cy: y + numbers[3],
            k1: numbers[4],
            k2: numbers[5],
            k3: numbers[8],
            p1: numbers[6],
            p2: numbers[7],
            calibration_date: record.date,
            dewarp_flag: record.dewarp_flag,
        },
    )
}

/// Reads the lens calibration that DJI cameras put into the XMP metadata of an
/// image, given the bytes of the file, of which the first 64 KiB count. `parse`
/// reads a number.
pub fn read_dji_calibration<F: scalar::Scalar, P: Fn(&str) -> Option<F>>(
    data: &[u8],
    parse: &P,
) -> (r: Option<DjiCalibration<F>>)
    requires
        is_arithmetic::<F>(),
        forall|s: &str| call_requires(parse, (s,)),
    ensures
        is_read(*parse, data@, r),
{
    let packet = xmp::find_xmp(data)?;
    let record = read_record(packet.as_str())?;
    let ghost said = record@;
    let x: Option<F> = parse(record.center_x.as_str());
    let y: Option<F> = parse(record.center_y.as_str());
    let mut values: Vec<Option<F>> = Vec::new();
    for i in 0..record.fields.len()
        invariant
            forall|s: &str| call_requires(parse, (s,)),
            said.fields == texts(record.fields@),
            values@.len() == i,
            forall|j: int|
                0 <= j < i ==> parses(*parse, said.fields[j], #[trigger] values@[j]),
    {
        let number = parse(record.fields[i].as_str());
        values.push(number);
    }
    let r = assemble_calibration(record, x, y, &values);
    r
}

} // verus!
