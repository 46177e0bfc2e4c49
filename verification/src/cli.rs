//! What the command-line tool prints.
use crate::calibration::DjiCalibration;
use crate::calibration_file::written;
use crate::pipeline::{BatchSummary, ProgressMsg};
use crate::scalar;
use crate::scalar::is_arithmetic;
use crate::text;
use crate::text::{decimal, decimal_int, shown_text, texts};
use vstd::prelude::*;
use vstd::utf8::{decode_utf8, valid_utf8};

verus! {

// ---------------------------------------------------------------------------
// Output folders
// ---------------------------------------------------------------------------

/// The name of the folder, beside the input called `name`, that new images are put
/// in.
pub open spec fn default_output_name_of(name: Seq<u8>) -> Seq<char> {
    shown_text(name) + "_dewarped"@
}

/// The name of the folder, beside the input file or folder called `name`, that new
/// images are put in where no other is given.
pub fn default_output_name(name: &[u8]) -> (r: String)
    ensures
        r@ == default_output_name_of(name@),
        valid_utf8(name@) ==> r@ == decode_utf8(name@) + "_dewarped"@,
{
    let mut r = text::show(name);
    r.append("_dewarped");
    r
}

// ---------------------------------------------------------------------------
// Calibrations
// ---------------------------------------------------------------------------

/// What a dewarp flag says of an image.
pub open spec fn flag_meaning(flag: i32) -> Seq<char> {
    if flag == 0 {
        "needs dewarping"@
    } else {
        "already dewarped"@
    }
}

/// `numbers` are those of the calibration in the order in which they are printed.
pub open spec fn numbers_printed<F, W: Fn(F, usize) -> String>(
    fixed: W,
    cal: DjiCalibration<F>,
    numbers: Seq<Seq<char>>,
) -> bool {
    &&& numbers.len() == 9
    &&& written(fixed, cal.fx, 6, numbers[0])
    &&& written(fixed, cal.fy, 6, numbers[1])
    &&& written(fixed, cal.cx, 6, numbers[2])
    &&& written(fixed, cal.cy, 6, numbers[3])
    &&& written(fixed, cal.k1, 12, numbers[4])
    &&& written(fixed, cal.k2, 12, numbers[5])
    &&& written(fixed, cal.k3, 12, numbers[6])
    &&& written(fixed, cal.p1, 12, numbers[7])
    &&& written(fixed, cal.p2, 12, numbers[8])
}

/// The lines on the calibration of the image called `name`.
pub open spec fn info_text<F>(
    name: Seq<u8>,
    cal: DjiCalibration<F>,
    numbers: Seq<Seq<char>>,
) -> Seq<Seq<char>> {
    seq![
        "Image:       "@ + shown_text(name),
        "DewarpFlag:  "@ + decimal_int(cal.dewarp_flag as int) + "  ("@ + flag_meaning(
            cal.dewarp_flag,
        ) + ")"@,
        "Calibration: "@ + cal.calibration_date@,
        "  fx = "@ + numbers[0],
        "  fy = "@ + numbers[1],
        "  cx = "@ + numbers[2],
        "  cy = "@ + numbers[3],
        "  k1 = "@ + numbers[4],
        "  k2 = "@ + numbers[5],
        "  k3 = "@ + numbers[6],
        "  p1 = "@ + numbers[7],
        "  p2 = "@ + numbers[8],
    ]
}

fn labelled(label: &str, value: &str) -> (r: String)
    ensures
        r@ == label@ + value@,
{
    let mut r = label.to_string();
    r.append(value);
    r
}

/// The lines to print on the calibration of the image called `name`.
pub fn info_lines<F: scalar::Scalar, W: Fn(F, usize) -> String>(
    name: &[u8],
    cal: &DjiCalibration<F>,
    fixed: &W,
) -> (r: Vec<String>)
    requires
        forall|v: F, digits: usize| call_requires(fixed, (v, digits)),
    ensures
        exists|numbers: Seq<Seq<char>>| #[trigger]
            numbers_printed(*fixed, *cal, numbers) && texts(r@) == info_text(name@, *cal, numbers),
{
    let fx = fixed(cal.fx, 6);
    let fy = fixed(cal.fy, 6);
    let cx = fixed(cal.cx, 6);
    let cy = fixed(cal.cy, 6);
    let k1 = fixed(cal.k1, 12);
    let k2 = fixed(cal.k2, 12);
    let k3 = fixed(cal.k3, 12);
    let p1 = fixed(cal.p1, 12);
    let p2 = fixed(cal.p2, 12);
    let ghost numbers = seq![fx@, fy@, cx@, cy@, k1@, k2@, k3@, p1@, p2@];
    assert(numbers_printed(*fixed, *cal, numbers));
    let mut flag = "DewarpFlag:  ".to_string();
    text::push_decimal_int(&mut flag, cal.dewarp_flag);
    flag.append("  (");
    flag.append(
        if cal.dewarp_flag == 0 {
            "needs dewarping"
        } else {
            "already dewarped"
        },
    );
    flag.append(")");
    let mut r: Vec<String> = Vec::new();
    r.push(labelled("Image:       ", text::show(name).as_str()));
    r.push(flag);
    r.push(labelled("Calibration: ", cal.calibration_date.as_str()));
    r.push(labelled("  fx = ", fx.as_str()));
    r.push(labelled("  fy = ", fy.as_str()));
    r.push(labelled("  cx = ", cx.as_str()));
    r.push(labelled("  cy = ", cy.as_str()));
    r.push(labelled("  k1 = ", k1.as_str()));
    r.push(labelled("  k2 = ", k2.as_str()));
    r.push(labelled("  k3 = ", k3.as_str()));
    r.push(labelled("  p1 = ", p1.as_str()));
    r.push(labelled("  p2 = ", p2.as_str()));
    r
}

// ---------------------------------------------------------------------------
// The course of a batch
// ---------------------------------------------------------------------------

/// What is to be printed.
pub enum Print {
    /// Lines on the standard output.
    Lines(Vec<String>),
    /// A line on the standard error, with which the tool fails.
    Failure(String),
}

/// The line that says how a batch went, with the time that it took and the time for
/// each image.
pub open spec fn summary_text<F>(
    summary: BatchSummary<F>,
    seconds: Seq<char>,
    each: Seq<char>,
) -> Seq<char> {
    "\nProcessed "@ + decimal(summary.processed as nat) + "/"@ + decimal(summary.total as nat)
        + " images in "@ + seconds + "s ("@ + each + "s/image)"@
}

/// The number of images that the time of a batch is divided by.
pub open spec fn divisor(processed: usize) -> usize {
    if processed == 0 {
        1
    } else {
        processed
    }
}

/// `seconds` and `each` are the time of a batch and the time for each of its
/// `images` images.
pub open spec fn summary_numbers<F: scalar::Scalar, C: Fn(usize) -> F, W: Fn(F, usize) -> String>(
    count: C,
    fixed: W,
    summary: BatchSummary<F>,
    images: F,
    seconds: Seq<char>,
    each: Seq<char>,
) -> bool {
    &&& call_ensures(count, (divisor(summary.processed),), images)
    &&& written(fixed, summary.elapsed_secs, 1, seconds)
    &&& written(fixed, summary.elapsed_secs / images, 2, each)
}

/// `lines` are printed at the end of a batch: how it went, the images that were
/// skipped if there are any, and the folder that the new images are in.
pub open spec fn is_summary<F: scalar::Scalar, C: Fn(usize) -> F, W: Fn(F, usize) -> String>(
    count: C,
    fixed: W,
    summary: BatchSummary<F>,
    output: Seq<char>,
    lines: Seq<Seq<char>>,
) -> bool {
    exists|images: F, seconds: Seq<char>, each: Seq<char>| #[trigger]
        summary_numbers(count, fixed, summary, images, seconds, each) && lines == seq![
            summary_text(summary, seconds, each),
        ] + if summary.skipped > 0 {
            seq!["Skipped: "@ + decimal(summary.skipped as nat)]
        } else {
            Seq::empty()
        } + seq!["Output: "@ + output]
}

/// What is printed on a message of a batch whose new images are put in the folder
/// `output`.
pub fn message_print<F: scalar::Scalar, C: Fn(usize) -> F, W: Fn(F, usize) -> String>(
    message: &ProgressMsg<F>,
    output: &str,
    count: &C,
    fixed: &W,
) -> (r: Print)
    requires
        is_arithmetic::<F>(),
        forall|n: usize| call_requires(count, (n,)),
        forall|v: F, digits: usize| call_requires(fixed, (v, digits)),
    ensures
        match *message {
            ProgressMsg::CalibrationLoaded(cal) => r matches Print::Lines(lines) && texts(lines@)
                == if cal.dewarp_flag != 0 {
                seq![
                    "  DewarpFlag="@ + decimal_int(cal.dewarp_flag as int)
                        + " -> REVERSE mode (re-applying barrel distortion)\n"@,
                ]
            } else {
                Seq::empty()
            },
            ProgressMsg::Processing { current, total, name } => r matches Print::Lines(lines)
                && texts(lines@) == seq![
                "  ["@ + decimal(current as nat) + "/"@ + decimal(total as nat) + "] "@ + name@,
            ],
            ProgressMsg::Preview(_) => r matches Print::Lines(lines) && lines@.len() == 0,
            ProgressMsg::Done(summary) => r matches Print::Lines(lines) && is_summary(
                *count,
                *fixed,
                summary,
                output@,
                texts(lines@),
            ),
            ProgressMsg::Error(text) => r matches Print::Failure(line) && line@ == "Error: "@
                + text@,
        },
{
    let mut lines: Vec<String> = Vec::new();
    match message {
        ProgressMsg::CalibrationLoaded(cal) => {
            if cal.dewarp_flag != 0 {
                let mut line = "  DewarpFlag=".to_string();
                text::push_decimal_int(&mut line, cal.dewarp_flag);
                line.append(" -> REVERSE mode (re-applying barrel distortion)\n");
                lines.push(line);
            }
        },
        ProgressMsg::Processing { current, total, name } => {
            let mut line = "  [".to_string();
            text::push_decimal(&mut line, *current as u64);
            line.append("/");
            text::push_decimal(&mut line, *total as u64);
            line.append("] ");
            line.append(name.as_str());
            lines.push(line);
        },
        ProgressMsg::Preview(_) => {},
        ProgressMsg::Done(summary) => {
            let images = count(
                if summary.processed == 0 {
                    1
                } else {
                    summary.processed
                },
            );
            let seconds = fixed(summary.elapsed_secs, 1);
            let each = fixed(summary.elapsed_secs / images, 2);
            let mut line = "\nProcessed ".to_string();
            text::push_decimal(&mut line, summary.processed as u64);
            line.append("/");
            text::push_decimal(&mut line, summary.total as u64);
            line.append(" images in ");
            line.append(seconds.as_str());
            line.append("s (");
            line.append(each.as_str());
            line.append("s/image)");
            let ghost first = line@;
            lines.push(line);
            if summary.skipped > 0 {
                let mut line = "Skipped: ".to_string();
                text::push_decimal(&mut line, summary.skipped as u64);
                lines.push(line);
            }
            lines.push(labelled("Output: ", output));
            proof {
                assert(summary_numbers(*count, *fixed, *summary, images, seconds@, each@));
                assert(texts(lines@) =~= seq![first] + if summary.skipped > 0 {
                    seq!["Skipped: "@ + decimal(summary.skipped as nat)]
                } else {
                    Seq::empty()
                } + seq!["Output: "@ + output@]);
            }
        },
        ProgressMsg::Error(text) => {
            return Print::Failure(labelled("Error: ", text.as_str()));
        },
    }
    Print::Lines(lines)
}

} // verus!
