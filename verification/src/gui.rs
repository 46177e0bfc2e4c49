//! The state behind the window, and the texts that it shows.
use crate::calibration::DjiCalibration;
use crate::calibration_file::written;
use crate::paths;
use crate::paths::suffix_of;
use crate::pipeline;
use crate::pipeline::{
    is_mode_lut, is_remapped, is_thumbnail, BatchSettings, BatchSummary, PreviewData, ProgressMsg,
};
use crate::remap;
use crate::remap::{rgb_len, truncates, RemapLut};
use crate::scalar;
use crate::scalar::{is_arithmetic, max_of, orders_whole_numbers, whole, widens};
use crate::text;
use crate::text::{decimal, decimal_int, shown_text};
use vstd::prelude::*;
use vstd::utf8::{decode_utf8, valid_utf8};

verus! {

/// What the window knows.
pub struct DewarpGui<F> {
    pub input_folder: String,
    pub output_folder: String,
    pub quality: u8,
    pub crop_edges: bool,
    pub use_gpu: bool,
    pub recursive: bool,
    pub dewarp_enabled: bool,
    pub reverse_mode: bool,
    pub calibration: Option<DjiCalibration<F>>,
    /// Whether the calibration was read from a file of its own.
    pub cal_from_file: bool,
    pub image_count: usize,
    /// Whether the images of the input folder hold no calibration and none is at
    /// hand.
    pub needs_cal_file: bool,
    pub processing: bool,
    pub progress_current: usize,
    pub progress_total: usize,
    pub progress_name: String,
    pub status_msg: String,
    pub images_per_sec: F,
    pub show_about: bool,
    pub show_calibration: bool,
}

/// The share of the picture that is kept: all of it unless black edges are cropped.
pub open spec fn alpha_of<F: scalar::Scalar>(crop_edges: bool) -> F {
    if crop_edges {
        whole(0)
    } else {
        whole(1)
    }
}

/// The name of the folder that the images made from the folder called `name` are put
/// in.
pub open spec fn output_folder_name_of(name: Seq<u8>, reverse: bool) -> Seq<char> {
    shown_text(name) + "_"@ + suffix_of(reverse)
}

/// The text that says how a batch went, with the time that it took and the images
/// per second.
pub open spec fn done_text<F>(
    summary: BatchSummary<F>,
    seconds: Seq<char>,
    rate: Seq<char>,
) -> Seq<char> {
    "Done! "@ + decimal(summary.processed as nat) + "/"@ + decimal(summary.total as nat)
        + " images in "@ + seconds + "s ("@ + rate + " img/s)"@
}

/// `seconds` and `rate` are the time of a batch and its images per second, of which
/// `processed` is the number of images. The rate is taken over a thousandth of a
/// second at least.
pub open spec fn done_numbers<F: scalar::Scalar, C: Fn(usize) -> F, W: Fn(F, usize) -> String>(
    count: C,
    fixed: W,
    summary: BatchSummary<F>,
    processed: F,
    seconds: Seq<char>,
    rate: Seq<char>,
) -> bool {
    &&& call_ensures(count, (summary.processed,), processed)
    &&& written(fixed, summary.elapsed_secs, 1, seconds)
    &&& written(
        fixed,
        processed / max_of(summary.elapsed_secs, whole::<F>(1) / whole(1000)),
        1,
        rate,
    )
}

/// `text` says how a batch went.
pub open spec fn is_done_status<F: scalar::Scalar, C: Fn(usize) -> F, W: Fn(F, usize) -> String>(
    count: C,
    fixed: W,
    summary: BatchSummary<F>,
    text: Seq<char>,
) -> bool {
    exists|processed: F, seconds: Seq<char>, rate: Seq<char>| #[trigger]
        done_numbers(count, fixed, summary, processed, seconds, rate) && text == done_text(
            summary,
            seconds,
            rate,
        )
}

/// `rate` is the images per second after `elapsed` seconds: they are counted anew
/// once half a second has passed, and stay as they were before.
pub open spec fn is_rate<F: scalar::Scalar, C: Fn(usize) -> F>(
    count: C,
    current: usize,
    elapsed: Option<F>,
    before: F,
    rate: F,
) -> bool {
    match elapsed {
        Some(elapsed) => if elapsed > whole::<F>(1) / whole(2) {
            exists|images: F| #[trigger]
                call_ensures(count, (current,), images) && rate == images / elapsed
        } else {
            rate == before
        },
        None => rate == before,
    }
}

impl<F: scalar::Scalar> DewarpGui<F> {
    /// The window as it opens.
    pub fn new() -> (r: Self)
        requires
            is_arithmetic::<F>(),
        ensures
            r.input_folder@ == ""@,
            r.output_folder@ == ""@,
            r.quality == 95,
            r.crop_edges,
            !r.use_gpu,
            !r.recursive,
            r.dewarp_enabled,
            !r.reverse_mode,
            r.calibration is None,
            !r.cal_from_file,
            r.image_count == 0,
            !r.needs_cal_file,
            !r.processing,
            r.progress_current == 0,
            r.progress_total == 0,
            r.progress_name@ == ""@,
            r.status_msg@ == "Ready"@,
            r.images_per_sec == whole::<F>(0),
            !r.show_about,
            !r.show_calibration,
    {
        DewarpGui {
            input_folder: "".to_string(),
            output_folder: "".to_string(),
            quality: 95,
            crop_edges: true,
            use_gpu: false,
            recursive: false,
            dewarp_enabled: true,
            reverse_mode: false,
            calibration: None,
            cal_from_file: false,
            image_count: 0,
            needs_cal_file: false,
            processing: false,
            progress_current: 0,
            progress_total: 0,
            progress_name: "".to_string(),
            status_msg: "Ready".to_string(),
            images_per_sec: scalar::from_whole(0),
            show_about: false,
            show_calibration: false,
        }
    }

    /// The window after its input folder was searched, but for the status: `count`
    /// images were found, and the first one holds the calibration `embedded`.
    ///
    /// A calibration that was read from a file stays where the images hold none.
    pub open spec fn with_folder(self, count: usize, embedded: Option<DjiCalibration<F>>) -> Self {
        if count == 0 {
            DewarpGui { image_count: count, calibration: None, ..self }
        } else {
            match embedded {
                Some(cal) => DewarpGui {
                    image_count: count,
                    calibration: embedded,
                    cal_from_file: false,
                    needs_cal_file: false,
                    reverse_mode: cal.dewarp_flag != 0,
                    ..self
                },
                None => match self.calibration {
                    Some(cal) if self.cal_from_file => DewarpGui {
                        image_count: count,
                        needs_cal_file: false,
                        reverse_mode: cal.dewarp_flag != 0,
                        ..self
                    },
                    _ => DewarpGui {
                        image_count: count,
                        calibration: None,
                        cal_from_file: false,
                        needs_cal_file: true,
                        reverse_mode: true,
                        ..self
                    },
                },
            }
        }
    }

    /// The status after the input folder was searched.
    pub open spec fn folder_status(self) -> Seq<char> {
        if self.image_count == 0 {
            "No supported images in folder."@
        } else if self.calibration is None {
            decimal(self.image_count as nat)
                + " images — no embedded calibration. Load a calibration file to proceed."@
        } else {
            decimal(self.image_count as nat) + " images found  |  Mode: "@ + if self.reverse_mode {
                "REVERSE"@
            } else {
                "Dewarp"@
            }
        }
    }

    /// Takes up what was found in the input folder: `count` images, the first of
    /// which holds the calibration `embedded`. Says whether a preview of the first
    /// image can be shown.
    pub fn load_input_folder(&mut self, count: usize, embedded: Option<DjiCalibration<F>>) -> (r:
        bool)
        ensures
            old(self).input_folder@.len() == 0 ==> *final(self) == *old(self) && !r,
            old(self).input_folder@.len() > 0 ==> {
                &&& *final(self) == (DewarpGui {
                    status_msg: final(self).status_msg,
                    ..old(self).with_folder(count, embedded)
                })
                &&& final(self).status_msg@ == final(self).folder_status()
                &&& r == (final(self).calibration is Some)
            },
    {
        if text::chars_of(self.input_folder.as_str()).len() == 0 {
            return false;
        }
        self.take_folder(count, embedded);
        let status = self.folder_status_text();
        self.status_msg = status;
        self.calibration.is_some()
    }

    fn take_folder(&mut self, count: usize, embedded: Option<DjiCalibration<F>>)
        ensures
            *final(self) == old(self).with_folder(count, embedded),
    {
        self.image_count = count;
        if count == 0 {
            self.calibration = None;
            return;
        }
        let reverse = match (&embedded, &self.calibration) {
            (Some(cal), _) => cal.dewarp_flag != 0,
            (None, Some(cal)) if self.cal_from_file => cal.dewarp_flag != 0,
            _ => true,
        };
        self.reverse_mode = reverse;
        if embedded.is_some() {
            self.calibration = embedded;
            self.cal_from_file = false;
            self.needs_cal_file = false;
        } else if self.cal_from_file && self.calibration.is_some() {
            self.needs_cal_file = false;
        } else {
            self.calibration = None;
            self.cal_from_file = false;
            self.needs_cal_file = true;
        }
    }

    fn folder_status_text(&self) -> (r: String)
        ensures
            r@ == self.folder_status(),
    {
        if self.image_count == 0 {
            return "No supported images in folder.".to_string();
        }
        let mut r = String::new();
        text::push_decimal(&mut r, self.image_count as u64);
        if self.calibration.is_none() {
            r.append(" images — no embedded calibration. Load a calibration file to proceed.");
        } else {
            r.append(" images found  |  Mode: ");
            r.append(
                if self.reverse_mode {
                    "REVERSE"
                } else {
                    "Dewarp"
                },
            );
        }
        r
    }

    /// Starts a batch: the settings for it, or `None` where no input folder is given
    /// or a batch is running. Where no output folder is given it is
    /// `default_output`.
    pub fn start_processing(&mut self, default_output: String) -> (r: Option<BatchSettings<F>>)
        requires
            is_arithmetic::<F>(),
        ensures
            r is Some <==> old(self).input_folder@.len() > 0 && !old(self).processing,
            r is None ==> *final(self) == *old(self),
            r matches Some(settings) ==> {
                &&& settings == (BatchSettings {
                    quality: old(self).quality,
                    alpha: alpha_of::<F>(old(self).crop_edges),
                    recursive: old(self).recursive,
                    use_gpu: old(self).use_gpu,
                    reverse: Some(old(self).reverse_mode),
                    external_cal: if old(self).cal_from_file {
                        old(self).calibration
                    } else {
                        None
                    },
                })
                &&& *final(self) == (DewarpGui {
                    output_folder: if old(self).output_folder@.len() == 0 {
                        default_output
                    } else {
                        old(self).output_folder
                    },
                    processing: true,
                    progress_current: 0,
                    progress_total: 0,
                    ..*old(self)
                })
            },
    {
        if text::chars_of(self.input_folder.as_str()).len() == 0 || self.processing {
            return None;
        }
        if text::chars_of(self.output_folder.as_str()).len() == 0 {
            self.output_folder = default_output;
        }
        let external_cal = if self.cal_from_file {
            match &self.calibration {
                Some(cal) => Some(cal.clone()),
                None => None,
            }
        } else {
            None
        };
        let settings = BatchSettings {
            quality: self.quality,
            alpha: scalar::from_whole(
                if self.crop_edges {
                    0
                } else {
                    1
                },
            ),
            recursive: self.recursive,
            use_gpu: self.use_gpu,
            reverse: Some(self.reverse_mode),
            external_cal,
        };
        self.processing = true;
        self.progress_current = 0;
        self.progress_total = 0;
        Some(settings)
    }

    /// Takes up a message of the running batch, `elapsed` seconds after the batch
    /// was started. Gives back the preview to show, if there is one, and whether the
    /// batch is over.
    pub fn poll_progress<C: Fn(usize) -> F, W: Fn(F, usize) -> String>(
        &mut self,
        message: ProgressMsg<F>,
        elapsed: Option<F>,
        count: &C,
        fixed: &W,
    ) -> (r: (Option<PreviewData>, bool))
        requires
            is_arithmetic::<F>(),
            forall|n: usize| call_requires(count, (n,)),
            forall|v: F, digits: usize| call_requires(fixed, (v, digits)),
        ensures
            r.0 == match message {
                ProgressMsg::Preview(preview) => Some(preview),
                _ => None,
            },
            r.1 == (message is Done || message is Error),
            match message {
                ProgressMsg::CalibrationLoaded(cal) => *final(self) == (DewarpGui {
                    calibration: Some(cal),
                    ..*old(self)
                }),
                ProgressMsg::Processing { current, total, name } => {
                    &&& *final(self) == (DewarpGui {
                        progress_current: current,
                        progress_total: total,
                        progress_name: name,
                        images_per_sec: final(self).images_per_sec,
                        ..*old(self)
                    })
                    &&& is_rate(
                        *count,
                        current,
                        elapsed,
                        old(self).images_per_sec,
                        final(self).images_per_sec,
                    )
                },
                ProgressMsg::Preview(_) => *final(self) == *old(self),
                ProgressMsg::Done(summary) => {
                    &&& *final(self) == (DewarpGui {
                        processing: false,
                        status_msg: final(self).status_msg,
                        ..*old(self)
                    })
                    &&& is_done_status(*count, *fixed, summary, final(self).status_msg@)
                },
                ProgressMsg::Error(text) => {
                    &&& *final(self) == (DewarpGui {
                        processing: false,
                        status_msg: final(self).status_msg,
                        ..*old(self)
                    })
                    &&& final(self).status_msg@ == "Error: "@ + text@
                },
            },
    {
        match message {
            ProgressMsg::CalibrationLoaded(cal) => {
                self.calibration = Some(cal);
                (None, false)
            },
            ProgressMsg::Processing { current, total, name } => {
                self.progress_current = current;
                self.progress_total = total;
                self.progress_name = name;
                if let Some(elapsed) = elapsed {
                    let half = scalar::from_whole::<F>(1) / scalar::from_whole(2);
                    if elapsed > half {
                        let images = count(current);
                        self.images_per_sec = images / elapsed;
                    }
                }
                (None, false)
            },
            ProgressMsg::Preview(preview) => (Some(preview), false),
            ProgressMsg::Done(summary) => {
                let processed = count(summary.processed);
                let least = scalar::from_whole::<F>(1) / scalar::from_whole(1000);
                let seconds = fixed(summary.elapsed_secs, 1);
                let rate = fixed(processed / scalar::max(summary.elapsed_secs, least), 1);
                let mut status = "Done! ".to_string();
                text::push_decimal(&mut status, summary.processed as u64);
                status.append("/");
                text::push_decimal(&mut status, summary.total as u64);
                status.append(" images in ");
                status.append(seconds.as_str());
                status.append("s (");
                status.append(rate.as_str());
                status.append(" img/s)");
                assert(done_numbers(*count, *fixed, summary, processed, seconds@, rate@));
                self.processing = false;
                self.status_msg = status;
                (None, true)
            },
            ProgressMsg::Error(text) => {
                let mut status = "Error: ".to_string();
                status.append(text.as_str());
                self.processing = false;
                self.status_msg = status;
                (None, true)
            },
        }
    }

    /// Takes up a calibration that was read from a file of its own, or that the file
    /// holds none. Says whether a preview of the first image is to be shown anew.
    ///
    /// Such a calibration is for images that the camera dewarped, so the distortion
    /// is to be put back.
    pub fn load_calibration_file(&mut self, loaded: Option<DjiCalibration<F>>) -> (r: bool)
        ensures
            r == (loaded is Some),
            match loaded {
                Some(cal) => {
                    &&& *final(self) == (DewarpGui {
                        calibration: Some(DjiCalibration { dewarp_flag: 0, ..cal }),
                        cal_from_file: true,
                        needs_cal_file: false,
                        reverse_mode: true,
                        status_msg: final(self).status_msg,
                        ..*old(self)
                    })
                    &&& final(self).status_msg@ == decimal(old(self).image_count as nat)
                        + " images  |  Calibration loaded from file  |  Mode: REVERSE"@
                },
                None => {
                    &&& *final(self) == (DewarpGui {
                        status_msg: final(self).status_msg,
                        ..*old(self)
                    })
                    &&& final(self).status_msg@ == "Failed to parse calibration file."@
                },
            },
    {
        match loaded {
            Some(cal) => {
                let mut cal = cal;
                cal.dewarp_flag = 0;
                self.calibration = Some(cal);
                self.cal_from_file = true;
                self.needs_cal_file = false;
                self.reverse_mode = true;
                let mut status = String::new();
                text::push_decimal(&mut status, self.image_count as u64);
                status.append(" images  |  Calibration loaded from file  |  Mode: REVERSE");
                self.status_msg = status;
                true
            },
            None => {
                self.status_msg = "Failed to parse calibration file.".to_string();
                false
            },
        }
    }
}

/// The name of the folder that the images made from the folder called `name` are put
/// in where no other is given.
pub fn output_folder_name(name: &[u8], reverse: bool) -> (r: String)
    ensures
        r@ == output_folder_name_of(name@, reverse),
        valid_utf8(name@) ==> r@ == decode_utf8(name@) + "_"@ + suffix_of(reverse),
{
    let mut r = text::show(name);
    r.append("_");
    r.append(paths::suffix(reverse));
    r
}

/// The longest side of the preview of an input folder.
pub const FOLDER_PREVIEW_SIDE: u32 = 400;

/// The small image on the right of a preview is the one on the left, by the table
/// for images of their size.
pub open spec fn is_preview_of<
    F: scalar::Scalar + From<G>,
    G,
    N: Fn(F) -> G,
    L: Fn(F) -> i64,
    R: Fn(F) -> F,
    B: Fn(F) -> u8,
>(
    cal: DjiCalibration<F>,
    reverse: bool,
    alpha: F,
    narrow: N,
    floor: L,
    round: R,
    to_byte: B,
    preview: PreviewData,
) -> bool {
    exists|lut: RemapLut<G>| #[trigger]
        is_mode_lut(cal, reverse, alpha, narrow, lut) && lut.well_formed() && lut.width
            == preview.thumb_w && lut.height == preview.thumb_h && is_remapped::<F, G, L, R, B>(
            floor,
            round,
            to_byte,
            preview.original_thumb@,
            preview.thumb_w,
            preview.thumb_h,
            lut,
            preview.dewarped_thumb@,
        )
}

impl<F: scalar::Scalar> DewarpGui<F> {
    /// The preview of an image of `width` by `height` pixels under the present
    /// settings; `None` where there is no calibration.
    pub fn generate_preview<
        G: Copy + Send + Sync,
        N: Fn(F) -> G + Send + Sync,
        L: Fn(F) -> i64 + Send + Sync,
        R: Fn(F) -> F + Send + Sync,
        B: Fn(F) -> u8 + Send + Sync,
        T: Fn(F) -> u32,
    >(
        &self,
        rgb: &[u8],
        width: u32,
        height: u32,
        narrow: &N,
        floor: &L,
        round: &R,
        to_byte: &B,
        truncate: &T,
    ) -> (r: Option<PreviewData>) where F: From<G> + Send + Sync
        requires
            is_arithmetic::<F>(),
            orders_whole_numbers::<F>(),
            widens::<F, G>(),
            truncates::<F, T>(*truncate),
            forall|v: F| call_requires(narrow, (v,)),
            forall|v: F| call_requires(floor, (v,)),
            forall|v: F| call_requires(round, (v,)),
            forall|v: F| call_requires(to_byte, (v,)),
            forall|v: F| call_requires(truncate, (v,)),
            width > 0,
            height > 0,
            rgb@.len() >= rgb_len(width, height),
        ensures
            r is Some <==> self.calibration is Some,
            r matches Some(preview) ==> {
                &&& preview.thumb_w >= 1
                &&& preview.thumb_h >= 1
                &&& is_thumbnail(
                    *round,
                    *truncate,
                    rgb@,
                    width,
                    height,
                    FOLDER_PREVIEW_SIDE,
                    preview.original_thumb@,
                    preview.thumb_w,
                    preview.thumb_h,
                )
                &&& is_preview_of::<F, G, N, L, R, B>(
                    self.calibration->0,
                    self.reverse_mode,
                    alpha_of(self.crop_edges),
                    *narrow,
                    *floor,
                    *round,
                    *to_byte,
                    preview,
                )
            },
    {
        let Some(cal) = &self.calibration else {
            return None;
        };
        let (original_thumb, thumb_w, thumb_h) = remap::make_thumbnail(
            rgb,
            width,
            height,
            FOLDER_PREVIEW_SIDE,
            round,
            truncate,
        );
        let alpha = scalar::from_whole(
            if self.crop_edges {
                0
            } else {
                1
            },
        );
        assert(original_thumb.len() == original_thumb@.len());
        let lut = pipeline::mode_lut(cal, self.reverse_mode, thumb_w, thumb_h, alpha, narrow);
        let dewarped_thumb = remap::cpu_remap::<F, G, L, R, B>(
            original_thumb.as_slice(),
            thumb_w,
            thumb_h,
            &lut,
            floor,
            round,
            to_byte,
        );
        Some(PreviewData { original_thumb, dewarped_thumb, thumb_w, thumb_h })
    }
}

// ---------------------------------------------------------------------------
// What the window shows
// ---------------------------------------------------------------------------

/// The heading over a calibration whose `fx` and `k1` are written so.
pub open spec fn header_text(
    flag: i32,
    from_file: bool,
    fx: Seq<char>,
    k1: Seq<char>,
) -> Seq<char> {
    "Lens Calibration   (fx="@ + fx + "  k1="@ + k1 + "  Flag: "@ + decimal_int(flag as int)
        + "  src: "@ + if from_file {
        "file"@
    } else {
        "XMP"@
    } + ")"@
}

/// The first line on a calibration, with its lengths written so.
pub open spec fn lengths_text(
    date: Seq<char>,
    fx: Seq<char>,
    fy: Seq<char>,
    cx: Seq<char>,
    cy: Seq<char>,
) -> Seq<char> {
    "Cal: "@ + date + "   fx="@ + fx + "  fy="@ + fy + "   cx="@ + cx + "  cy="@ + cy
}

/// `text` is the first line on a calibration.
pub open spec fn is_lengths_line<F, W: Fn(F, usize) -> String>(
    fixed: W,
    cal: DjiCalibration<F>,
    text: Seq<char>,
) -> bool {
    exists|fx: Seq<char>, fy: Seq<char>, cx: Seq<char>, cy: Seq<char>|
        {
            &&& #[trigger] written(fixed, cal.fx, 2, fx)
            &&& #[trigger] written(fixed, cal.fy, 2, fy)
            &&& #[trigger] written(fixed, cal.cx, 2, cx)
            &&& #[trigger] written(fixed, cal.cy, 2, cy)
            &&& text == lengths_text(cal.calibration_date@, fx, fy, cx, cy)
        }
}

/// The second line on a calibration, with its coefficients written so.
pub open spec fn coefficients_text(
    k1: Seq<char>,
    k2: Seq<char>,
    k3: Seq<char>,
    p1: Seq<char>,
    p2: Seq<char>,
) -> Seq<char> {
    "k1="@ + k1 + "  k2="@ + k2 + "  k3="@ + k3 + "  p1="@ + p1 + "  p2="@ + p2
}

/// `text` is the second line on a calibration.
pub open spec fn is_coefficients_line<F, W: Fn(F, usize) -> String>(
    fixed: W,
    cal: DjiCalibration<F>,
    text: Seq<char>,
) -> bool {
    exists|k1: Seq<char>, k2: Seq<char>, k3: Seq<char>, p1: Seq<char>, p2: Seq<char>|
        {
            &&& #[trigger] written(fixed, cal.k1, 8, k1)
            &&& #[trigger] written(fixed, cal.k2, 8, k2)
            &&& #[trigger] written(fixed, cal.k3, 8, k3)
            &&& #[trigger] written(fixed, cal.p1, 8, p1)
            &&& #[trigger] written(fixed, cal.p2, 8, p2)
            &&& text == coefficients_text(k1, k2, k3, p1, p2)
        }
}

/// `text` is the heading over a calibration.
pub open spec fn is_header<F, W: Fn(F, usize) -> String>(
    fixed: W,
    cal: DjiCalibration<F>,
    from_file: bool,
    text: Seq<char>,
) -> bool {
    exists|fx: Seq<char>, k1: Seq<char>|
        {
            &&& #[trigger] written(fixed, cal.fx, 1, fx)
            &&& #[trigger] written(fixed, cal.k1, 4, k1)
            &&& text == header_text(cal.dewarp_flag, from_file, fx, k1)
        }
}

/// The text on the progress bar, with the images per second written so.
pub open spec fn bar_text(current: usize, total: usize, rate: Seq<char>, name: Seq<char>) -> Seq<
    char,
> {
    decimal(current as nat) + " / "@ + decimal(total as nat) + "   "@ + rate + " img/s   "@ + name
}

impl<F: scalar::Scalar> DewarpGui<F> {
    /// The heading over the previews.
    pub fn preview_label(&self) -> (r: &'static str)
        ensures
            r@ == if self.reverse_mode {
                "Preview  (Dewarped | Re-distorted)"@
            } else {
                "Preview  (Original | Dewarped)"@
            },
    {
        if self.reverse_mode {
            "Preview  (Dewarped | Re-distorted)"
        } else {
            "Preview  (Original | Dewarped)"
        }
    }

    /// The heading over the calibration.
    pub fn calibration_header<W: Fn(F, usize) -> String>(&self, fixed: &W) -> (r: String)
        requires
            forall|v: F, digits: usize| call_requires(fixed, (v, digits)),
        ensures
            match self.calibration {
                Some(cal) => is_header(*fixed, cal, self.cal_from_file, r@),
                None => r@ == if self.needs_cal_file {
                    "Lens Calibration  (not found — load file)"@
                } else {
                    "Lens Calibration  (no image loaded)"@
                },
            },
    {
        match &self.calibration {
            Some(cal) => {
                let fx = fixed(cal.fx, 1);
                let k1 = fixed(cal.k1, 4);
                let mut r = "Lens Calibration   (fx=".to_string();
                r.append(fx.as_str());
                r.append("  k1=");
                r.append(k1.as_str());
                r.append("  Flag: ");
                text::push_decimal_int(&mut r, cal.dewarp_flag);
                r.append("  src: ");
                r.append(
                    if self.cal_from_file {
                        "file"
                    } else {
                        "XMP"
                    },
                );
                r.append(")");
                assert(written(*fixed, cal.fx, 1, fx@) && written(*fixed, cal.k1, 4, k1@));
                r
            },
            None => if self.needs_cal_file {
                "Lens Calibration  (not found — load file)".to_string()
            } else {
                "Lens Calibration  (no image loaded)".to_string()
            },
        }
    }

    /// Whether the calibration is unfolded at first.
    pub fn calibration_open(&self) -> (r: bool)
        ensures
            r == (self.show_calibration || self.needs_cal_file),
    {
        self.show_calibration || self.needs_cal_file
    }

    /// The lines on the calibration; where there is none, the line that says what to
    /// do about it.
    pub fn calibration_lines<W: Fn(F, usize) -> String>(&self, fixed: &W) -> (r: Vec<String>)
        requires
            forall|v: F, digits: usize| call_requires(fixed, (v, digits)),
        ensures
            match self.calibration {
                Some(cal) => {
                    &&& r@.len() == 2
                    &&& is_lengths_line(*fixed, cal, r@[0]@)
                    &&& is_coefficients_line(*fixed, cal, r@[1]@)
                },
                None => {
                    &&& r@.len() == 1
                    &&& r@[0]@ == if self.needs_cal_file {
                        "No embedded DewarpData. Load a calibration file extracted from a raw capture."@
                    } else {
                        "Load a folder with DJI images to see calibration data."@
                    }
                },
            },
    {
        let mut lines: Vec<String> = Vec::new();
        match &self.calibration {
            Some(cal) => {
                let fx = fixed(cal.fx, 2);
                let fy = fixed(cal.fy, 2);
                let cx = fixed(cal.cx, 2);
                let cy = fixed(cal.cy, 2);
                let mut lengths = "Cal: ".to_string();
                lengths.append(cal.calibration_date.as_str());
                lengths.append("   fx=");
                lengths.append(fx.as_str());
                lengths.append("  fy=");
                lengths.append(fy.as_str());
                lengths.append("   cx=");
                lengths.append(cx.as_str());
                lengths.append("  cy=");
                lengths.append(cy.as_str());
                proof {
                    assert(written(*fixed, cal.fx, 2, fx@) && written(*fixed, cal.fy, 2, fy@));
                    assert(written(*fixed, cal.cx, 2, cx@) && written(*fixed, cal.cy, 2, cy@));
                }
                let k1 = fixed(cal.k1, 8);
                let k2 = fixed(cal.k2, 8);
                let k3 = fixed(cal.k3, 8);
                let p1 = fixed(cal.p1, 8);
                let p2 = fixed(cal.p2, 8);
                let mut coefficients = "k1=".to_string();
                coefficients.append(k1.as_str());
                coefficients.append("  k2=");
                coefficients.append(k2.as_str());
                coefficients.append("  k3=");
                coefficients.append(k3.as_str());
                coefficients.append("  p1=");
                coefficients.append(p1.as_str());
                coefficients.append("  p2=");
                coefficients.append(p2.as_str());
                proof {
                    assert(written(*fixed, cal.k1, 8, k1@) && written(*fixed, cal.k2, 8, k2@));
                    assert(written(*fixed, cal.k3, 8, k3@));
                    assert(written(*fixed, cal.p1, 8, p1@) && written(*fixed, cal.p2, 8, p2@));
                }
                lines.push(lengths);
                lines.push(coefficients);
            },
            None => {
                lines.push(
                    if self.needs_cal_file {
                        "No embedded DewarpData. Load a calibration file extracted from a raw capture.".to_string()
                    } else {
                        "Load a folder with DJI images to see calibration data.".to_string()
                    },
                );
            },
        }
        lines
    }

    /// The images that were begun, out of all images of the batch; `None` while
    /// their number is not known.
    pub fn progress(&self) -> (r: Option<(usize, usize)>)
        ensures
            r == if self.progress_total > 0 {
                Some((self.progress_current, self.progress_total))
            } else {
                None
            },
    {
        if self.progress_total > 0 {
            Some((self.progress_current, self.progress_total))
        } else {
            None
        }
    }

    /// The text on the progress bar.
    pub fn progress_text<W: Fn(F, usize) -> String>(&self, fixed: &W) -> (r: String)
        requires
            forall|v: F, digits: usize| call_requires(fixed, (v, digits)),
        ensures
            exists|rate: Seq<char>| #[trigger]
                written(*fixed, self.images_per_sec, 1, rate) && r@ == bar_text(
                    self.progress_current,
                    self.progress_total,
                    rate,
                    self.progress_name@,
                ),
    {
        let rate = fixed(self.images_per_sec, 1);
        let mut r = String::new();
        text::push_decimal(&mut r, self.progress_current as u64);
        r.append(" / ");
        text::push_decimal(&mut r, self.progress_total as u64);
        r.append("   ");
        r.append(rate.as_str());
        r.append(" img/s   ");
        r.append(self.progress_name.as_str());
        assert(written(*fixed, self.images_per_sec, 1, rate@));
        r
    }

    /// Whether a batch can be started.
    pub fn button_enabled(&self) -> (r: bool)
        ensures
            r == (!self.processing && self.input_folder@.len() > 0 && self.calibration is Some
                && self.dewarp_enabled),
    {
        !self.processing && text::chars_of(self.input_folder.as_str()).len() > 0
            && self.calibration.is_some() && self.dewarp_enabled
    }

    /// The label of the button that starts a batch.
    pub fn button_label(&self) -> (r: &'static str)
        ensures
            r@ == if self.reverse_mode {
                "  Re-distort Batch  "@
            } else {
                "  Dewarp Batch  "@
            },
    {
        if self.reverse_mode {
            "  Re-distort Batch  "
        } else {
            "  Dewarp Batch  "
        }
    }
}

} // verus!
