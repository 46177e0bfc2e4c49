//! Batches of images: which images, with which calibration, and what is said while
//! they are worked on.
use crate::calibration::DjiCalibration;
use crate::jpeg;
use crate::jpeg::{fits_jpeg, jpeg_encoding, written_file};
use crate::paths;
use crate::paths::{is_image_name, names, path_before};
use crate::remap;
use crate::remap::{
    narrowed, new_camera, redistort_place, rgb_len, row_shown, thumbnail_extent, thumbnail_pixel,
    thumbnail_scale, truncates, undistort_place, RemapLut,
};
use crate::scalar;
use crate::scalar::{is_arithmetic, orders_whole_numbers, whole, widens};
use crate::text;
use crate::text::shown_text;
use vstd::prelude::*;

verus! {

// ---------------------------------------------------------------------------
// The images of a batch
// ---------------------------------------------------------------------------

/// Something found in a folder.
pub struct Entry {
    /// The names on the way to it, its own name last.
    pub path: Vec<Vec<u8>>,
    pub is_dir: bool,
    pub is_file: bool,
}

/// What a batch was started on.
pub enum Input {
    /// A file of this name.
    File(Vec<u8>),
    /// A folder that holds these entries.
    Folder(Vec<Entry>),
}

/// The entry is an image to work on. In a folder that is walked with all folders
/// in it, whatever is no folder and has the name of an image counts as one.
pub open spec fn is_wanted(entry: Entry, recursive: bool) -> bool {
    &&& entry.path@.len() > 0
    &&& is_image_name(entry.path@.last()@)
    &&& if recursive {
        !entry.is_dir
    } else {
        entry.is_file
    }
}

/// Entry `i` comes before entry `j`: by their paths, and by their places where
/// these are the same.
pub open spec fn comes_before(entries: Seq<Entry>, i: int, j: int) -> bool {
    let a = names(entries[i].path@);
    let b = names(entries[j].path@);
    path_before(a, b) || (a == b && i < j)
}

/// `images` are the places of the first `n` entries that are wanted, in the order
/// of their paths.
pub open spec fn are_images(images: Seq<usize>, entries: Seq<Entry>, n: int, recursive: bool) -> bool {
    &&& forall|k: int|
        0 <= k < images.len() ==> (#[trigger] images[k]) < n && is_wanted(
            entries[images[k] as int],
            recursive,
        )
    &&& forall|i: int|
        0 <= i < n && is_wanted(#[trigger] entries[i], recursive) ==> images.contains(i as usize)
    &&& forall|j: int, k: int|
        0 <= j < k < images.len() ==> comes_before(
            entries,
            (#[trigger] images[j]) as int,
            (#[trigger] images[k]) as int,
        )
}

fn is_wanted_entry(entry: &Entry, recursive: bool) -> (r: bool)
    ensures
        r == is_wanted(*entry, recursive),
{
    if entry.path.len() == 0 {
        return false;
    }
    let kind = if recursive {
        !entry.is_dir
    } else {
        entry.is_file
    };
    kind && paths::is_supported_image(entry.path[entry.path.len() - 1].as_slice())
}

proof fn lemma_comes_before_is_transitive(entries: Seq<Entry>, i: int, j: int, k: int)
    requires
        comes_before(entries, i, j),
        comes_before(entries, j, k),
    ensures
        comes_before(entries, i, k),
{
    let a = names(entries[i].path@);
    let b = names(entries[j].path@);
    let c = names(entries[k].path@);
    if path_before(a, b) && path_before(b, c) {
        paths::law_path_order_is_transitive(a, b, c);
    }
}

/// The number of images that come before entry `new`, which stands behind all of
/// them in the folder.
fn find_place(images: &Vec<usize>, entries: &Vec<Entry>, new: usize, recursive: bool) -> (r: usize)
    requires
        new < entries@.len(),
        are_images(images@, entries@, new as int, recursive),
    ensures
        r <= images@.len(),
        forall|k: int|
            0 <= k < r ==> comes_before(entries@, (#[trigger] images@[k]) as int, new as int),
        forall|k: int|
            r <= k < images@.len() ==> comes_before(
                entries@,
                new as int,
                (#[trigger] images@[k]) as int,
            ),
{
    let mut low: usize = 0;
    let mut high: usize = images.len();
    while low < high
        invariant
            low <= high <= images@.len(),
            new < entries@.len(),
            are_images(images@, entries@, new as int, recursive),
            forall|k: int|
                0 <= k < low ==> comes_before(entries@, (#[trigger] images@[k]) as int, new as int),
            forall|k: int|
                high <= k < images@.len() ==> comes_before(
                    entries@,
                    new as int,
                    (#[trigger] images@[k]) as int,
                ),
        decreases high - low,
    {
        let middle = low + (high - low) / 2;
        let at = images[middle];
        let ghost a = names(entries@[new as int].path@);
        let ghost b = names(entries@[at as int].path@);
        if paths::is_before(&entries[new].path, &entries[at].path) {
            assert forall|k: int| middle <= k < images@.len() implies comes_before(
                entries@,
                new as int,
                (#[trigger] images@[k]) as int,
            ) by {
                if k > middle {
                    lemma_comes_before_is_transitive(
                        entries@,
                        new as int,
                        at as int,
                        images@[k] as int,
                    );
                }
            }
            high = middle;
        } else {
            proof {
                paths::law_paths_are_ordered(b, a);
            }
            assert forall|k: int| 0 <= k < middle + 1 implies comes_before(
                entries@,
                (#[trigger] images@[k]) as int,
                new as int,
            ) by {
                if k < middle {
                    lemma_comes_before_is_transitive(
                        entries@,
                        images@[k] as int,
                        at as int,
                        new as int,
                    );
                }
            }
            low = middle + 1;
        }
    }
    low
}

/// The images of an input: the file itself, or the wanted entries of the folder, as
/// their places, in the order of their paths.
pub fn collect_images(input: &Input, recursive: bool) -> (images: Vec<usize>)
    ensures
        match *input {
            Input::File(name) => images@ == if is_image_name(name@) {
                seq![0usize]
            } else {
                Seq::empty()
            },
            Input::Folder(entries) => are_images(
                images@,
                entries@,
                entries@.len() as int,
                recursive,
            ),
        },
{
    let mut images: Vec<usize> = Vec::new();
    match input {
        Input::File(name) => {
            if paths::is_supported_image(name.as_slice()) {
                images.push(0);
            }
        },
        Input::Folder(entries) => {
            for i in 0..entries.len()
                invariant
                    are_images(images@, entries@, i as int, recursive),
            {
                if is_wanted_entry(&entries[i], recursive) {
                    let place = find_place(&images, entries, i, recursive);
                    let ghost before = images@;
                    images.insert(place, i);
                    proof {
                        lemma_inserted(before, entries@, i, recursive, place as int);
                    }
                }
            }
        },
    }
    images
}

proof fn lemma_inserted(
    images: Seq<usize>,
    entries: Seq<Entry>,
    new: usize,
    recursive: bool,
    place: int,
)
    requires
        new < entries.len(),
        are_images(images, entries, new as int, recursive),
        is_wanted(entries[new as int], recursive),
        0 <= place <= images.len(),
        forall|k: int|
            0 <= k < place ==> comes_before(entries, (#[trigger] images[k]) as int, new as int),
        forall|k: int|
            place <= k < images.len() ==> comes_before(
                entries,
                new as int,
                (#[trigger] images[k]) as int,
            ),
    ensures
        are_images(images.insert(place, new), entries, new + 1, recursive),
{
    let after = images.insert(place, new);
    assert forall|i: int|
        0 <= i < new + 1 && is_wanted(#[trigger] entries[i], recursive) implies after.contains(
        i as usize,
    ) by {
        if i == new {
            assert(after[place] == new);
        } else {
            let k = choose|k: int| 0 <= k < images.len() && images[k] == i as usize;
            if k < place {
                assert(after[k] == i as usize);
            } else {
                assert(after[k + 1] == i as usize);
            }
        }
    }
}

proof fn lemma_comes_before_is_strict(entries: Seq<Entry>, i: int, j: int)
    requires
        comes_before(entries, i, j),
    ensures
        !comes_before(entries, j, i),
        i != j,
{
    paths::law_paths_are_ordered(names(entries[i].path@), names(entries[j].path@));
    paths::law_paths_are_ordered(names(entries[j].path@), names(entries[i].path@));
}

/// A folder has one list of images: whatever names the wanted entries in order is
/// that list.
pub proof fn law_images_are_determined(
    a: Seq<usize>,
    b: Seq<usize>,
    entries: Seq<Entry>,
    recursive: bool,
)
    requires
        entries.len() <= usize::MAX,
        are_images(a, entries, entries.len() as int, recursive),
        are_images(b, entries, entries.len() as int, recursive),
    ensures
        a == b,
{
    let shorter = if a.len() < b.len() {
        a.len() as int
    } else {
        b.len() as int
    };
    lemma_images_agree(a, b, entries, recursive, shorter);
    if a.len() < b.len() {
        lemma_image_is_listed(b, a, entries, recursive, shorter);
    } else if b.len() < a.len() {
        lemma_image_is_listed(a, b, entries, recursive, shorter);
    }
}

/// Where both lists agree on the first `n` places, the image at place `n` of one
/// stands at that place or behind it in the other.
proof fn lemma_image_is_listed(
    a: Seq<usize>,
    b: Seq<usize>,
    entries: Seq<Entry>,
    recursive: bool,
    n: int,
) -> (at: int)
    requires
        entries.len() <= usize::MAX,
        are_images(a, entries, entries.len() as int, recursive),
        are_images(b, entries, entries.len() as int, recursive),
        0 <= n < a.len(),
        n <= b.len(),
        forall|k: int| 0 <= k < n ==> a[k] == b[k],
    ensures
        n <= at < b.len(),
        b[at] == a[n],
{
    let at = choose|at: int| 0 <= at < b.len() && b[at] == a[n];
    if at < n {
        lemma_comes_before_is_strict(entries, a[at] as int, a[n] as int);
    }
    at
}

proof fn lemma_images_agree(
    a: Seq<usize>,
    b: Seq<usize>,
    entries: Seq<Entry>,
    recursive: bool,
    n: int,
)
    requires
        entries.len() <= usize::MAX,
        are_images(a, entries, entries.len() as int, recursive),
        are_images(b, entries, entries.len() as int, recursive),
        0 <= n <= a.len(),
        n <= b.len(),
    ensures
        forall|k: int| 0 <= k < n ==> a[k] == b[k],
    decreases n,
{
    if n > 0 {
        lemma_images_agree(a, b, entries, recursive, n - 1);
        let in_b = lemma_image_is_listed(a, b, entries, recursive, n - 1);
        let in_a = lemma_image_is_listed(b, a, entries, recursive, n - 1);
        if in_b > n - 1 && in_a > n - 1 {
            lemma_comes_before_is_strict(entries, b[n - 1] as int, b[in_b] as int);
        }
    }
}

// ---------------------------------------------------------------------------
// The course of a batch
// ---------------------------------------------------------------------------

/// How a batch is to be done.
pub struct BatchSettings<F> {
    /// JPEG quality of the images that are saved.
    pub quality: u8,
    /// How much of the picture is kept where the distortion is removed.
    pub alpha: F,
    /// Whether folders in the input folder are walked too.
    pub recursive: bool,
    pub use_gpu: bool,
    /// Whether the distortion is put back instead of removed; if `None`, the
    /// calibration decides.
    pub reverse: Option<bool>,
    /// The calibration for images that hold none.
    pub external_cal: Option<DjiCalibration<F>>,
}

/// What came of a batch.
pub struct BatchSummary<F> {
    pub total: usize,
    pub processed: usize,
    pub skipped: usize,
    pub elapsed_secs: F,
}

/// An image and what was made of it, both small and of the same size.
pub struct PreviewData {
    pub original_thumb: Vec<u8>,
    pub dewarped_thumb: Vec<u8>,
    pub thumb_w: u32,
    pub thumb_h: u32,
}

impl<F: Copy> Clone for BatchSummary<F> {
    fn clone(&self) -> (r: Self)
        ensures
            r == *self,
    {
        BatchSummary {
            total: self.total,
            processed: self.processed,
            skipped: self.skipped,
            elapsed_secs: self.elapsed_secs,
        }
    }
}

impl Clone for PreviewData {
    fn clone(&self) -> (r: Self)
        ensures
            r.original_thumb@ == self.original_thumb@,
            r.dewarped_thumb@ == self.dewarped_thumb@,
            r.thumb_w == self.thumb_w,
            r.thumb_h == self.thumb_h,
    {
        PreviewData {
            original_thumb: self.original_thumb.clone(),
            dewarped_thumb: self.dewarped_thumb.clone(),
            thumb_w: self.thumb_w,
            thumb_h: self.thumb_h,
        }
    }
}

/// What a batch says while it runs.
pub enum ProgressMsg<F> {
    CalibrationLoaded(DjiCalibration<F>),
    Processing { current: usize, total: usize, name: String },
    Preview(PreviewData),
    Done(BatchSummary<F>),
    Error(String),
}

/// How far a batch has come.
pub enum BatchState<F> {
    /// Its images are being listed.
    Listing,
    /// It has `total` images, and the calibration is being looked for.
    Calibrating { total: usize },
    /// Its first image is being opened.
    Opening { total: usize, cal: DjiCalibration<F>, reverse: bool },
    /// Its images, of `width` by `height` pixels, are being worked on.
    Running(BatchRun<F>),
    /// It is over.
    Ended,
}

/// A batch whose images are being worked on.
pub struct BatchRun<F> {
    pub total: usize,
    pub cal: DjiCalibration<F>,
    pub reverse: bool,
    pub width: u32,
    pub height: u32,
    /// The images that were begun.
    pub started: usize,
    /// Those among them that could not be read.
    pub skipped: usize,
}

/// What happens to a batch.
pub enum BatchEvent<F> {
    /// `total` images were found.
    Listed { total: usize },
    /// The first image, a file of this name, was searched for a calibration.
    Searched { file_name: Vec<u8>, embedded: Option<DjiCalibration<F>> },
    /// The first image, at this path, was opened and has this size, or it could not
    /// be.
    Opened { path: String, size: Option<(u32, u32)> },
    /// Work on the image in a file of this name begins.
    Started { file_name: Vec<u8> },
    /// An image could not be read.
    Skipped,
    /// A preview of an image that was begun is ready.
    Shown { preview: PreviewData },
    /// The work is done.
    Finished { elapsed_secs: F },
}

impl<F> BatchState<F> {
    /// A batch has images from the moment they are listed, no more are begun than it
    /// has, and no more skipped than begun.
    pub open spec fn well_formed(&self) -> bool {
        match *self {
            BatchState::Listing => true,
            BatchState::Calibrating { total } => total > 0,
            BatchState::Opening { total, .. } => total > 0,
            BatchState::Running(run) => run.total > 0 && run.skipped <= run.started <= run.total,
            BatchState::Ended => true,
        }
    }
}

/// The calibration of a batch: the one in its first image, else the one that was
/// handed in.
pub open spec fn calibration_of<F>(
    embedded: Option<DjiCalibration<F>>,
    settings: BatchSettings<F>,
) -> Option<DjiCalibration<F>> {
    match embedded {
        Some(cal) => Some(cal),
        None => settings.external_cal,
    }
}

/// Whether a batch puts the distortion back: as the settings say, else where the
/// images hold no calibration or say that the camera removed it.
pub open spec fn is_reverse<F>(
    embedded: Option<DjiCalibration<F>>,
    settings: BatchSettings<F>,
) -> bool {
    match settings.reverse {
        Some(reverse) => reverse,
        None => match embedded {
            Some(cal) => cal.dewarp_flag != 0,
            None => true,
        },
    }
}

/// The state of a batch after an event. An event that does not belong to the state
/// changes nothing: images are begun only while some are left, skipped only after
/// they were begun, and the work is done only when all were begun. A preview changes
/// nothing either.
pub open spec fn state_after<F>(
    state: BatchState<F>,
    event: BatchEvent<F>,
    settings: BatchSettings<F>,
) -> BatchState<F> {
    match (state, event) {
        (BatchState::Listing, BatchEvent::Listed { total }) => if total == 0 {
            BatchState::Ended
        } else {
            BatchState::Calibrating { total }
        },
        (
            BatchState::Calibrating { total },
            BatchEvent::Searched { file_name: _, embedded },
        ) => match calibration_of(embedded, settings) {
            Some(cal) => BatchState::Opening {
                total,
                cal,
                reverse: is_reverse(embedded, settings),
            },
            None => BatchState::Ended,
        },
        (
            BatchState::Opening { total, cal, reverse },
            BatchEvent::Opened { path: _, size },
        ) => match size {
            Some((width, height)) => BatchState::Running(
                BatchRun { total, cal, reverse, width, height, started: 0, skipped: 0 },
            ),
            None => BatchState::Ended,
        },
        (
            BatchState::Running(run),
            BatchEvent::Started { file_name: _ },
        ) => if run.started < run.total {
            BatchState::Running(BatchRun { started: (run.started + 1) as usize, ..run })
        } else {
            state
        },
        (BatchState::Running(run), BatchEvent::Skipped) => if run.skipped < run.started {
            BatchState::Running(BatchRun { skipped: (run.skipped + 1) as usize, ..run })
        } else {
            state
        },
        (
            BatchState::Running(run),
            BatchEvent::Finished { elapsed_secs: _ },
        ) => if run.started == run.total {
            BatchState::Ended
        } else {
            state
        },
        _ => state,
    }
}

/// A message of a batch, its texts as sequences of characters.
pub enum MessageText<F> {
    CalibrationLoaded(DjiCalibration<F>),
    Processing { current: int, total: int, name: Seq<char> },
    Preview(PreviewData),
    Done(BatchSummary<F>),
    Error(Seq<char>),
}

impl<F> View for ProgressMsg<F> {
    type V = MessageText<F>;

    open spec fn view(&self) -> MessageText<F> {
        match *self {
            ProgressMsg::CalibrationLoaded(cal) => MessageText::CalibrationLoaded(cal),
            ProgressMsg::Processing { current, total, name } => MessageText::Processing {
                current: current as int,
                total: total as int,
                name: name@,
            },
            ProgressMsg::Preview(preview) => MessageText::Preview(preview),
            ProgressMsg::Done(summary) => MessageText::Done(summary),
            ProgressMsg::Error(text) => MessageText::Error(text@),
        }
    }
}

/// What a batch says on an event: an error where it ends without having worked, the
/// calibration that it goes by, each image that is begun with its number, previews
/// once an image was begun, and the summary.
pub open spec fn message_on<F>(
    state: BatchState<F>,
    event: BatchEvent<F>,
    settings: BatchSettings<F>,
) -> Option<MessageText<F>> {
    match (state, event) {
        (BatchState::Listing, BatchEvent::Listed { total }) => if total == 0 {
            Some(MessageText::Error("No supported images found."@))
        } else {
            None
        },
        (
            BatchState::Calibrating { total: _ },
            BatchEvent::Searched { file_name, embedded },
        ) => match calibration_of(embedded, settings) {
            Some(cal) => Some(MessageText::CalibrationLoaded(cal)),
            None => Some(
                MessageText::Error(
                    "No DJI DewarpData in "@ + shown_text(file_name@)
                        + " — load a calibration file"@,
                ),
            ),
        },
        (BatchState::Opening { .. }, BatchEvent::Opened { path, size }) => if size is None {
            Some(MessageText::Error("Cannot read "@ + path@))
        } else {
            None
        },
        (
            BatchState::Running(run),
            BatchEvent::Started { file_name },
        ) => if run.started < run.total {
            Some(
                MessageText::Processing {
                    current: run.started + 1,
                    total: run.total as int,
                    name: shown_text(file_name@),
                },
            )
        } else {
            None
        },
        (
            BatchState::Running(run),
            BatchEvent::Shown { preview },
        ) => if run.started > 0 {
            Some(MessageText::Preview(preview))
        } else {
            None
        },
        (
            BatchState::Running(run),
            BatchEvent::Finished { elapsed_secs },
        ) => if run.started == run.total {
            Some(
                MessageText::Done(
                    BatchSummary {
                        total: run.total,
                        processed: (run.total - run.skipped) as usize,
                        skipped: run.skipped,
                        elapsed_secs,
                    },
                ),
            )
        } else {
            None
        },
        _ => None,
    }
}

/// The text of an optional message.
pub open spec fn said<F>(message: Option<ProgressMsg<F>>) -> Option<MessageText<F>> {
    match message {
        Some(message) => Some(message@),
        None => None,
    }
}

/// Carries a batch on over an event, and says what there is to say of it.
pub fn batch_dewarp<F: Copy>(
    state: BatchState<F>,
    event: BatchEvent<F>,
    settings: &BatchSettings<F>,
) -> (r: (BatchState<F>, Option<ProgressMsg<F>>))
    requires
        state.well_formed(),
    ensures
        r.0.well_formed(),
        r.0 == state_after(state, event, *settings),
        said(r.1) == message_on(state, event, *settings),
{
    match (state, event) {
        (BatchState::Listing, BatchEvent::Listed { total }) => {
            if total == 0 {
                let text = "No supported images found.".to_string();
                (BatchState::Ended, Some(ProgressMsg::Error(text)))
            } else {
                (BatchState::Calibrating { total }, None)
            }
        },
        (BatchState::Calibrating { total }, BatchEvent::Searched { file_name, embedded }) => {
            let reverse = match settings.reverse {
                Some(reverse) => reverse,
                None => match &embedded {
                    Some(cal) => cal.dewarp_flag != 0,
                    None => true,
                },
            };
            let cal = match embedded {
                Some(cal) => cal,
                None => match &settings.external_cal {
                    Some(cal) => cal.clone(),
                    None => {
                        let mut text = "No DJI DewarpData in ".to_string();
                        text.append(text::show(file_name.as_slice()).as_str());
                        text.append(" — load a calibration file");
                        return (BatchState::Ended, Some(ProgressMsg::Error(text)));
                    },
                },
            };
            let said = cal.clone();
            (
                BatchState::Opening { total, cal, reverse },
                Some(ProgressMsg::CalibrationLoaded(said)),
            )
        },
        (BatchState::Opening { total, cal, reverse }, BatchEvent::Opened { path, size }) => {
            match size {
                Some((width, height)) => (
                    BatchState::Running(
                        BatchRun { total, cal, reverse, width, height, started: 0, skipped: 0 },
                    ),
                    None,
                ),
                None => {
                    let mut text = "Cannot read ".to_string();
                    text.append(path.as_str());
                    (BatchState::Ended, Some(ProgressMsg::Error(text)))
                },
            }
        },
        (BatchState::Running(run), BatchEvent::Started { file_name }) => {
            if run.started < run.total {
                let current = run.started + 1;
                let total = run.total;
                let name = text::show(file_name.as_slice());
                (
                    BatchState::Running(BatchRun { started: current, ..run }),
                    Some(ProgressMsg::Processing { current, total, name }),
                )
            } else {
                (BatchState::Running(run), None)
            }
        },
        (BatchState::Running(run), BatchEvent::Skipped) => {
            if run.skipped < run.started {
                let skipped = run.skipped + 1;
                (BatchState::Running(BatchRun { skipped, ..run }), None)
            } else {
                (BatchState::Running(run), None)
            }
        },
        (BatchState::Running(run), BatchEvent::Shown { preview }) => {
            if run.started > 0 {
                (BatchState::Running(run), Some(ProgressMsg::Preview(preview)))
            } else {
                (BatchState::Running(run), None)
            }
        },
        (BatchState::Running(run), BatchEvent::Finished { elapsed_secs }) => {
            if run.started == run.total {
                let summary = BatchSummary {
                    total: run.total,
                    processed: run.total - run.skipped,
                    skipped: run.skipped,
                    elapsed_secs,
                };
                (BatchState::Ended, Some(ProgressMsg::Done(summary)))
            } else {
                (BatchState::Running(run), None)
            }
        },
        (state, _) => (state, None),
    }
}

/// The state that events bring a new batch to, and all that it said on the way.
pub open spec fn history<F>(
    events: Seq<BatchEvent<F>>,
    settings: BatchSettings<F>,
) -> (BatchState<F>, Seq<MessageText<F>>)
    decreases events.len(),
{
    if events.len() == 0 {
        (BatchState::Listing, Seq::empty())
    } else {
        let (state, messages) = history(events.drop_last(), settings);
        (
            state_after(state, events.last(), settings),
            match message_on(state, events.last(), settings) {
                Some(message) => messages.push(message),
                None => messages,
            },
        )
    }
}

/// The images that messages announce: number, total and name.
pub open spec fn images_in<F>(messages: Seq<MessageText<F>>) -> Seq<(int, int, Seq<char>)>
    decreases messages.len(),
{
    if messages.len() == 0 {
        Seq::empty()
    } else {
        match messages.last() {
            MessageText::Processing { current, total, name } => images_in(
                messages.drop_last(),
            ).push((current, total, name)),
            _ => images_in(messages.drop_last()),
        }
    }
}

/// The messages are a calibration and behind it images and previews, an image first;
/// the images are `started` out of `total`, numbered from one.
pub open spec fn announces<F>(messages: Seq<MessageText<F>>, started: int, total: int) -> bool {
    &&& messages.len() > 0
    &&& messages[0] is CalibrationLoaded
    &&& messages.len() > 1 ==> messages[1] is Processing
    &&& forall|i: int|
        1 <= i < messages.len() ==> (#[trigger] messages[i]) is Processing
            || messages[i] is Preview
    &&& images_in(messages).len() == started
    &&& forall|k: int|
        0 <= k < started ==> (#[trigger] images_in(messages)[k]).0 == k + 1 && images_in(
            messages,
        )[k].1 == total
}

/// The messages are those of a batch in this state.
pub open spec fn is_course<F>(state: BatchState<F>, messages: Seq<MessageText<F>>) -> bool {
    match state {
        BatchState::Listing => messages.len() == 0,
        BatchState::Calibrating { .. } => messages.len() == 0,
        BatchState::Opening { total, cal, .. } => messages == seq![
            MessageText::CalibrationLoaded(cal),
        ],
        BatchState::Running(run) => {
            &&& announces(messages, run.started as int, run.total as int)
            &&& messages[0] == MessageText::CalibrationLoaded(run.cal)
            &&& run.started == 0 <==> messages.len() == 1
        },
        BatchState::Ended => {
            &&& messages.len() > 0
            &&& match messages.last() {
                MessageText::Error(_) => messages.len() == 1 || (messages.len() == 2
                    && messages[0] is CalibrationLoaded),
                MessageText::Done(summary) => {
                    &&& summary.processed + summary.skipped == summary.total
                    &&& summary.total > 0
                    &&& announces(
                        messages.drop_last(),
                        summary.total as int,
                        summary.total as int,
                    )
                },
                _ => false,
            }
        },
    }
}

/// Whatever happens to a batch, it says its calibration first, if it finds one, then
/// its images by their numbers and previews among them, and ends with one error or
/// one summary, after which it says nothing. It works on images only after it has a
/// calibration, an error comes before any image, and a summary after all of them;
/// what the summary counts as processed and as skipped adds up to the total.
pub proof fn law_course_of_a_batch<F>(events: Seq<BatchEvent<F>>, settings: BatchSettings<F>)
    ensures
        history(events, settings).0.well_formed(),
        is_course(history(events, settings).0, history(events, settings).1),
    decreases events.len(),
{
    if events.len() > 0 {
        law_course_of_a_batch(events.drop_last(), settings);
        let (state, messages) = history(events.drop_last(), settings);
        let all = history(events, settings).1;
        if let Some(message) = message_on(state, events.last(), settings) {
            assert(all.drop_last() =~= messages);
            if state is Calibrating && message is CalibrationLoaded {
                assert(all =~= seq![message]);
            }
        } else if state is Opening {
            assert(images_in(messages.drop_last()) =~= Seq::empty());
        }
    }
}

/// The event belongs to the work on images.
pub open spec fn is_work<F>(event: BatchEvent<F>) -> bool {
    event is Started || event is Skipped || event is Shown
}

/// The files of the images that events begin.
pub open spec fn files_started<F>(events: Seq<BatchEvent<F>>) -> Seq<Seq<u8>>
    decreases events.len(),
{
    if events.len() == 0 {
        Seq::empty()
    } else {
        match events.last() {
            BatchEvent::Started { file_name } => files_started(events.drop_last()).push(
                file_name@,
            ),
            _ => files_started(events.drop_last()),
        }
    }
}

/// How many images events report as unreadable.
pub open spec fn times_skipped<F>(events: Seq<BatchEvent<F>>) -> nat
    decreases events.len(),
{
    if events.len() == 0 {
        0
    } else if events.last() is Skipped {
        times_skipped(events.drop_last()) + 1
    } else {
        times_skipped(events.drop_last())
    }
}

/// No more images are reported as unreadable than were begun, at any time.
pub open spec fn skips_were_begun<F>(events: Seq<BatchEvent<F>>) -> bool
    decreases events.len(),
{
    events.len() > 0 ==> {
        &&& times_skipped(events) <= files_started(events).len()
        &&& skips_were_begun(events.drop_last())
    }
}

/// What happens to a batch from its beginning to its end.
pub open spec fn whole_batch<F>(
    listed: BatchEvent<F>,
    searched: BatchEvent<F>,
    opened: BatchEvent<F>,
    work: Seq<BatchEvent<F>>,
    finished: BatchEvent<F>,
) -> Seq<BatchEvent<F>> {
    (seq![listed, searched, opened] + work).push(finished)
}

/// A batch that has ended says nothing more.
proof fn lemma_ended_stays<F>(
    events: Seq<BatchEvent<F>>,
    more: Seq<BatchEvent<F>>,
    settings: BatchSettings<F>,
)
    requires
        history(events, settings).0 is Ended,
    ensures
        history(events + more, settings) == history(events, settings),
    decreases more.len(),
{
    if more.len() > 0 {
        lemma_ended_stays(events, more.drop_last(), settings);
        assert((events + more).drop_last() =~= events + more.drop_last());
    } else {
        assert(events + more =~= events);
    }
}

/// A batch announces the images that are begun while it works, under the names of
/// their files, and counts those that are reported as unreadable.
proof fn lemma_work<F>(
    events: Seq<BatchEvent<F>>,
    work: Seq<BatchEvent<F>>,
    settings: BatchSettings<F>,
)
    requires
        history(events, settings).0 matches BatchState::Running(run) && run.started == 0
            && run.skipped == 0 && files_started(work).len() <= run.total,
        images_in(history(events, settings).1).len() == 0,
        forall|i: int| 0 <= i < work.len() ==> is_work(#[trigger] work[i]),
    ensures
        ({
            let (state, messages) = history(events + work, settings);
            let files = files_started(work);
            &&& state matches BatchState::Running(run) && run.started == files.len() && run.total
                == (history(events, settings).0->Running_0).total && (skips_were_begun(work)
                ==> run.skipped == times_skipped(work))
            &&& images_in(messages).len() == files.len()
            &&& forall|k: int|
                0 <= k < files.len() ==> (#[trigger] images_in(messages)[k]).2 == shown_text(
                    files[k],
                )
        }),
    decreases work.len(),
{
    if work.len() > 0 {
        let most = work.drop_last();
        lemma_work(events, most, settings);
        assert((events + work).drop_last() =~= events + most);
        let (state, messages) = history(events + most, settings);
        assert(is_work(work[work.len() - 1]));
        if let Some(message) = message_on(state, work.last(), settings) {
            assert(messages.push(message).drop_last() =~= messages);
        }
    } else {
        assert(events + work =~= events);
    }
}

/// A batch whose images are all begun ends, with a summary exactly where there are
/// images, a calibration in the first image or handed in, and a first image that can
/// be read, and with an error else. It announces the images under the names of their
/// files, in the order in which they are begun. Where images are reported as
/// unreadable only after they were begun, the summary counts them as skipped and all
/// others as processed.
pub proof fn law_when_a_batch_is_done<F>(
    total: usize,
    file_name: Vec<u8>,
    embedded: Option<DjiCalibration<F>>,
    path: String,
    size: Option<(u32, u32)>,
    work: Seq<BatchEvent<F>>,
    elapsed_secs: F,
    settings: BatchSettings<F>,
)
    requires
        forall|i: int| 0 <= i < work.len() ==> is_work(#[trigger] work[i]),
        files_started(work).len() == total,
    ensures
        ({
            let events = whole_batch(
                BatchEvent::Listed { total },
                BatchEvent::Searched { file_name, embedded },
                BatchEvent::Opened { path, size },
                work,
                BatchEvent::Finished { elapsed_secs },
            );
            let (state, messages) = history(events, settings);
            let works = total > 0 && calibration_of(embedded, settings) is Some && size is Some;
            &&& state is Ended
            &&& messages.len() > 0
            &&& messages.last() is Done <==> works
            &&& messages.last() is Error <==> !works
            &&& works ==> images_in(messages).len() == total && forall|k: int|
                0 <= k < total ==> (#[trigger] images_in(messages)[k]).2 == shown_text(
                    files_started(work)[k],
                )
            &&& messages.last() matches MessageText::Done(summary) ==> {
                &&& summary.total == total
                &&& summary.processed + summary.skipped == total
                &&& skips_were_begun(work) ==> summary.skipped == times_skipped(work)
                &&& summary.elapsed_secs == elapsed_secs
            }
        }),
{
    let listed = BatchEvent::<F>::Listed { total };
    let searched = BatchEvent::Searched { file_name, embedded };
    let opened = BatchEvent::<F>::Opened { path, size };
    let finished = BatchEvent::Finished { elapsed_secs };
    let none = Seq::<BatchEvent<F>>::empty();
    let one = seq![listed];
    let two = seq![listed, searched];
    let three = seq![listed, searched, opened];
    let events = whole_batch(listed, searched, opened, work, finished);
    assert(one.drop_last() =~= none);
    assert(two.drop_last() =~= one);
    assert(three.drop_last() =~= two);
    assert(events.drop_last() =~= three + work);
    law_course_of_a_batch(three, settings);
    assert(history(none, settings) == (BatchState::<F>::Listing, Seq::<MessageText<F>>::empty()));
    assert(history(one, settings).0 == state_after(BatchState::Listing, listed, settings));
    if total == 0 {
        assert(history(one, settings).0 is Ended);
    }
    assert(history(two, settings).0 == state_after(history(one, settings).0, searched, settings));
    assert(history(three, settings).0 == state_after(history(two, settings).0, opened, settings));
    law_course_of_a_batch(events, settings);
    if history(three, settings).0 is Ended {
        assert(events =~= three + work.push(finished));
        lemma_ended_stays(three, work.push(finished), settings);
    } else {
        lemma_work(three, work, settings);
        let (state, messages) = history(three + work, settings);
        let message = message_on(state, finished, settings)->0;
        assert(messages.push(message).drop_last() =~= messages);
    }
}

/// Without a word in the settings, a batch puts the distortion back exactly where
/// its images hold no calibration or say that the camera removed the distortion.
pub proof fn law_default_mode<F>(
    embedded: Option<DjiCalibration<F>>,
    settings: BatchSettings<F>,
)
    requires
        settings.reverse is None,
    ensures
        is_reverse(embedded, settings) <==> (embedded matches Some(cal) ==> cal.dewarp_flag != 0),
{
}

// ---------------------------------------------------------------------------
// The work on an image
// ---------------------------------------------------------------------------

/// The table is the one that removes the distortion of the lens or (`reverse`) puts
/// it back.
pub open spec fn is_mode_lut<F: scalar::Scalar, G, N: Fn(F) -> G>(
    cal: DjiCalibration<F>,
    reverse: bool,
    alpha: F,
    narrow: N,
    lut: RemapLut<G>,
) -> bool {
    forall|row: int, col: int|
        0 <= row < lut.height && 0 <= col < lut.width ==> narrowed(
            narrow,
            if reverse {
                redistort_place(
                    cal,
                    new_camera(cal, lut.width, lut.height, whole(0)),
                    row,
                    col,
                )
            } else {
                undistort_place(cal, new_camera(cal, lut.width, lut.height, alpha), row, col)
            },
            #[trigger] lut.place(row, col),
        )
}

/// Builds the table by which a batch works on images of `width` by `height` pixels.
pub fn mode_lut<F: scalar::Scalar + Send + Sync, G: Copy + Send, N: Fn(F) -> G + Send + Sync>(
    cal: &DjiCalibration<F>,
    reverse: bool,
    width: u32,
    height: u32,
    alpha: F,
    narrow: &N,
) -> (lut: RemapLut<G>)
    requires
        is_arithmetic::<F>(),
        forall|v: F| call_requires(narrow, (v,)),
        width > 0,
        height * width <= usize::MAX,
    ensures
        lut.well_formed(),
        lut.width == width,
        lut.height == height,
        is_mode_lut(*cal, reverse, alpha, *narrow, lut),
{
    if reverse {
        remap::build_redistort_lut(cal, width, height, narrow)
    } else {
        remap::build_undistort_lut(cal, width, height, alpha, narrow)
    }
}

/// `out` shows, place by place, what the table says of the image.
pub open spec fn is_remapped<
    F: scalar::Scalar + From<G>,
    G,
    L: Fn(F) -> i64,
    R: Fn(F) -> F,
    B: Fn(F) -> u8,
>(floor: L, round: R, to_byte: B, src: Seq<u8>, width: u32, height: u32, lut: RemapLut<G>, out: Seq<u8>) -> bool {
    &&& out.len() == rgb_len(lut.width, lut.height)
    &&& forall|row: int|
        0 <= row < lut.height ==> #[trigger] row_shown::<F, G, L, R, B>(
            floor,
            round,
            to_byte,
            src,
            width,
            height,
            lut,
            row,
            out,
            row * lut.width * 3,
        )
}

/// Works on one image of a batch: the pixels of the new image, and the bytes of the
/// file to save it in (`None` where a JPEG file cannot have the image's sides).
///
/// `source` is the file that the image came from; its metadata goes into the new
/// file.
pub fn process_image<
    F: scalar::Scalar + From<G> + Send + Sync,
    G: Copy + Send + Sync,
    L: Fn(F) -> i64 + Send + Sync,
    R: Fn(F) -> F + Send + Sync,
    B: Fn(F) -> u8 + Send + Sync,
>(
    src: &[u8],
    lut: &RemapLut<G>,
    quality: u8,
    source: &[u8],
    reverse: bool,
    floor: &L,
    round: &R,
    to_byte: &B,
) -> (r: (Vec<u8>, Option<Vec<u8>>))
    requires
        is_arithmetic::<F>(),
        widens::<F, G>(),
        forall|v: F| call_requires(floor, (v,)),
        forall|v: F| call_requires(round, (v,)),
        forall|v: F| call_requires(to_byte, (v,)),
        src@.len() >= rgb_len(lut.width, lut.height),
        lut.well_formed(),
        lut.width > 0,
        rgb_len(lut.width, lut.height) <= usize::MAX,
    ensures
        is_remapped::<F, G, L, R, B>(
            *floor,
            *round,
            *to_byte,
            src@,
            lut.width,
            lut.height,
            *lut,
            r.0@,
        ),
        r.1 is Some <==> fits_jpeg(lut.width, lut.height),
        r.1 matches Some(file) ==> file@ == written_file(
            jpeg_encoding(r.0@, lut.width, lut.height, quality),
            source@,
            reverse,
        ),
{
    let out = remap::cpu_remap::<F, G, L, R, B>(
        src,
        lut.width,
        lut.height,
        lut,
        floor,
        round,
        to_byte,
    );
    let file = jpeg::save_jpeg(
        out.as_slice(),
        lut.width,
        lut.height,
        quality,
        source,
        reverse,
    );
    (out, file)
}

/// Whether a preview of the image with this number is shown: of the first image and
/// of every tenth.
pub fn shows_preview(current: usize) -> (r: bool)
    ensures
        r == (current == 1 || current % 10 == 0),
{
    current == 1 || current % 10 == 0
}

/// The longest side of the previews of a batch.
pub const BATCH_PREVIEW_SIDE: u32 = 300;

/// `thumb`, of `thumb_w` by `thumb_h` pixels, is the thumbnail of an image.
pub open spec fn is_thumbnail<F: scalar::Scalar, R: Fn(F) -> F, T: Fn(F) -> u32>(
    round: R,
    truncate: T,
    src: Seq<u8>,
    src_w: u32,
    src_h: u32,
    max_dim: u32,
    thumb: Seq<u8>,
    thumb_w: u32,
    thumb_h: u32,
) -> bool {
    let scale = thumbnail_scale::<F>(src_w, src_h, max_dim);
    &&& thumbnail_extent(round, truncate, src_w, scale, thumb_w)
    &&& thumbnail_extent(round, truncate, src_h, scale, thumb_h)
    &&& thumb.len() == rgb_len(thumb_w, thumb_h)
    &&& forall|y: int, x: int|
        0 <= y < thumb_h && 0 <= x < thumb_w ==> #[trigger] thumbnail_pixel(
            truncate,
            src,
            src_w,
            src_h,
            scale,
            thumb,
            thumb_w,
            y,
            x,
        )
}

/// What `f` returns for a value is a function of the value alone.
pub open spec fn is_function<A, B, C: Fn(A) -> B>(f: C) -> bool {
    forall|a: A, b: B, c: B|
        #[trigger] call_ensures(f, (a,), b) && #[trigger] call_ensures(f, (a,), c) ==> b == c
}

/// The preview of an image of a batch and of what was made of it.
pub fn batch_preview<F: scalar::Scalar, R: Fn(F) -> F, T: Fn(F) -> u32>(
    original: &[u8],
    dewarped: &[u8],
    width: u32,
    height: u32,
    round: &R,
    truncate: &T,
) -> (r: PreviewData)
    requires
        is_arithmetic::<F>(),
        orders_whole_numbers::<F>(),
        truncates::<F, T>(*truncate),
        is_function(*round),
        is_function(*truncate),
        forall|v: F| call_requires(round, (v,)),
        forall|v: F| call_requires(truncate, (v,)),
        width > 0,
        height > 0,
        original@.len() >= rgb_len(width, height),
        dewarped@.len() >= rgb_len(width, height),
    ensures
        r.thumb_w >= 1,
        r.thumb_h >= 1,
        is_thumbnail(
            *round,
            *truncate,
            original@,
            width,
            height,
            BATCH_PREVIEW_SIDE,
            r.original_thumb@,
            r.thumb_w,
            r.thumb_h,
        ),
        is_thumbnail(
            *round,
            *truncate,
            dewarped@,
            width,
            height,
            BATCH_PREVIEW_SIDE,
            r.dewarped_thumb@,
            r.thumb_w,
            r.thumb_h,
        ),
{
    let (original_thumb, thumb_w, thumb_h) = remap::make_thumbnail(
        original,
        width,
        height,
        BATCH_PREVIEW_SIDE,
        round,
        truncate,
    );
    let (dewarped_thumb, w, h) = remap::make_thumbnail(
        dewarped,
        width,
        height,
        BATCH_PREVIEW_SIDE,
        round,
        truncate,
    );
    proof {
        let scale = thumbnail_scale::<F>(width, height, BATCH_PREVIEW_SIDE);
        lemma_one_extent(*round, *truncate, width, scale, thumb_w, w);
        lemma_one_extent(*round, *truncate, height, scale, thumb_h, h);
    }
    PreviewData { original_thumb, dewarped_thumb, thumb_w, thumb_h }
}

proof fn lemma_one_extent<F: scalar::Scalar, R: Fn(F) -> F, T: Fn(F) -> u32>(
    round: R,
    truncate: T,
    extent: u32,
    scale: F,
    a: u32,
    b: u32,
)
    requires
        is_function(round),
        is_function(truncate),
        thumbnail_extent(round, truncate, extent, scale, a),
        thumbnail_extent(round, truncate, extent, scale, b),
    ensures
        a == b,
{
}

} // verus!
