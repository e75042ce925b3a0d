//! Types shared by all backends: input, output, options, capabilities, load
//! configuration.

use crate::error::{AsrError, ErrorView};
use crate::text::{opt_view, views};
use std::path::PathBuf;
use std::sync::atomic::AtomicBool;
use std::sync::Arc;
use vstd::prelude::*;

verus! {

/// Declares std's `PathBuf`: a path is carried to the code that opens files and
/// never looked into here.
#[verifier::external_type_specification]
#[verifier::external_body]
pub struct ExPathBuf(PathBuf);

/// `PathBuf::clone` duplicates a path. The options and the configuration derive
/// `Clone` over it.
pub assume_specification[ <PathBuf as Clone>::clone ](path: &PathBuf) -> (r: PathBuf)
    ensures
        r == *path,
;

/// Sample rate every engine expects, in Hz.
///
/// Audio passed to an engine must be **mono**, at this rate, in `[-1.0, 1.0]`.
/// The engine does not resample: that stays the caller's responsibility.
pub const SAMPLE_RATE: u32 = 16_000;

/// Options for one transcription, passed **per call** (never stored on the
/// engine). It is a *superset*: a backend cleanly ignores what it does not
/// support (query [`EngineCapabilities`] up front).
#[derive(Debug, Clone)]
pub struct TranscribeOptions {
    /// Forced language (name or code, backend-dependent). `None` = auto-detect.
    pub language: Option<String>,
    /// Translate to English. Ignored by backends without translation.
    pub translate: bool,
    /// Decoding prompt: custom vocabulary and/or continuity with already-emitted
    /// text. Honoured by whisper-like backends; ignored otherwise.
    pub initial_prompt: Option<String>,
    /// Beam width. `<= 1` = greedy decoding. Ignored by backends without beam
    /// search.
    pub beam_size: i32,
    /// VAD model to apply before decoding (skip silence).
    pub vad_model: Option<PathBuf>,
}

impl Default for TranscribeOptions {
    fn default() -> (r: Self)
        ensures
            r.language is None,
            !r.translate,
            r.initial_prompt is None,
            r.beam_size == 0,
            r.vad_model is None,
    {
        TranscribeOptions {
            language: None,
            translate: false,
            initial_prompt: None,
            beam_size: 0,
            vad_model: None,
        }
    }
}

/// Where progress goes: called with an integer percentage as a backend advances.
pub trait ProgressSink: Send + Sync {
    /// The sink has been called with `pct`. An implementation may tie this to what
    /// it does with a percentage; by default it adds nothing. Of a sink whose type
    /// is not known, only a call of `progress` shows it.
    open spec fn received(&self, pct: u8) -> bool {
        true
    }

    /// Receives a percentage, never above 100.
    fn progress(&self, pct: u8)
        requires
            pct <= 100,
        ensures
            self.received(pct),
    ;
}

/// Cooperative control for a single transcription: cancellation and progress.
/// Passed **by call**, like [`TranscribeOptions`]. Both channels are optional and
/// default to inert ([`TranscribeControl::none`]).
pub struct TranscribeControl {
    /// Cancellation flag. When it reads `true`, the backend stops as soon as it
    /// next checks and returns [`AsrError::Cancelled`] (never a partial `Ok`).
    /// `None` = never cancelled.
    pub cancel: Option<Arc<AtomicBool>>,
    /// Progress sink (monotonic, may skip values, always ends at 100 on success).
    /// `None` = no progress reporting.
    pub on_progress: Option<Arc<dyn ProgressSink>>,
}

/// `pct`, or 100 when it is more.
pub open spec fn at_most_100(pct: int) -> int {
    if pct < 100 {
        pct
    } else {
        100
    }
}

/// Reading the cancellation flag can give `r`.
pub open spec fn flag_reads(flag: &AtomicBool, r: bool) -> bool {
    call_ensures(AtomicBool::load, (flag, std::sync::atomic::Ordering::Relaxed), r)
}

impl TranscribeControl {
    /// Asking whether the caller cancelled can give `r`: what reading the flag can
    /// give where there is one, else `false`.
    pub open spec fn reads(&self, r: bool) -> bool {
        match self.cancel {
            Some(flag) => flag_reads(&flag, r),
            None => !r,
        }
    }

    /// The percentage `pct` has reached the sink, if there is one.
    pub open spec fn sent(&self, pct: int) -> bool {
        self.on_progress matches Some(sink) ==> sink.received(pct as u8)
    }

    /// An inert control: never cancelled, no progress.
    pub fn none() -> (r: Self)
        ensures
            r.cancel is None,
            r.on_progress is None,
    {
        TranscribeControl { cancel: None, on_progress: None }
    }

    /// `true` once the caller has requested cancellation. The flag may be raised
    /// by another thread at any time, so with one present the answer is what
    /// reading it gives at that moment; without one the answer is `false`.
    pub fn is_cancelled(&self) -> (r: bool)
        ensures
            self.reads(r),
    {
        match &self.cancel {
            Some(flag) => flag.load(std::sync::atomic::Ordering::Relaxed),
            None => false,
        }
    }

    /// Report progress (`0..=100`) to the sink if one is set; a no-op otherwise.
    pub fn report_progress(&self, pct: u8)
        ensures
            self.sent(at_most_100(pct as int)),
    {
        if let Some(sink) = &self.on_progress {
            sink.progress(
                if pct < 100 {
                    pct
                } else {
                    100
                },
            );
        }
    }

    /// A control that shares this one's cancellation flag and reports nothing.
    pub fn silenced(&self) -> (r: Self)
        ensures
            r.cancel == self.cancel,
            r.on_progress is None,
    {
        let cancel = match &self.cancel {
            Some(flag) => Some(flag.clone()),
            None => None,
        };
        TranscribeControl { cancel, on_progress: None }
    }
}

impl Default for TranscribeControl {
    fn default() -> (r: Self)
        ensures
            r.cancel is None,
            r.on_progress is None,
    {
        TranscribeControl::none()
    }
}

/// A timed span of transcribed text (subtitle-style). Times are **samples** at
/// [`SAMPLE_RATE`] from the start of the audio that was transcribed; divide by
/// the rate for seconds.
#[derive(Debug, Clone, PartialEq, Eq)]
pub struct Segment {
    /// Segment text (trimmed).
    pub text: String,
    /// Start time in samples.
    pub start: i64,
    /// End time in samples.
    pub end: i64,
}

/// The time `n`, or the nearest one that a segment can hold.
pub open spec fn as_time(n: int) -> int {
    if n > i64::MAX {
        i64::MAX as int
    } else if n < i64::MIN {
        i64::MIN as int
    } else {
        n
    }
}

/// Sample index `n` as a time.
pub fn time_at(n: usize) -> (r: i64)
    ensures
        r == as_time(n as int),
{
    shift_time(0, n)
}

/// The time `by` samples after `time`.
pub fn shift_time(time: i64, by: usize) -> (r: i64)
    ensures
        r == as_time(time + by),
{
    let at: i128 = time as i128 + by as i128;
    if at > i64::MAX as i128 {
        i64::MAX
    } else {
        at as i64
    }
}

/// A [`Segment`] with its text as a sequence of characters.
pub struct SegmentView {
    pub text: Seq<char>,
    pub start: int,
    pub end: int,
}

impl View for Segment {
    type V = SegmentView;

    open spec fn view(&self) -> SegmentView {
        SegmentView { text: self.text@, start: self.start as int, end: self.end as int }
    }
}

/// The views of a list of segments.
pub open spec fn segment_views(segments: Seq<Segment>) -> Seq<SegmentView> {
    segments.map_values(|s: Segment| s@)
}

/// Result of one transcription.
#[derive(Debug, Clone)]
pub struct TranscriptionResult {
    /// Transcribed text (already trimmed of leading/trailing whitespace).
    pub text: String,
    /// Language detected by the model, when available.
    pub detected_language: Option<String>,
    /// Timed segments covering `text`, in order. Empty when the backend produced
    /// none or does not emit timing.
    pub segments: Vec<Segment>,
}

/// A [`TranscriptionResult`] over sequences.
pub struct ResultView {
    pub text: Seq<char>,
    pub detected_language: Option<Seq<char>>,
    pub segments: Seq<SegmentView>,
}

impl View for TranscriptionResult {
    type V = ResultView;

    open spec fn view(&self) -> ResultView {
        ResultView {
            text: self.text@,
            detected_language: opt_view(self.detected_language),
            segments: segment_views(self.segments@),
        }
    }
}

/// The result with no text, no language and no segments.
pub open spec fn empty_result() -> ResultView {
    ResultView { text: Seq::empty(), detected_language: None, segments: Seq::empty() }
}

/// The outcome of a transcription over sequences.
pub open spec fn outcome(r: Result<TranscriptionResult, AsrError>) -> Result<
    ResultView,
    ErrorView,
> {
    match r {
        Ok(t) => Ok(t@),
        Err(e) => Err(e@),
    }
}

impl Default for TranscriptionResult {
    fn default() -> (r: Self)
        ensures
            r@ == empty_result(),
    {
        let r = TranscriptionResult {
            text: String::new(),
            detected_language: None,
            segments: Vec::new(),
        };
        assert(segment_views(r.segments@) =~= Seq::empty());
        r
    }
}

/// A backend's language coverage.
#[derive(Debug, Clone)]
pub enum LanguageSupport {
    /// Any language / broad coverage with auto-detection (e.g. whisper).
    Any,
    /// Closed set of supported languages.
    Only(Vec<String>),
}

/// A [`LanguageSupport`] over sequences.
pub enum LanguagesView {
    Any,
    Only(Seq<Seq<char>>),
}

impl View for LanguageSupport {
    type V = LanguagesView;

    open spec fn view(&self) -> LanguagesView {
        match *self {
            LanguageSupport::Any => LanguagesView::Any,
            LanguageSupport::Only(names) => LanguagesView::Only(views(names@)),
        }
    }
}

/// What a backend can do.
#[derive(Debug, Clone)]
pub struct EngineCapabilities {
    /// Human-readable backend name (e.g. `"whisper.cpp"`, `"parakeet-tdt"`).
    pub name: &'static str,
    /// Honours [`TranscribeOptions::initial_prompt`].
    pub supports_prompt: bool,
    /// Honours [`TranscribeOptions::beam_size`].
    pub supports_beam: bool,
    /// Honours [`TranscribeOptions::translate`].
    pub supports_translate: bool,
    /// Honours [`TranscribeOptions::vad_model`] (internal VAD).
    pub supports_internal_vad: bool,
    /// Supported languages.
    pub languages: LanguageSupport,
}

impl EngineCapabilities {
    /// The backend is called `name` and covers `languages`; it honours none of the
    /// options that only whisper does.
    pub open spec fn plain(&self, name: Seq<char>, languages: LanguagesView) -> bool {
        &&& self.name@ == name
        &&& !self.supports_prompt
        &&& !self.supports_beam
        &&& !self.supports_translate
        &&& !self.supports_internal_vad
        &&& self.languages@ == languages
    }
}

/// Compute-device preference, interpreted by each backend, which falls back to
/// CPU when it cannot satisfy the preference.
#[derive(Debug, Clone, Copy, PartialEq, Eq, Structural)]
pub enum DevicePreference {
    /// Best device available for this backend.
    Auto,
    /// Force CPU.
    Cpu,
    /// Use the GPU if the backend has one.
    Gpu,
}

impl Default for DevicePreference {
    fn default() -> (r: Self)
        ensures
            r == DevicePreference::Auto,
    {
        DevicePreference::Auto
    }
}

/// Engine load parameters.
#[derive(Debug, Clone)]
pub struct EngineConfig {
    /// Model location: a **file** (whisper) or a **directory** (the others).
    pub model_path: PathBuf,
    /// Desired device.
    pub device: DevicePreference,
    /// Default language when a call does not specify one. `None` = auto.
    pub default_language: Option<String>,
    /// Optional crash marker: a file that names the model while it is being
    /// loaded, so that one still on disk at the next start tells which model
    /// killed the process. `None` = disabled.
    pub crash_marker: Option<PathBuf>,
}

/// What a call of [`shift_time`] gives: the sum, or the last time that a segment can hold
/// when the sum is past it.
pub proof fn law_shifted_time(time: i64, by: usize, r: i64)
    requires
        call_ensures(shift_time, (time, by), r),
    ensures
        time + by <= i64::MAX ==> r == time + by,
        time + by > i64::MAX ==> r == i64::MAX,
        r >= time,
{
}

} // verus!
