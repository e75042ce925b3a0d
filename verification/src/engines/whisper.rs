//! whisper.cpp backend (ggml `.bin` models).
//!
//! The model and its inference state are created once and reused across calls.
//! Each clip stays independent: reuse only avoids reallocating buffers per chunk,
//! without changing the result. Expected audio is mono 16 kHz.

use crate::engines::{samples, sanitize_audio, sanitized};
use crate::error::{AsrError, ErrorView};
use crate::model::{native_threads, threads_for_native, Host, LONGEST_PATH};
use crate::monitor::{lemma_climbs, Monitor};
use crate::single::Single;
use crate::stitch::{law_tidy_is_trimmed, tidy};
use crate::text::{
    clone_opt, concat, decimal, decimal_usize, opt_as_str, opt_str_view, opt_view, trim, trimmed,
};
use crate::types::{
    as_time, empty_result, flag_reads, outcome, segment_views, DevicePreference,
    EngineCapabilities, EngineConfig, LanguageSupport, LanguagesView, ResultView, Segment,
    SegmentView, TranscribeControl, TranscribeOptions, TranscriptionResult, SAMPLE_RATE,
};
use vstd::prelude::*;
use vstd::string::*;

verus! {

/// Samples per centisecond, the unit of whisper's timestamps.
pub const CENTISECOND: i64 = 160;

/// A clip up to this length (28 s) is decoded as a single segment.
pub const SINGLE_SEGMENT_MAX_SAMPLES: usize = 448_000;

/// Frames of the encoder context that cover 5 s.
pub const STEP_FRAMES: i32 = 250;

/// Frames of the full encoder context (30 s).
pub const FULL_FRAMES: i32 = 1500;

/// A ggml model file.
#[derive(Debug, Clone)]
pub struct WhisperFile {
    /// The path, as shown in messages.
    pub shown: String,
    /// Whether there is anything at the path.
    pub exists: bool,
    /// The length of the path in bytes, when it is UTF-8.
    pub utf8_len: Option<usize>,
    /// The file's own name; empty when the path has none.
    pub name: String,
}

/// One step of opening a model.
///
/// whisper.cpp aborts the process on a malformed model instead of returning an
/// error. A marker that names the model is on disk while the model is being
/// opened and at no other time, so a start that finds it knows what killed the
/// previous run.
#[derive(Debug, Clone)]
pub enum LoadStep {
    /// Write this name to the crash marker.
    WriteMarker(String),
    /// Open the model.
    Open {
        /// Use the GPU when the binary has one.
        gpu: bool,
        /// Shrink the attention buffers; only helps on the GPU.
        flash_attn: bool,
    },
    /// Remove the crash marker, whatever opening the model gave.
    ClearMarker,
}

/// A [`LoadStep`] over sequences.
pub enum StepView {
    WriteMarker(Seq<char>),
    Open { gpu: bool, flash_attn: bool },
    ClearMarker,
}

impl View for LoadStep {
    type V = StepView;

    open spec fn view(&self) -> StepView {
        match *self {
            LoadStep::WriteMarker(name) => StepView::WriteMarker(name@),
            LoadStep::Open { gpu, flash_attn } => StepView::Open { gpu, flash_attn },
            LoadStep::ClearMarker => StepView::ClearMarker,
        }
    }
}

/// The views of a list of steps.
pub open spec fn step_views(steps: Seq<LoadStep>) -> Seq<StepView> {
    steps.map_values(|s: LoadStep| s@)
}

/// What is wrong with a model file before it is opened, if anything: it is absent,
/// its path is no UTF-8, or its path is too long for Windows.
pub open spec fn file_error(file: WhisperFile, host: Host) -> Option<ErrorView> {
    if !file.exists {
        Some(ErrorView::ModelNotFound(file.shown@))
    } else {
        match file.utf8_len {
            None => Some(ErrorView::Load("model path is not valid UTF-8"@)),
            Some(n) => if host.windows && n > LONGEST_PATH {
                Some(
                    ErrorView::Load(
                        "model path too long ("@ + decimal(n as nat)
                            + " chars, Windows limit ~260): "@ + file.shown@,
                    ),
                )
            } else {
                None
            },
        }
    }
}

/// The steps that open a model: the marker, where one is configured, is written
/// before and removed after.
pub open spec fn load_steps(device: DevicePreference, marked: bool, name: Seq<char>) -> Seq<
    StepView,
> {
    let gpu = device != DevicePreference::Cpu;
    let open = StepView::Open { gpu, flash_attn: gpu };
    if marked {
        seq![StepView::WriteMarker(name), open, StepView::ClearMarker]
    } else {
        seq![open]
    }
}

/// How a clip is to be decoded.
#[derive(Debug, Clone)]
pub struct WhisperParams {
    /// Beam width, or `None` for greedy decoding.
    pub beam_size: Option<i32>,
    /// Threads to decode on.
    pub threads: i32,
    /// Translate to English.
    pub translate: bool,
    /// Language to decode, or `None` to detect it.
    pub language: Option<String>,
    /// Decoding prompt.
    pub initial_prompt: Option<String>,
    /// Frames of the encoder context.
    pub audio_ctx: i32,
    /// Decode as a single segment.
    pub single_segment: bool,
    /// Model of whisper's own VAD, when silence is to be skipped.
    pub vad_model: Option<String>,
    /// Hand the caller's cancellation flag to the decoder.
    pub wire_cancel: bool,
    /// Hand the caller's progress sink to the decoder.
    pub wire_progress: bool,
}

/// The VAD model of a call's options, as found on disk.
#[derive(Debug, Clone)]
pub struct VadFile {
    /// Whether there is anything at the path.
    pub exists: bool,
    /// The path, when it is UTF-8.
    pub path: Option<String>,
}

/// The decoder's language: the call's own choice wins, otherwise the engine's
/// default, otherwise none (detection).
pub open spec fn chosen_language(
    call: Option<Seq<char>>,
    default: Option<Seq<char>>,
) -> Option<Seq<char>> {
    match call {
        Some(_) => call,
        None => default,
    }
}

/// Effective language for a call: see [`chosen_language`].
pub fn resolve_language<'a>(call: Option<&'a str>, default: Option<&'a str>) -> (r: Option<&'a str>)
    ensures
        opt_str_view(r) == chosen_language(opt_str_view(call), opt_str_view(default)),
{
    match call {
        Some(language) => Some(language),
        None => default,
    }
}

/// `n` divided by `d`, rounded up.
pub open spec fn divided_up(n: int, d: int) -> int {
    (n + d - 1) / d
}

/// Encoder frames for a clip of `n` samples: the 5 s step at or above the clip with
/// a margin of 0.5 s, at most the full 30 s.
pub open spec fn fitted_frames(n: int) -> int {
    let steps = divided_up(n + SAMPLE_RATE / 2, 5 * SAMPLE_RATE);
    if steps * STEP_FRAMES < FULL_FRAMES {
        steps * STEP_FRAMES
    } else {
        FULL_FRAMES as int
    }
}

/// Encoder audio-context size (frames, 50/s) fitted to the clip length.
///
/// whisper.cpp pads every clip to 30 s (1500 frames) and runs the encoder at full
/// size whatever the real length. For a short dictation chunk that is mostly wasted
/// compute and memory. The context is sized to the 5 s step above the clip (+0.5 s
/// margin so the last word is never clipped), which is 5 s at least, and capped at
/// the model's maximum.
pub fn fitted_audio_ctx(n_samples: usize) -> (r: i32)
    ensures
        r == fitted_frames(n_samples as int),
{
    let steps: u128 = (n_samples as u128 + 8_000 + 79_999) / 80_000;
    if steps < 6 {
        steps as i32 * STEP_FRAMES
    } else {
        FULL_FRAMES
    }
}

/// A progress report of whisper.cpp as a percentage.
pub fn native_progress(p: i32) -> (r: u8)
    ensures
        r == crate::model::clamped(p as int, 0, 100),
{
    if p < 0 {
        0
    } else if p > 100 {
        100
    } else {
        p as u8
    }
}

/// One decoded segment, with its times in centiseconds from the start of the clip.
#[derive(Debug, Clone)]
pub struct WhisperPiece {
    pub text: String,
    pub start: i64,
    pub end: i64,
}

/// What the decoder gave for a clip.
#[derive(Debug, Clone)]
pub struct WhisperOutput {
    /// The segments in order; `None` for one that cannot be read.
    pub pieces: Vec<Option<WhisperPiece>>,
    /// The id of the detected language; negative when there is none.
    pub language_id: i32,
    /// The name of the language with that id, if it has one.
    pub language_name: Option<String>,
}

/// A time in centiseconds, in samples.
pub open spec fn in_samples(centiseconds: int) -> int {
    as_time(centiseconds * CENTISECOND)
}

/// A decoded segment on the timeline.
pub open spec fn piece_segment(piece: WhisperPiece) -> SegmentView {
    SegmentView {
        text: trimmed(piece.text@),
        start: in_samples(piece.start as int),
        end: in_samples(piece.end as int),
    }
}

/// The text of the segments, one after the other.
pub open spec fn pieces_text(pieces: Seq<Option<WhisperPiece>>) -> Seq<char>
    decreases pieces.len(),
{
    if pieces.len() == 0 {
        Seq::empty()
    } else {
        let before = pieces_text(pieces.drop_last());
        match pieces.last() {
            Some(piece) => before + piece.text@,
            None => before,
        }
    }
}

/// The segments on the timeline.
pub open spec fn pieces_segments(pieces: Seq<Option<WhisperPiece>>) -> Seq<SegmentView>
    decreases pieces.len(),
{
    if pieces.len() == 0 {
        Seq::empty()
    } else {
        let before = pieces_segments(pieces.drop_last());
        match pieces.last() {
            Some(piece) => before.push(piece_segment(piece)),
            None => before,
        }
    }
}

/// The result of a clip, given what the decoder gave.
pub open spec fn decoded(out: WhisperOutput) -> ResultView {
    ResultView {
        text: trimmed(pieces_text(out.pieces@)),
        detected_language: if out.language_id < 0 {
            None
        } else {
            opt_view(out.language_name)
        },
        segments: pieces_segments(out.pieces@),
    }
}

/// How a decode ends, given the decoder's answer and whether the caller turned out
/// to have cancelled once it returned.
pub open spec fn concluded(answer: Result<WhisperOutput, String>, cancelled: bool) -> Result<
    ResultView,
    ErrorView,
> {
    if cancelled {
        Err(ErrorView::Cancelled)
    } else {
        match answer {
            Ok(out) => Ok(decoded(out)),
            Err(message) => Err(ErrorView::Transcribe(message@)),
        }
    }
}

fn to_samples(centiseconds: i64) -> (r: i64)
    ensures
        r == in_samples(centiseconds as int),
{
    assert(-0x7fff_ffff_ffff_ffff_ffff <= centiseconds as i128 * CENTISECOND as i128
        <= 0x7fff_ffff_ffff_ffff_ffff) by (nonlinear_arith)
        requires
            CENTISECOND == 160,
            i64::MIN <= centiseconds <= i64::MAX,
    ;
    let at: i128 = centiseconds as i128 * CENTISECOND as i128;
    if at > i64::MAX as i128 {
        i64::MAX
    } else if at < i64::MIN as i128 {
        i64::MIN
    } else {
        at as i64
    }
}

/// See [`decoded`].
pub fn read_output(out: &WhisperOutput) -> (r: TranscriptionResult)
    ensures
        r@ == decoded(*out),
{
    let ghost all = out.pieces@;
    let mut text = String::new();
    let mut segments: Vec<Segment> = Vec::new();
    let n: usize = out.pieces.len();
    let mut i: usize = 0;
    assert(all.take(0) =~= Seq::empty());
    assert(segment_views(segments@) =~= Seq::empty());
    while i < n
        invariant
            n == out.pieces@.len(),
            all == out.pieces@,
            i <= n,
            text@ == pieces_text(all.take(i as int)),
            segment_views(segments@) == pieces_segments(all.take(i as int)),
        decreases n - i,
    {
        assert(all.take(i + 1).drop_last() =~= all.take(i as int));
        assert(all.take(i + 1).last() == all[i as int]);
        let ghost before = segment_views(segments@);
        if let Some(piece) = &out.pieces[i] {
            text.append(piece.text.as_str());
            let own = Segment {
                text: trim(piece.text.as_str()),
                start: to_samples(piece.start),
                end: to_samples(piece.end),
            };
            let ghost view = own@;
            segments.push(own);
            assert(segment_views(segments@) =~= before.push(view));
        }
        i += 1;
    }
    assert(all.take(n as int) =~= all);
    let detected_language = if out.language_id < 0 {
        None
    } else {
        clone_opt(&out.language_name)
    };
    TranscriptionResult { text: trim(text.as_str()), detected_language, segments }
}

/// whisper.cpp backend.
pub struct WhisperEngine {
    /// Threads to decode on.
    pub threads: i32,
    /// Default language, applied when a call does not force one.
    pub default_language: Option<String>,
    /// What the backend can do.
    pub caps: EngineCapabilities,
}

/// What loading fails with, if it does.
pub open spec fn load_error(
    file: WhisperFile,
    host: Host,
    context: Result<(), String>,
    state: Result<(), String>,
) -> Option<ErrorView> {
    match file_error(file, host) {
        Some(e) => Some(e),
        None => match context {
            Err(message) => Some(ErrorView::Load("model load: "@ + message@)),
            Ok(()) => match state {
                Err(message) => Some(ErrorView::Load("whisper state: "@ + message@)),
                Ok(()) => None,
            },
        },
    }
}

/// whisper.cpp honours every option and covers any language.
pub open spec fn whisper_capabilities(caps: EngineCapabilities) -> bool {
    &&& caps.name@ == "whisper.cpp"@
    &&& caps.supports_prompt
    &&& caps.supports_beam
    &&& caps.supports_translate
    &&& caps.supports_internal_vad
    &&& caps.languages@ == LanguagesView::Any
}

/// The function `run` can answer `answer` to a clip and parameters that decode it
/// as the engine and the call's options ask.
pub open spec fn ran<R: Fn(&WhisperParams, &[Single]) -> Result<WhisperOutput, String>>(
    run: R,
    engine: WhisperEngine,
    opts: TranscribeOptions,
    vad: VadFile,
    wires: (bool, bool),
    clip: Seq<Single>,
    answer: Result<WhisperOutput, String>,
) -> bool {
    exists|p: &WhisperParams, a: &[Single]|
        a@ == clip && engine.asks(opts, vad, wires, clip.len() as int, *p)
            && #[trigger] call_ensures(run, (p, a), answer)
}

impl WhisperEngine {
    /// `params` decode a clip of `len` samples as the engine and the call's options
    /// ask.
    pub open spec fn asks(
        &self,
        opts: TranscribeOptions,
        vad: VadFile,
        wires: (bool, bool),
        len: int,
        params: WhisperParams,
    ) -> bool {
        &&& params.beam_size == (if opts.beam_size > 1 {
            Some(opts.beam_size)
        } else {
            None
        })
        &&& params.threads == self.threads
        &&& params.translate == opts.translate
        &&& opt_view(params.language) == chosen_language(
            opt_view(opts.language),
            opt_view(self.default_language),
        )
        &&& opt_view(params.initial_prompt) == (match opt_view(opts.initial_prompt) {
            Some(p) => if p.len() > 0 {
                Some(p)
            } else {
                None
            },
            None => None,
        })
        &&& params.audio_ctx == fitted_frames(len)
        &&& params.single_segment == (len <= SINGLE_SEGMENT_MAX_SAMPLES)
        &&& opt_view(params.vad_model) == (if opts.vad_model is Some && vad.exists {
            opt_view(vad.path)
        } else {
            None
        })
        &&& params.wire_cancel == wires.0
        &&& params.wire_progress == wires.1
    }

    /// Check the model file and say in which steps to open the model.
    ///
    /// The configured device drives the GPU backend: `Auto`/`Gpu` enable it when
    /// the binary has one, `Cpu` disables it. `Gpu` does not fail on a CPU-only
    /// build: whisper.cpp simply falls back to the CPU.
    pub fn plan(config: &EngineConfig, file: &WhisperFile, host: Host) -> (r: Result<
        Vec<LoadStep>,
        AsrError,
    >)
        ensures
            r is Ok <==> file_error(*file, host) is None,
            r matches Err(e) ==> file_error(*file, host) == Some(e@),
            r matches Ok(steps) ==> step_views(steps@) == load_steps(
                config.device,
                config.crash_marker is Some,
                file.name@,
            ),
    {
        if !file.exists {
            return Err(AsrError::ModelNotFound(file.shown.clone()));
        }
        match file.utf8_len {
            None => {
                return Err(AsrError::Load("model path is not valid UTF-8".to_owned()));
            },
            Some(n) => {
                if host.windows && n > LONGEST_PATH {
                    let head = concat("model path too long (", decimal_usize(n).as_str());
                    let limit = concat(head.as_str(), " chars, Windows limit ~260): ");
                    return Err(AsrError::Load(concat(limit.as_str(), file.shown.as_str())));
                }
            },
        }
        let gpu: bool = match config.device {
            DevicePreference::Cpu => false,
            DevicePreference::Auto | DevicePreference::Gpu => true,
        };
        let mut steps: Vec<LoadStep> = Vec::new();
        if config.crash_marker.is_some() {
            steps.push(LoadStep::WriteMarker(file.name.clone()));
            steps.push(LoadStep::Open { gpu, flash_attn: gpu });
            steps.push(LoadStep::ClearMarker);
        } else {
            steps.push(LoadStep::Open { gpu, flash_attn: gpu });
        }
        assert(step_views(steps@) =~= load_steps(
            config.device,
            config.crash_marker is Some,
            file.name@,
        ));
        Ok(steps)
    }

    /// Loads a ggml model, given what opening it as [`WhisperEngine::plan`] says
    /// and creating its inference state gave.
    pub fn load(
        config: &EngineConfig,
        file: &WhisperFile,
        host: Host,
        context: &Result<(), String>,
        state: &Result<(), String>,
    ) -> (r: Result<Self, AsrError>)
        ensures
            r is Ok <==> load_error(*file, host, *context, *state) is None,
            r matches Err(e) ==> load_error(*file, host, *context, *state) == Some(e@),
            r matches Ok(engine) ==> {
                &&& engine.threads == native_threads(host)
                &&& engine.default_language == config.default_language
                &&& whisper_capabilities(engine.caps)
            },
    {
        match WhisperEngine::plan(config, file, host) {
            Err(e) => Err(e),
            Ok(_) => match context {
                Err(message) => Err(AsrError::Load(concat("model load: ", message.as_str()))),
                Ok(()) => match state {
                    Err(message) => Err(AsrError::Load(concat("whisper state: ", message.as_str()))),
                    Ok(()) => Ok(
                        WhisperEngine {
                            threads: threads_for_native(host),
                            default_language: clone_opt(&config.default_language),
                            caps: WhisperEngine::capabilities_static(),
                        },
                    ),
                },
            },
        }
    }

    /// What every whisper engine can do.
    pub fn capabilities_static() -> (r: EngineCapabilities)
        ensures
            whisper_capabilities(r),
    {
        EngineCapabilities {
            name: "whisper.cpp",
            supports_prompt: true,
            supports_beam: true,
            supports_translate: true,
            supports_internal_vad: true,
            languages: LanguageSupport::Any,
        }
    }

    /// What the backend can do.
    pub fn capabilities(&self) -> (r: &EngineCapabilities)
        ensures
            *r == self.caps,
    {
        &self.caps
    }

    /// How to decode a clip of `len` samples: see [`WhisperEngine::asks`].
    pub fn params(
        &self,
        opts: &TranscribeOptions,
        vad: &VadFile,
        wire_cancel: bool,
        wire_progress: bool,
        len: usize,
    ) -> (r: WhisperParams)
        ensures
            self.asks(*opts, *vad, (wire_cancel, wire_progress), len as int, r),
    {
        let language = match resolve_language(
            opt_as_str(&opts.language),
            opt_as_str(&self.default_language),
        ) {
            Some(language) => Some(language.to_owned()),
            None => None,
        };
        let none = String::new();
        let initial_prompt = match &opts.initial_prompt {
            Some(p) => if *p == none {
                assert(p@ =~= Seq::empty());
                None
            } else {
                assert(p@.len() > 0) by {
                    if p@.len() == 0 {
                        assert(p@ =~= none@);
                    }
                }
                Some(p.clone())
            },
            None => None,
        };
        let vad_model = if opts.vad_model.is_some() && vad.exists {
            clone_opt(&vad.path)
        } else {
            None
        };
        WhisperParams {
            beam_size: if opts.beam_size > 1 {
                Some(opts.beam_size)
            } else {
                None
            },
            threads: self.threads,
            translate: opts.translate,
            language,
            initial_prompt,
            audio_ctx: fitted_audio_ctx(len),
            single_segment: len <= SINGLE_SEGMENT_MAX_SAMPLES,
            vad_model,
            wire_cancel,
            wire_progress,
        }
    }

    /// Transcribe `audio` under `monitor`, with `run` for the decoder and `vad` for
    /// what was found at the call's VAD model path.
    ///
    /// The decoder is handed the caller's cancellation flag and progress sink only
    /// where the caller supplies them. It stops decoding when the flag is raised,
    /// which surfaces as an error: whatever it returned, a cancelled call is
    /// reported as cancelled, not as a failure.
    ///
    /// What the decoder reports on its own goes to the caller's sink directly,
    /// through [`native_progress`], and is not among what `monitor` keeps.
    pub fn transcribe<R: Fn(&WhisperParams, &[Single]) -> Result<WhisperOutput, String>>(
        &self,
        audio: &[Single],
        opts: &TranscribeOptions,
        monitor: &mut Monitor<'_>,
        vad: &VadFile,
        run: &R,
    ) -> (r: Result<TranscriptionResult, AsrError>)
        requires
            old(monitor).fresh(),
            forall|p: &WhisperParams, a: &[Single]| #[trigger] call_requires(*run, (p, a)),
        ensures
            final(monitor).ended(*old(monitor), outcome(r)),
            audio@.len() == 0 ==> (r matches Ok(t) && t@ == empty_result())
                && final(monitor).followed(seq![100int], 0),
            audio@.len() > 0 ==> ({
                let wires = (
                    old(monitor).caller().cancel is Some,
                    old(monitor).caller().on_progress is Some,
                );
                exists|answer: Result<WhisperOutput, String>| #[trigger]
                    ran(*run, *self, *opts, *vad, wires, sanitized(audio@), answer) && outcome(r)
                        == concluded(answer, final(monitor).stopped())
            }),
            audio@.len() > 0 ==> final(monitor).followed(
                if r is Ok {
                    seq![100int]
                } else {
                    Seq::empty()
                },
                1,
            ),
    {
        if audio.len() == 0 {
            proof {
                lemma_climbs(monitor.reported(), 100);
            }
            monitor.report(100);
            return Ok(TranscriptionResult::default());
        }
        let fixed = sanitize_audio(audio);
        let clip: &[Single] = samples(&fixed);
        let wire_cancel: bool = monitor.control().cancel.is_some();
        let wire_progress: bool = monitor.control().on_progress.is_some();
        let params = self.params(opts, vad, wire_cancel, wire_progress, clip.len());
        let answer = run(&params, clip);
        assert(ran(
            *run,
            *self,
            *opts,
            *vad,
            (wire_cancel, wire_progress),
            sanitized(audio@),
            answer,
        ));
        let ghost given = answer;
        if monitor.cancelled() {
            assert(outcome(Err(AsrError::Cancelled)) == concluded(given, monitor.stopped()));
            return Err(AsrError::Cancelled);
        }
        match answer {
            Err(message) => Err(AsrError::Transcribe(message)),
            Ok(out) => {
                let result = read_output(&out);
                proof {
                    lemma_climbs(monitor.reported(), 100);
                }
                monitor.report(100);
                Ok(result)
            },
        }
    }
}

// --- laws -------------------------------------------------------------------------

/// Every option of a call is honoured on its own, whatever the others are: what the
/// decoder is told of one depends on that one alone, and says the same.
pub proof fn law_options_are_honoured(
    engine: &WhisperEngine,
    opts: &TranscribeOptions,
    vad: &VadFile,
    wire_cancel: bool,
    wire_progress: bool,
    len: usize,
    p: WhisperParams,
)
    requires
        call_ensures(
            WhisperEngine::params,
            (engine, opts, vad, wire_cancel, wire_progress, len),
            p,
        ),
    ensures
        p.translate <==> opts.translate,
        opts.language matches Some(l) ==> (p.language matches Some(m) && m@ == l@),
        opts.language is None ==> opt_view(p.language) == opt_view(engine.default_language),
        opts.beam_size > 1 ==> p.beam_size == Some(opts.beam_size),
        opts.beam_size <= 1 ==> p.beam_size is None,
        opts.initial_prompt matches Some(said) ==> (said@.len() > 0 ==> opt_view(p.initial_prompt)
            == Some(said@)),
        p.initial_prompt is Some ==> opts.initial_prompt is Some,
        p.vad_model is Some <==> opts.vad_model is Some && vad.exists && vad.path is Some,
        p.vad_model matches Some(q) ==> q@ == vad.path->0@,
        p.threads == engine.threads,
        p.wire_cancel <==> wire_cancel,
        p.wire_progress <==> wire_progress,
        told(*engine, *opts, *vad, wire_cancel, wire_progress, len as int, p),
{
    law_context_covers_the_clip(len as int);
    law_context_is_tight(len as int);
}

/// `p` tells the decoder what the call's options say.
pub open spec fn told(
    engine: WhisperEngine,
    opts: TranscribeOptions,
    vad: VadFile,
    wire_cancel: bool,
    wire_progress: bool,
    len: int,
    p: WhisperParams,
) -> bool {
    &&& p.translate <==> opts.translate
    &&& opts.language matches Some(l) ==> (p.language matches Some(m) && m@ == l@)
    &&& opts.language is None ==> (match engine.default_language {
        Some(l) => p.language matches Some(m) && m@ == l@,
        None => p.language is None,
    })
    &&& opts.beam_size > 1 ==> p.beam_size == Some(opts.beam_size)
    &&& opts.beam_size <= 1 ==> p.beam_size is None
    &&& match opts.initial_prompt {
        Some(said) => if said@.len() > 0 {
            p.initial_prompt matches Some(q) && q@ == said@
        } else {
            p.initial_prompt is None
        },
        None => p.initial_prompt is None,
    }
    &&& p.vad_model is Some <==> opts.vad_model is Some && vad.exists && vad.path is Some
    &&& p.vad_model matches Some(q) ==> q@ == vad.path->0@
    &&& p.threads == engine.threads
    &&& p.single_segment <==> len <= 28 * 16_000
    &&& 250 <= p.audio_ctx <= 1500 && p.audio_ctx % 250 == 0
    &&& p.audio_ctx * 320 < len + 8_000 ==> p.audio_ctx == 1500
    &&& p.audio_ctx > 250 ==> (p.audio_ctx - 250) * 320 < len + 8_000
    &&& p.wire_cancel <==> wire_cancel
    &&& p.wire_progress <==> wire_progress
}

/// Two calls that agree on an option tell the decoder the same of it, however they
/// differ in the others.
pub proof fn law_options_are_independent(
    engine: &WhisperEngine,
    a: &TranscribeOptions,
    b: &TranscribeOptions,
    vad: &VadFile,
    wires: (bool, bool),
    m: usize,
    n: usize,
    p: WhisperParams,
    q: WhisperParams,
)
    requires
        call_ensures(WhisperEngine::params, (engine, a, vad, wires.0, wires.1, m), p),
        call_ensures(WhisperEngine::params, (engine, b, vad, wires.0, wires.1, n), q),
    ensures
        p.translate == q.translate <==> a.translate == b.translate,
        a.language == b.language ==> opt_view(p.language) == opt_view(q.language),
        a.initial_prompt == b.initial_prompt ==> opt_view(p.initial_prompt) == opt_view(
            q.initial_prompt,
        ),
        a.beam_size == b.beam_size ==> p.beam_size == q.beam_size,
        a.vad_model is Some == b.vad_model is Some ==> opt_view(p.vad_model) == opt_view(
            q.vad_model,
        ),
        m == n ==> p.audio_ctx == q.audio_ctx && p.single_segment == q.single_segment,
{
    law_options_are_honoured(engine, a, vad, wires.0, wires.1, m, p);
    law_options_are_honoured(engine, b, vad, wires.0, wires.1, n, q);
}

/// What a call of [`WhisperEngine::transcribe`] gives: the decoder was handed the
/// clean samples and told what the options say, and the result is made of its own
/// words: the text of the segments that could be read, trimmed, and one segment for
/// each of them, its times in samples.
pub proof fn law_transcribed_as_asked<
    R: Fn(&WhisperParams, &[Single]) -> Result<WhisperOutput, String>,
>(
    engine: &WhisperEngine,
    audio: &[Single],
    opts: &TranscribeOptions,
    control: TranscribeControl,
    vad: &VadFile,
    run: &R,
    t: TranscriptionResult,
)
    requires
        audio@.len() > 0,
        exists|m: &mut Monitor<'_>|
            (*m).caller() == control && #[trigger] call_ensures(
                WhisperEngine::transcribe::<R>,
                (engine, audio, opts, m, vad, run),
                Ok(t),
            ),
    ensures
        exists|p: &WhisperParams, a: &[Single], out: WhisperOutput|
            {
                &&& #[trigger] call_ensures(*run, (p, a), Ok(out))
                &&& a@ == sanitized(audio@)
                &&& told(
                    *engine,
                    *opts,
                    *vad,
                    control.cancel is Some,
                    control.on_progress is Some,
                    audio@.len() as int,
                    *p,
                )
                &&& says(out, t@)
            },
{
    let wires = (control.cancel is Some, control.on_progress is Some);
    let answer = choose|answer: Result<WhisperOutput, String>| #[trigger]
        ran(*run, *engine, *opts, *vad, wires, sanitized(audio@), answer) && outcome(
            Ok::<TranscriptionResult, AsrError>(t),
        ) == concluded(answer, false);
    let (p, a) = choose|p: &WhisperParams, a: &[Single]|
        a@ == sanitized(audio@) && engine.asks(
            *opts,
            *vad,
            wires,
            sanitized(audio@).len() as int,
            *p,
        ) && #[trigger] call_ensures(*run, (p, a), answer);
    law_output_is_read(answer->Ok_0);
    law_context_covers_the_clip(audio@.len() as int);
    law_context_is_tight(audio@.len() as int);
    assert(told(
        *engine,
        *opts,
        *vad,
        wires.0,
        wires.1,
        audio@.len() as int,
        *p,
    ));
}

/// `r` is made of what the decoder gave.
pub open spec fn says(out: WhisperOutput, r: ResultView) -> bool {
    let read = out.pieces@.filter(|p: Option<WhisperPiece>| p is Some);
    &&& r.text == trimmed(read.map_values(|p: Option<WhisperPiece>| p->0.text@).flatten())
    &&& r.segments.len() == read.len()
    &&& forall|i: int|
        0 <= i < read.len() ==> {
            let s = #[trigger] r.segments[i];
            &&& s.text == trimmed(read[i]->0.text@)
            &&& s.start == as_time(read[i]->0.start * 160)
            &&& s.end == as_time(read[i]->0.end * 160)
        }
    &&& out.language_id < 0 ==> r.detected_language is None
    &&& out.language_id >= 0 ==> r.detected_language == opt_view(out.language_name)
}

/// Reading the decoder's output drops nothing but the segments that cannot be read.
pub proof fn law_output_is_read(out: WhisperOutput)
    ensures
        says(out, decoded(out)),
{
    lemma_read_pieces(out.pieces@);
}

proof fn lemma_read_pieces(pieces: Seq<Option<WhisperPiece>>)
    ensures
        ({
            let read = pieces.filter(|p: Option<WhisperPiece>| p is Some);
            &&& pieces_text(pieces) == read.map_values(
                |p: Option<WhisperPiece>| p->0.text@,
            ).flatten()
            &&& pieces_segments(pieces) == read.map_values(
                |p: Option<WhisperPiece>| piece_segment(p->0),
            )
        }),
    decreases pieces.len(),
{
    reveal(Seq::filter);
    let some = |p: Option<WhisperPiece>| p is Some;
    let text = |p: Option<WhisperPiece>| p->0.text@;
    let placed = |p: Option<WhisperPiece>| piece_segment(p->0);
    let read = pieces.filter(some);
    if pieces.len() == 0 {
        assert(read.map_values(text) =~= Seq::empty());
        assert(read.map_values(placed) =~= Seq::empty());
    } else {
        lemma_read_pieces(pieces.drop_last());
        let before = pieces.drop_last().filter(some);
        if let Some(piece) = pieces.last() {
            assert(read == before.push(pieces.last()));
            assert(read.map_values(text) =~= before.map_values(text).push(piece.text@));
            before.map_values(text).lemma_flatten_push(piece.text@);
            assert(read.map_values(placed) =~= before.map_values(placed).push(
                piece_segment(piece),
            ));
        }
    }
}

/// The encoder context is no larger than it has to be: one step less would not cover
/// the clip with its margin.
pub proof fn law_context_is_tight(n: int)
    requires
        0 <= n,
    ensures
        fitted_frames(n) > STEP_FRAMES ==> (fitted_frames(n) - STEP_FRAMES) * SAMPLE_RATE < 50 * (n
            + SAMPLE_RATE / 2),
{
}

/// The encoder context always covers the clip with a margin of 0.5 s, up to the
/// model's 30 s, and is never under 5 s nor over 30 s.
pub proof fn law_context_covers_the_clip(n: int)
    requires
        0 <= n,
    ensures
        STEP_FRAMES <= fitted_frames(n) <= FULL_FRAMES,
        fitted_frames(n) % (STEP_FRAMES as int) == 0,
        n + SAMPLE_RATE / 2 <= 30 * SAMPLE_RATE ==> fitted_frames(n) * SAMPLE_RATE >= 50 * (n
            + SAMPLE_RATE / 2),
        n + SAMPLE_RATE / 2 > 25 * SAMPLE_RATE ==> fitted_frames(n) == FULL_FRAMES,
{
}

/// A longer clip never gets a smaller context.
pub proof fn law_context_grows(n: int, more: int)
    requires
        0 <= n <= more,
    ensures
        fitted_frames(n) <= fitted_frames(more),
{
}

/// A configured marker names the model exactly while it is being opened: it is
/// written before and removed after, and nothing else happens in between.
pub proof fn law_marker_brackets_the_open(device: DevicePreference, name: Seq<char>)
    ensures
        ({
            let steps = load_steps(device, true, name);
            &&& steps.len() == 3
            &&& steps[0] == StepView::WriteMarker(name)
            &&& steps[1] is Open
            &&& steps[2] == StepView::ClearMarker
        }),
        load_steps(device, false, name).len() == 1,
        load_steps(device, false, name)[0] is Open,
{
}

/// The text of a result, and of each of its segments, has no white space at either
/// end.
pub proof fn law_decoded_text_is_tidy(out: WhisperOutput)
    ensures
        tidy(decoded(out).text),
        forall|i: int|
            0 <= i < decoded(out).segments.len() ==> tidy((#[trigger] decoded(out).segments[i]).text),
{
    law_tidy_is_trimmed(pieces_text(out.pieces@));
    lemma_segments_are_tidy(out.pieces@);
}

proof fn lemma_segments_are_tidy(pieces: Seq<Option<WhisperPiece>>)
    ensures
        forall|i: int|
            0 <= i < pieces_segments(pieces).len() ==> tidy(
                (#[trigger] pieces_segments(pieces)[i]).text,
            ),
    decreases pieces.len(),
{
    if pieces.len() > 0 {
        lemma_segments_are_tidy(pieces.drop_last());
        let before = pieces_segments(pieces.drop_last());
        if let Some(piece) = pieces.last() {
            law_tidy_is_trimmed(piece.text@);
            let all = before.push(piece_segment(piece));
            assert(pieces_segments(pieces) == all);
            assert forall|i: int| 0 <= i < all.len() implies tidy((#[trigger] all[i]).text) by {
                if i < before.len() {
                    assert(all[i] == before[i]);
                }
            }
        }
    }
}

/// A call of [`WhisperEngine::transcribe`] answers a requested cancellation with `Cancelled`,
/// and nothing else: on a clip with samples it does when the flag can only be read as
/// raised, and it never does when the flag cannot be, or is not there. An empty clip gives
/// an empty result. On success the caller's sink has received 100.
pub proof fn law_cancellation<
    R: Fn(&WhisperParams, &[Single]) -> Result<WhisperOutput, String>,
>(
    engine: &WhisperEngine,
    audio: &[Single],
    opts: &TranscribeOptions,
    control: TranscribeControl,
    vad: &VadFile,
    run: &R,
    r: Result<TranscriptionResult, AsrError>,
)
    requires
        exists|m: &mut Monitor<'_>|
            (*m).fresh() && (*m).caller() == control && #[trigger] call_ensures(
                WhisperEngine::transcribe::<R>,
                (engine, audio, opts, m, vad, run),
                r,
            ),
    ensures
        audio@.len() == 0 ==> (r matches Ok(t) && t@ == empty_result()),
        audio@.len() > 0 && (control.cancel matches Some(flag) && !flag_reads(&flag, false)) ==> (
        r matches Err(e) && e@ == ErrorView::Cancelled),
        (control.cancel matches Some(flag) ==> !flag_reads(&flag, true)) ==> !(r matches Err(e)
            && e@ == ErrorView::Cancelled),
        r is Ok ==> (control.on_progress matches Some(sink) ==> sink.received(100)),
{
}

/// Success is owed: under a control that cannot say that the caller cancelled, and with
/// a decoder that never fails, a call of [`WhisperEngine::transcribe`] succeeds.
pub proof fn law_success_is_owed<
    R: Fn(&WhisperParams, &[Single]) -> Result<WhisperOutput, String>,
>(
    engine: &WhisperEngine,
    audio: &[Single],
    opts: &TranscribeOptions,
    control: TranscribeControl,
    vad: &VadFile,
    run: &R,
    r: Result<TranscriptionResult, AsrError>,
)
    requires
        exists|m: &mut Monitor<'_>|
            (*m).fresh() && (*m).caller() == control && #[trigger] call_ensures(
                WhisperEngine::transcribe::<R>,
                (engine, audio, opts, m, vad, run),
                r,
            ),
        control.cancel matches Some(flag) ==> !flag_reads(&flag, true),
        forall|p: &WhisperParams, a: &[Single], q: Result<WhisperOutput, String>| #[trigger]
            call_ensures(*run, (p, a), q) ==> q is Ok,
    ensures
        r is Ok,
{
}

/// A call of [`WhisperEngine::load`] succeeds exactly when the file is there, its path is
/// UTF-8 and short enough for the machine, and the model and its state can be made. The
/// engine then has the configured default language.
pub proof fn law_present_model_loads(
    config: &EngineConfig,
    file: &WhisperFile,
    host: Host,
    context: &Result<(), String>,
    state: &Result<(), String>,
    r: Result<WhisperEngine, AsrError>,
)
    requires
        call_ensures(WhisperEngine::load, (config, file, host, context, state), r),
    ensures
        r is Ok <==> file.exists && (file.utf8_len matches Some(n) && (host.windows ==> n <= 230))
            && context is Ok && state is Ok,
        r matches Err(e) ==> (e@ is ModelNotFound <==> !file.exists),
        r matches Ok(engine) ==> engine.default_language == config.default_language && 1
            <= engine.threads <= 8,
{
}

/// What a call of [`WhisperEngine::transcribe`] fails with, unless it was cancelled, is
/// what the decoder failed with.
pub proof fn law_failure_is_the_decoders<
    R: Fn(&WhisperParams, &[Single]) -> Result<WhisperOutput, String>,
>(
    engine: &WhisperEngine,
    audio: &[Single],
    opts: &TranscribeOptions,
    vad: &VadFile,
    run: &R,
    e: AsrError,
)
    requires
        e@ != ErrorView::Cancelled,
        exists|m: &mut Monitor<'_>| #[trigger]
            call_ensures(WhisperEngine::transcribe::<R>, (engine, audio, opts, m, vad, run), Err(e)),
    ensures
        exists|p: &WhisperParams, a: &[Single], message: String| #[trigger]
            call_ensures(*run, (p, a), Err(message)) && a@ == sanitized(audio@) && e@
                == ErrorView::Transcribe(message@),
{
    let (wires, message) = choose|wires: (bool, bool), message: String| #[trigger]
        ran(*run, *engine, *opts, *vad, wires, sanitized(audio@), Err(message)) && e@
            == ErrorView::Transcribe(message@);
    let (p, a) = choose|p: &WhisperParams, a: &[Single]|
        a@ == sanitized(audio@) && #[trigger] call_ensures(*run, (p, a), Err(message));
    assert(call_ensures(*run, (p, a), Err(message)));
}

/// What a call of [`native_progress`] gives: the percentage itself where it is one, the
/// nearest one where it is not.
pub proof fn law_native_progress(p: i32, q: i32, r: u8, s: u8)
    requires
        call_ensures(native_progress, (p,), r),
        call_ensures(native_progress, (q,), s),
    ensures
        r <= 100,
        0 <= p <= 100 ==> r == p,
        p < 0 ==> r == 0,
        p > 100 ==> r == 100,
        p <= q ==> r <= s,
{
}

/// The steps that a call of [`WhisperEngine::plan`] gives open the model once, on the GPU
/// unless the CPU is asked for; where a marker is configured it is written with the name
/// of the file right before, and removed right after, and else it is not touched.
pub proof fn law_plan_opens_once(
    config: &EngineConfig,
    file: &WhisperFile,
    host: Host,
    steps: Vec<LoadStep>,
)
    requires
        call_ensures(WhisperEngine::plan, (config, file, host), Ok(steps)),
    ensures
        config.crash_marker is None ==> steps@.len() == 1 && steps@[0] is Open,
        config.crash_marker is Some ==> steps@.len() == 3 && steps@[0] is WriteMarker
            && steps@[0]->WriteMarker_0@ == file.name@ && steps@[1] is Open
            && steps@[2] is ClearMarker,
        forall|i: int|
            0 <= i < steps@.len() && #[trigger] steps@[i] is Open ==> (steps@[i]->gpu <==> !(
            config.device is Cpu)) && steps@[i]->flash_attn == steps@[i]->gpu,
{
    let views = step_views(steps@);
    assert(views == load_steps(config.device, config.crash_marker is Some, file.name@));
    assert(forall|i: int| 0 <= i < steps@.len() ==> #[trigger] steps@[i]@ == views[i]);
    assert(views.len() == steps@.len());
    if config.crash_marker is Some {
        assert(steps@[0]@ == views[0] && steps@[1]@ == views[1] && steps@[2]@ == views[2]);
    } else {
        assert(steps@[0]@ == views[0]);
    }
    assert forall|i: int| 0 <= i < steps@.len() && #[trigger] steps@[i] is Open implies (
    steps@[i]->gpu <==> !(config.device is Cpu)) && steps@[i]->flash_attn == steps@[i]->gpu by {
        assert(steps@[i]@ == views[i]);
    }
}

} // verus!
