//! NVIDIA Parakeet backend (ONNX models).
//!
//! Uses the **TDT** model, multilingual with language auto-detection and predicted
//! punctuation. The model is a **directory** containing `encoder-model.onnx`,
//! `decoder_joint-model.onnx` and `vocab.txt`.
//!
//! Unlike whisper.cpp, Parakeet supports neither a decoding prompt, nor beam
//! search, nor translation, nor an internal VAD: [`ParakeetEngine::capabilities`]
//! says so, and the corresponding options are ignored.

use crate::engines::windows::{
    cut_from, law_marks_are_shares, law_windows_tile, lemma_window_bound, measures_blocks,
    progress_at, tiles, window, window_cut, window_marks, windows_of, Walk,
    SINGLE_WINDOW_MAX_SAMPLES,
};
use crate::engines::{samples, sanitize_audio, sanitized};
use crate::error::{AsrError, ErrorView};
use crate::model::{check_dir, dir_error, native_threads, threads_for_native, Host, ModelDir};
use crate::monitor::{lemma_climbs, lemma_share, Monitor};
use crate::single::Single;
use crate::stitch::{
    in_line, law_no_language, law_stitched_in_line, law_stitched_text_is_tidy,
    law_tidy_is_trimmed, stitched, tidy,
};
use crate::text::{concat, trim, trimmed, views};
use crate::types::{
    empty_result, flag_reads, outcome, segment_views, DevicePreference, EngineCapabilities,
    EngineConfig, LanguageSupport, LanguagesView, ResultView, Segment, SegmentView,
    TranscribeControl, TranscribeOptions, TranscriptionResult, SAMPLE_RATE,
};
use vstd::prelude::*;
use vstd::string::*;

verus! {

/// Where the runtime executes the graphs.
#[derive(Debug, Clone, Copy, PartialEq, Eq, Structural)]
pub enum Provider {
    Cpu,
    DirectMl,
}

/// Maps a [`DevicePreference`] to an execution provider: DirectML when the binary
/// has it and the CPU is not forced, else the CPU.
pub fn select_provider(device: DevicePreference, directml: bool) -> (r: Provider)
    ensures
        r == (if directml && device != DevicePreference::Cpu {
            Provider::DirectMl
        } else {
            Provider::Cpu
        }),
{
    match device {
        DevicePreference::Cpu => Provider::Cpu,
        DevicePreference::Auto | DevicePreference::Gpu => if directml {
            Provider::DirectMl
        } else {
            Provider::Cpu
        },
    }
}

/// Languages of the `nvidia/parakeet-tdt-0.6b-v3` model (25 European languages: the
/// official EU languages minus Irish, plus Russian and Ukrainian), as lowercase
/// English names to stay consistent with whisper's language detection.
pub open spec fn v3_languages() -> Seq<Seq<char>> {
    seq![
        "bulgarian"@,
        "croatian"@,
        "czech"@,
        "danish"@,
        "dutch"@,
        "english"@,
        "estonian"@,
        "finnish"@,
        "french"@,
        "german"@,
        "greek"@,
        "hungarian"@,
        "italian"@,
        "latvian"@,
        "lithuanian"@,
        "maltese"@,
        "polish"@,
        "portuguese"@,
        "romanian"@,
        "russian"@,
        "slovak"@,
        "slovenian"@,
        "spanish"@,
        "swedish"@,
        "ukrainian"@,
    ]
}

/// See [`v3_languages`].
pub fn tdt_v3_languages() -> (r: Vec<String>)
    ensures
        views(r@) == v3_languages(),
{
    let r: Vec<String> = vec![
        "bulgarian".to_owned(),
        "croatian".to_owned(),
        "czech".to_owned(),
        "danish".to_owned(),
        "dutch".to_owned(),
        "english".to_owned(),
        "estonian".to_owned(),
        "finnish".to_owned(),
        "french".to_owned(),
        "german".to_owned(),
        "greek".to_owned(),
        "hungarian".to_owned(),
        "italian".to_owned(),
        "latvian".to_owned(),
        "lithuanian".to_owned(),
        "maltese".to_owned(),
        "polish".to_owned(),
        "portuguese".to_owned(),
        "romanian".to_owned(),
        "russian".to_owned(),
        "slovak".to_owned(),
        "slovenian".to_owned(),
        "spanish".to_owned(),
        "swedish".to_owned(),
        "ukrainian".to_owned(),
    ];
    assert(views(r@) =~= v3_languages());
    r
}

/// What the model gives for one window: its text, and its sentences with their
/// times from the start of the window.
pub struct ParakeetOutput {
    pub text: String,
    pub sentences: Vec<Segment>,
}

/// The sentences that have text, trimmed.
pub open spec fn kept(sentences: Seq<SegmentView>) -> Seq<SegmentView>
    decreases sentences.len(),
{
    if sentences.len() == 0 {
        Seq::empty()
    } else {
        let before = kept(sentences.drop_last());
        let text = trimmed(sentences.last().text);
        if text.len() == 0 {
            before
        } else {
            before.push(SegmentView { text, ..sentences.last() })
        }
    }
}

/// The result of a window, given what the model gave. The model detects the
/// language but does not expose it.
pub open spec fn window_result(out: ParakeetOutput) -> ResultView {
    ResultView {
        text: trimmed(out.text@),
        detected_language: None,
        segments: kept(segment_views(out.sentences@)),
    }
}

/// See [`window_result`].
pub fn read_window(out: &ParakeetOutput) -> (r: TranscriptionResult)
    ensures
        r@ == window_result(*out),
{
    let ghost all = segment_views(out.sentences@);
    let mut segments: Vec<Segment> = Vec::new();
    let n: usize = out.sentences.len();
    let mut i: usize = 0;
    assert(all.take(0) =~= Seq::empty());
    assert(segment_views(segments@) =~= kept(all.take(0)));
    while i < n
        invariant
            n == out.sentences@.len(),
            i <= n,
            all == segment_views(out.sentences@),
            segment_views(segments@) == kept(all.take(i as int)),
        decreases n - i,
    {
        assert(all.take(i + 1).drop_last() =~= all.take(i as int));
        assert(all.take(i + 1).last() == out.sentences@[i as int]@);
        let ghost before = segment_views(segments@);
        let sentence: &Segment = &out.sentences[i];
        let text = trim(sentence.text.as_str());
        let none = String::new();
        if text == none {
            assert(text@ =~= Seq::empty());
        } else {
            assert(text@.len() > 0) by {
                if text@.len() == 0 {
                    assert(text@ =~= none@);
                }
            }
            let own = Segment { text, start: sentence.start, end: sentence.end };
            let ghost view = own@;
            segments.push(own);
            assert(segment_views(segments@) =~= before.push(view));
        }
        i += 1;
    }
    assert(all.take(n as int) =~= all);
    TranscriptionResult { text: trim(out.text.as_str()), detected_language: None, segments }
}

/// The one channel of the samples that the model is handed.
pub const CHANNELS: u16 = 1;

/// The function `run` can answer `answer` to a window, of mono samples at
/// [`SAMPLE_RATE`].
pub open spec fn ran<R: Fn(&[Single], u32, u16) -> Result<ParakeetOutput, String>>(
    run: R,
    samples: Seq<Single>,
    answer: Result<ParakeetOutput, String>,
) -> bool {
    exists|w: &[Single]|
        w@ == samples && #[trigger] call_ensures(run, (w, SAMPLE_RATE, CHANNELS), answer)
}

/// The function `run` can be called on a window of mono samples at [`SAMPLE_RATE`],
/// of 32 s at most, and on no more is it asked to.
pub open spec fn takes_windows<R: Fn(&[Single], u32, u16) -> Result<ParakeetOutput, String>>(
    run: R,
) -> bool {
    forall|w: &[Single]|
        0 < w@.len() <= SINGLE_WINDOW_MAX_SAMPLES ==> #[trigger] call_requires(
            run,
            (w, SAMPLE_RATE, CHANNELS),
        )
}

/// `part` is a result of a window.
pub open spec fn read_as<R: Fn(&[Single], u32, u16) -> Result<ParakeetOutput, String>>(
    run: R,
    samples: Seq<Single>,
    part: ResultView,
) -> bool {
    exists|out: ParakeetOutput| #[trigger]
        ran(run, samples, Ok(out)) && part == window_result(out)
}

/// `parts` are the results of the windows of `audio` that `bounds` gives.
pub open spec fn read_windows<R: Fn(&[Single], u32, u16) -> Result<ParakeetOutput, String>>(
    run: R,
    audio: Seq<Single>,
    bounds: Seq<int>,
    parts: Seq<ResultView>,
) -> bool {
    &&& parts.len() == bounds.len() - 1
    &&& forall|i: int|
        0 <= i < parts.len() ==> read_as(run, window(audio, bounds, i), #[trigger] parts[i])
}

proof fn lemma_read_more<R: Fn(&[Single], u32, u16) -> Result<ParakeetOutput, String>>(
    run: R,
    audio: Seq<Single>,
    bounds: Seq<int>,
    parts: Seq<ResultView>,
    end: int,
    out: ParakeetOutput,
)
    requires
        bounds.len() >= 1,
        read_windows(run, audio, bounds, parts),
        ran(run, audio.subrange(bounds.last(), end), Ok(out)),
    ensures
        read_windows(run, audio, bounds.push(end), parts.push(window_result(out))),
{
    let next = bounds.push(end);
    let more = parts.push(window_result(out));
    assert forall|i: int| 0 <= i < more.len() implies read_as(
        run,
        window(audio, next, i),
        #[trigger] more[i],
    ) by {
        if i < parts.len() {
            assert(read_as(run, window(audio, bounds, i), parts[i]));
            assert(window(audio, next, i) == window(audio, bounds, i));
        } else {
            assert(window(audio, next, i) == audio.subrange(bounds.last(), end));
        }
    }
}

/// The model can refuse a window of `audio` with `e` after reading those before it:
/// `monitor` asked before each and reported each, the refused one with them.
pub open spec fn window_failed<
    L: Fn(&[Single]) -> Single,
    R: Fn(&[Single], u32, u16) -> Result<ParakeetOutput, String>,
>(rms: L, run: R, audio: Seq<Single>, monitor: Monitor<'_>, e: ErrorView) -> bool {
    exists|bounds: Seq<int>, parts: Seq<ResultView>, len: int, message: String|
        {
            &&& cut_from(rms, audio, bounds)
            &&& #[trigger] read_windows(run, audio, bounds, parts)
            &&& #[trigger] window_cut(rms, audio.skip(bounds.last()), len)
            &&& #[trigger] ran(
                run,
                audio.subrange(bounds.last(), bounds.last() + len),
                Err(message),
            )
            &&& e == ErrorView::Transcribe(message@)
            &&& monitor.followed(
                window_marks(bounds.push(bounds.last() + len), audio.len() as int),
                parts.len() as int + 1,
            )
        }
}

/// A transcription was cancelled at a window of `audio` after reading those before
/// it: `monitor` asked before each, and reported each that was read.
pub open spec fn window_cancelled<
    L: Fn(&[Single]) -> Single,
    R: Fn(&[Single], u32, u16) -> Result<ParakeetOutput, String>,
>(rms: L, run: R, audio: Seq<Single>, monitor: Monitor<'_>) -> bool {
    exists|bounds: Seq<int>, parts: Seq<ResultView>|
        {
            &&& cut_from(rms, audio, bounds)
            &&& bounds.last() < audio.len()
            &&& #[trigger] read_windows(run, audio, bounds, parts)
            &&& monitor.followed(
                window_marks(bounds, audio.len() as int),
                parts.len() as int + 1,
            )
        }
}

/// Parakeet TDT backend.
pub struct ParakeetEngine {
    /// Where the graphs run.
    pub provider: Provider,
    /// Threads that they run on.
    pub threads: i32,
    /// What the backend can do.
    pub caps: EngineCapabilities,
}

/// What loading Parakeet fails with, if it does: see [`dir_error`]; else the
/// reason why the model could not be opened.
pub open spec fn load_error(dir: ModelDir, host: Host, opened: Result<(), String>) -> Option<
    ErrorView,
> {
    match dir_error("parakeet"@, dir, host) {
        Some(e) => Some(e),
        None => match opened {
            Err(message) => Some(ErrorView::Load("parakeet load: "@ + message@)),
            Ok(()) => None,
        },
    }
}

impl ParakeetEngine {
    /// Check the model directory and choose how to open the model in it.
    ///
    /// The configured device picks the execution provider (see
    /// [`select_provider`]). The crash marker is ignored: the runtime returns its
    /// errors, it does not abort the process.
    pub fn plan(config: &EngineConfig, dir: &ModelDir, host: Host, directml: bool) -> (r: Result<
        (Provider, i32),
        AsrError,
    >)
        ensures
            r is Ok <==> dir_error("parakeet"@, *dir, host) is None,
            r matches Err(e) ==> dir_error("parakeet"@, *dir, host) == Some(e@),
            r matches Ok((provider, threads)) ==> {
                &&& provider == (if directml && config.device != DevicePreference::Cpu {
                    Provider::DirectMl
                } else {
                    Provider::Cpu
                })
                &&& threads == native_threads(host)
            },
    {
        match check_dir("parakeet", dir, host) {
            Err(e) => Err(e),
            Ok(()) => Ok((select_provider(config.device, directml), threads_for_native(host))),
        }
    }

    /// Loads a Parakeet TDT model from its **directory**, given what opening it as
    /// [`ParakeetEngine::plan`] says gave.
    pub fn load(
        config: &EngineConfig,
        dir: &ModelDir,
        host: Host,
        directml: bool,
        opened: &Result<(), String>,
    ) -> (r: Result<Self, AsrError>)
        ensures
            r is Ok <==> load_error(*dir, host, *opened) is None,
            r matches Err(e) ==> load_error(*dir, host, *opened) == Some(e@),
            r matches Ok(engine) ==> {
                &&& engine.provider == (if directml && config.device != DevicePreference::Cpu {
                    Provider::DirectMl
                } else {
                    Provider::Cpu
                })
                &&& engine.threads == native_threads(host)
                &&& engine.caps.plain(
                    "parakeet-tdt"@,
                    LanguagesView::Only(v3_languages()),
                )
            },
    {
        match ParakeetEngine::plan(config, dir, host, directml) {
            Err(e) => Err(e),
            Ok((provider, threads)) => match opened {
                Err(message) => Err(AsrError::Load(concat("parakeet load: ", message.as_str()))),
                Ok(()) => Ok(
                    ParakeetEngine {
                        provider,
                        threads,
                        caps: ParakeetEngine::capabilities_static(),
                    },
                ),
            },
        }
    }

    /// What every Parakeet engine can do.
    pub fn capabilities_static() -> (r: EngineCapabilities)
        ensures
            r.plain("parakeet-tdt"@, LanguagesView::Only(v3_languages())),
    {
        EngineCapabilities {
            name: "parakeet-tdt",
            supports_prompt: false,
            supports_beam: false,
            supports_translate: false,
            supports_internal_vad: false,
            languages: LanguageSupport::Only(tdt_v3_languages()),
        }
    }

    /// What the backend can do.
    pub fn capabilities(&self) -> (r: &EngineCapabilities)
        ensures
            *r == self.caps,
    {
        &self.caps
    }

    /// Transcribe `audio` under `monitor`, with `run` for the model and `rms` for
    /// the level of a block.
    ///
    /// Parakeet runs its encoder over the whole sequence at once, so a long clip is
    /// split into windows of 32 s at most, cut on the least-bad energy dip. Every
    /// sample is transcribed exactly once, without overlap, so no word is
    /// duplicated at a seam. Cancellation is checked before each window, and the
    /// progress is the fraction of samples consumed.
    pub fn transcribe<
        L: Fn(&[Single]) -> Single,
        R: Fn(&[Single], u32, u16) -> Result<ParakeetOutput, String>,
    >(
        &self,
        audio: &[Single],
        _opts: &TranscribeOptions,
        monitor: &mut Monitor<'_>,
        rms: &L,
        run: &R,
    ) -> (r: Result<TranscriptionResult, AsrError>)
        requires
            old(monitor).fresh(),
            measures_blocks(*rms),
            takes_windows(*run),
        ensures
            final(monitor).ended(*old(monitor), outcome(r)),
            audio@.len() == 0 ==> (r matches Ok(t) && t@ == empty_result())
                && final(monitor).followed(seq![100int], 0),
            audio@.len() > 0 ==> (r matches Ok(t) ==> exists|
                bounds: Seq<int>,
                parts: Seq<ResultView>,
            |
                {
                    &&& windows_of(*rms, sanitized(audio@), bounds)
                    &&& #[trigger] read_windows(*run, sanitized(audio@), bounds, parts)
                    &&& t@ == stitched(parts, bounds.drop_last())
                    &&& final(monitor).followed(
                        window_marks(bounds, audio@.len() as int).push(100),
                        parts.len() as int,
                    )
                }),
            audio@.len() > 0 ==> final(monitor).asked() > 0,
            r matches Err(e) ==> if final(monitor).stopped() {
                e@ == ErrorView::Cancelled && window_cancelled(
                    *rms,
                    *run,
                    sanitized(audio@),
                    *final(monitor),
                )
            } else {
                window_failed(*rms, *run, sanitized(audio@), *final(monitor), e@)
            },
    {
        if audio.len() == 0 {
            proof {
                lemma_climbs(monitor.reported(), 100);
            }
            monitor.report(100);
            return Ok(TranscriptionResult::default());
        }
        let fixed = sanitize_audio(audio);
        self.transcribe_clean(samples(&fixed), monitor, rms, run)
    }

    /// Transcribe clean audio, window by window.
    fn transcribe_clean<
        L: Fn(&[Single]) -> Single,
        R: Fn(&[Single], u32, u16) -> Result<ParakeetOutput, String>,
    >(&self, audio: &[Single], monitor: &mut Monitor<'_>, rms: &L, run: &R) -> (r: Result<
        TranscriptionResult,
        AsrError,
    >)
        requires
            audio@.len() > 0,
            old(monitor).fresh(),
            measures_blocks(*rms),
            takes_windows(*run),
        ensures
            final(monitor).ended(*old(monitor), outcome(r)),
            r matches Ok(t) ==> exists|bounds: Seq<int>, parts: Seq<ResultView>|
                {
                    &&& windows_of(*rms, audio@, bounds)
                    &&& #[trigger] read_windows(*run, audio@, bounds, parts)
                    &&& t@ == stitched(parts, bounds.drop_last())
                    &&& final(monitor).followed(
                        window_marks(bounds, audio@.len() as int).push(100),
                        parts.len() as int,
                    )
                },
            final(monitor).asked() > 0,
            r matches Err(e) ==> if final(monitor).stopped() {
                e@ == ErrorView::Cancelled && window_cancelled(
                    *rms,
                    *run,
                    audio@,
                    *final(monitor),
                )
            } else {
                window_failed(*rms, *run, audio@, *final(monitor), e@)
            },
    {
        let total: usize = audio.len();
        let ghost before = *monitor;
        let mut walk = Walk::new(audio, rms);
        proof {
            lemma_share(0, 0, total as int);
        }
        while walk.start < total
            invariant
                total == audio@.len(),
                total > 0,
                before.fresh(),
                before == *old(monitor),
                walk.inv(*rms, audio@),
                walk.start > 0 ==> monitor.asked() > 0,
                read_windows(*run, audio@, walk.bounds@, walk.parts@),
                monitor.running(before, walk.start as int * 100 / (total as int)),
                monitor.followed(
                    window_marks(walk.bounds@, total as int),
                    walk.parts@.len() as int,
                ),
                measures_blocks(*rms),
                takes_windows(*run),
            decreases total - walk.start,
        {
            if monitor.cancelled() {
                return Err(AsrError::Cancelled);
            }
            let len: usize = walk.next_len(audio, rms);
            let pct: u8 = progress_at(walk.start, len, 0, total);
            proof {
                lemma_climbs(monitor.reported(), pct as int);
            }
            monitor.report(pct);
            let start: usize = walk.start;
            let clip: &[Single] = &audio[start..start + len];
            proof {
                lemma_window_bound(*rms, audio@.skip(start as int), len as int);
            }
            let answer = run(clip, SAMPLE_RATE, CHANNELS);
            assert(ran(*run, clip@, answer));
            match answer {
                Err(message) => {
                    assert(clip@ =~= audio@.subrange(
                        walk.bounds@.last(),
                        walk.bounds@.last() + len,
                    ));
                    let ghost given = message;
                    let e = AsrError::Transcribe(message);
                    assert(ran(
                        *run,
                        audio@.subrange(walk.bounds@.last(), walk.bounds@.last() + len),
                        Err(given),
                    ));
                    assert(monitor.reported() =~= window_marks(
                        walk.bounds@.push(walk.bounds@.last() + len),
                        total as int,
                    ));
                    assert(window_failed(*rms, *run, audio@, *monitor, e@));
                    return Err(e);
                },
                Ok(out) => {
                    let ghost bounds = walk.bounds@;
                    let ghost parts = walk.parts@;
                    let part = read_window(&out);
                    walk.add_part(part, len, audio, rms);
                    proof {
                        assert(clip@ =~= audio@.subrange(bounds.last(), start + len));
                        lemma_read_more(*run, audio@, bounds, parts, start + len, out);
                        assert(monitor.reported() =~= window_marks(walk.bounds@, total as int));
                        crate::engines::windows::law_progress(
                            start as int,
                            len as int,
                            0,
                            total as int,
                        );
                    }
                },
            }
        }
        proof {
            lemma_share(0, total as int, total as int);
            lemma_climbs(monitor.reported(), 100);
        }
        monitor.report(100);
        Ok(walk.whole)
    }
}

// --- laws -------------------------------------------------------------------------

/// The sentences kept have text, without white space at either end.
pub proof fn law_kept_sentences(sentences: Seq<SegmentView>)
    ensures
        forall|i: int|
            0 <= i < kept(sentences).len() ==> (#[trigger] kept(sentences)[i]).text.len() > 0
                && tidy(kept(sentences)[i].text),
        kept(sentences).len() <= sentences.len(),
    decreases sentences.len(),
{
    if sentences.len() > 0 {
        law_kept_sentences(sentences.drop_last());
        law_tidy_is_trimmed(sentences.last().text);
    }
}

/// The text of a transcript has no white space at either end, and no language.
pub proof fn law_transcript<R: Fn(&[Single], u32, u16) -> Result<ParakeetOutput, String>>(
    run: R,
    audio: Seq<Single>,
    bounds: Seq<int>,
    parts: Seq<ResultView>,
)
    requires
        read_windows(run, audio, bounds, parts),
    ensures
        tidy(stitched(parts, bounds.drop_last()).text),
        stitched(parts, bounds.drop_last()).detected_language is None,
{
    assert forall|i: int| 0 <= i < parts.len() implies tidy((#[trigger] parts[i]).text)
        && parts[i].detected_language is None by {
        assert(read_as(run, window(audio, bounds, i), parts[i]));
        let out = choose|out: ParakeetOutput| #[trigger]
            ran(run, window(audio, bounds, i), Ok(out)) && parts[i] == window_result(out);
        law_tidy_is_trimmed(out.text@);
    }
    law_stitched_text_is_tidy(parts, bounds.drop_last());
    law_no_language(parts, bounds.drop_last());
}

/// `part` is what the model says of `samples`, handed over as mono at 16 kHz: its text
/// and its sentences trimmed, those without text left out, and no language.
pub open spec fn said_of<R: Fn(&[Single], u32, u16) -> Result<ParakeetOutput, String>>(
    run: R,
    samples: Seq<Single>,
    part: ResultView,
) -> bool {
    exists|w: &[Single], out: ParakeetOutput|
        {
            &&& w@ == samples
            &&& #[trigger] call_ensures(run, (w, 16_000u32, 1u16), Ok(out))
            &&& part.text == trimmed(out.text@)
            &&& part.detected_language is None
            &&& part.segments == segment_views(out.sentences@).filter(
                |s: SegmentView| trimmed(s.text).len() > 0,
            ).map_values(
                |s: SegmentView|
                    SegmentView { text: trimmed(s.text), start: s.start, end: s.end },
            )
        }
}

/// What a call of [`ParakeetEngine::transcribe`] gives: windows tile the clean samples,
/// the model is handed each of them, and what it says of them is put in line. Before each
/// window the control is asked, and the share of the samples that is done is reported, in
/// whole percents; 100 comes last.
pub proof fn law_transcribed_windows<
    L: Fn(&[Single]) -> Single,
    R: Fn(&[Single], u32, u16) -> Result<ParakeetOutput, String>,
>(
    engine: &ParakeetEngine,
    audio: &[Single],
    opts: &TranscribeOptions,
    rms: &L,
    run: &R,
    reported: Seq<int>,
    asked: nat,
    t: TranscriptionResult,
)
    requires
        audio@.len() > 0,
        exists|m: &mut Monitor<'_>| #[trigger]
            call_ensures(
                ParakeetEngine::transcribe::<L, R>,
                (engine, audio, opts, m, rms, run),
                Ok(t),
            ) && final(m).reported() == reported && final(m).asked() == asked,
    ensures
        exists|bounds: Seq<int>, parts: Seq<ResultView>|
            {
                &&& #[trigger] tiles(*rms, sanitized(audio@), bounds)
                &&& parts.len() == bounds.len() - 1
                &&& forall|i: int|
                    0 <= i < parts.len() ==> said_of(
                        *run,
                        sanitized(audio@).subrange(bounds[i], bounds[i + 1]),
                        #[trigger] parts[i],
                    )
                &&& #[trigger] in_line(parts, bounds.drop_last(), t@)
                &&& asked == parts.len()
                &&& reported.len() == parts.len() + 1 && reported.last() == 100
                &&& forall|i: int|
                    0 <= i < parts.len() ==> 0 <= bounds[i] * 100 - #[trigger] reported[i]
                        * audio@.len() < audio@.len()
            },
{
    let clean = sanitized(audio@);
    let (bounds, parts) = choose|bounds: Seq<int>, parts: Seq<ResultView>|
        {
            &&& windows_of(*rms, clean, bounds)
            &&& #[trigger] read_windows(*run, clean, bounds, parts)
            &&& t@ == stitched(parts, bounds.drop_last())
            &&& reported == window_marks(bounds, audio@.len() as int).push(100)
            &&& asked == parts.len()
        };
    law_windows_tile(*rms, clean, bounds);
    law_stitched_in_line(parts, bounds.drop_last());
    law_marks_are_shares(bounds, audio@.len() as int);
    assert forall|i: int| 0 <= i < parts.len() implies 0 <= bounds[i] * 100 - #[trigger] reported[i]
        * audio@.len() < audio@.len() by {
        assert(reported[i] == window_marks(bounds, audio@.len() as int)[i]);
    }
    assert forall|i: int| 0 <= i < parts.len() implies said_of(
        *run,
        clean.subrange(bounds[i], bounds[i + 1]),
        #[trigger] parts[i],
    ) by {
        assert(read_as(*run, window(clean, bounds, i), parts[i]));
        let out = choose|out: ParakeetOutput| #[trigger]
            ran(*run, window(clean, bounds, i), Ok(out)) && parts[i] == window_result(out);
        let w = choose|w: &[Single]|
            w@ == window(clean, bounds, i) && #[trigger] call_ensures(
                *run,
                (w, SAMPLE_RATE, CHANNELS),
                Ok(out),
            );
        law_sentences_are_read(segment_views(out.sentences@));
        assert(call_ensures(*run, (w, 16_000u32, 1u16), Ok(out)));
    }
}

/// The sentences of a window are those of the model that have text, in order, trimmed.
pub proof fn law_sentences_are_read(sentences: Seq<SegmentView>)
    ensures
        kept(sentences) == sentences.filter(
            |s: SegmentView| trimmed(s.text).len() > 0,
        ).map_values(
            |s: SegmentView| SegmentView { text: trimmed(s.text), start: s.start, end: s.end },
        ),
    decreases sentences.len(),
{
    reveal(Seq::filter);
    let has = |s: SegmentView| trimmed(s.text).len() > 0;
    let own = |s: SegmentView| SegmentView { text: trimmed(s.text), start: s.start, end: s.end };
    if sentences.len() == 0 {
        assert(sentences.filter(has).map_values(own) =~= Seq::empty());
    } else {
        let rest = sentences.drop_last();
        law_sentences_are_read(rest);
        let before = rest.filter(has);
        if has(sentences.last()) {
            assert(before.push(sentences.last()).map_values(own) =~= before.map_values(own).push(
                own(sentences.last()),
            ));
        }
    }
}

/// A call of [`ParakeetEngine::transcribe`] answers a requested cancellation with `Cancelled`,
/// and nothing else: on a clip with samples it does when the flag can only be read as
/// raised, and it never does when the flag cannot be, or is not there. An empty clip gives
/// an empty result. On success the caller's sink has received 100.
pub proof fn law_cancellation<
    L: Fn(&[Single]) -> Single,
    R: Fn(&[Single], u32, u16) -> Result<ParakeetOutput, String>,
>(
    engine: &ParakeetEngine,
    audio: &[Single],
    opts: &TranscribeOptions,
    control: TranscribeControl,
    rms: &L,
    run: &R,
    r: Result<TranscriptionResult, AsrError>,
)
    requires
        exists|m: &mut Monitor<'_>|
            (*m).fresh() && (*m).caller() == control && #[trigger] call_ensures(
                ParakeetEngine::transcribe::<L, R>,
                (engine, audio, opts, m, rms, run),
                r,
            ),
    ensures
        audio@.len() == 0 ==> (r matches Ok(t) && t@ == empty_result()),
        audio@.len() > 0 && (control.cancel matches Some(flag) && !flag_reads(&flag, false)) ==> (
        r matches Err(e) && e@ == ErrorView::Cancelled),
        (control.cancel matches Some(flag) ==> !flag_reads(&flag, true)) ==> !(r matches Err(e)
            && e@ == ErrorView::Cancelled),
        r is Ok ==> (control.on_progress matches Some(sink) ==> sink.received(100)),
{
}

/// Success is owed: under a control that cannot say that the caller cancelled, and with
/// a model that never refuses a window, a call of [`ParakeetEngine::transcribe`]
/// succeeds.
pub proof fn law_success_is_owed<
    L: Fn(&[Single]) -> Single,
    R: Fn(&[Single], u32, u16) -> Result<ParakeetOutput, String>,
>(
    engine: &ParakeetEngine,
    audio: &[Single],
    opts: &TranscribeOptions,
    control: TranscribeControl,
    rms: &L,
    run: &R,
    r: Result<TranscriptionResult, AsrError>,
)
    requires
        exists|m: &mut Monitor<'_>|
            (*m).fresh() && (*m).caller() == control && #[trigger] call_ensures(
                ParakeetEngine::transcribe::<L, R>,
                (engine, audio, opts, m, rms, run),
                r,
            ),
        control.cancel matches Some(flag) ==> !flag_reads(&flag, true),
        forall|w: &[Single], rate: u32, channels: u16, q: Result<ParakeetOutput, String>| #[trigger]
            call_ensures(*run, (w, rate, channels), q) ==> q is Ok,
    ensures
        r is Ok,
{
}

/// A call of [`ParakeetEngine::load`] succeeds exactly when the directory can be reached
/// and the model opens. It runs on the CPU where that is asked for, and elsewhere only
/// when there is nothing else.
pub proof fn law_present_model_loads(
    config: &EngineConfig,
    dir: &ModelDir,
    host: Host,
    directml: bool,
    opened: &Result<(), String>,
    r: Result<ParakeetEngine, AsrError>,
)
    requires
        call_ensures(ParakeetEngine::load, (config, dir, host, directml, opened), r),
    ensures
        r is Ok <==> dir.exists && (host.windows ==> (dir.utf8_len matches Some(n) ==> n <= 230))
            && opened is Ok,
        r matches Err(e) ==> (e@ is ModelNotFound <==> !dir.exists),
        r matches Ok(engine) ==> {
            &&& engine.provider is Cpu <==> config.device is Cpu || !directml
            &&& 1 <= engine.threads <= 8
        },
{
}

/// What a call of [`ParakeetEngine::transcribe`] fails with, unless it was cancelled, is
/// what the model refused a window with.
pub proof fn law_failure_is_the_models<
    L: Fn(&[Single]) -> Single,
    R: Fn(&[Single], u32, u16) -> Result<ParakeetOutput, String>,
>(
    engine: &ParakeetEngine,
    audio: &[Single],
    opts: &TranscribeOptions,
    rms: &L,
    run: &R,
    e: AsrError,
)
    requires
        e@ != ErrorView::Cancelled,
        exists|m: &mut Monitor<'_>| #[trigger]
            call_ensures(
                ParakeetEngine::transcribe::<L, R>,
                (engine, audio, opts, m, rms, run),
                Err(e),
            ),
    ensures
        exists|w: &[Single], message: String| #[trigger]
            call_ensures(*run, (w, 16_000u32, 1u16), Err(message)) && e@ == ErrorView::Transcribe(
                message@,
            ),
{
    let (samples, message) = choose|samples: Seq<Single>, message: String| #[trigger]
        ran(*run, samples, Err(message)) && e@ == ErrorView::Transcribe(message@);
    let w = choose|w: &[Single]|
        w@ == samples && #[trigger] call_ensures(*run, (w, SAMPLE_RATE, CHANNELS), Err(message));
    assert(call_ensures(*run, (w, 16_000u32, 1u16), Err(message)));
}

} // verus!
