//! VAD-gated transcription pipeline.
//!
//! Composes the shared voice-activity detection of [`crate::vad`] with any
//! [`AsrEngine`]: detect the speech regions, transcribe each one in turn, drop
//! the silence, and stitch the pieces back onto the **original** timeline. This
//! is the single place the crate wires a VAD and a backend together; like
//! [`crate::vad`] and [`crate::diarize`] it lives *beside* the trait, never
//! inside it, so the engines stay unaware of it and the caller opts in
//! explicitly.
//!
//! # Timeline
//!
//! Two backend families need different handling, and this module covers both:
//! - backends that emit timed [`Segment`]s (whisper, Parakeet): each segment is
//!   shifted from span-local time onto the global timeline;
//! - backends that emit none (Zipformer, SenseVoice, Moonshine): one segment is
//!   synthesized per speech span, so the result always carries a coherent
//!   timeline regardless of backend.

use crate::engines::AsrEngine;
use crate::error::{AsrError, ErrorView};
use crate::monitor::{climbing, lemma_climbs, lemma_share, Monitor};
use crate::single::Single;
use crate::stitch::{
    append_segments, append_text, appended, law_every_segment_is_there, law_every_text_is_there,
    law_first_language_wins, law_stitched_text_is_tidy, law_timeline, shifted, spaced_texts,
    stitched, tidy, timeline,
};
use crate::text::opt_view;
use crate::types::{
    as_time, empty_result, flag_reads, outcome, segment_views, time_at, ResultView, Segment,
    SegmentView, TranscribeControl, TranscribeOptions, TranscriptionResult,
};
use crate::vad::{
    all_utterances, law_every_window_is_heard, law_silence_has_no_region,
    law_spans_are_the_utterances, listened, ms_samples, probed, probing_fails, spans as span_views,
    speech_spans, takes_windows, window_count, SileroVad, Span, SpeechSegment, VadAnswer, VadConfig,
    WINDOW_SAMPLES,
};
use vstd::prelude::*;
use vstd::string::*;

verus! {

/// The result of a span with a timeline: one segment over the whole span when the
/// backend gave text and no segments.
pub open spec fn timed(inner: ResultView, span: Span) -> ResultView {
    if inner.segments.len() == 0 && inner.text.len() > 0 {
        ResultView {
            segments: seq![
                SegmentView { text: inner.text, start: 0, end: span.end - span.start },
            ],
            ..inner
        }
    } else {
        inner
    }
}

/// `whole` with the result `inner` of a span added.
pub open spec fn placed(whole: ResultView, inner: ResultView, span: Span) -> ResultView {
    appended(whole, timed(inner, span), span.start)
}

/// The results of the spans, put together in order.
pub open spec fn gathered(results: Seq<ResultView>, spans: Seq<Span>) -> ResultView
    decreases results.len(),
{
    if results.len() == 0 {
        empty_result()
    } else {
        placed(
            gathered(results.drop_last(), spans.drop_last()),
            results.last(),
            spans.last(),
        )
    }
}

/// Fold one span's [`TranscriptionResult`] into the running output, placing its
/// segments onto the global timeline: see [`placed`].
///
/// `span_start`/`span_end` are sample indices. Appends the span's text
/// (space-separated) and either shifts the backend's own segments by the span
/// offset or synthesizes one covering the whole span when the backend emitted
/// none.
pub fn place_result(
    inner: TranscriptionResult,
    span_start: usize,
    span_end: usize,
    text: &mut String,
    segments: &mut Vec<Segment>,
    detected_language: &mut Option<String>,
)
    ensures
        (ResultView {
            text: final(text)@,
            detected_language: opt_view(*final(detected_language)),
            segments: segment_views(final(segments)@),
        }) == placed(
            ResultView {
                text: old(text)@,
                detected_language: opt_view(*old(detected_language)),
                segments: segment_views(old(segments)@),
            },
            inner@,
            Span { start: span_start as int, end: span_end as int },
        ),
{
    append_text(text, inner.text.as_str());
    if detected_language.is_none() {
        *detected_language = inner.detected_language;
    }
    let ghost before = segment_views(segments@);
    if inner.segments.len() == 0 {
        let none = String::new();
        assert(inner@.segments.len() == 0);
        if inner.text == none {
            assert(inner@.text =~= Seq::empty());
            assert(segment_views(segments@) =~= before + shifted(
                inner@.segments,
                span_start as int,
            ));
        } else {
            assert(inner@.text.len() > 0) by {
                if inner@.text.len() == 0 {
                    assert(inner@.text =~= none@);
                }
            }
            let whole = Segment {
                text: inner.text,
                start: time_at(span_start),
                end: time_at(span_end),
            };
            let ghost view = whole@;
            segments.push(whole);
            assert(segment_views(segments@) =~= before.push(view));
            assert(segment_views(segments@) =~= before + shifted(
                timed(inner@, Span { start: span_start as int, end: span_end as int }).segments,
                span_start as int,
            ));
        }
    } else {
        append_segments(segments, inner.segments, span_start);
    }
}

/// The spans stand in order, without overlap, inside a clip of `len` samples.
pub open spec fn in_order(spans: Seq<Span>, len: int) -> bool {
    &&& forall|i: int|
        0 <= i < spans.len() ==> 0 <= (#[trigger] spans[i]).start <= spans[i].end <= len
    &&& forall|i: int, j: int|
        0 <= i < j < spans.len() ==> (#[trigger] spans[i]).end <= (#[trigger] spans[j]).start
}

/// The samples of all spans together.
pub open spec fn total_speech(spans: Seq<Span>) -> int
    decreases spans.len(),
{
    if spans.len() == 0 {
        0
    } else {
        total_speech(spans.drop_last()) + (spans.last().end - spans.last().start)
    }
}

/// The engine behind `e` can answer `r` when handed `clip`, the call's options, and
/// a control that shares the caller's cancellation flag and reports no progress.
pub open spec fn answered<E: AsrEngine + ?Sized>(
    e: &mut E,
    clip: Seq<Single>,
    opts: TranscribeOptions,
    control: TranscribeControl,
    r: Result<TranscriptionResult, AsrError>,
) -> bool {
    exists|a: &[Single], o: &TranscribeOptions, c: &TranscribeControl|
        a@ == clip && *o == opts && c.cancel == control.cancel && c.on_progress is None
            && #[trigger] call_ensures(E::transcribe, (e, a, o, c), r)
}

/// `states` leads from the engine `before` to the engine `after` in `n` calls.
pub open spec fn led<E: AsrEngine + ?Sized>(
    states: Seq<&E>,
    n: nat,
    before: &E,
    after: &E,
) -> bool {
    states.len() == n + 1 && states[0] == before && states.last() == after
}

/// The samples of a span.
pub open spec fn clip(audio: Seq<Single>, span: Span) -> Seq<Single> {
    audio.subrange(span.start, span.end)
}

/// An engine's answers, in order.
pub type Answers = Seq<Result<TranscriptionResult, AsrError>>;

/// The engine was called an `i`th time.
pub open spec fn made(answers: Answers, i: int) -> bool {
    0 <= i < answers.len()
}

/// Every answer is a result.
pub open spec fn all_ok(answers: Answers) -> bool {
    forall|i: int| 0 <= i < answers.len() ==> #[trigger] answers[i] is Ok
}

/// The results among answers that are all results.
pub open spec fn answer_views(answers: Answers) -> Seq<ResultView> {
    answers.map_values(|a: Result<TranscriptionResult, AsrError>| a->Ok_0@)
}

/// `r` is how transcribing the spans ends, given the engine's answers to those that
/// it was handed and whether the caller turned out to have cancelled before the
/// next one: nothing for no speech, `Cancelled` for a cancellation, else the
/// answers put together, or the engine's own error.
pub open spec fn concluded(
    answers: Answers,
    spans: Seq<Span>,
    stopped: bool,
    r: Result<TranscriptionResult, AsrError>,
) -> bool {
    if total_speech(spans) == 0 {
        answers.len() == 0 && !stopped && outcome(r) == Ok::<_, ErrorView>(empty_result())
    } else if stopped {
        answers.len() < spans.len() && all_ok(answers) && outcome(r) == Err::<ResultView, _>(
            ErrorView::Cancelled,
        )
    } else {
        match r {
            Ok(t) => answers.len() == spans.len() && all_ok(answers) && t@ == gathered(
                answer_views(answers),
                spans,
            ),
            Err(_) => 0 < answers.len() <= spans.len() && all_ok(answers.drop_last())
                && answers.last() == r,
        }
    }
}

/// The percentages reported after each span: the share of the speech that is
/// transcribed.
pub open spec fn speech_marks(spans: Seq<Span>) -> Seq<int> {
    Seq::new(
        spans.len(),
        |i: int| total_speech(spans.take(i + 1)) * 100 / total_speech(spans),
    )
}

/// The percentages after each span have reached the caller's sink.
pub open spec fn delivered(control: TranscribeControl, spans: Seq<Span>) -> bool {
    forall|i: int| 0 <= i < spans.len() ==> control.sent(#[trigger] speech_marks(spans)[i])
}

/// What is reported when the spans are transcribed, and how often the control is
/// asked: the share of the speech that is done, after each span with a result, and
/// once before each span.
pub open spec fn spans_followed(
    monitor: Monitor<'_>,
    answers: Answers,
    spans: Seq<Span>,
    r: Result<TranscriptionResult, AsrError>,
) -> bool {
    let n = answers.len() as int;
    if total_speech(spans) == 0 {
        monitor.followed(seq![100int], 0)
    } else if r is Ok {
        monitor.followed(speech_marks(spans).push(100), n)
    } else if monitor.stopped() {
        monitor.followed(speech_marks(spans).take(n), n + 1)
    } else {
        monitor.followed(speech_marks(spans).take(n - 1), n)
    }
}

proof fn lemma_total(spans: Seq<Span>, len: int, k: int)
    requires
        in_order(spans, len),
        0 <= k <= spans.len(),
    ensures
        0 <= total_speech(spans.take(k)) <= total_speech(spans),
        total_speech(spans) <= if spans.len() == 0 {
            0
        } else {
            spans.last().end
        },
    decreases spans.len(),
{
    if spans.len() > 0 {
        let rest = spans.drop_last();
        assert forall|i: int| 0 <= i < rest.len() implies 0 <= (#[trigger] rest[i]).start
            <= rest[i].end <= len by {
            assert(rest[i] == spans[i]);
        }
        assert forall|i: int, j: int| 0 <= i < j < rest.len() implies (#[trigger] rest[i]).end <= (
        #[trigger] rest[j]).start by {
            assert(rest[i] == spans[i] && rest[j] == spans[j]);
        }
        assert(spans[spans.len() - 1].start <= spans.last().end);
        if k < spans.len() {
            lemma_total(rest, len, k);
            assert(rest.take(k) =~= spans.take(k));
        } else {
            lemma_total(rest, len, k - 1);
            assert(spans.take(k) =~= spans);
        }
        if rest.len() > 0 {
            assert(spans[spans.len() - 2].end <= spans[spans.len() - 1].start);
            assert(rest.last() == spans[spans.len() - 2]);
        }
    } else {
        assert(spans.take(k) =~= spans);
    }
}

/// Transcribe the speech `spans` of `audio` through `engine`, under `monitor`.
///
/// The part of [`transcribe_with_vad`] that follows the detection. The engine is
/// handed each span once, in order, as the call before left it; without speech it
/// is left alone.
pub fn transcribe_spans<E: AsrEngine + ?Sized>(
    engine: &mut E,
    spans: &[SpeechSegment],
    audio: &[Single],
    opts: &TranscribeOptions,
    monitor: &mut Monitor<'_>,
) -> (r: Result<TranscriptionResult, AsrError>)
    requires
        old(monitor).fresh(),
        in_order(span_views(spans@), audio@.len() as int),
    ensures
        final(monitor).caller() == old(monitor).caller(),
        final(monitor).heeded(),
        climbing(final(monitor).reported()),
        r is Ok ==> final(monitor).reported().len() > 0 && final(monitor).reported().last() == 100,
        total_speech(span_views(spans@)) == 0 ==> &*final(engine) == &*old(engine),
        exists|states: Seq<&E>, answers: Answers|
            {
                &&& #[trigger] led(states, answers.len(), &*old(engine), &*final(engine))
                &&& forall|i: int|
                    #![trigger answers[i]]
                    #![trigger made(answers, i)]
                    made(answers, i) ==> exists|e: &mut E|
                        &*e == states[i] && &*final(e) == states[i + 1]
                            && #[trigger] answered(
                            e,
                            clip(audio@, span_views(spans@)[i]),
                            *opts,
                            old(monitor).caller(),
                            answers[i],
                        )
                &&& #[trigger] concluded(
                    answers,
                    span_views(spans@),
                    final(monitor).stopped(),
                    r,
                )
                &&& spans_followed(*final(monitor), answers, span_views(spans@), r)
            },
{
    let ghost views = span_views(spans@);
    let n: usize = spans.len();
    let mut total: usize = 0;
    let mut k: usize = 0;
    assert(views.take(0) =~= Seq::empty());
    while k < n
        invariant
            n == spans@.len(),
            k <= n,
            views == span_views(spans@),
            in_order(views, audio@.len() as int),
            total == total_speech(views.take(k as int)),
        decreases n - k,
    {
        proof {
            lemma_total(views, audio@.len() as int, k + 1);
            assert(views.take(k + 1).drop_last() =~= views.take(k as int));
            assert(views[k as int] == spans@[k as int]@);
            if n > 0 {
                assert(views[n - 1].end <= audio@.len());
            }
        }
        total = total + spans[k].len();
        k += 1;
    }
    assert(views.take(n as int) =~= views);
    if total == 0 {
        proof {
            lemma_climbs(monitor.reported(), 100);
        }
        monitor.report(100);
        let nothing: Result<TranscriptionResult, AsrError> = Ok(TranscriptionResult::default());
        proof {
            let states = seq![&*engine];
            let answers: Answers = Seq::empty();
            assert(led(states, answers.len(), &*engine, &*engine));
            assert(concluded(answers, views, monitor.stopped(), nothing));
        }
        return nothing;
    }
    let mut text = String::new();
    let mut detected_language: Option<String> = None;
    let mut segments: Vec<Segment> = Vec::new();
    let mut consumed: usize = 0;
    let ghost mut answers: Answers = Seq::empty();
    let ghost first = &*engine;
    let ghost mut states: Seq<&E> = seq![first];
    let ghost start = *monitor;
    let mut i: usize = 0;
    assert(answer_views(answers) =~= Seq::empty());
    assert(segment_views(segments@) =~= Seq::empty());
    while i < n
        invariant
            n == spans@.len(),
            i <= n,
            views == span_views(spans@),
            in_order(views, audio@.len() as int),
            total == total_speech(views),
            total > 0,
            consumed == total_speech(views.take(i as int)),
            monitor.running(start, consumed as int * 100 / (total as int)),
            monitor.followed(speech_marks(views).take(i as int), i as int),
            answers.len() == i,
            all_ok(answers),
            first == &*old(engine),
            led(states, i as nat, first, &*engine),
            forall|k: int|
                #![trigger answers[k]]
                #![trigger made(answers, k)]
                made(answers, k) ==> exists|e: &mut E|
                    &*e == states[k] && &*final(e) == states[k + 1]
                        && #[trigger] answered(
                        e,
                        clip(audio@, views[k]),
                        *opts,
                        start.caller(),
                        answers[k],
                    ),
            (ResultView {
                text: text@,
                detected_language: opt_view(detected_language),
                segments: segment_views(segments@),
            }) == gathered(answer_views(answers), views.take(i as int)),
            start == *old(monitor),
        decreases n - i,
    {
        let span: SpeechSegment = spans[i];
        assert(views[i as int] == span@);
        if monitor.cancelled() {
            let stop: Result<TranscriptionResult, AsrError> = Err(AsrError::Cancelled);
            assert(led(states, answers.len(), first, &*engine));
            assert(concluded(answers, views, monitor.stopped(), stop));
            assert(spans_followed(*monitor, answers, views, stop));
            return stop;
        }
        let inner_control: TranscribeControl = monitor.control().silenced();
        let samples: &[Single] = &audio[span.start..span.end];
        assert(samples@ =~= clip(audio@, views[i as int]));
        let ghost here = &*engine;
        let answer = engine.transcribe(samples, opts, &inner_control);
        let ghost held = answers;
        let ghost known = states;
        proof {
            assert forall|e: &mut E| #[trigger]
                call_ensures(E::transcribe, (e, samples, opts, &inner_control), answer) implies answered(
                e,
                clip(audio@, views[i as int]),
                *opts,
                start.caller(),
                answer,
            ) by {}
            answers = answers.push(answer);
            states = states.push(&*engine);
            assert(states[i as int] == here && states[i + 1] == &*engine);
            assert forall|k: int|
                #![trigger answers[k]]
                #![trigger made(answers, k)]
                made(answers, k) implies exists|e: &mut E|
                    &*e == states[k] && &*final(e) == states[k + 1] && #[trigger] answered(
                    e,
                    clip(audio@, views[k]),
                    *opts,
                    start.caller(),
                    answers[k],
                ) by {
                if k < i {
                    assert(made(held, k));
                    assert(known[k] == states[k] && known[k + 1] == states[k + 1]);
                    assert(held[k] == answers[k]);
                }
            }
            assert(answers.drop_last() =~= held);
            assert(led(states, (i + 1) as nat, first, &*engine));
        }
        match answer {
            Err(e) => {
                let failed: Result<TranscriptionResult, AsrError> = Err(e);
                assert(answers.last() == failed);
                assert(led(states, answers.len(), first, &*engine));
                assert(concluded(answers, views, monitor.stopped(), failed));
                assert(spans_followed(*monitor, answers, views, failed));
                return failed;
            },
            Ok(inner) => {
                proof {
                    assert(views.take(i + 1).drop_last() =~= views.take(i as int));
                    assert(views.take(i + 1).last() == views[i as int]);
                    assert(answer_views(answers).drop_last() =~= answer_views(held));
                    assert(answer_views(answers).last() == inner@);
                    lemma_total(views, audio@.len() as int, i + 1);
                    assert(views[n - 1].end <= audio@.len());
                }
                place_result(
                    inner,
                    span.start,
                    span.end,
                    &mut text,
                    &mut segments,
                    &mut detected_language,
                );
                let ghost was = consumed as int;
                consumed = consumed + span.len();
                let pct: u8 = (consumed as u128 * 100 / total as u128) as u8;
                proof {
                    lemma_share(was, consumed as int, total as int);
                    lemma_climbs(monitor.reported(), pct as int);
                    assert(speech_marks(views).take(i + 1).drop_last() =~= speech_marks(views).take(
                        i as int,
                    ));
                }
                monitor.report(pct);
            },
        }
        i += 1;
    }
    assert(views.take(n as int) =~= views);
    proof {
        lemma_share(0, total as int, total as int);
        lemma_climbs(monitor.reported(), 100);
    }
    monitor.report(100);
    let whole: Result<TranscriptionResult, AsrError> = Ok(
        TranscriptionResult { text, detected_language, segments },
    );
    assert(led(states, answers.len(), first, &*engine));
    assert(concluded(answers, views, monitor.stopped(), whole));
    assert(spans_followed(*monitor, answers, views, whole));
    whole
}

/// Transcribe `audio` through `engine`, gated by `vad`, under `monitor`.
///
/// See [`transcribe_with_vad`], which this is the body of.
pub fn transcribe_monitored<
    E: AsrEngine + ?Sized,
    F: Fn(&[Single], &[Single]) -> VadAnswer,
>(
    engine: &mut E,
    vad: &mut SileroVad,
    audio: &[Single],
    opts: &TranscribeOptions,
    monitor: &mut Monitor<'_>,
    run: &F,
) -> (r: Result<TranscriptionResult, AsrError>)
    requires
        old(vad).wf(),
        old(monitor).fresh(),
        audio@.len() + WINDOW_SAMPLES + 2 * ms_samples(old(vad).config.speech_pad_ms as int)
            <= usize::MAX,
        takes_windows(*run),
    ensures
        final(vad).wf(),
        final(vad).config == old(vad).config,
        final(monitor).caller() == old(monitor).caller(),
        final(monitor).heeded(),
        climbing(final(monitor).reported()),
        r is Ok ==> final(monitor).reported().len() > 0 && final(monitor).reported().last() == 100,
        audio@.len() == 0 ==> (r matches Ok(t) && t@ == empty_result())
            && final(monitor).followed(seq![100int], 0) && &*final(engine) == &*old(engine),
        audio@.len() > 0 ==> {
            ||| (r matches Err(e) && probing_fails(*run, audio@, e@)) && final(monitor).fresh()
                && &*final(engine) == &*old(engine)
            ||| exists|
                probs: Seq<Single>,
                spans: Seq<Span>,
                states: Seq<&E>,
                answers: Answers,
            |
                {
                    &&& #[trigger] probed(
                        *run,
                        audio@,
                        window_count(audio@.len() as int) as nat,
                        probs,
                        final(vad).memory(),
                    )
                    &&& spans == speech_spans(probs, audio@.len() as int, final(vad).config)
                    &&& #[trigger] led(states, answers.len(), &*old(engine), &*final(engine))
                    &&& forall|i: int|
                        #![trigger answers[i]]
                        #![trigger made(answers, i)]
                        made(answers, i) ==> exists|e: &mut E|
                            &*e == states[i] && &*final(e) == states[i + 1]
                                && #[trigger] answered(
                                e,
                                clip(audio@, spans[i]),
                                *opts,
                                old(monitor).caller(),
                                answers[i],
                            )
                    &&& #[trigger] concluded(answers, spans, final(monitor).stopped(), r)
                    &&& spans_followed(*final(monitor), answers, spans, r)
                }
        },
{
    match vad.segments(audio, run) {
        Err(e) => Err(e),
        Ok(spans) => transcribe_spans(engine, spans.as_slice(), audio, opts, monitor),
    }
}

/// Transcribe `audio` (mono 16 kHz) through `engine`, gated by `vad`, with `run`
/// for the VAD's graph.
///
/// Runs the VAD to find speech regions, transcribes only those through `engine`,
/// concatenates the text and places every segment onto the original timeline
/// (see the module docs). Silence is dropped, so on sparse audio the backend sees
/// far fewer samples than the whole clip.
///
/// Empty or all-silence audio returns an empty [`TranscriptionResult`] without
/// error. Cancellation is checked before each span (and forwarded into the
/// backend, so a long span stays interruptible); progress is reported as the
/// fraction of *speech* samples already transcribed and always ends at 100 on
/// success. `detected_language` is the first one any span reports.
pub fn transcribe_with_vad<E: AsrEngine + ?Sized, F: Fn(&[Single], &[Single]) -> VadAnswer>(
    engine: &mut E,
    vad: &mut SileroVad,
    audio: &[Single],
    opts: &TranscribeOptions,
    control: &TranscribeControl,
    run: &F,
) -> (r: Result<TranscriptionResult, AsrError>)
    requires
        old(vad).wf(),
        audio@.len() + WINDOW_SAMPLES + 2 * ms_samples(old(vad).config.speech_pad_ms as int)
            <= usize::MAX,
        takes_windows(*run),
    ensures
        final(vad).wf(),
        final(vad).config == old(vad).config,
        r is Ok ==> control.sent(100),
        audio@.len() == 0 ==> (r matches Ok(t) && t@ == empty_result()) && &*final(engine)
            == &*old(engine),
        audio@.len() > 0 ==> {
            ||| (r matches Err(e) && probing_fails(*run, audio@, e@)) && &*final(engine)
                == &*old(engine)
            ||| exists|
                probs: Seq<Single>,
                spans: Seq<Span>,
                states: Seq<&E>,
                answers: Answers,
                stopped: bool,
            |
                {
                    &&& #[trigger] probed(
                        *run,
                        audio@,
                        window_count(audio@.len() as int) as nat,
                        probs,
                        final(vad).memory(),
                    )
                    &&& spans == speech_spans(probs, audio@.len() as int, final(vad).config)
                    &&& #[trigger] led(states, answers.len(), &*old(engine), &*final(engine))
                    &&& forall|i: int|
                        #![trigger answers[i]]
                        #![trigger made(answers, i)]
                        made(answers, i) ==> exists|e: &mut E|
                            &*e == states[i] && &*final(e) == states[i + 1]
                                && #[trigger] answered(
                                e,
                                clip(audio@, spans[i]),
                                *opts,
                                *control,
                                answers[i],
                            )
                    &&& #[trigger] concluded(answers, spans, stopped, r)
                    &&& total_speech(spans) > 0 ==> control.reads(stopped)
                    &&& answers.len() > 0 ==> control.reads(false)
                    &&& r is Ok && total_speech(spans) > 0 ==> delivered(*control, spans)
                }
        },
{
    let mut monitor = Monitor::new(control);
    let r = transcribe_monitored(engine, vad, audio, opts, &mut monitor, run);
    proof {
        if r is Ok {
            let last = monitor.reported().len() - 1;
            assert(control.sent(monitor.reported()[last]));
        }
        assert forall|answers: Answers, spans: Seq<Span>| #[trigger]
            concluded(answers, spans, monitor.stopped(), r) && spans_followed(
                monitor,
                answers,
                spans,
                r,
            ) implies (total_speech(spans) > 0 ==> control.reads(monitor.stopped())) && (answers.len()
            > 0 ==> control.reads(false)) && (r is Ok && total_speech(spans) > 0 ==> delivered(
            *control,
            spans,
        )) by {
            if total_speech(spans) > 0 {
                lemma_followed(monitor, answers, spans, r);
            }
        }
    }
    r
}

/// What a monitor kept while the spans were transcribed happened.
proof fn lemma_followed(
    monitor: Monitor<'_>,
    answers: Answers,
    spans: Seq<Span>,
    r: Result<TranscriptionResult, AsrError>,
)
    requires
        monitor.heeded(),
        concluded(answers, spans, monitor.stopped(), r),
        spans_followed(monitor, answers, spans, r),
        total_speech(spans) > 0,
    ensures
        monitor.caller().reads(monitor.stopped()),
        answers.len() > 0 ==> monitor.caller().reads(false),
        r is Ok ==> delivered(monitor.caller(), spans),
{
    assert(spans.len() > 0);
    if r is Ok {
        assert forall|i: int| 0 <= i < spans.len() implies monitor.caller().sent(
            #[trigger] speech_marks(spans)[i],
        ) by {
            assert(monitor.reported()[i] == speech_marks(spans)[i]);
        }
    }
}

// --- laws -------------------------------------------------------------------------

/// Placing the spans' results one by one is stitching them, each with a timeline,
/// at the spans' starts.
pub proof fn law_gathered_is_stitched(results: Seq<ResultView>, spans: Seq<Span>)
    requires
        results.len() == spans.len(),
    ensures
        gathered(results, spans) == stitched(
            Seq::new(results.len(), |i: int| timed(results[i], spans[i])),
            Seq::new(results.len(), |i: int| spans[i].start),
        ),
    decreases results.len(),
{
    let parts = Seq::new(results.len(), |i: int| timed(results[i], spans[i]));
    let starts = Seq::new(results.len(), |i: int| spans[i].start);
    if results.len() > 0 {
        let rr = results.drop_last();
        let sr = spans.drop_last();
        law_gathered_is_stitched(rr, sr);
        assert(parts.drop_last() =~= Seq::new(rr.len(), |i: int| timed(rr[i], sr[i])));
        assert(starts.drop_last() =~= Seq::new(rr.len(), |i: int| sr[i].start));
    }
}

/// What the engine said of the spans is all there: the text of the whole is the texts
/// of the spans in order, one space apart, and its segments are those of each span in
/// order, moved to where the span begins. A span with text and no segment of its own
/// has one from its first sample to its last.
pub proof fn law_gathered_content(results: Seq<ResultView>, spans: Seq<Span>)
    requires
        results.len() == spans.len(),
    ensures
        gathered(results, spans).text.len() == 0 ==> spaced_texts(results).len() == 0,
        gathered(results, spans).text.len() > 0 ==> spaced_texts(results) == seq![' '] + gathered(
            results,
            spans,
        ).text,
        gathered(results, spans).segments == Seq::new(
            results.len(),
            |i: int|
                if results[i].segments.len() == 0 && results[i].text.len() > 0 {
                    seq![
                        SegmentView {
                            text: results[i].text,
                            start: as_time(spans[i].start),
                            end: as_time(spans[i].end),
                        },
                    ]
                } else {
                    results[i].segments.map_values(
                        |s: SegmentView|
                            SegmentView {
                                text: s.text,
                                start: as_time(s.start + spans[i].start),
                                end: as_time(s.end + spans[i].start),
                            },
                    )
                },
        ).flatten(),
{
    law_gathered_is_stitched(results, spans);
    let parts = Seq::new(results.len(), |i: int| timed(results[i], spans[i]));
    let starts = Seq::new(results.len(), |i: int| spans[i].start);
    law_every_text_is_there(parts, starts);
    law_every_segment_is_there(parts, starts);
    lemma_same_texts(parts, results);
    let moved = Seq::new(
        parts.len(),
        |i: int|
            parts[i].segments.map_values(
                |s: SegmentView|
                    SegmentView {
                        text: s.text,
                        start: as_time(s.start + starts[i]),
                        end: as_time(s.end + starts[i]),
                    },
            ),
    );
    let placed = Seq::new(
        results.len(),
        |i: int|
            if results[i].segments.len() == 0 && results[i].text.len() > 0 {
                seq![
                    SegmentView {
                        text: results[i].text,
                        start: as_time(spans[i].start),
                        end: as_time(spans[i].end),
                    },
                ]
            } else {
                results[i].segments.map_values(
                    |s: SegmentView|
                        SegmentView {
                            text: s.text,
                            start: as_time(s.start + spans[i].start),
                            end: as_time(s.end + spans[i].start),
                        },
                )
            },
    );
    assert forall|i: int| 0 <= i < moved.len() implies #[trigger] moved[i] == placed[i] by {
        assert(moved[i] =~= placed[i]);
    }
    assert(moved =~= placed);
}

/// `result` can be what an engine of this type says of `samples` when asked with the
/// call's options and the caller's cancellation flag.
pub open spec fn can_say<E: AsrEngine + ?Sized>(
    samples: Seq<Single>,
    opts: TranscribeOptions,
    cancel: Option<std::sync::Arc<std::sync::atomic::AtomicBool>>,
    result: ResultView,
) -> bool {
    exists|
        e: &mut E,
        a: &[Single],
        o: &TranscribeOptions,
        c: &TranscribeControl,
        t: TranscriptionResult,
    |
        {
            &&& a@ == samples
            &&& *o == opts
            &&& c.cancel == cancel
            &&& c.on_progress is None
            &&& #[trigger] call_ensures(E::transcribe, (e, a, o, c), Ok(t))
            &&& t@ == result
        }
}

/// Each result can be what the engine says of the samples of its span.
pub open spec fn all_said<E: AsrEngine + ?Sized>(
    audio: Seq<Single>,
    spans: Seq<Span>,
    opts: TranscribeOptions,
    cancel: Option<std::sync::Arc<std::sync::atomic::AtomicBool>>,
    results: Seq<ResultView>,
) -> bool {
    results.len() == spans.len() && forall|i: int|
        0 <= i < spans.len() ==> can_say::<E>(
            audio.subrange(spans[i].start, spans[i].end),
            opts,
            cancel,
            #[trigger] results[i],
        )
}

/// `whole` is the texts of `results` in order, one space apart, and their segments
/// moved to where the spans begin: see [`law_gathered_content`].
pub open spec fn put_together(
    results: Seq<ResultView>,
    spans: Seq<Span>,
    whole: ResultView,
) -> bool {
    &&& whole.text.len() == 0 ==> spaced_texts(results).len() == 0
    &&& whole.text.len() > 0 ==> spaced_texts(results) == seq![' '] + whole.text
    &&& whole.segments == Seq::new(
        results.len(),
        |i: int|
            if results[i].segments.len() == 0 && results[i].text.len() > 0 {
                seq![
                    SegmentView {
                        text: results[i].text,
                        start: as_time(spans[i].start),
                        end: as_time(spans[i].end),
                    },
                ]
            } else {
                results[i].segments.map_values(
                    |s: SegmentView|
                        SegmentView {
                            text: s.text,
                            start: as_time(s.start + spans[i].start),
                            end: as_time(s.end + spans[i].start),
                        },
                )
            },
    ).flatten()
    &&& forall|k: int|
        0 <= k < results.len() && (#[trigger] results[k]).detected_language is Some && (forall|
            i: int,
        |
            0 <= i < k ==> (#[trigger] results[i]).detected_language is None)
            ==> whole.detected_language == results[k].detected_language
}

/// What a call of [`transcribe_with_vad`] gives: the utterances of the audio were found,
/// the engine was handed each of them, and the result is what it said of them, put
/// together in order on the timeline of the audio. Without an utterance it is empty.
pub proof fn law_speech_is_transcribed<
    E: AsrEngine + ?Sized,
    F: Fn(&[Single], &[Single]) -> VadAnswer,
>(
    audio: &[Single],
    opts: &TranscribeOptions,
    control: &TranscribeControl,
    run: &F,
    cfg: VadConfig,
    t: TranscriptionResult,
)
    requires
        audio@.len() > 0,
        cfg.threshold.ge(cfg.release),
        exists|e: &mut E, v: &mut SileroVad|
            (*v).config == cfg && #[trigger] call_ensures(
                transcribe_with_vad::<E, F>,
                (e, v, audio, opts, control, run),
                Ok(t),
            ),
    ensures
        control.on_progress matches Some(sink) ==> sink.received(100),
        exists|probs: Seq<Single>, spans: Seq<Span>, results: Seq<ResultView>|
            {
                &&& #[trigger] listened(*run, audio@, probs)
                &&& #[trigger] all_utterances(probs, 512, audio@.len() as int, cfg, spans)
                &&& #[trigger] all_said::<E>(audio@, spans, *opts, control.cancel, results)
                &&& put_together(results, spans, t@)
                &&& spans.len() == 0 ==> t@ == empty_result()
            },
{
    let len = audio@.len() as int;
    let r: Result<TranscriptionResult, AsrError> = Ok(t);
    let (probs, state, spans, answers, stopped) = choose|
        probs: Seq<Single>,
        state: Seq<Single>,
        spans: Seq<Span>,
        answers: Answers,
        stopped: bool,
    |
        {
            &&& #[trigger] probed(*run, audio@, window_count(len) as nat, probs, state)
            &&& spans == speech_spans(probs, len, cfg)
            &&& forall|i: int|
                #![trigger answers[i]]
                made(answers, i) ==> exists|e: &mut E| #[trigger]
                    answered(e, clip(audio@, spans[i]), *opts, *control, answers[i])
            &&& #[trigger] concluded(answers, spans, stopped, r)
        };
    law_every_window_is_heard(*run, audio@, probs, state);
    law_spans_are_the_utterances(probs, 512, len, cfg);
    assert(all_utterances(probs, 512, len, cfg, spans));
    let results = answer_views(answers);
    assert forall|i: int| 0 <= i < results.len() implies can_say::<E>(
        audio@.subrange(spans[i].start, spans[i].end),
        *opts,
        control.cancel,
        #[trigger] results[i],
    ) by {
        assert(made(answers, i));
        assert(answers[i] is Ok);
        let e = choose|e: &mut E| #[trigger]
            answered(e, clip(audio@, spans[i]), *opts, *control, answers[i]);
        let (a, o, c) = choose|a: &[Single], o: &TranscribeOptions, c: &TranscribeControl|
            a@ == clip(audio@, spans[i]) && *o == *opts && c.cancel == control.cancel
                && c.on_progress is None && #[trigger] call_ensures(
                E::transcribe,
                (e, a, o, c),
                answers[i],
            );
        assert(call_ensures(E::transcribe, (e, a, o, c), Ok(answers[i]->Ok_0)));
    }
    if total_speech(spans) > 0 {
        law_gathered_content(results, spans);
        assert forall|k: int|
            0 <= k < results.len() && (#[trigger] results[k]).detected_language is Some && (forall|
                i: int,
            |
                0 <= i < k ==> (#[trigger] results[i]).detected_language is None) implies
            t@.detected_language == results[k].detected_language by {
            law_gathered_language(results, spans, k);
        }
        assert(all_said::<E>(audio@, spans, *opts, control.cancel, results));
    } else {
        lemma_no_speech(probs, len, cfg);
        assert(results =~= Seq::empty());
        law_gathered_content(results, spans);
        assert(put_together(results, spans, t@));
        assert(all_said::<E>(audio@, spans, *opts, control.cancel, results));
    }
}

/// Success is owed: under a control that cannot say that the caller cancelled, with a VAD
/// graph that always answers, with a probability and a state, and an engine that always
/// succeeds, a call of [`transcribe_with_vad`] succeeds.
pub proof fn law_success_is_owed<
    E: AsrEngine + ?Sized,
    F: Fn(&[Single], &[Single]) -> VadAnswer,
>(
    audio: &[Single],
    opts: &TranscribeOptions,
    control: &TranscribeControl,
    run: &F,
    cfg: VadConfig,
    r: Result<TranscriptionResult, AsrError>,
)
    requires
        exists|e: &mut E, v: &mut SileroVad|
            (*v).config == cfg && #[trigger] call_ensures(
                transcribe_with_vad::<E, F>,
                (e, v, audio, opts, control, run),
                r,
            ),
        control.cancel matches Some(flag) ==> !flag_reads(&flag, true),
        forall|w: &[Single], s: &[Single], q: VadAnswer| #[trigger]
            call_ensures(*run, (w, s), q) ==> (q matches Ok(out) && out.probability@.len() > 0
                && out.state is Ok),
        forall|
            e: &mut E,
            a: &[Single],
            o: &TranscribeOptions,
            c: &TranscribeControl,
            q: Result<TranscriptionResult, AsrError>,
        | #[trigger]
            call_ensures(E::transcribe, (e, a, o, c), q) ==> q is Ok,
    ensures
        r is Ok,
{
    if audio@.len() > 0 && r is Err {
        let len = audio@.len() as int;
        assert(!probing_fails(*run, audio@, r->Err_0@));
        let (probs, state, spans, answers, stopped) = choose|
            probs: Seq<Single>,
            state: Seq<Single>,
            spans: Seq<Span>,
            answers: Answers,
            stopped: bool,
        |
            {
                &&& #[trigger] probed(*run, audio@, window_count(len) as nat, probs, state)
                &&& spans == speech_spans(probs, len, cfg)
                &&& forall|i: int|
                    #![trigger answers[i]]
                    made(answers, i) ==> exists|e: &mut E| #[trigger]
                        answered(e, clip(audio@, spans[i]), *opts, *control, answers[i])
                &&& #[trigger] concluded(answers, spans, stopped, r)
                &&& total_speech(spans) > 0 ==> control.reads(stopped)
            };
        lemma_some_speech(*run, audio@, probs, state, cfg);
        assert(made(answers, answers.len() - 1));
        assert(answers[answers.len() - 1] == r);
    }
}

/// There is no less than no speech.
proof fn lemma_some_speech<F: Fn(&[Single], &[Single]) -> VadAnswer>(
    run: F,
    audio: Seq<Single>,
    probs: Seq<Single>,
    state: Seq<Single>,
    cfg: VadConfig,
)
    requires
        audio.len() > 0,
        probed(run, audio, window_count(audio.len() as int) as nat, probs, state),
    ensures
        total_speech(speech_spans(probs, audio.len() as int, cfg)) >= 0,
{
    let len = audio.len() as int;
    let spans = speech_spans(probs, len, cfg);
    law_every_window_is_heard(run, audio, probs, state);
    crate::vad::law_segments_lie_in_the_buffer(probs, 512, len, cfg);
    assert forall|i: int| 0 <= i < spans.len() implies 0 <= (#[trigger] spans[i]).start
        <= spans[i].end <= len by {}
    assert(in_order(spans, len));
    lemma_total(spans, len, 0);
    assert(spans.take(0) =~= Seq::empty());
}

/// The percentages after the spans are the shares of the speech that is done, rounded
/// down, and the last one is 100.
pub proof fn law_speech_marks_are_shares(spans: Seq<Span>, len: int, i: int)
    requires
        in_order(spans, len),
        total_speech(spans) > 0,
        0 <= i < spans.len(),
    ensures
        0 <= total_speech(spans.take(i + 1)) * 100 - speech_marks(spans)[i] * total_speech(spans)
            < total_speech(spans),
        i == spans.len() - 1 ==> speech_marks(spans)[i] == 100,
{
    let n = total_speech(spans.take(i + 1)) * 100;
    let total = total_speech(spans);
    let q = n / total;
    vstd::arithmetic::div_mod::lemma_fundamental_div_mod(n, total);
    vstd::arithmetic::div_mod::lemma_mod_bound(n, total);
    assert(q * total == total * q) by (nonlinear_arith);
    if i == spans.len() - 1 {
        assert(spans.take(i + 1) =~= spans);
        lemma_share(total, total, total);
    }
}

/// Every region holds samples, so without samples there is none.
proof fn lemma_no_speech(probs: Seq<Single>, len: int, cfg: VadConfig)
    requires
        total_speech(speech_spans(probs, len, cfg)) <= 0,
        0 <= len,
        probs.len() > 0 ==> (probs.len() - 1) * 512 <= len,
    ensures
        speech_spans(probs, len, cfg).len() == 0,
{
    let spans = speech_spans(probs, len, cfg);
    crate::vad::law_segments_lie_in_the_buffer(probs, 512, len, cfg);
    if spans.len() > 0 {
        let k = spans.len() - 1;
        assert(spans[k].start < spans[k].end);
        assert forall|i: int| 0 <= i < spans.len() implies 0 <= (#[trigger] spans[i]).start
            <= spans[i].end <= len by {}
        assert(in_order(spans, len));
        lemma_total(spans, len, k);
        assert(spans.take(k) =~= spans.drop_last());
    }
}

/// Lists of results with the same texts have the same texts, spaced.
proof fn lemma_same_texts(a: Seq<ResultView>, b: Seq<ResultView>)
    requires
        a.len() == b.len(),
        forall|i: int| 0 <= i < a.len() ==> (#[trigger] a[i]).text == b[i].text,
    ensures
        spaced_texts(a) == spaced_texts(b),
    decreases a.len(),
{
    reveal(Seq::filter);
    let has = |p: ResultView| p.text.len() > 0;
    let led = |p: ResultView| seq![' '] + p.text;
    if a.len() == 0 {
        assert(a =~= b);
    } else {
        let x = a.drop_last();
        let y = b.drop_last();
        assert forall|i: int| 0 <= i < x.len() implies (#[trigger] x[i]).text == y[i].text by {
            assert(x[i] == a[i] && y[i] == b[i]);
        }
        lemma_same_texts(x, y);
        assert(a[a.len() - 1].text == b[b.len() - 1].text);
        if a.last().text.len() > 0 {
            let p = x.filter(has);
            let q = y.filter(has);
            assert(p.push(a.last()).map_values(led) =~= p.map_values(led).push(led(a.last())));
            assert(q.push(b.last()).map_values(led) =~= q.map_values(led).push(led(b.last())));
            p.map_values(led).lemma_flatten_push(led(a.last()));
            q.map_values(led).lemma_flatten_push(led(b.last()));
        }
    }
}

/// The whole carries a coherent timeline whatever the backend: where the segments
/// that a backend gave run forward inside their span, all segments run forward
/// inside the clip.
pub proof fn law_gathered_timeline(results: Seq<ResultView>, spans: Seq<Span>, len: int)
    requires
        results.len() == spans.len(),
        in_order(spans, len),
        len <= i64::MAX,
        forall|i: int|
            0 <= i < results.len() ==> timeline(
                (#[trigger] results[i]).segments,
                0,
                spans[i].end - spans[i].start,
            ),
    ensures
        timeline(gathered(results, spans).segments, 0, len),
{
    law_gathered_is_stitched(results, spans);
    let parts = Seq::new(results.len(), |i: int| timed(results[i], spans[i]));
    let starts = Seq::new(results.len(), |i: int| spans[i].start);
    let ends = Seq::new(results.len(), |i: int| spans[i].end);
    assert forall|i: int| 0 <= i < parts.len() implies 0 <= (#[trigger] starts[i]) <= ends[i]
        <= i64::MAX && timeline(parts[i].segments, 0, ends[i] - starts[i]) by {
        assert(spans[i].start <= spans[i].end);
        assert(timeline(results[i].segments, 0, spans[i].end - spans[i].start));
    }
    assert forall|i: int, j: int| 0 <= i < j < parts.len() implies #[trigger] ends[i]
        <= #[trigger] starts[j] by {
        assert(spans[i].end <= spans[j].start);
    }
    law_timeline(parts, starts, ends);
    if parts.len() > 0 {
        assert(spans[parts.len() - 1].end <= len);
    }
}

/// Where the engine's texts have no white space at either end, neither has the
/// whole.
pub proof fn law_gathered_text_is_tidy(results: Seq<ResultView>, spans: Seq<Span>)
    requires
        results.len() == spans.len(),
        forall|i: int| 0 <= i < results.len() ==> tidy((#[trigger] results[i]).text),
    ensures
        tidy(gathered(results, spans).text),
{
    law_gathered_is_stitched(results, spans);
    let parts = Seq::new(results.len(), |i: int| timed(results[i], spans[i]));
    assert forall|i: int| 0 <= i < parts.len() implies tidy((#[trigger] parts[i]).text) by {
        assert(tidy(results[i].text));
    }
    law_stitched_text_is_tidy(parts, Seq::new(results.len(), |i: int| spans[i].start));
}

/// The language of the whole is the first one that any span reports.
pub proof fn law_gathered_language(results: Seq<ResultView>, spans: Seq<Span>, k: int)
    requires
        results.len() == spans.len(),
        0 <= k < results.len(),
        results[k].detected_language is Some,
        forall|i: int| 0 <= i < k ==> (#[trigger] results[i]).detected_language is None,
    ensures
        gathered(results, spans).detected_language == results[k].detected_language,
{
    law_gathered_is_stitched(results, spans);
    let parts = Seq::new(results.len(), |i: int| timed(results[i], spans[i]));
    assert forall|i: int| 0 <= i < k implies (#[trigger] parts[i]).detected_language is None by {
        assert(results[i].detected_language is None);
    }
    law_first_language_wins(parts, Seq::new(results.len(), |i: int| spans[i].start), k);
}

/// A requested cancellation is answered with `Cancelled`: where there is speech and
/// the control can only say that the caller cancelled, the engine is not called.
pub proof fn law_a_cancellation_stops_before_a_span(
    answers: Answers,
    spans: Seq<Span>,
    control: TranscribeControl,
    stopped: bool,
    r: Result<TranscriptionResult, AsrError>,
)
    requires
        total_speech(spans) > 0,
        concluded(answers, spans, stopped, r),
        control.reads(stopped),
        answers.len() > 0 ==> control.reads(false),
        !control.reads(false),
    ensures
        answers.len() == 0,
        outcome(r) == Err::<ResultView, _>(ErrorView::Cancelled),
{
}

/// All-silence audio has no speech to transcribe.
pub proof fn law_silence_has_no_speech(probs: Seq<Single>, len: int, cfg: VadConfig)
    requires
        forall|i: int| 0 <= i < probs.len() ==> !(#[trigger] probs[i]).ge(cfg.threshold),
    ensures
        speech_spans(probs, len, cfg).len() == 0,
        total_speech(speech_spans(probs, len, cfg)) == 0,
{
    law_silence_has_no_region(probs, WINDOW_SAMPLES as int, len, cfg);
}

/// A span whose result has text has a segment in the whole.
pub proof fn law_spoken_spans_are_timed(inner: ResultView, span: Span)
    requires
        inner.text.len() > 0,
    ensures
        timed(inner, span).segments.len() > 0,
        timed(inner, span).text == inner.text,
{
}

/// What a call of [`transcribe_with_vad`] fails with comes from the caller's flag, from
/// the engine or from the VAD, as it is.
pub proof fn law_failures_come_through<
    E: AsrEngine + ?Sized,
    F: Fn(&[Single], &[Single]) -> VadAnswer,
>(
    audio: &[Single],
    opts: &TranscribeOptions,
    control: &TranscribeControl,
    run: &F,
    cfg: VadConfig,
    err: AsrError,
)
    requires
        exists|e: &mut E, v: &mut SileroVad|
            (*v).config == cfg && #[trigger] call_ensures(
                transcribe_with_vad::<E, F>,
                (e, v, audio, opts, control, run),
                Err(err),
            ),
    ensures
        ({
            ||| err@ == ErrorView::Cancelled && (control.cancel matches Some(flag) && flag_reads(
                &flag,
                true,
            ))
            ||| probing_fails(*run, audio@, err@)
            ||| exists|e: &mut E, a: &[Single], c: &TranscribeControl|
                c.cancel == control.cancel && #[trigger] call_ensures(
                    E::transcribe,
                    (e, a, opts, c),
                    Err(err),
                )
        }),
{
    let r: Result<TranscriptionResult, AsrError> = Err(err);
    if !probing_fails(*run, audio@, err@) {
        let len = audio@.len() as int;
        let (probs, state, spans, answers, stopped) = choose|
            probs: Seq<Single>,
            state: Seq<Single>,
            spans: Seq<Span>,
            answers: Answers,
            stopped: bool,
        |
            {
                &&& #[trigger] probed(*run, audio@, window_count(len) as nat, probs, state)
                &&& spans == speech_spans(probs, len, cfg)
                &&& forall|i: int|
                    #![trigger answers[i]]
                    made(answers, i) ==> exists|e: &mut E| #[trigger]
                        answered(e, clip(audio@, spans[i]), *opts, *control, answers[i])
                &&& #[trigger] concluded(answers, spans, stopped, r)
                &&& total_speech(spans) > 0 ==> control.reads(stopped)
            };
        lemma_some_speech(*run, audio@, probs, state, cfg);
        if !stopped {
            let i = answers.len() - 1;
            assert(made(answers, i));
            assert(answers[i] == r);
            let e = choose|e: &mut E| #[trigger]
                answered(e, clip(audio@, spans[i]), *opts, *control, answers[i]);
            let (a, o, c) = choose|a: &[Single], o: &TranscribeOptions, c: &TranscribeControl|
                a@ == clip(audio@, spans[i]) && *o == *opts && c.cancel == control.cancel
                    && c.on_progress is None && #[trigger] call_ensures(
                    E::transcribe,
                    (e, a, o, c),
                    answers[i],
                );
            assert(call_ensures(E::transcribe, (e, a, opts, c), Err(err)));
        }
    }
}

} // verus!
