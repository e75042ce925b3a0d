use dictata_engine::engines::mock::MockEngine;
use dictata_engine::model::{Graph, ModelFile};
use dictata_engine::pipeline::{place_result, transcribe_with_vad};
use dictata_engine::single::Single;
use dictata_engine::types::ProgressSink;
use dictata_engine::vad::{
    SileroVad, VadAnswer, VadConfig, VadOutput, VadStage, WINDOW_SAMPLES,
};
use dictata_engine::{
    AsrEngine, AsrError, EngineCapabilities, Segment, TranscribeControl, TranscribeOptions,
    TranscriptionResult, SAMPLE_RATE,
};
use std::sync::atomic::{AtomicBool, Ordering};
use std::sync::{Arc, Mutex};

fn seconds(time: i64) -> f32 {
    time as f32 / SAMPLE_RATE as f32
}

fn seg(t: &str, start: f32, end: f32) -> Segment {
    let at = |secs: f32| (secs * SAMPLE_RATE as f32).round() as i64;
    Segment { text: t.into(), start: at(start), end: at(end) }
}

fn single(v: f32) -> Single {
    Single::from_bits(v.to_bits())
}

#[test]
fn a_backend_without_timing_gets_a_synthesized_span_segment() {
    let inner = TranscriptionResult {
        text: "hello there".into(),
        detected_language: None,
        segments: Vec::new(),
    };
    let mut text = String::new();
    let mut segments = Vec::new();
    let mut lang = None;
    // Span [16000, 48000) samples = [1.0 s, 3.0 s).
    place_result(inner, 16_000, 48_000, &mut text, &mut segments, &mut lang);

    assert_eq!(text, "hello there");
    assert_eq!(segments.len(), 1);
    assert_eq!(segments[0].text, "hello there");
    assert!((seconds(segments[0].start) - 1.0).abs() < 1e-6);
    assert!((seconds(segments[0].end) - 3.0).abs() < 1e-6);
}

#[test]
fn a_backend_with_timing_has_its_segments_shifted_onto_the_global_timeline() {
    let inner = TranscriptionResult {
        text: "one two".into(),
        detected_language: Some("english".into()),
        segments: vec![seg("one", 0.0, 0.5), seg("two", 0.5, 1.2)],
    };
    let mut text = String::new();
    let mut segments = Vec::new();
    let mut lang = None;
    place_result(inner, 16_000, 48_000, &mut text, &mut segments, &mut lang);

    assert_eq!(text, "one two");
    assert_eq!(lang.as_deref(), Some("english"));
    assert_eq!(segments.len(), 2);
    assert!((seconds(segments[0].start) - 1.0).abs() < 1e-6);
    assert!((seconds(segments[0].end) - 1.5).abs() < 1e-6);
    assert!((seconds(segments[1].start) - 1.5).abs() < 1e-6);
    assert!((seconds(segments[1].end) - 2.2).abs() < 1e-6);
}

#[test]
fn spans_are_concatenated_with_a_space_and_first_language_wins() {
    let mut text = String::new();
    let mut segments = Vec::new();
    let mut lang = None;

    place_result(
        TranscriptionResult {
            text: "first".into(),
            detected_language: Some("french".into()),
            segments: Vec::new(),
        },
        0,
        16_000,
        &mut text,
        &mut segments,
        &mut lang,
    );
    place_result(
        TranscriptionResult {
            text: "second".into(),
            detected_language: Some("english".into()),
            segments: Vec::new(),
        },
        32_000,
        48_000,
        &mut text,
        &mut segments,
        &mut lang,
    );

    assert_eq!(text, "first second");
    assert_eq!(lang.as_deref(), Some("french"));
    assert_eq!(segments.len(), 2);
    assert!((seconds(segments[1].start) - 2.0).abs() < 1e-6);
}

#[test]
fn an_empty_span_result_adds_no_text_and_no_segment() {
    let mut text = String::from("kept");
    let mut segments = Vec::new();
    let mut lang = None;
    place_result(
        TranscriptionResult::default(),
        16_000,
        32_000,
        &mut text,
        &mut segments,
        &mut lang,
    );
    assert_eq!(text, "kept");
    assert!(segments.is_empty());
}

// --- gated transcription ---

struct Seen(Arc<Mutex<Vec<u8>>>);

impl ProgressSink for Seen {
    fn progress(&self, pct: u8) {
        self.0.lock().unwrap().push(pct);
    }
}

fn vad() -> SileroVad {
    let file = ModelFile { shown: "silero_vad.onnx".into(), exists: true };
    let graph = Graph::Open {
        inputs: vec!["input".into(), "state".into(), "sr".into()],
        outputs: Vec::new(),
    };
    SileroVad::load(&file, &graph, VadConfig::default()).ok().unwrap()
}

/// Speech wherever the first sample of the window is positive.
fn run(window: &[Single], state: &[Single]) -> VadAnswer {
    let p = if f32::from_bits(window[0].to_bits()) > 0.0 { 0.9 } else { 0.0 };
    Ok(VadOutput { probability: vec![single(p)], state: Ok(state.to_vec()) })
}

/// 60 windows with speech in windows 5..20 and 30..50.
fn clip() -> Vec<Single> {
    let mut audio = vec![single(0.0); 60 * WINDOW_SAMPLES];
    for w in (5..20).chain(30..50) {
        audio[w * WINDOW_SAMPLES] = single(0.5);
    }
    audio
}

/// Tells how many samples it was handed, and no times.
struct Counter {
    heard: Vec<usize>,
    cancel_after: Option<Arc<AtomicBool>>,
    fail: bool,
    inner: MockEngine,
}

impl AsrEngine for Counter {
    fn transcribe(
        &mut self,
        audio: &[Single],
        _opts: &TranscribeOptions,
        control: &TranscribeControl,
    ) -> Result<TranscriptionResult, AsrError> {
        assert!(control.on_progress.is_none());
        self.heard.push(audio.len());
        if let Some(flag) = &self.cancel_after {
            flag.store(true, Ordering::Relaxed);
        }
        if self.fail {
            return Err(AsrError::Transcribe("broken".into()));
        }
        Ok(TranscriptionResult {
            text: format!("part{}", self.heard.len()),
            detected_language: None,
            segments: Vec::new(),
        })
    }

    fn capabilities(&self) -> &EngineCapabilities {
        self.inner.capabilities()
    }
}

fn counter() -> Counter {
    Counter { heard: Vec::new(), cancel_after: None, fail: false, inner: MockEngine::new("") }
}

#[test]
fn only_speech_reaches_the_engine_and_progress_follows_it() {
    let log = Arc::new(Mutex::new(Vec::new()));
    let control = TranscribeControl {
        cancel: None,
        on_progress: Some(Arc::new(Seen(log.clone()))),
    };
    let mut engine = counter();
    let out = transcribe_with_vad(
        &mut engine,
        &mut vad(),
        &clip(),
        &TranscribeOptions::default(),
        &control,
        &run,
    )
    .ok()
    .unwrap();
    let (a, b) = (15 * WINDOW_SAMPLES + 960, 20 * WINDOW_SAMPLES + 960);
    assert_eq!(engine.heard, vec![a, b]);
    assert_eq!(out.text, "part1 part2");
    assert_eq!(out.segments.len(), 2);
    assert_eq!(out.segments[0].start, 5 * 512 - 480);
    assert_eq!(out.segments[0].end, 20 * 512 + 480);
    assert_eq!(out.segments[1].start, 30 * 512 - 480);
    assert_eq!(out.segments[1].end, 50 * 512 + 480);
    assert_eq!(*log.lock().unwrap(), vec![(a * 100 / (a + b)) as u8, 100, 100]);
}

#[test]
fn silence_and_empty_audio_give_nothing_and_finish() {
    for audio in [Vec::new(), vec![single(0.0); 5000]] {
        let log = Arc::new(Mutex::new(Vec::new()));
        let control = TranscribeControl {
            cancel: None,
            on_progress: Some(Arc::new(Seen(log.clone()))),
        };
        let mut engine = counter();
        let out = transcribe_with_vad(
            &mut engine,
            &mut vad(),
            &audio,
            &TranscribeOptions::default(),
            &control,
            &run,
        )
        .ok()
        .unwrap();
        assert!(out.text.is_empty() && out.segments.is_empty());
        assert!(engine.heard.is_empty());
        assert_eq!(*log.lock().unwrap(), vec![100]);
    }
}

#[test]
fn a_cancellation_between_spans_stops_the_pipeline() {
    let flag = Arc::new(AtomicBool::new(false));
    let control = TranscribeControl { cancel: Some(flag.clone()), on_progress: None };
    let mut engine = counter();
    engine.cancel_after = Some(flag);
    let r = transcribe_with_vad(
        &mut engine,
        &mut vad(),
        &clip(),
        &TranscribeOptions::default(),
        &control,
        &run,
    );
    assert!(matches!(r, Err(AsrError::Cancelled)));
    assert_eq!(engine.heard.len(), 1);
}

#[test]
fn a_cancellation_before_the_first_span_leaves_the_engine_alone() {
    let log = Arc::new(Mutex::new(Vec::new()));
    let control = TranscribeControl {
        cancel: Some(Arc::new(AtomicBool::new(true))),
        on_progress: Some(Arc::new(Seen(log.clone()))),
    };
    let mut engine = counter();
    let opts = TranscribeOptions::default();
    let r = transcribe_with_vad(&mut engine, &mut vad(), &clip(), &opts, &control, &run);
    assert!(matches!(r, Err(AsrError::Cancelled)));
    assert!(engine.heard.is_empty());
    assert!(log.lock().unwrap().is_empty());
    // Without speech there is nothing to cancel.
    let silence = vec![single(0.0); 5000];
    let r = transcribe_with_vad(&mut engine, &mut vad(), &silence, &opts, &control, &run);
    assert!(r.ok().unwrap().text.is_empty());
    assert_eq!(*log.lock().unwrap(), vec![100]);
}

#[test]
fn errors_of_the_engine_and_of_the_detector_come_through() {
    let mut engine = counter();
    engine.fail = true;
    let opts = TranscribeOptions::default();
    let none = TranscribeControl::none();
    match transcribe_with_vad(&mut engine, &mut vad(), &clip(), &opts, &none, &run) {
        Err(AsrError::Transcribe(m)) => assert_eq!(m, "broken"),
        _ => panic!("the engine's error is expected"),
    }
    let deaf = |_w: &[Single], _s: &[Single]| -> VadAnswer {
        Err((VadStage::Inference, "deaf".to_string()))
    };
    match transcribe_with_vad(&mut counter(), &mut vad(), &clip(), &opts, &none, &deaf) {
        Err(AsrError::Transcribe(m)) => assert_eq!(m, "vad inference: deaf"),
        _ => panic!("the detector's error is expected"),
    }
}
