use dictata_engine::engines::whisper::{
    fitted_audio_ctx, native_progress, read_output, resolve_language, LoadStep, VadFile,
    WhisperEngine, WhisperFile, WhisperOutput, WhisperParams, WhisperPiece,
};
use dictata_engine::model::Host;
use dictata_engine::monitor::Monitor;
use dictata_engine::single::Single;
use dictata_engine::types::ProgressSink;
use dictata_engine::{
    AsrError, DevicePreference, EngineConfig, LanguageSupport, TranscribeControl,
    TranscribeOptions,
};
use std::sync::atomic::AtomicBool;
use std::sync::{Arc, Mutex};

const RATE: usize = 16_000;
const HOST: Host = Host { windows: false, parallelism: Some(4) };

#[test]
fn resolve_language_prefers_call_then_default_then_none() {
    assert_eq!(resolve_language(Some("french"), Some("german")), Some("french"));
    assert_eq!(resolve_language(None, Some("german")), Some("german"));
    assert_eq!(resolve_language(None, None), None);
}

#[test]
fn audio_ctx_floors_at_5s() {
    assert_eq!(fitted_audio_ctx(RATE), 250);
    assert_eq!(fitted_audio_ctx(RATE / 2), 250);
}

#[test]
fn audio_ctx_always_covers_the_clip_with_margin() {
    for secs in 1..=29 {
        let ctx = fitted_audio_ctx(secs * RATE);
        assert!(
            ctx as f32 / 50.0 >= secs as f32 + 0.5,
            "{secs}s clip -> {ctx} frames does not cover the audio"
        );
    }
}

#[test]
fn audio_ctx_caps_at_full_for_long_clips() {
    assert_eq!(fitted_audio_ctx(30 * RATE), 1500);
    assert_eq!(fitted_audio_ctx(120 * RATE), 1500);
}

#[test]
fn audio_ctx_grows_in_steps_of_five_seconds() {
    assert_eq!(fitted_audio_ctx(9 * RATE / 2), 250);
    assert_eq!(fitted_audio_ctx(9 * RATE / 2 + 1), 500);
    assert_eq!(fitted_audio_ctx(59 * RATE / 2), 1500);
    assert_eq!(fitted_audio_ctx(0), 250);
    assert_eq!(fitted_audio_ctx(usize::MAX), 1500);
    // The same numbers as in single-precision arithmetic, on every tenth of a second.
    for tenths in 0..400usize {
        let n = tenths * RATE / 10;
        let secs = n as f32 / 16_000.0 + 0.5;
        let expected = ((secs / 5.0).ceil() * 5.0 * 50.0).min(1500.0) as i32;
        assert_eq!(fitted_audio_ctx(n), expected, "{n} samples");
    }
}

#[test]
fn native_progress_is_clamped() {
    assert_eq!(native_progress(-5), 0);
    assert_eq!(native_progress(42), 42);
    assert_eq!(native_progress(400), 100);
}

fn config(device: DevicePreference, marker: bool) -> EngineConfig {
    EngineConfig {
        model_path: "models/ggml.bin".into(),
        device,
        default_language: Some("german".into()),
        crash_marker: if marker { Some("marker".into()) } else { None },
    }
}

fn file() -> WhisperFile {
    WhisperFile {
        shown: "models/ggml.bin".into(),
        exists: true,
        utf8_len: Some(15),
        name: "ggml.bin".into(),
    }
}

#[test]
fn a_marker_stands_while_the_model_is_opened() {
    let steps = WhisperEngine::plan(&config(DevicePreference::Auto, true), &file(), HOST);
    let steps = steps.ok().unwrap();
    assert_eq!(steps.len(), 3);
    assert!(matches!(&steps[0], LoadStep::WriteMarker(name) if name == "ggml.bin"));
    assert!(matches!(&steps[1], LoadStep::Open { gpu: true, flash_attn: true }));
    assert!(matches!(&steps[2], LoadStep::ClearMarker));

    let steps = WhisperEngine::plan(&config(DevicePreference::Cpu, false), &file(), HOST);
    let steps = steps.ok().unwrap();
    assert_eq!(steps.len(), 1);
    assert!(matches!(&steps[0], LoadStep::Open { gpu: false, flash_attn: false }));
}

#[test]
fn whisper_load_errors() {
    let cfg = config(DevicePreference::Gpu, false);
    let absent = WhisperFile { exists: false, ..file() };
    match WhisperEngine::load(&cfg, &absent, HOST, &Ok(()), &Ok(())) {
        Err(AsrError::ModelNotFound(m)) => assert_eq!(m, "models/ggml.bin"),
        _ => panic!("an absent file is not found"),
    }
    let odd = WhisperFile { utf8_len: None, ..file() };
    match WhisperEngine::load(&cfg, &odd, HOST, &Ok(()), &Ok(())) {
        Err(AsrError::Load(m)) => assert_eq!(m, "model path is not valid UTF-8"),
        _ => panic!("a path must be text"),
    }
    let long = WhisperFile { utf8_len: Some(300), ..file() };
    let windows = Host { windows: true, parallelism: None };
    assert!(WhisperEngine::load(&cfg, &long, HOST, &Ok(()), &Ok(())).is_ok());
    match WhisperEngine::load(&cfg, &long, windows, &Ok(()), &Ok(())) {
        Err(AsrError::Load(m)) => assert_eq!(
            m,
            "model path too long (300 chars, Windows limit ~260): models/ggml.bin"
        ),
        _ => panic!("300 characters are too many"),
    }
    match WhisperEngine::load(&cfg, &file(), HOST, &Err("bad magic".into()), &Ok(())) {
        Err(AsrError::Load(m)) => assert_eq!(m, "model load: bad magic"),
        _ => panic!("the loader's words are expected"),
    }
    match WhisperEngine::load(&cfg, &file(), HOST, &Ok(()), &Err("no memory".into())) {
        Err(AsrError::Load(m)) => assert_eq!(m, "whisper state: no memory"),
        _ => panic!("the state's words are expected"),
    }
}

fn engine() -> WhisperEngine {
    WhisperEngine::load(&config(DevicePreference::Auto, false), &file(), HOST, &Ok(()), &Ok(()))
        .ok()
        .unwrap()
}

const NO_VAD: VadFile = VadFile { exists: false, path: None };

#[test]
fn whisper_honours_every_option() {
    let caps = WhisperEngine::capabilities_static();
    assert_eq!(caps.name, "whisper.cpp");
    assert!(caps.supports_prompt && caps.supports_beam);
    assert!(caps.supports_translate && caps.supports_internal_vad);
    assert!(matches!(caps.languages, LanguageSupport::Any));

    let opts = TranscribeOptions {
        language: None,
        translate: true,
        initial_prompt: Some("names".into()),
        beam_size: 5,
        vad_model: Some("vad.bin".into()),
    };
    let vad = VadFile { exists: true, path: Some("vad.bin".into()) };
    let p = engine().params(&opts, &vad, true, false, 28 * RATE);
    assert_eq!(p.beam_size, Some(5));
    assert_eq!(p.threads, 4);
    assert!(p.translate && p.single_segment && p.wire_cancel && !p.wire_progress);
    assert_eq!(p.language.as_deref(), Some("german"));
    assert_eq!(p.initial_prompt.as_deref(), Some("names"));
    assert_eq!(p.audio_ctx, 1500);
    assert_eq!(p.vad_model.as_deref(), Some("vad.bin"));

    let plain = TranscribeOptions {
        initial_prompt: Some(String::new()),
        beam_size: 1,
        vad_model: Some("vad.bin".into()),
        ..Default::default()
    };
    let gone = VadFile { exists: false, path: Some("vad.bin".into()) };
    let p = engine().params(&plain, &gone, false, true, 28 * RATE + 1);
    assert_eq!(p.beam_size, None);
    assert!(!p.single_segment && p.wire_progress);
    assert_eq!(p.initial_prompt, None);
    assert_eq!(p.vad_model, None);
}

fn output() -> WhisperOutput {
    WhisperOutput {
        pieces: vec![
            Some(WhisperPiece { text: " Hello".into(), start: 0, end: 150 }),
            None,
            Some(WhisperPiece { text: " world. ".into(), start: 150, end: 320 }),
        ],
        language_id: 0,
        language_name: Some("english".into()),
    }
}

#[test]
fn decoded_pieces_become_text_and_segments() {
    let r = read_output(&output());
    assert_eq!(r.text, "Hello world.");
    assert_eq!(r.detected_language.as_deref(), Some("english"));
    assert_eq!(r.segments.len(), 2);
    assert_eq!(r.segments[0].text, "Hello");
    // 1.5 s and 3.2 s, in samples.
    assert_eq!((r.segments[0].start, r.segments[0].end), (0, 24_000));
    assert_eq!((r.segments[1].start, r.segments[1].end), (24_000, 51_200));
    let unknown = WhisperOutput { language_id: -1, ..output() };
    assert_eq!(read_output(&unknown).detected_language, None);
}

struct Seen(Arc<Mutex<Vec<u8>>>);

impl ProgressSink for Seen {
    fn progress(&self, pct: u8) {
        self.0.lock().unwrap().push(pct);
    }
}

#[test]
fn whisper_transcribes_clean_audio() {
    let log = Arc::new(Mutex::new(Vec::new()));
    let control = TranscribeControl {
        cancel: Some(Arc::new(AtomicBool::new(false))),
        on_progress: Some(Arc::new(Seen(log.clone()))),
    };
    let run = |p: &WhisperParams, a: &[Single]| -> Result<WhisperOutput, String> {
        assert!(p.wire_cancel && p.wire_progress);
        assert_eq!(a, &[Single::from_bits(0), Single::from_bits(1.0f32.to_bits())]);
        Ok(output())
    };
    let audio = [Single::from_bits(f32::NAN.to_bits()), Single::from_bits(3.0f32.to_bits())];
    let mut monitor = Monitor::new(&control);
    let r = engine().transcribe(&audio, &TranscribeOptions::default(), &mut monitor, &NO_VAD, &run);
    assert_eq!(r.ok().unwrap().text, "Hello world.");
    assert_eq!(log.lock().unwrap().last(), Some(&100));
}

#[test]
fn whisper_failures_and_cancellation() {
    let opts = TranscribeOptions::default();
    let fail = |_p: &WhisperParams, _a: &[Single]| -> Result<WhisperOutput, String> {
        Err("aborted".to_string())
    };
    let audio = [Single::from_bits(0)];
    let none = TranscribeControl::none();
    match engine().transcribe(&audio, &opts, &mut Monitor::new(&none), &NO_VAD, &fail) {
        Err(AsrError::Transcribe(m)) => assert_eq!(m, "aborted"),
        _ => panic!("the runtime's words are expected"),
    }
    // A cancelled run is an interruption, whatever the runtime says.
    let cancelled = TranscribeControl {
        cancel: Some(Arc::new(AtomicBool::new(true))),
        on_progress: None,
    };
    assert!(matches!(
        engine().transcribe(&audio, &opts, &mut Monitor::new(&cancelled), &NO_VAD, &fail),
        Err(AsrError::Cancelled)
    ));
    let done = |_p: &WhisperParams, _a: &[Single]| -> Result<WhisperOutput, String> { Ok(output()) };
    assert!(matches!(
        engine().transcribe(&audio, &opts, &mut Monitor::new(&cancelled), &NO_VAD, &done),
        Err(AsrError::Cancelled)
    ));
    let empty = engine().transcribe(&[], &opts, &mut Monitor::new(&cancelled), &NO_VAD, &fail);
    assert_eq!(empty.ok().unwrap().text, "");
}
