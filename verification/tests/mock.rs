use dictata_engine::engines::mock::MockEngine;
use dictata_engine::engines::Backends;
use dictata_engine::single::Single;
use dictata_engine::types::ProgressSink;
use dictata_engine::{
    load_engine, AsrEngine, AsrError, DevicePreference, EngineConfig, EngineKind, TranscribeControl,
    TranscribeOptions,
};
use std::sync::atomic::{AtomicBool, AtomicU8, Ordering};
use std::sync::Arc;

fn singles(values: &[f32]) -> Vec<Single> {
    values.iter().map(|v| Single::from_bits(v.to_bits())).collect()
}

struct Last(Arc<AtomicU8>);

impl ProgressSink for Last {
    fn progress(&self, pct: u8) {
        self.0.store(pct, Ordering::Relaxed);
    }
}

#[test]
fn empty_audio_yields_empty_result() {
    let mut m = MockEngine::new("must not appear");
    let out = m
        .transcribe(&[], &TranscribeOptions::default(), &TranscribeControl::none())
        .unwrap();
    assert!(out.text.is_empty());
    assert!(out.detected_language.is_none());
    assert!(out.segments.is_empty());
}

#[test]
fn non_empty_audio_returns_canned_text() {
    let mut m = MockEngine::new("bonjour");
    let out = m
        .transcribe(
            &singles(&[0.2, 0.3]),
            &TranscribeOptions::default(),
            &TranscribeControl::none(),
        )
        .unwrap();
    assert_eq!(out.text, "bonjour");
    assert_eq!(out.detected_language.as_deref(), Some("english"));
    assert_eq!(out.segments.len(), 1);
    assert_eq!(out.segments[0].text, "bonjour");
    assert_eq!(out.segments[0].start, 0);
    assert_eq!(out.segments[0].end, 2);
}

#[test]
fn requested_language_is_echoed_back() {
    let mut m = MockEngine::new("hola");
    let opts = TranscribeOptions {
        language: Some("spanish".into()),
        ..Default::default()
    };
    let out = m
        .transcribe(&singles(&[0.1]), &opts, &TranscribeControl::none())
        .unwrap();
    assert_eq!(out.detected_language.as_deref(), Some("spanish"));
}

#[test]
fn a_pre_set_cancel_flag_yields_cancelled() {
    let mut m = MockEngine::new("should not appear");
    let control = TranscribeControl {
        cancel: Some(Arc::new(AtomicBool::new(true))),
        on_progress: None,
    };
    assert!(matches!(
        m.transcribe(&singles(&[0.2, 0.3]), &TranscribeOptions::default(), &control),
        Err(AsrError::Cancelled)
    ));
    // The flag comes before even an empty clip.
    assert!(matches!(
        m.transcribe(&[], &TranscribeOptions::default(), &control),
        Err(AsrError::Cancelled)
    ));
}

#[test]
fn progress_reaches_100_on_success() {
    let seen = Arc::new(AtomicU8::new(0));
    let control = TranscribeControl {
        cancel: None,
        on_progress: Some(Arc::new(Last(seen.clone()))),
    };
    let mut m = MockEngine::new("bonjour");
    m.transcribe(&singles(&[0.2, 0.3]), &TranscribeOptions::default(), &control)
        .unwrap();
    assert_eq!(seen.load(Ordering::Relaxed), 100);
}

#[test]
fn progress_is_clamped_and_a_silent_control_reports_nothing() {
    let seen = Arc::new(AtomicU8::new(0));
    let control = TranscribeControl {
        cancel: Some(Arc::new(AtomicBool::new(true))),
        on_progress: Some(Arc::new(Last(seen.clone()))),
    };
    control.report_progress(250);
    assert_eq!(seen.load(Ordering::Relaxed), 100);
    control.report_progress(7);
    assert_eq!(seen.load(Ordering::Relaxed), 7);
    let quiet = control.silenced();
    quiet.report_progress(50);
    assert_eq!(seen.load(Ordering::Relaxed), 7);
    assert!(quiet.is_cancelled());
    assert!(!TranscribeControl::default().is_cancelled());
}

#[test]
fn calls_are_independent() {
    let mut m = MockEngine::new("same");
    let a = m
        .transcribe(&singles(&[0.1]), &TranscribeOptions::default(), &TranscribeControl::none())
        .unwrap();
    let b = m
        .transcribe(&singles(&[0.1]), &TranscribeOptions::default(), &TranscribeControl::none())
        .unwrap();
    assert_eq!(a.text, b.text);
    assert_eq!(a.segments, b.segments);
    assert_eq!(m.capabilities().name, "mock");
    assert!(m.capabilities().supports_prompt);
}

fn config(path: &str) -> EngineConfig {
    EngineConfig {
        model_path: path.into(),
        device: DevicePreference::Auto,
        default_language: None,
        crash_marker: None,
    }
}

const NONE: Backends = Backends {
    whisper: false,
    parakeet: false,
    sensevoice: false,
    moonshine: false,
    zipformer: false,
};

const ALL: Backends = Backends {
    whisper: true,
    parakeet: true,
    sensevoice: true,
    moonshine: true,
    zipformer: true,
};

fn open(_kind: EngineKind, config: &EngineConfig) -> Result<Box<dyn AsrEngine>, AsrError> {
    if config.model_path.exists() {
        Ok(Box::new(MockEngine::new("loaded")))
    } else {
        Err(AsrError::ModelNotFound(config.model_path.display().to_string()))
    }
}

#[test]
fn load_engine_never_yields_an_engine_from_a_bogus_config() {
    let cfg = config("::/does/not/exist");
    for kind in [EngineKind::Whisper, EngineKind::Parakeet] {
        for backends in [NONE, ALL] {
            match load_engine(kind, &cfg, backends, open) {
                Err(_) => {}
                Ok(_) => panic!("a nonexistent path must never yield an engine ({kind:?})"),
            }
        }
    }
}

#[test]
fn whisper_arm_is_unavailable_without_its_feature() {
    let cfg = config("irrelevant");
    let without = Backends { whisper: false, ..ALL };
    assert!(matches!(
        load_engine(EngineKind::Whisper, &cfg, without, open),
        Err(AsrError::BackendUnavailable(_))
    ));
}

#[test]
fn each_backend_that_was_not_built_says_so() {
    let cfg = config(".");
    for (kind, name) in [
        (EngineKind::Whisper, "whisper"),
        (EngineKind::Parakeet, "parakeet"),
        (EngineKind::SenseVoice, "sensevoice"),
        (EngineKind::Moonshine, "moonshine"),
        (EngineKind::Zipformer, "zipformer"),
    ] {
        match load_engine(kind, &cfg, NONE, open) {
            Err(AsrError::BackendUnavailable(m)) => {
                assert_eq!(m, format!("{name} backend not built (feature `{name}` off)"));
            }
            _ => panic!("{name} must be unavailable"),
        }
        assert!(load_engine(kind, &cfg, ALL, open).is_ok());
    }
}

#[test]
fn engine_is_usable_as_a_trait_object() {
    let mut engine: Box<dyn AsrEngine> = Box::new(MockEngine::new("salut"));
    let out = engine
        .transcribe(
            &singles(&[0.1, -0.1]),
            &TranscribeOptions::default(),
            &TranscribeControl::none(),
        )
        .unwrap();
    assert_eq!(out.text, "salut");
    assert!(engine.capabilities().supports_prompt || !engine.capabilities().supports_prompt);
}

#[test]
fn errors_are_shown_as_sentences() {
    let cases = [
        (AsrError::ModelNotFound("m".into()), "model not found: m"),
        (AsrError::Load("m".into()), "model load failed: m"),
        (AsrError::Transcribe("m".into()), "transcription failed: m"),
        (AsrError::BackendUnavailable("m".into()), "backend unavailable: m"),
        (AsrError::Unsupported("m".into()), "unsupported: m"),
        (AsrError::Cancelled, "transcription cancelled"),
    ];
    for (e, shown) in cases {
        assert_eq!(e.message(), shown);
        assert_eq!(String::from(e), shown);
    }
}

#[test]
fn defaults_are_inert() {
    let opts = TranscribeOptions::default();
    assert!(opts.language.is_none() && opts.initial_prompt.is_none() && opts.vad_model.is_none());
    assert!(!opts.translate);
    assert_eq!(opts.beam_size, 0);
    assert_eq!(DevicePreference::default(), DevicePreference::Auto);
}
