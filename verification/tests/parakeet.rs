use dictata_engine::engines::parakeet::{
    read_window, select_provider, ParakeetEngine, ParakeetOutput, Provider,
};
use dictata_engine::model::{Host, ModelDir};
use dictata_engine::monitor::Monitor;
use dictata_engine::single::Single;
use dictata_engine::types::ProgressSink;
use dictata_engine::{
    AsrError, DevicePreference, EngineConfig, LanguageSupport, Segment, TranscribeControl,
    TranscribeOptions,
};
use std::sync::atomic::{AtomicBool, Ordering};
use std::sync::{Arc, Mutex};

const HOST: Host = Host { windows: false, parallelism: Some(12) };

#[test]
fn parakeet_capabilities_declare_no_whisper_only_options() {
    let caps = ParakeetEngine::capabilities_static();
    assert_eq!(caps.name, "parakeet-tdt");
    assert!(!caps.supports_prompt);
    assert!(!caps.supports_beam);
    assert!(!caps.supports_translate);
    assert!(!caps.supports_internal_vad);
    match caps.languages {
        LanguageSupport::Only(langs) => {
            assert_eq!(langs.len(), 25, "parakeet-tdt-v3 = 25 langues");
            assert!(langs.iter().any(|l| l == "french"));
        }
        LanguageSupport::Any => panic!("Parakeet has a closed language set"),
    }
}

fn config(path: &str, device: DevicePreference) -> EngineConfig {
    EngineConfig {
        model_path: path.into(),
        device,
        default_language: None,
        crash_marker: None,
    }
}

fn dir(config: &EngineConfig) -> ModelDir {
    ModelDir {
        shown: config.model_path.display().to_string(),
        exists: config.model_path.is_dir(),
        utf8_len: config.model_path.to_str().map(str::len),
        files: Vec::new(),
    }
}

#[test]
fn parakeet_load_reports_missing_model_directory() {
    let cfg = config("::/no/such/parakeet/dir", DevicePreference::Cpu);
    assert!(matches!(
        ParakeetEngine::load(&cfg, &dir(&cfg), HOST, false, &Ok(())),
        Err(AsrError::ModelNotFound(_))
    ));
}

#[test]
fn parakeet_load_passes_the_loaders_words_on() {
    let cfg = config(".", DevicePreference::Gpu);
    match ParakeetEngine::load(&cfg, &dir(&cfg), HOST, true, &Err("no vocab".into())) {
        Err(AsrError::Load(m)) => assert_eq!(m, "parakeet load: no vocab"),
        _ => panic!("a load error is expected"),
    }
    let engine = ParakeetEngine::load(&cfg, &dir(&cfg), HOST, true, &Ok(())).ok().unwrap();
    assert_eq!(engine.threads, 8);
    assert!(matches!(engine.provider, Provider::DirectMl));
}

#[test]
fn the_provider_follows_the_device() {
    for (device, directml, gpu) in [
        (DevicePreference::Cpu, true, false),
        (DevicePreference::Auto, true, true),
        (DevicePreference::Gpu, true, true),
        (DevicePreference::Auto, false, false),
        (DevicePreference::Gpu, false, false),
    ] {
        assert_eq!(matches!(select_provider(device, directml), Provider::DirectMl), gpu);
    }
}

fn sentence(text: &str, start: i64, end: i64) -> Segment {
    Segment { text: text.into(), start, end }
}

#[test]
fn blank_sentences_are_dropped() {
    let r = read_window(&ParakeetOutput {
        text: "  Hi there. ".into(),
        sentences: vec![sentence(" Hi", 0, 10), sentence(" \t", 10, 20), sentence("there. ", 20, 30)],
    });
    assert_eq!(r.text, "Hi there.");
    assert_eq!(r.segments, vec![sentence("Hi", 0, 10), sentence("there.", 20, 30)]);
    assert_eq!(r.detected_language, None);
}

struct Seen(Arc<Mutex<Vec<u8>>>);

impl ProgressSink for Seen {
    fn progress(&self, pct: u8) {
        self.0.lock().unwrap().push(pct);
    }
}

fn engine() -> ParakeetEngine {
    let cfg = config(".", DevicePreference::Cpu);
    ParakeetEngine::load(&cfg, &dir(&cfg), HOST, false, &Ok(())).ok().unwrap()
}

/// Every block sounds alike, so a cut comes at 30 s.
fn flat(_block: &[Single]) -> Single {
    Single::from_bits(0.5f32.to_bits())
}

#[test]
fn a_long_clip_is_transcribed_window_by_window() {
    let log = Arc::new(Mutex::new(Vec::new()));
    let control = TranscribeControl {
        cancel: None,
        on_progress: Some(Arc::new(Seen(log.clone()))),
    };
    // 70 s: windows of 30, 30 and 10 s.
    let audio = vec![Single::from_bits(0); 70 * 16_000];
    let lens = Mutex::new(Vec::new());
    let run = |w: &[Single], rate: u32, channels: u16| -> Result<ParakeetOutput, String> {
        let mut lens = lens.lock().unwrap();
        assert_eq!((rate, channels), (16_000, 1));
        lens.push(w.len());
        let n = lens.len();
        Ok(ParakeetOutput {
            text: if n == 2 { " ".into() } else { format!(" part{n} ") },
            sentences: vec![sentence(&format!("s{n}"), 160, 320)],
        })
    };
    let mut monitor = Monitor::new(&control);
    let r = engine()
        .transcribe(&audio, &TranscribeOptions::default(), &mut monitor, &flat, &run)
        .ok()
        .unwrap();
    assert_eq!(*lens.lock().unwrap(), vec![480_000, 480_000, 160_000]);
    assert_eq!(r.text, "part1 part3");
    assert_eq!(
        r.segments,
        vec![
            sentence("s1", 160, 320),
            sentence("s2", 480_160, 480_320),
            sentence("s3", 960_160, 960_320),
        ]
    );
    assert_eq!(*log.lock().unwrap(), vec![0, 42, 85, 100]);
}

#[test]
fn parakeet_stops_when_cancelled_and_reports_failures() {
    let flag = Arc::new(AtomicBool::new(false));
    let control = TranscribeControl { cancel: Some(flag.clone()), on_progress: None };
    let audio = vec![Single::from_bits(0); 70 * 16_000];
    let opts = TranscribeOptions::default();
    let calls = Mutex::new(0);
    let run = |_w: &[Single], _rate: u32, _channels: u16| -> Result<ParakeetOutput, String> {
        *calls.lock().unwrap() += 1;
        flag.store(true, Ordering::Relaxed);
        Ok(ParakeetOutput { text: "x".into(), sentences: Vec::new() })
    };
    assert!(matches!(
        engine().transcribe(&audio, &opts, &mut Monitor::new(&control), &flat, &run),
        Err(AsrError::Cancelled)
    ));
    assert_eq!(*calls.lock().unwrap(), 1);
    let fail = |_w: &[Single], _rate: u32, _channels: u16| -> Result<ParakeetOutput, String> { Err("oom".to_string()) };
    let none = TranscribeControl::none();
    match engine().transcribe(&audio, &opts, &mut Monitor::new(&none), &flat, &fail) {
        Err(AsrError::Transcribe(m)) => assert_eq!(m, "oom"),
        _ => panic!("the runtime's words are expected"),
    }
    let empty = engine().transcribe(&[], &opts, &mut Monitor::new(&control), &flat, &fail);
    assert_eq!(empty.ok().unwrap().text, "");
}

#[test]
fn a_refused_window_is_the_last_one_reported() {
    let log = Arc::new(Mutex::new(Vec::new()));
    let control = TranscribeControl {
        cancel: None,
        on_progress: Some(Arc::new(Seen(log.clone()))),
    };
    let audio = vec![Single::from_bits(0); 70 * 16_000];
    let calls = Mutex::new(0);
    let run = |_w: &[Single], _rate: u32, _channels: u16| -> Result<ParakeetOutput, String> {
        let mut n = calls.lock().unwrap();
        *n += 1;
        if *n == 2 {
            return Err("oom".to_string());
        }
        Ok(ParakeetOutput { text: "x".into(), sentences: Vec::new() })
    };
    let opts = TranscribeOptions::default();
    match engine().transcribe(&audio, &opts, &mut Monitor::new(&control), &flat, &run) {
        Err(AsrError::Transcribe(m)) => assert_eq!(m, "oom"),
        _ => panic!("the second window is refused"),
    }
    assert_eq!(*calls.lock().unwrap(), 2);
    assert_eq!(*log.lock().unwrap(), vec![0, 42]);
}
