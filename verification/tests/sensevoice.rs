use dictata_engine::engines::features::{
    apply_cmvn, apply_lfr, compute_fbank, FRAME_LEN, NUM_MEL,
};
use dictata_engine::engines::sensevoice::{
    greedy_ctc, lang_name_from_tag, parse_float_vec, split_fields, tokens_to_text, validate_lfr,
    Logits, SenseVoiceEngine, SenseVoiceInput, SenseVoiceStage,
};
use dictata_engine::model::{Graph, Host, Metadata, ModelDir, Tensor};
use dictata_engine::monitor::Monitor;
use dictata_engine::single::Single;
use dictata_engine::types::ProgressSink;
use dictata_engine::{
    AsrError, DevicePreference, EngineConfig, LanguageSupport, TranscribeControl,
    TranscribeOptions, TranscriptionResult,
};
use std::sync::atomic::{AtomicBool, Ordering};
use std::sync::{Arc, Mutex};

const HOST: Host = Host { windows: false, parallelism: Some(4) };

fn single(v: f32) -> Single {
    Single::from_bits(v.to_bits())
}

fn singles(values: &[f32]) -> Vec<Single> {
    values.iter().map(|v| single(*v)).collect()
}

fn floats(values: &[Single]) -> Vec<f32> {
    values.iter().map(|v| f32::from_bits(v.to_bits())).collect()
}

fn strings(list: &[&str]) -> Vec<String> {
    list.iter().map(|s| s.to_string()).collect()
}

fn parse(text: &str) -> Result<Single, String> {
    text.parse::<f32>().map(single).map_err(|e| e.to_string())
}

fn config(path: &str) -> EngineConfig {
    EngineConfig {
        model_path: path.into(),
        device: DevicePreference::Cpu,
        default_language: None,
        crash_marker: None,
    }
}

fn dir(config: &EngineConfig, files: &[&str]) -> ModelDir {
    ModelDir {
        shown: config.model_path.display().to_string(),
        exists: config.model_path.is_dir(),
        utf8_len: config.model_path.to_str().map(str::len),
        files: strings(files),
    }
}

const FILES: [&str; 2] = ["model.onnx", "tokens.txt"];

fn vocabulary() -> Result<String, String> {
    Ok("<blank> 0\n<|en|> 1\n<|HAPPY|> 2\n<|Speech|> 3\n<|withitn|> 4\n\u{2581}hello 5\n\u{2581}world 6\n"
        .to_string())
}

fn graph() -> Graph {
    Graph::Open {
        inputs: strings(&["x", "x_length", "language", "text_norm"]),
        outputs: strings(&["logits"]),
    }
}

/// Stacks one frame at a time.
fn meta() -> Metadata {
    vec![
        ("lfr_window_size".to_string(), "1".to_string()),
        ("lfr_window_shift".to_string(), "1".to_string()),
        ("neg_mean".to_string(), "0.5,".repeat(80)),
        ("inv_stddev".to_string(), "2.0 ".repeat(80)),
    ]
}

fn load(files: &[&str], graph: &Graph, meta: Metadata) -> Result<SenseVoiceEngine, AsrError> {
    let cfg = config(".");
    SenseVoiceEngine::load(&cfg, &dir(&cfg, files), HOST, &vocabulary(), graph, &Ok(meta), &parse)
}

#[test]
fn sensevoice_load_reports_missing_model_directory() {
    let cfg = config("::/no/such/sensevoice/dir");
    let r = SenseVoiceEngine::load(
        &cfg,
        &dir(&cfg, &[]),
        HOST,
        &vocabulary(),
        &graph(),
        &Ok(meta()),
        &parse,
    );
    assert!(matches!(r, Err(AsrError::ModelNotFound(_))));
}

#[test]
fn capabilities_declare_a_closed_language_set() {
    let caps = SenseVoiceEngine::capabilities_static();
    assert_eq!(caps.name, "sensevoice");
    assert!(!caps.supports_prompt);
    assert!(!caps.supports_beam);
    assert!(!caps.supports_translate);
    assert!(!caps.supports_internal_vad);
    match caps.languages {
        LanguageSupport::Only(langs) => {
            assert_eq!(langs.len(), 5);
            assert!(langs.iter().any(|l| l == "english"));
        }
        LanguageSupport::Any => panic!("SenseVoice has a closed language set"),
    }
}

const FBANK_SR: f32 = 16_000.0;

fn sine(freq: f32, secs: f32) -> Vec<Single> {
    let n = (FBANK_SR * secs) as usize;
    (0..n)
        .map(|i| single((2.0 * std::f32::consts::PI * freq * i as f32 / FBANK_SR).sin() * 0.5))
        .collect()
}

/// A row that holds the frame's first sample, scaled.
fn mel(frame: &[Single], scale: Single) -> Vec<Single> {
    assert_eq!(frame.len(), FRAME_LEN);
    let first = f32::from_bits(frame[0].to_bits()) * f32::from_bits(scale.to_bits());
    singles(&[first; NUM_MEL])
}

#[test]
fn fbank_frame_count_follows_the_kaldi_formula() {
    // 1 s at 16 kHz: 1 + (16000 - 400) / 160 = 98 frames.
    let (feats, frames) = compute_fbank(&sine(440.0, 1.0), single(1.0), &mel);
    assert_eq!(frames, 98);
    assert_eq!(feats.len(), frames * NUM_MEL);
}

#[test]
fn fbank_is_empty_below_one_frame() {
    let (feats, frames) = compute_fbank(&vec![single(0.1); FRAME_LEN - 1], single(1.0), &mel);
    assert_eq!(frames, 0);
    assert!(feats.is_empty());
}

#[test]
fn fbank_frames_are_ten_milliseconds_apart() {
    let samples: Vec<Single> = (0..720).map(|i| single(i as f32)).collect();
    let (feats, frames) = compute_fbank(&samples, single(2.0), &mel);
    assert_eq!(frames, 3);
    assert_eq!(floats(&[feats[0], feats[80], feats[160]]), vec![0.0, 320.0, 640.0]);
}

#[test]
fn lfr_params_must_be_positive() {
    assert!(validate_lfr(0, 6).is_err());
    assert!(validate_lfr(7, 0).is_err());
    assert!(validate_lfr(0, 0).is_err());
    assert!(validate_lfr(7, 6).is_ok());
    assert_eq!(
        validate_lfr(0, 6).err().unwrap(),
        "sensevoice invalid LFR metadata: window_size=0, window_shift=6 (both must be >= 1)"
    );
}

#[test]
fn lfr_shape_and_left_padding() {
    // 4 frames of dim 2, m=3, n=2 -> t_lfr = ceil(4/2) = 2, feat_dim = 6.
    let feats = vec![0.0, 1.0, 2.0, 3.0, 4.0, 5.0, 6.0, 7.0];
    let (out, t_lfr) = apply_lfr(&feats, 4, 2, 3, 2);
    assert_eq!(t_lfr, 2);
    assert_eq!(out.len(), 2 * 6);
    assert_eq!(&out[0..6], &[0.0, 1.0, 0.0, 1.0, 2.0, 3.0]);
    assert_eq!(&out[6..12], &[2.0, 3.0, 4.0, 5.0, 6.0, 7.0]);
}

#[test]
fn lfr_right_pads_tail_with_last_frame() {
    let (out, t_lfr) = apply_lfr(&[10.0, 20.0], 2, 1, 3, 2);
    assert_eq!(t_lfr, 1);
    assert_eq!(out, vec![10.0, 10.0, 20.0]);
    // A tail that does run short: the last frame is repeated.
    let (out, t_lfr) = apply_lfr(&[1.0, 2.0, 3.0], 3, 1, 3, 2);
    assert_eq!(t_lfr, 2);
    assert_eq!(out, vec![1.0, 1.0, 2.0, 2.0, 3.0, 3.0]);
    let (out, t_lfr) = apply_lfr(&[1.0, 2.0], 2, 1, 5, 1);
    assert_eq!(t_lfr, 2);
    assert_eq!(out, vec![1.0, 1.0, 1.0, 2.0, 2.0, 1.0, 1.0, 2.0, 2.0, 2.0]);
}

#[test]
fn stacking_single_frames_changes_nothing() {
    let (out, t_lfr) = apply_lfr(&[1, 2, 3, 4, 5, 6], 3, 2, 1, 1);
    assert_eq!((out, t_lfr), (vec![1, 2, 3, 4, 5, 6], 3));
    let (out, t_lfr) = apply_lfr::<u8>(&[], 0, 2, 0, 0);
    assert_eq!((out, t_lfr), (Vec::new(), 0));
}

fn norm(x: Single, shift: Single, factor: Single) -> Single {
    let v = |s: Single| f32::from_bits(s.to_bits());
    single((v(x) + v(shift)) * v(factor))
}

#[test]
fn cmvn_applies_shift_then_scale() {
    let mut feats = singles(&[1.0, 2.0, 3.0, 4.0]);
    apply_cmvn(&mut feats, 2, 2, &singles(&[1.0, -1.0]), &singles(&[2.0, 0.5]), &norm);
    // (1+1)*2=4, (2-1)*0.5=0.5, (3+1)*2=8, (4-1)*0.5=1.5
    assert_eq!(floats(&feats), vec![4.0, 0.5, 8.0, 1.5]);
}

#[test]
fn parse_float_vec_accepts_comma_and_whitespace() {
    let parsed = |text: &str, key: &str| {
        floats(&parse_float_vec(Some(text.into()), key, &parse).ok().unwrap())
    };
    assert_eq!(parsed("-8.31,-8.60,-9.62", "neg_mean"), vec![-8.31, -8.60, -9.62]);
    assert_eq!(parsed("1.0 2.0\t3.0", "inv_stddev"), vec![1.0, 2.0, 3.0]);
    assert_eq!(parsed(" 1.0, 2.0 , 3.0, ", "neg_mean"), vec![1.0, 2.0, 3.0]);
    // A genuinely non-numeric token is still rejected.
    assert!(parse_float_vec(Some("1.0,x,3.0".into()), "neg_mean", &parse).is_err());
    // Missing metadata is reported, not silently empty.
    assert!(parse_float_vec(None, "neg_mean", &parse).is_err());
}

#[test]
fn bad_statistics_are_named() {
    match parse_float_vec(Some("1.0,x".into()), "neg_mean", &parse) {
        Err(AsrError::Load(m)) => assert_eq!(
            m,
            "sensevoice bad 'neg_mean' value 'x': invalid float literal"
        ),
        _ => panic!("x is no number"),
    }
    match parse_float_vec(None, "inv_stddev", &parse) {
        Err(AsrError::Load(m)) => assert_eq!(
            m,
            "sensevoice metadata missing 'inv_stddev' (not a sherpa-onnx SenseVoice export?)"
        ),
        _ => panic!("nothing is there"),
    }
    assert_eq!(split_fields(",, a\u{3000}b,,c "), strings(&["a", "b", "c"]));
    assert!(split_fields(" , ").is_empty());
}

#[test]
fn greedy_ctc_collapses_and_drops_blank() {
    // vocab 3, blank = 0. Frames (argmax): 1,1,0,2,0,2 -> 1,2,2.
    let vocab = 3;
    let frame = |best: usize| {
        let mut r = vec![0.0f32; vocab];
        r[best] = 1.0;
        r
    };
    let mut logits = Vec::new();
    for b in [1, 1, 0, 2, 0, 2] {
        logits.extend(frame(b));
    }
    assert_eq!(greedy_ctc(&singles(&logits), 6, vocab, 0), vec![1, 2, 2]);
    // Another blank: its runs are dropped, and the others collapse.
    assert_eq!(greedy_ctc(&singles(&logits), 6, vocab, 2), vec![1, 0, 0]);
    assert!(greedy_ctc(&[], 0, 0, 0).is_empty());
    // No blank and no equal neighbours: nothing is lost.
    let mut distinct = Vec::new();
    for b in [1, 2, 1] {
        distinct.extend(frame(b));
    }
    assert_eq!(greedy_ctc(&singles(&distinct), 3, vocab, 0), vec![1, 2, 1]);
}

#[test]
fn tokens_to_text_skips_meta_and_maps_underscore() {
    let tokens = strings(&[
        "<blank>",
        "<|en|>",
        "<|HAPPY|>",
        "<|Speech|>",
        "<|withitn|>",
        "\u{2581}hello",
        "\u{2581}world",
    ]);
    // ids: 4 meta tokens then two words.
    let ids = vec![1, 2, 3, 4, 5, 6];
    assert_eq!(tokens_to_text(&ids, &tokens, 4), "hello world");
    assert_eq!(tokens_to_text(&[5, 99, 6], &tokens, 0), "hello world");
    assert_eq!(tokens_to_text(&[5], &tokens, 4), "");
}

#[test]
fn language_tag_parses_to_name() {
    assert_eq!(lang_name_from_tag("<|en|>").as_deref(), Some("english"));
    assert_eq!(lang_name_from_tag("<|yue|>").as_deref(), Some("cantonese"));
    assert_eq!(lang_name_from_tag("<|Speech|>"), None);
}

#[test]
fn only_the_five_language_tags_name_a_language() {
    for (tag, name) in [
        ("<|zh|>", "chinese"),
        ("<|en|>", "english"),
        ("<|ja|>", "japanese"),
        ("<|ko|>", "korean"),
        ("<|yue|>", "cantonese"),
    ] {
        assert_eq!(lang_name_from_tag(tag).as_deref(), Some(name));
    }
    for other in ["", "en", "zh", "<|en", "en|>", "<|<|ja|>|>", "<|EN|>", " <|en|>", "<|de|>"] {
        assert_eq!(lang_name_from_tag(other), None, "{other}");
    }
}

// --- loading ---

fn load_message(files: &[&str], graph: &Graph, meta: Metadata) -> String {
    match load(files, graph, meta) {
        Err(AsrError::ModelNotFound(m)) | Err(AsrError::Load(m)) => m,
        _ => panic!("loading must fail"),
    }
}

#[test]
fn sensevoice_load_errors() {
    assert_eq!(
        load_message(&["tokens.txt"], &graph(), meta()),
        "no model.int8.onnx or model.onnx in ."
    );
    assert_eq!(load_message(&["model.onnx"], &graph(), meta()), "tokens.txt not found in .");
    let bad = Graph::Unreadable { path: "m".into(), message: "bad".into() };
    assert_eq!(load_message(&FILES, &bad, meta()), "sensevoice load: bad");
    let mut zero = meta();
    zero[1].1 = "0".to_string();
    assert_eq!(
        load_message(&FILES, &graph(), zero),
        "sensevoice invalid LFR metadata: window_size=1, window_shift=0 (both must be >= 1)"
    );
    let mut short = meta();
    short[3].1 = "1 2 3".to_string();
    assert_eq!(
        load_message(&FILES, &graph(), short),
        "sensevoice CMVN size mismatch: expected 80, got neg_mean=80 inv_stddev=3"
    );
    let three = Graph::Open { inputs: strings(&["a", "b", "c"]), outputs: Vec::new() };
    assert_eq!(
        load_message(&FILES, &three, meta()),
        "expected a SenseVoice model with 4 inputs (x, x_length, language, text_norm), got 3: [\"a\", \"b\", \"c\"]"
    );
    let cfg = config(".");
    match SenseVoiceEngine::load(
        &cfg,
        &dir(&cfg, &FILES),
        HOST,
        &vocabulary(),
        &graph(),
        &Err("gone".into()),
        &parse,
    ) {
        Err(AsrError::Load(m)) => assert_eq!(m, "sensevoice metadata: gone"),
        _ => panic!("no metadata, no engine"),
    }
}

#[test]
fn the_settings_come_from_the_metadata() {
    let e = load(&FILES, &graph(), meta()).ok().unwrap();
    assert!(e.features_fit());
    assert_eq!((e.settings.lfr_m, e.settings.lfr_n, e.settings.blank_id), (1, 1, 0));
    assert!(!e.settings.normalize_samples);
    assert_eq!(e.settings.with_itn, 14);
    assert_eq!(e.settings.neg_mean, singles(&[0.5; 80]));
    for (name, id) in [
        (None, 0),
        (Some(""), 0),
        (Some("auto"), 0),
        (Some("ZH"), 3),
        (Some("Mandarin"), 3),
        (Some("chinese"), 3),
        (Some("en"), 4),
        (Some("English"), 4),
        (Some("ja"), 11),
        (Some("japanese"), 11),
        (Some("ko"), 12),
        (Some("korean"), 12),
        (Some("yue"), 13),
        (Some("Cantonese"), 13),
        (Some("klingon"), 0),
    ] {
        assert_eq!(e.lang_id_for(name), id, "{name:?}");
    }
    let mut other = meta();
    other.push(("normalize_samples".to_string(), " 1".to_string()));
    other.push(("lang_ja".to_string(), "21".to_string()));
    let mut e = load(&FILES, &graph(), other).ok().unwrap();
    assert!(e.settings.normalize_samples);
    e.default_language = Some("Japanese".to_string());
    assert_eq!(e.lang_id_for(None), 21);
    assert_eq!(e.lang_id_for(Some("en")), 4);
}

// --- transcription ---

struct Seen(Arc<Mutex<Vec<u8>>>);

impl ProgressSink for Seen {
    fn progress(&self, pct: u8) {
        self.0.lock().unwrap().push(pct);
    }
}

fn flat(_block: &[Single]) -> Single {
    single(0.5)
}

/// Logits whose best ids are `path`.
fn logits(path: &[usize]) -> Tensor {
    let vocab = 7;
    let mut data = vec![0.0f32; path.len() * vocab];
    for (t, id) in path.iter().enumerate() {
        data[t * vocab + id] = 1.0;
    }
    Tensor { shape: vec![1, path.len() as i64, vocab as i64], data: singles(&data) }
}

fn transcribe(
    audio: &[Single],
    control: &TranscribeControl,
    run: &dyn Fn(&SenseVoiceInput) -> Logits,
) -> Result<TranscriptionResult, AsrError> {
    let e = load(&FILES, &graph(), meta()).ok().unwrap();
    let opts = TranscribeOptions { language: Some("en".into()), ..Default::default() };
    let answer = |i: &SenseVoiceInput| -> Logits { run(i) };
    e.transcribe(audio, &opts, &mut Monitor::new(control), &flat, &mel, &norm, &answer)
}

#[test]
fn features_reach_the_model_and_text_comes_back() {
    let log = Arc::new(Mutex::new(Vec::new()));
    let control = TranscribeControl {
        cancel: None,
        on_progress: Some(Arc::new(Seen(log.clone()))),
    };
    let audio = singles(&[0.25; 560]);
    let r = transcribe(&audio, &control, &|i| {
        assert_eq!((i.frames, i.dim, i.language, i.text_norm), (2, 80, 4, 14));
        // (0.25 * 32768 + 0.5) * 2
        assert_eq!(floats(&i.x), vec![16_385.0; 160]);
        Ok(logits(&[1, 2, 3, 4, 0, 5, 5, 6]))
    })
    .ok()
    .unwrap();
    assert_eq!(r.text, "hello world");
    assert_eq!(r.detected_language.as_deref(), Some("english"));
    assert!(r.segments.is_empty());
    assert_eq!(*log.lock().unwrap(), vec![0, 100]);
}

#[test]
fn a_long_clip_keeps_its_first_language() {
    let audio = vec![single(0.0); 40 * 16_000];
    let calls = Mutex::new(0);
    let r = transcribe(&audio, &TranscribeControl::none(), &|i| {
        let mut n = calls.lock().unwrap();
        *n += 1;
        // 30 s, then 10 s.
        assert_eq!(i.frames, if *n == 1 { 2998 } else { 998 });
        Ok(logits(if *n == 1 { &[1, 2, 3, 4, 5] } else { &[2, 1, 3, 4, 6] }))
    })
    .ok()
    .unwrap();
    assert_eq!(r.text, "hello world");
    assert_eq!(r.detected_language.as_deref(), Some("english"));
}

#[test]
fn a_clip_shorter_than_a_frame_is_empty() {
    let log = Arc::new(Mutex::new(Vec::new()));
    let control = TranscribeControl {
        cancel: None,
        on_progress: Some(Arc::new(Seen(log.clone()))),
    };
    for audio in [Vec::new(), singles(&[0.1; 399])] {
        let r = transcribe(&audio, &control, &|_i| panic!("nothing to run")).ok().unwrap();
        assert_eq!(r.text, "");
        assert_eq!(log.lock().unwrap().last(), Some(&100));
    }
}

#[test]
fn sensevoice_faults_are_named() {
    let audio = singles(&[0.1; 400]);
    for (stage, message) in [
        (SenseVoiceStage::X, "sensevoice x tensor: m"),
        (SenseVoiceStage::XLength, "sensevoice x_length tensor: m"),
        (SenseVoiceStage::Language, "sensevoice language tensor: m"),
        (SenseVoiceStage::TextNorm, "sensevoice text_norm tensor: m"),
        (SenseVoiceStage::Inference, "sensevoice inference: m"),
        (SenseVoiceStage::Logits, "sensevoice logits: m"),
    ] {
        match transcribe(&audio, &TranscribeControl::none(), &|_i| Err((stage, "m".to_string()))) {
            Err(AsrError::Transcribe(m)) => assert_eq!(m, message),
            _ => panic!("{message} is expected"),
        }
    }
    let flat_shape = |_i: &SenseVoiceInput| -> Logits {
        Ok(Tensor { shape: vec![2, -1], data: Vec::new() })
    };
    match transcribe(&audio, &TranscribeControl::none(), &flat_shape) {
        Err(AsrError::Transcribe(m)) => assert_eq!(
            m,
            "sensevoice expected rank-3 logits [1, T, vocab], got shape [2, -1]"
        ),
        _ => panic!("rank 2 is not rank 3"),
    }
}

#[test]
fn a_flag_set_during_inference_cancels() {
    let flag = Arc::new(AtomicBool::new(false));
    let control = TranscribeControl { cancel: Some(flag.clone()), on_progress: None };
    let r = transcribe(&singles(&[0.1; 400]), &control, &|_i| {
        flag.store(true, Ordering::Relaxed);
        Ok(logits(&[1, 2, 3, 4, 5]))
    });
    assert!(matches!(r, Err(AsrError::Cancelled)));
}

#[test]
fn a_failed_or_cancelled_window_is_the_last_one_reported() {
    // 40 s: windows of 30 s and 10 s; the second one fails, or is cancelled after it.
    let audio = vec![single(0.0); 40 * 16_000];
    for cancel in [false, true] {
        let log = Arc::new(Mutex::new(Vec::new()));
        let flag = Arc::new(AtomicBool::new(false));
        let control = TranscribeControl {
            cancel: Some(flag.clone()),
            on_progress: Some(Arc::new(Seen(log.clone()))),
        };
        let calls = Mutex::new(0);
        let r = transcribe(&audio, &control, &|_i| {
            let mut n = calls.lock().unwrap();
            *n += 1;
            if *n == 1 {
                return Ok(logits(&[1, 2, 3, 4, 5]));
            }
            if cancel {
                flag.store(true, Ordering::Relaxed);
                return Ok(logits(&[1, 2, 3, 4, 6]));
            }
            Err((SenseVoiceStage::Inference, "m".to_string()))
        });
        match r {
            Err(AsrError::Cancelled) => assert!(cancel),
            Err(AsrError::Transcribe(m)) => {
                assert!(!cancel);
                assert_eq!(m, "sensevoice inference: m");
            }
            _ => panic!("the second window does not succeed"),
        }
        assert_eq!(*calls.lock().unwrap(), 2);
        assert_eq!(*log.lock().unwrap(), vec![0, 75]);
    }
}
