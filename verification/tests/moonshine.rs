use dictata_engine::engines::moonshine::{
    argmax, decode_step_cap, fault_message, take_step, token_id, tokens_to_text, Fault,
    MoonshineEngine, MoonshineGraphs, MoonshineModel, MoonshineStage, Step, MIN_SAMPLES,
};
use dictata_engine::model::{Graph, Host, ModelDir};
use dictata_engine::monitor::Monitor;
use dictata_engine::single::Single;
use dictata_engine::tokens::parse_byte_token;
use dictata_engine::types::ProgressSink;
use dictata_engine::{
    AsrError, LanguageSupport, TranscribeControl, TranscribeOptions, TranscriptionResult,
};
use std::sync::atomic::{AtomicBool, Ordering};
use std::sync::{Arc, Mutex};

const HOST: Host = Host { windows: false, parallelism: Some(4) };

fn singles(values: &[f32]) -> Vec<Single> {
    values.iter().map(|v| Single::from_bits(v.to_bits())).collect()
}

fn strings(list: &[&str]) -> Vec<String> {
    list.iter().map(|s| s.to_string()).collect()
}

fn dir(path: &str, files: &[&str]) -> ModelDir {
    let p = std::path::Path::new(path);
    ModelDir {
        shown: p.display().to_string(),
        exists: p.is_dir(),
        utf8_len: p.to_str().map(str::len),
        files: strings(files),
    }
}

fn graph(inputs: usize, outputs: usize) -> Graph {
    Graph::Open {
        inputs: (0..inputs).map(|i| format!("in{i}")).collect(),
        outputs: (0..outputs).map(|i| format!("out{i}")).collect(),
    }
}

fn graphs() -> MoonshineGraphs {
    MoonshineGraphs {
        preprocess: graph(1, 1),
        encode: graph(2, 1),
        uncached: graph(3, 3),
        cached: graph(5, 3),
    }
}

const FILES: [&str; 5] = [
    "preprocess.onnx",
    "encode.int8.onnx",
    "uncached_decode.int8.onnx",
    "cached_decode.onnx",
    "tokens.txt",
];

fn vocabulary() -> Result<String, String> {
    Ok("<unk> 0\n<s> 1\n</s> 2\n\u{2581}hello 3\n\u{2581}world 4\n! 5\n".to_string())
}

#[test]
fn moonshine_load_reports_missing_model_directory() {
    let dir = dir("::/no/such/moonshine/dir", &[]);
    assert!(matches!(
        MoonshineEngine::load(&dir, HOST, &vocabulary(), &graphs()),
        Err(AsrError::ModelNotFound(_))
    ));
}

#[test]
fn capabilities_declare_english_only() {
    let caps = MoonshineEngine::capabilities_static();
    assert_eq!(caps.name, "moonshine");
    assert!(!caps.supports_prompt);
    assert!(!caps.supports_beam);
    assert!(!caps.supports_translate);
    assert!(!caps.supports_internal_vad);
    match caps.languages {
        LanguageSupport::Only(langs) => {
            assert_eq!(langs, vec!["english".to_string()]);
        }
        LanguageSupport::Any => panic!("Moonshine has a closed language set"),
    }
}

#[test]
fn moonshine_argmax_picks_the_highest_index() {
    assert_eq!(argmax(&singles(&[0.1, 0.9, 0.3])), Some(1));
    assert_eq!(argmax(&singles(&[5.0, 1.0, 2.0])), Some(0));
    // Ties keep the first maximum (strict `>` comparison).
    assert_eq!(argmax(&singles(&[1.0, 1.0, 0.5])), Some(0));
    assert_eq!(argmax(&[]), None);
}

#[test]
fn nan_never_wins_and_never_yields() {
    let nan = f32::NAN;
    assert_eq!(argmax(&singles(&[0.1, nan, 0.3])), Some(2));
    // A first value that is not a number is never exceeded.
    assert_eq!(argmax(&singles(&[nan, 7.0])), Some(0));
    assert_eq!(argmax(&singles(&[f32::NEG_INFINITY, f32::NEG_INFINITY])), Some(0));
    assert_eq!(argmax(&singles(&[-0.0, 0.0])), Some(0));
}

#[test]
fn decode_step_cap_scales_with_frames() {
    // 750 frames ~= 18 s of audio -> 750*384/16000*6 = 108 tokens.
    assert_eq!(decode_step_cap(750), 108);
    // A tiny clip still allows at least one decode step.
    assert_eq!(decode_step_cap(0), 1);
}

#[test]
fn decode_step_cap_follows_the_formula() {
    for frames in 0..4000usize {
        let cap = frames as f64 * 384.0 / 16_000.0 * 6.0;
        assert_eq!(decode_step_cap(frames), (cap as usize).max(1), "{frames} frames");
    }
}

#[test]
fn byte_tokens_parse_only_when_well_formed() {
    assert_eq!(parse_byte_token("<0x20>"), Some(0x20));
    assert_eq!(parse_byte_token("<0xFF>"), Some(0xFF));
    assert_eq!(parse_byte_token("hello"), None);
    assert_eq!(parse_byte_token("\u{2581}the"), None);
}

#[test]
fn byte_tokens_hold_two_hexadecimal_digits() {
    for byte in 0u8..=255 {
        assert_eq!(parse_byte_token(&format!("<0x{byte:02X}>")), Some(byte));
        assert_eq!(parse_byte_token(&format!("<0x{byte:02x}>")), Some(byte));
    }
    for hex in [
        "", "0", "a", "100", "0ff", "+7", "+F", "+", "-0", "-1", "0000f", "g", "0g", "G0", " 1",
        "1 ", "<0x1", "ff>",
    ] {
        assert_eq!(parse_byte_token(&format!("<0x{hex}>")), None, "{hex}");
    }
    for bad in ["<0x20", "0x20>", "<0X20>", " <0x20>", "<0x20> "] {
        assert_eq!(parse_byte_token(bad), None);
    }
}

#[test]
fn tokens_to_text_maps_underscore_to_space() {
    let tokens = strings(&["<unk>", "<s>", "</s>", "\u{2581}hello", "\u{2581}world", "!"]);
    // "hello" "world" "!" -> "hello world!" (only the word start introduces a space).
    assert_eq!(tokens_to_text(&[3, 4, 5], &tokens), "hello world!");
}

#[test]
fn tokens_to_text_reassembles_byte_tokens_as_utf8() {
    // U+00E9 is the bytes 0xC3 0xA9 in UTF-8, split across two byte tokens.
    let tokens = strings(&["<0xC3>", "<0xA9>", "\u{2581}caf"]);
    assert_eq!(tokens_to_text(&[2, 0, 1], &tokens), "caf\u{e9}");
}

#[test]
fn negative_ids_are_skipped() {
    let tokens = strings(&["a", "b"]);
    assert_eq!(tokens_to_text(&[-1, 0, i32::MIN, 1, 2], &tokens), "ab");
}

#[test]
fn token_id_finds_special_symbols() {
    let tokens = strings(&["<unk>", "<s>", "</s>"]);
    assert_eq!(token_id(&tokens, "<s>"), Some(1));
    assert_eq!(token_id(&tokens, "</s>"), Some(2));
    assert_eq!(token_id(&tokens, "<pad>"), None);
}

// --- loading ---

fn load_message(
    files: &[&str],
    tokens: Result<String, String>,
    graphs: &MoonshineGraphs,
) -> (bool, String) {
    match MoonshineEngine::load(&dir(".", files), HOST, &tokens, graphs) {
        Err(AsrError::ModelNotFound(m)) => (true, m),
        Err(AsrError::Load(m)) => (false, m),
        Err(e) => panic!("{}", e.message()),
        Ok(_) => panic!("loading must fail"),
    }
}

#[test]
fn the_model_files_are_chosen() {
    let files = MoonshineEngine::plan(&dir(".", &FILES), HOST).ok().unwrap();
    assert_eq!(files.preprocess, "preprocess.onnx");
    assert_eq!(files.encode, "encode.int8.onnx");
    assert_eq!(files.uncached, "uncached_decode.int8.onnx");
    assert_eq!(files.cached, "cached_decode.onnx");
}

#[test]
fn moonshine_load_errors_come_in_order() {
    let good = graphs();
    assert_eq!(
        load_message(&FILES[1..], vocabulary(), &good),
        (true, "no preprocess.int8.onnx or preprocess.onnx in .".into())
    );
    assert_eq!(
        load_message(&FILES[..4], vocabulary(), &good),
        (true, "tokens.txt not found in .".into())
    );
    assert_eq!(
        load_message(&FILES, Err("denied".into()), &good),
        (false, "moonshine tokens.txt: denied".into())
    );
    let mut g = graphs();
    g.uncached = Graph::Unreadable { path: "u.onnx".into(), message: "bad".into() };
    assert_eq!(load_message(&FILES, vocabulary(), &g), (false, "moonshine load u.onnx: bad".into()));
    g.encode = Graph::Refused("no runtime".into());
    assert_eq!(load_message(&FILES, vocabulary(), &g), (false, "no runtime".into()));
    let mut g = graphs();
    g.preprocess = graph(2, 1);
    assert_eq!(
        load_message(&FILES, vocabulary(), &g),
        (false, "moonshine preprocess expects 1 input and 1 output, got 2 / 1".into())
    );
    let mut g = graphs();
    g.encode = graph(3, 1);
    assert_eq!(
        load_message(&FILES, vocabulary(), &g),
        (false, "moonshine encode expects 1-2 inputs and 1 output, got 3 / 1".into())
    );
    let mut g = graphs();
    g.uncached = graph(3, 1);
    assert_eq!(
        load_message(&FILES, vocabulary(), &g),
        (
            false,
            "moonshine uncached_decode expects 3 inputs (token, encoder_out, seq_len) and >=2 outputs (logits, states), got 3 / 1"
                .into()
        )
    );
    let mut g = graphs();
    g.cached = graph(4, 3);
    assert_eq!(
        load_message(&FILES, vocabulary(), &g),
        (
            false,
            "moonshine cached_decode arity mismatch: inputs 4 (expected 5), outputs 3 (expected 3)"
                .into()
        )
    );
}

fn engine() -> MoonshineEngine {
    MoonshineEngine::load(&dir(".", &FILES), HOST, &vocabulary(), &graphs()).ok().unwrap()
}

#[test]
fn a_loaded_engine_knows_its_nodes_and_special_tokens() {
    let e = engine();
    assert_eq!((e.prep_in.as_str(), e.prep_out.as_str()), ("in0", "out0"));
    assert_eq!(e.enc_in, strings(&["in0", "in1"]));
    assert_eq!(e.cac_in.len(), 5);
    assert_eq!((e.sos, e.eos), (1, 2));
    assert_eq!(e.capabilities().name, "moonshine");
    // Without the special symbols, the usual ids are taken.
    let bare = MoonshineEngine::load(&dir(".", &FILES), HOST, &Ok("a 0".into()), &graphs());
    let bare = bare.ok().unwrap();
    assert_eq!((bare.sos, bare.eos), (1, 2));
}

// --- transcription ---

struct Seen(Arc<Mutex<Vec<u8>>>);

impl ProgressSink for Seen {
    fn progress(&self, pct: u8) {
        self.0.lock().unwrap().push(pct);
    }
}

fn flat(_block: &[Single]) -> Single {
    Single::from_bits(0.5f32.to_bits())
}

/// The logits that make `id` the next token.
fn logits_for(id: usize) -> Vec<Single> {
    let mut logits = vec![0.0f32; 6];
    logits[id] = 1.0;
    singles(&logits)
}

/// Speaks `script`, one token a step, whatever it hears. The encoder output is a
/// number of frames.
fn say(
    script: &[usize],
    frames: i64,
    audio: &[Single],
    control: &TranscribeControl,
) -> Result<TranscriptionResult, AsrError> {
    let preprocess = |a: &[Single]| -> Result<(usize, Vec<i64>), Fault> {
        assert!(a.len() >= MIN_SAMPLES && a.len() <= 512_000);
        Ok((a.len(), vec![1, 7, 3]))
    };
    let encode = |f: &usize, n: Option<i32>| -> Result<(usize, Vec<i64>), Fault> {
        assert_eq!(n, Some(7));
        Ok((*f, vec![1, frames, 3]))
    };
    let first = |_e: &usize, token: i32, len: i32| -> Result<Step<Vec<i32>>, Fault> {
        assert_eq!((token, len), (1, 1));
        Ok(Step { logits: logits_for(script[0]), states: Ok(vec![token]) })
    };
    let next = |_e: &usize, token: i32, len: i32, past: Vec<i32>| -> Result<Step<Vec<i32>>, Fault> {
        assert_eq!(past.len() as i32 + 1, len);
        assert_eq!(token, script[past.len() - 1] as i32);
        let mut past = past;
        past.push(token);
        let id = script[(past.len() - 1).min(script.len() - 1)];
        Ok(Step { logits: logits_for(id), states: Ok(past) })
    };
    let model = MoonshineModel { preprocess, encode, first, next };
    let mut monitor = Monitor::new(control);
    engine().transcribe(audio, &TranscribeOptions::default(), &mut monitor, &flat, &model)
}

#[test]
fn decoding_stops_at_the_end_token() {
    let log = Arc::new(Mutex::new(Vec::new()));
    let control = TranscribeControl {
        cancel: None,
        on_progress: Some(Arc::new(Seen(log.clone()))),
    };
    let audio = singles(&[0.1; 600]);
    let r = say(&[3, 4, 5, 2], 750, &audio, &control).ok().unwrap();
    assert_eq!(r.text, "hello world!");
    assert_eq!(r.detected_language.as_deref(), Some("english"));
    assert!(r.segments.is_empty());
    assert_eq!(*log.lock().unwrap(), vec![0, 20, 100]);
}

#[test]
fn decoding_stops_at_the_cap() {
    let audio = singles(&[0.1; 600]);
    // 20 frames allow two tokens.
    assert_eq!(decode_step_cap(20), 2);
    let r = say(&[3, 4, 5, 5], 20, &audio, &TranscribeControl::none()).ok().unwrap();
    assert_eq!(r.text, "hello world");
}

#[test]
fn a_clip_too_short_for_the_front_end_is_empty() {
    let log = Arc::new(Mutex::new(Vec::new()));
    let control = TranscribeControl {
        cancel: None,
        on_progress: Some(Arc::new(Seen(log.clone()))),
    };
    let r = say(&[3], 750, &singles(&[0.1; 511]), &control).ok().unwrap();
    assert!(r.text.is_empty() && r.detected_language.is_none());
    assert_eq!(log.lock().unwrap().last(), Some(&100));
    let r = say(&[3], 750, &[], &control).ok().unwrap();
    assert!(r.text.is_empty());
}

#[test]
fn a_long_clip_is_decoded_in_windows() {
    // 60 s: windows of 30 s, since every block sounds alike.
    let log = Arc::new(Mutex::new(Vec::new()));
    let control = TranscribeControl {
        cancel: None,
        on_progress: Some(Arc::new(Seen(log.clone()))),
    };
    let audio = vec![Single::from_bits(0); 60 * 16_000];
    let r = say(&[3, 2], 750, &audio, &control).ok().unwrap();
    assert_eq!(r.text, "hello hello");
    assert_eq!(*log.lock().unwrap(), vec![0, 10, 50, 60, 100]);
}

#[test]
fn a_set_flag_cancels() {
    let control = TranscribeControl {
        cancel: Some(Arc::new(AtomicBool::new(true))),
        on_progress: None,
    };
    let r = say(&[3, 2], 750, &singles(&[0.1; 600]), &control);
    assert!(matches!(r, Err(AsrError::Cancelled)));
}

#[test]
fn a_flag_set_while_decoding_cancels() {
    let flag = Arc::new(AtomicBool::new(false));
    let control = TranscribeControl { cancel: Some(flag.clone()), on_progress: None };
    let model = MoonshineModel {
        preprocess: |_a: &[Single]| -> Result<((), Vec<i64>), Fault> { Ok(((), vec![1, 7])) },
        encode: |_f: &(), _n: Option<i32>| -> Result<((), Vec<i64>), Fault> {
            Ok(((), vec![1, 750]))
        },
        first: |_e: &(), _t: i32, _n: i32| -> Result<Step<()>, Fault> {
            flag.store(true, Ordering::Relaxed);
            Ok(Step { logits: logits_for(3), states: Ok(()) })
        },
        next: |_e: &(), _t: i32, _n: i32, _s: ()| -> Result<Step<()>, Fault> {
            panic!("nothing may be decoded after a cancellation")
        },
    };
    let r = engine().transcribe(
        &singles(&[0.1; 600]),
        &TranscribeOptions::default(),
        &mut Monitor::new(&control),
        &flat,
        &model,
    );
    assert!(matches!(r, Err(AsrError::Cancelled)));
}

#[test]
fn moonshine_faults_are_named() {
    for (stage, message) in [
        (MoonshineStage::Audio, "moonshine audio tensor: m"),
        (MoonshineStage::Preprocess, "moonshine preprocess: m"),
        (MoonshineStage::PreprocessOutput, "moonshine preprocess: missing output"),
        (MoonshineStage::FeaturesLen, "moonshine features_len: m"),
        (MoonshineStage::Encode, "moonshine encode: m"),
        (MoonshineStage::EncodeOutput, "moonshine encode: missing output"),
        (MoonshineStage::Token, "moonshine token tensor: m"),
        (MoonshineStage::SeqLen, "moonshine seq_len tensor: m"),
        (MoonshineStage::Uncached, "moonshine uncached decode: m"),
        (MoonshineStage::Cached, "moonshine cached decode: m"),
        (MoonshineStage::Logits, "moonshine logits: m"),
        (MoonshineStage::State, "moonshine missing state output 'm'"),
    ] {
        match fault_message(&(stage, "m".to_string())) {
            AsrError::Transcribe(m) => assert_eq!(m, message),
            e => panic!("{}", e.message()),
        }
    }
    let empty: Result<Step<()>, Fault> =
        Ok(Step { logits: Vec::new(), states: Err((MoonshineStage::State, "s".into())) });
    match take_step(empty) {
        Err(AsrError::Transcribe(m)) => assert_eq!(m, "moonshine logits: empty vocab dimension"),
        _ => panic!("no logits, no token"),
    }
}

#[test]
fn a_failing_step_ends_the_decoding_but_a_cancellation_is_heard_first() {
    for raised in [false, true] {
        let log = Arc::new(Mutex::new(Vec::new()));
        let flag = Arc::new(AtomicBool::new(false));
        let control = TranscribeControl {
            cancel: Some(flag.clone()),
            on_progress: Some(Arc::new(Seen(log.clone()))),
        };
        let model = MoonshineModel {
            preprocess: |_a: &[Single]| -> Result<((), Vec<i64>), Fault> { Ok(((), vec![1, 7])) },
            encode: |_f: &(), _n: Option<i32>| -> Result<((), Vec<i64>), Fault> {
                Ok(((), vec![1, 750]))
            },
            first: |_e: &(), _t: i32, _n: i32| -> Result<Step<()>, Fault> {
                flag.store(raised, Ordering::Relaxed);
                Ok(Step { logits: logits_for(3), states: Ok(()) })
            },
            next: |_e: &(), _t: i32, _n: i32, _s: ()| -> Result<Step<()>, Fault> {
                Err((MoonshineStage::Cached, "m".to_string()))
            },
        };
        let r = engine().transcribe(
            &singles(&[0.1; 600]),
            &TranscribeOptions::default(),
            &mut Monitor::new(&control),
            &flat,
            &model,
        );
        match r {
            Err(AsrError::Cancelled) => assert!(raised),
            Err(AsrError::Transcribe(m)) => {
                assert!(!raised);
                assert_eq!(m, "moonshine cached decode: m");
            }
            _ => panic!("the second step fails"),
        }
        assert_eq!(*log.lock().unwrap(), vec![0, 20]);
    }
}
