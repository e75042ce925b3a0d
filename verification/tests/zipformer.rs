use dictata_engine::engines::zipformer::{
    argmax, compute_features, find_onnx, tokens_to_text, DirEntry, Fault, Listing, Rows,
    ZipformerEngine, ZipformerGraphs, ZipformerModel, ZipformerStage,
};
use dictata_engine::model::{Graph, Host, Metadata, ModelDir, Tensor};
use dictata_engine::monitor::Monitor;
use dictata_engine::single::Single;
use dictata_engine::tokens::parse_byte_token;
use dictata_engine::types::ProgressSink;
use dictata_engine::{
    AsrError, LanguageSupport, TranscribeControl, TranscribeOptions, TranscriptionResult,
};
use std::sync::atomic::{AtomicBool, Ordering};
use std::sync::{Arc, Mutex};

const HOST: Host = Host { windows: false, parallelism: Some(4) };

fn singles(values: &[f32]) -> Vec<Single> {
    values.iter().map(|v| Single::from_bits(v.to_bits())).collect()
}

fn strings(list: &[&str]) -> Vec<String> {
    list.iter().map(|s| s.to_string()).collect()
}

fn dir(path: &str, files: &[&str]) -> ModelDir {
    let p = std::path::Path::new(path);
    ModelDir {
        shown: p.display().to_string(),
        exists: p.is_dir(),
        utf8_len: p.to_str().map(str::len),
        files: strings(files),
    }
}

fn listing(entries: &[(&str, u64)]) -> Listing {
    Ok(entries.iter().map(|(n, t)| DirEntry { name: n.to_string(), modified: *t }).collect())
}

fn files() -> Listing {
    listing(&[
        ("encoder-epoch-99-avg-1.onnx", 5),
        ("decoder-epoch-99-avg-1.onnx", 5),
        ("joiner-epoch-99-avg-1.onnx", 5),
    ])
}

fn graph(inputs: &[&str]) -> Graph {
    Graph::Open { inputs: strings(inputs), outputs: strings(&["out"]) }
}

fn graphs() -> ZipformerGraphs {
    ZipformerGraphs {
        encoder: graph(&["x", "x_lens"]),
        decoder: graph(&["y"]),
        joiner: graph(&["encoder_out", "decoder_out"]),
        decoder_meta: Ok(vec![("context_size".to_string(), "2".to_string())]),
    }
}

fn vocabulary() -> Result<String, String> {
    Ok("<blk> 0\n<unk> 1\n\u{2581}he 2\nllo 3\n\u{2581}world 4\n".to_string())
}

#[test]
fn zipformer_load_reports_missing_model_directory() {
    let dir = dir("::/no/such/zipformer/dir", &[]);
    assert!(matches!(
        ZipformerEngine::load(&dir, &files(), HOST, &vocabulary(), &graphs()),
        Err(AsrError::ModelNotFound(_))
    ));
}

#[test]
fn zipformer_capabilities_declare_no_whisper_only_options() {
    let caps = ZipformerEngine::capabilities_static();
    assert_eq!(caps.name, "zipformer");
    assert!(!caps.supports_prompt);
    assert!(!caps.supports_beam);
    assert!(!caps.supports_translate);
    assert!(!caps.supports_internal_vad);
    assert!(matches!(caps.languages, LanguageSupport::Any));
}

#[test]
fn zipformer_argmax_picks_the_highest_index() {
    assert_eq!(argmax(&singles(&[0.1, 0.9, 0.3])), 1);
    assert_eq!(argmax(&singles(&[5.0, 1.0, 2.0])), 0);
    // Ties keep the first maximum (strict `>` comparison).
    assert_eq!(argmax(&singles(&[1.0, 1.0, 0.5])), 0);
    assert_eq!(argmax(&[]), 0);
}

#[test]
fn a_leading_nan_does_not_hide_the_maximum() {
    assert_eq!(argmax(&singles(&[f32::NAN, -3.0, 2.0])), 2);
    assert_eq!(argmax(&singles(&[f32::NAN, f32::NEG_INFINITY])), 0);
}

#[test]
fn tokens_to_text_maps_underscore_and_reassembles_bytes() {
    let tokens = strings(&["<blk>", "<unk>", "\u{2581}he", "llo", "\u{2581}world"]);
    assert_eq!(tokens_to_text(&[2, 3, 4], &tokens), "hello world");
    // U+00E9 = bytes 0xC3 0xA9, split across two byte tokens.
    let bt = strings(&["<0xC3>", "<0xA9>", "\u{2581}caf"]);
    assert_eq!(tokens_to_text(&[2, 0, 1], &bt), "caf\u{e9}");
}

#[test]
fn parse_byte_token_only_when_well_formed() {
    assert_eq!(parse_byte_token("<0x20>"), Some(0x20));
    assert_eq!(parse_byte_token("<0xFF>"), Some(0xFF));
    assert_eq!(parse_byte_token("hello"), None);
    assert_eq!(parse_byte_token("\u{2581}the"), None);
}

// --- model files ---

fn found(entries: &[(&str, u64)]) -> Option<String> {
    find_onnx(&listing(entries), "m", "encoder").ok()
}

#[test]
fn the_newest_quantized_file_is_found() {
    assert_eq!(
        found(&[("encoder.onnx", 9), ("Encoder-a.INT8.onnx", 1)]).as_deref(),
        Some("Encoder-a.INT8.onnx")
    );
    assert_eq!(
        found(&[("encoder-a.int8.onnx", 1), ("encoder-b.int8.onnx", 2), ("encoder.onnx", 3)])
            .as_deref(),
        Some("encoder-b.int8.onnx")
    );
    assert_eq!(found(&[("encoder-a.onnx", 4), ("encoder-b.onnx", 2)]).as_deref(), Some("encoder-a.onnx"));
}

#[test]
fn only_onnx_files_of_the_right_name_count() {
    assert_eq!(
        found(&[("encoder.ONNX", 9), ("encoder.onnx.bak", 9), ("decoder.onnx", 9), ("my_encoder.onnx", 1)])
            .as_deref(),
        Some("my_encoder.onnx")
    );
    // A name that begins with its only dot has no extension.
    assert_eq!(found(&[(".onnx", 1), ("encoder", 1)]), None);
    match find_onnx(&listing(&[("joiner.onnx", 1)]), "models/z", "encoder") {
        Err(AsrError::ModelNotFound(m)) => assert_eq!(m, "no *encoder*.onnx in models/z"),
        _ => panic!("no encoder is there"),
    }
    match find_onnx(&Err("denied".into()), "models/z", "encoder") {
        Err(AsrError::Load(m)) => assert_eq!(m, "zipformer read dir models/z: denied"),
        _ => panic!("an unreadable directory is a load error"),
    }
}

// --- loading ---

fn load(
    names: &[&str],
    tokens: Result<String, String>,
    graphs: &ZipformerGraphs,
) -> Result<ZipformerEngine, AsrError> {
    ZipformerEngine::load(&dir(".", names), &files(), HOST, &tokens, graphs)
}

fn load_message(names: &[&str], graphs: &ZipformerGraphs) -> String {
    match load(names, vocabulary(), graphs) {
        Err(AsrError::ModelNotFound(m)) | Err(AsrError::Load(m)) => m,
        _ => panic!("loading must fail"),
    }
}

#[test]
fn zipformer_load_errors() {
    assert_eq!(load_message(&[], &graphs()), "tokens.txt not found in .");
    let names = ["tokens.txt"];
    let mut g = graphs();
    g.joiner = Graph::Unreadable { path: "j.onnx".into(), message: "bad".into() };
    assert_eq!(load_message(&names, &g), "zipformer load j.onnx: bad");
    let mut g = graphs();
    g.decoder_meta = Err("gone".into());
    assert_eq!(load_message(&names, &g), "zipformer decoder metadata: gone");
    let mut g = graphs();
    g.decoder_meta = Ok(vec![("context_size".to_string(), "0".to_string())]);
    assert_eq!(load_message(&names, &g), "zipformer decoder reports context_size = 0");
    let mut g = graphs();
    g.encoder = graph(&["x"]);
    assert_eq!(
        load_message(&names, &g),
        "zipformer encoder expects 2 inputs (features, feature_lengths), got 1: [\"x\"]"
    );
    let mut g = graphs();
    g.decoder = graph(&["y", "z\n"]);
    assert_eq!(
        load_message(&names, &g),
        "zipformer decoder expects 1 input, got 2: [\"y\", \"z\\n\"]"
    );
    let mut g = graphs();
    g.joiner = graph(&[]);
    assert_eq!(
        load_message(&names, &g),
        "zipformer joiner expects 2 inputs (encoder_out, decoder_out), got 0: []"
    );
}

fn engine() -> ZipformerEngine {
    load(&["tokens.txt"], vocabulary(), &graphs()).ok().unwrap()
}

#[test]
fn a_loaded_transducer_knows_its_context() {
    let e = engine();
    assert_eq!((e.context_size, e.unk_id), (2, 1));
    assert_eq!(e.dec_in, "y");
    let mut g = graphs();
    g.decoder_meta = Ok(Metadata::new());
    let e = load(&["tokens.txt"], Ok("a 0".into()), &g).ok().unwrap();
    assert_eq!((e.context_size, e.unk_id), (2, -1));
    g.decoder_meta = Ok(vec![("context_size".to_string(), " 3\n".to_string())]);
    assert_eq!(load(&["tokens.txt"], vocabulary(), &g).ok().unwrap().context_size, 3);
}

// --- transcription ---

struct Seen(Arc<Mutex<Vec<u8>>>);

impl ProgressSink for Seen {
    fn progress(&self, pct: u8) {
        self.0.lock().unwrap().push(pct);
    }
}

#[test]
fn features_are_the_rows_one_after_another() {
    let rows: Rows = vec![Some(singles(&[1.0, 2.0])), Some(singles(&[3.0]))];
    let (feats, frames) = compute_features(&rows).ok().unwrap();
    assert_eq!((feats, frames), (singles(&[1.0, 2.0, 3.0]), 2));
    let lost: Rows = vec![Some(Vec::new()), None];
    match compute_features(&lost) {
        Err(AsrError::Transcribe(m)) => assert_eq!(m, "zipformer: fbank frame vanished mid-read"),
        _ => panic!("a lost frame is an error"),
    }
}

/// An encoder that gives one frame per scripted token, whose joiner speaks it.
fn say(
    script: &[usize],
    control: &TranscribeControl,
    contexts: &Mutex<Vec<Vec<i64>>>,
    after: &dyn Fn(),
) -> Result<TranscriptionResult, AsrError> {
    let fbank = |a: &[Single]| -> Result<Rows, Fault> {
        assert_eq!(a.len(), 3);
        Ok(vec![Some(singles(&[0.5; 80])); 4])
    };
    let encode = |x: &[Single], n: usize| -> Result<Tensor, Fault> {
        assert_eq!((x.len(), n), (320, 4));
        let data: Vec<f32> = script.iter().map(|id| *id as f32).collect();
        Ok(Tensor { shape: vec![1, script.len() as i64, 1], data: singles(&data) })
    };
    let decode = |c: &[i64]| -> Result<Vec<Single>, Fault> {
        contexts.lock().unwrap().push(c.to_vec());
        Ok(singles(&[c[c.len() - 1] as f32]))
    };
    let join = |e: &[Single], _d: &[Single]| -> Result<Vec<Single>, Fault> {
        after();
        let id = f32::from_bits(e[0].to_bits()) as usize;
        let mut logits = vec![0.0f32; 5];
        logits[id] = 1.0;
        Ok(singles(&logits))
    };
    let model = ZipformerModel { fbank, encode, decode, join };
    let mut monitor = Monitor::new(control);
    engine().transcribe(
        &singles(&[0.1, 0.2, 0.3]),
        &TranscribeOptions::default(),
        &mut monitor,
        &model,
    )
}

#[test]
fn greedy_search_skips_blank_and_unknown() {
    let log = Arc::new(Mutex::new(Vec::new()));
    let control = TranscribeControl {
        cancel: None,
        on_progress: Some(Arc::new(Seen(log.clone()))),
    };
    let contexts = Mutex::new(Vec::new());
    let r = say(&[0, 2, 0, 3, 1, 4], &control, &contexts, &|| {}).ok().unwrap();
    assert_eq!(r.text, "hello world");
    assert!(r.detected_language.is_none() && r.segments.is_empty());
    // The decoder runs on two blanks, then after each emission.
    assert_eq!(
        *contexts.lock().unwrap(),
        vec![vec![0, 0], vec![0, 2], vec![2, 3], vec![3, 4]]
    );
    assert_eq!(*log.lock().unwrap(), vec![0, 0, 100]);
}

#[test]
fn progress_is_reported_every_64_frames() {
    let log = Arc::new(Mutex::new(Vec::new()));
    let control = TranscribeControl {
        cancel: None,
        on_progress: Some(Arc::new(Seen(log.clone()))),
    };
    let r = say(&[0; 200], &control, &Mutex::new(Vec::new()), &|| {}).ok().unwrap();
    assert_eq!(r.text, "");
    assert_eq!(*log.lock().unwrap(), vec![0, 0, 32, 64, 96, 100]);
}

#[test]
fn a_flag_set_at_a_frame_cancels_at_the_next() {
    let flag = Arc::new(AtomicBool::new(false));
    let control = TranscribeControl { cancel: Some(flag.clone()), on_progress: None };
    let frames = Mutex::new(0);
    let r = say(&[2, 3, 4], &control, &Mutex::new(Vec::new()), &|| {
        *frames.lock().unwrap() += 1;
        flag.store(true, Ordering::Relaxed);
    });
    assert!(matches!(r, Err(AsrError::Cancelled)));
    assert_eq!(*frames.lock().unwrap(), 1);
}

#[test]
fn zipformer_faults_are_named() {
    for (stage, message) in [
        (ZipformerStage::FbankInit, "zipformer fbank init: m"),
        (ZipformerStage::Features, "zipformer features tensor: m"),
        (ZipformerStage::FeatureLengths, "zipformer feature_lengths tensor: m"),
        (ZipformerStage::EncoderRun, "zipformer encoder run: m"),
        (ZipformerStage::EncoderOutput, "zipformer encoder output: m"),
        (ZipformerStage::DecoderInput, "zipformer decoder input: m"),
        (ZipformerStage::DecoderRun, "zipformer decoder run: m"),
        (ZipformerStage::DecoderOutput, "zipformer decoder output: m"),
        (ZipformerStage::JoinerEncoderInput, "zipformer joiner encoder input: m"),
        (ZipformerStage::JoinerDecoderInput, "zipformer joiner decoder input: m"),
        (ZipformerStage::JoinerRun, "zipformer joiner run: m"),
        (ZipformerStage::JoinerOutput, "zipformer joiner output: m"),
    ] {
        match stage.error("m") {
            AsrError::Transcribe(m) => assert_eq!(m, message),
            e => panic!("{}", e.message()),
        }
    }
}

fn with_shape(shape: Vec<i64>, rows: Rows) -> Result<TranscriptionResult, AsrError> {
    let model = ZipformerModel {
        fbank: |_a: &[Single]| -> Result<Rows, Fault> { Ok(rows.clone()) },
        encode: |_x: &[Single], _n: usize| -> Result<Tensor, Fault> {
            Ok(Tensor { shape: shape.clone(), data: Vec::new() })
        },
        decode: |_c: &[i64]| -> Result<Vec<Single>, Fault> { Ok(Vec::new()) },
        join: |_e: &[Single], _d: &[Single]| -> Result<Vec<Single>, Fault> { Ok(Vec::new()) },
    };
    let none = TranscribeControl::none();
    engine().transcribe(
        &singles(&[0.1]),
        &TranscribeOptions::default(),
        &mut Monitor::new(&none),
        &model,
    )
}

#[test]
fn an_encoder_output_of_another_rank_is_refused() {
    let row: Rows = vec![Some(singles(&[0.0; 80]))];
    match with_shape(vec![1, 0], row.clone()) {
        Err(AsrError::Transcribe(m)) => assert_eq!(
            m,
            "zipformer expected rank-3 encoder_out [1, T, C], got shape [1, 0]"
        ),
        _ => panic!("rank 2 is not rank 3"),
    }
    assert_eq!(with_shape(vec![1, 0, 0], row).ok().unwrap().text, "");
    // No features, nothing to transcribe.
    assert_eq!(with_shape(vec![1, 0], Vec::new()).ok().unwrap().text, "");
}

#[test]
fn a_cancelled_search_reports_up_to_its_frame() {
    let log = Arc::new(Mutex::new(Vec::new()));
    let flag = Arc::new(AtomicBool::new(false));
    let control = TranscribeControl {
        cancel: Some(flag.clone()),
        on_progress: Some(Arc::new(Seen(log.clone()))),
    };
    let frames = Mutex::new(0);
    // Raised while frame 129 of 200 is joined, so heard at the next frame.
    let r = say(&[0; 200], &control, &Mutex::new(Vec::new()), &|| {
        let mut n = frames.lock().unwrap();
        *n += 1;
        if *n == 129 {
            flag.store(true, Ordering::Relaxed);
        }
    });
    assert!(matches!(r, Err(AsrError::Cancelled)));
    assert_eq!(*frames.lock().unwrap(), 129);
    assert_eq!(*log.lock().unwrap(), vec![0, 0, 32, 64]);
}
