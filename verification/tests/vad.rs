use dictata_engine::model::{Graph, ModelFile};
use dictata_engine::single::Single;
use dictata_engine::vad::{
    apply_padding, probs_to_segments, SileroVad, SpeechSegment, VadAnswer, VadConfig, VadOutput, VadStage,
    STATE_LEN, WINDOW_SAMPLES,
};
use dictata_engine::AsrError;

const WIN: usize = WINDOW_SAMPLES;

fn cfg() -> VadConfig {
    VadConfig::default()
}

fn single(v: f32) -> Single {
    Single::from_bits(v.to_bits())
}

fn singles(values: &[f32]) -> Vec<Single> {
    values.iter().map(|v| single(*v)).collect()
}

#[test]
fn all_silence_yields_no_segments() {
    let probs = vec![0.0f32; 40];
    let segs = probs_to_segments(&singles(&probs), WIN, 40 * WIN, &cfg());
    assert!(segs.is_empty());
}

#[test]
fn a_short_blip_is_discarded() {
    let mut probs = vec![0.0f32; 40];
    probs[10] = 0.9;
    probs[11] = 0.9;
    let segs = probs_to_segments(&singles(&probs), WIN, 40 * WIN, &cfg());
    assert!(segs.is_empty());
}

#[test]
fn one_sustained_region_becomes_one_segment() {
    let mut probs = vec![0.0f32; 40];
    for p in probs.iter_mut().take(30).skip(10) {
        *p = 0.9;
    }
    let total = 40 * WIN;
    let segs = probs_to_segments(&singles(&probs), WIN, total, &cfg());
    assert_eq!(segs.len(), 1);
    assert_eq!(segs[0].start, 10 * WIN - 480);
    assert_eq!(segs[0].end, 30 * WIN + 480);
}

#[test]
fn a_short_dip_does_not_split_a_segment() {
    let mut probs = vec![0.9f32; 50];
    for p in probs.iter_mut().take(10) {
        *p = 0.0;
    }
    probs[25] = 0.0;
    for p in probs.iter_mut().skip(40) {
        *p = 0.0;
    }
    let total = 50 * WIN;
    let segs = probs_to_segments(&singles(&probs), WIN, total, &cfg());
    assert_eq!(segs.len(), 1);
}

#[test]
fn a_long_silence_splits_into_two_segments() {
    let mut probs = vec![0.0f32; 60];
    for p in probs.iter_mut().take(20).skip(5) {
        *p = 0.9;
    }
    for p in probs.iter_mut().take(55).skip(40) {
        *p = 0.9;
    }
    let total = 60 * WIN;
    let segs = probs_to_segments(&singles(&probs), WIN, total, &cfg());
    assert_eq!(segs.len(), 2);
    assert!(segs[0].end <= segs[1].start);
}

#[test]
fn padding_never_exceeds_the_buffer() {
    let mut probs = vec![0.9f32; 30];
    for p in probs.iter_mut().take(5) {
        *p = 0.0;
    }
    let total = 30 * WIN;
    let segs = probs_to_segments(&singles(&probs), WIN, total, &cfg());
    assert_eq!(segs.len(), 1);
    assert!(segs[0].end <= total);
    assert!(segs[0].start < segs[0].end);
}

#[test]
fn vad_segment_len_and_is_empty_are_consistent() {
    let s = SpeechSegment { start: 100, end: 500 };
    assert_eq!(s.len(), 400);
    assert!(!s.is_empty());
    assert!(SpeechSegment { start: 5, end: 5 }.is_empty());
}

#[test]
fn a_probability_between_release_and_threshold_keeps_a_region_open() {
    // 0.4 is below the threshold of 0.5 and above the release of 0.35.
    let mut probs = vec![0.4f32; 60];
    probs[5] = 0.6;
    let segs = probs_to_segments(&singles(&probs), WIN, 60 * WIN, &cfg());
    assert_eq!(segs, vec![SpeechSegment { start: 5 * WIN - 480, end: 60 * WIN }]);
}

#[test]
fn the_default_release_is_a_little_below_the_threshold() {
    let c = cfg();
    assert_eq!(c.threshold.to_bits(), 0.5f32.to_bits());
    assert_eq!(c.release.to_bits(), (0.5f32 - 0.15).to_bits());
    assert_eq!((c.min_speech_ms, c.min_silence_ms, c.speech_pad_ms), (250, 100, 30));
}

#[test]
fn close_segments_share_their_gap() {
    // Two regions five windows apart (2560 samples), with 100 ms of padding (1600).
    let wide = VadConfig { speech_pad_ms: 100, ..cfg() };
    let mut probs = vec![0.0f32; 50];
    for p in probs.iter_mut().take(20).skip(5) {
        *p = 0.9;
    }
    for p in probs.iter_mut().take(40).skip(25) {
        *p = 0.9;
    }
    let segs = probs_to_segments(&singles(&probs), WIN, 50 * WIN, &wide);
    assert_eq!(segs.len(), 2);
    assert_eq!(segs[0].end, 20 * WIN + 1280);
    assert_eq!(segs[1].start, 25 * WIN - 1280);
}

fn tight(min_silence_ms: u32) -> VadConfig {
    // 32 ms is one window.
    VadConfig { min_speech_ms: 32, min_silence_ms, speech_pad_ms: 0, ..cfg() }
}

#[test]
fn speech_as_long_as_the_minimum_is_kept() {
    let probs = singles(&[0.9, 0.0, 0.0]);
    assert_eq!(
        probs_to_segments(&probs, WIN, 1536, &tight(32)),
        vec![SpeechSegment { start: 0, end: 512 }]
    );
    let longer = VadConfig { min_speech_ms: 33, ..tight(32) };
    assert!(probs_to_segments(&probs, WIN, 1536, &longer).is_empty());
    // A region still open at the end: 512 samples are kept, 511 are not.
    let open = singles(&[0.0, 0.9]);
    assert_eq!(
        probs_to_segments(&open, WIN, 1024, &tight(32)),
        vec![SpeechSegment { start: 512, end: 1024 }]
    );
    assert!(probs_to_segments(&open, WIN, 1023, &tight(32)).is_empty());
}

#[test]
fn a_window_that_is_not_below_the_release_restarts_the_silence() {
    let probs = singles(&[0.9, 0.9, 0.0, 0.4, 0.0, 0.9, 0.9, 0.9]);
    assert_eq!(
        probs_to_segments(&probs, WIN, 4096, &tight(64)),
        vec![SpeechSegment { start: 0, end: 4096 }]
    );
    // Without it the silence lasts 64 ms and closes the region.
    let silent = singles(&[0.9, 0.9, 0.0, 0.1, 0.0, 0.9, 0.9, 0.9]);
    assert_eq!(
        probs_to_segments(&silent, WIN, 4096, &tight(64)),
        vec![SpeechSegment { start: 0, end: 1024 }, SpeechSegment { start: 2560, end: 4096 }]
    );
}

#[test]
fn padded_neighbours_meet_whatever_their_gap() {
    for (gap, first_end, second_start) in [
        (0, 2000, 2000),
        (1, 2000, 2000),
        (3, 2001, 2001),
        (100, 2050, 2050),
        (959, 2479, 2479),
        (960, 2480, 2480),
        (1000, 2480, 2520),
    ] {
        let mut segments = vec![
            SpeechSegment { start: 1000, end: 2000 },
            SpeechSegment { start: 2000 + gap, end: 3500 },
        ];
        apply_padding(&mut segments, 480, 4000);
        assert_eq!(
            segments,
            vec![
                SpeechSegment { start: 520, end: first_end },
                SpeechSegment { start: second_start, end: 3980 },
            ],
            "gap {gap}"
        );
    }
}

// --- the model ---

fn graph(names: &[&str]) -> Graph {
    Graph::Open {
        inputs: names.iter().map(|n| n.to_string()).collect(),
        outputs: Vec::new(),
    }
}

fn file(exists: bool) -> ModelFile {
    ModelFile { shown: "models/silero_vad.onnx".into(), exists }
}

fn vad() -> SileroVad {
    match SileroVad::load(&file(true), &graph(&["input", "state", "sr"]), cfg()) {
        Ok(v) => v,
        Err(e) => panic!("{}", e.message()),
    }
}

#[test]
fn vad_inputs_are_found_by_name_or_in_order() {
    let v = SileroVad::load(&file(true), &graph(&["sr", "input", "state"]), cfg()).ok().unwrap();
    assert_eq!((&*v.audio_input, &*v.state_input, &*v.sr_input), ("input", "state", "sr"));
    let v = SileroVad::load(&file(true), &graph(&["a", "b", "c"]), cfg()).ok().unwrap();
    assert_eq!((&*v.audio_input, &*v.state_input, &*v.sr_input), ("a", "b", "c"));
}

#[test]
fn vad_load_errors() {
    match SileroVad::load(&file(false), &graph(&["input", "state", "sr"]), cfg()) {
        Err(AsrError::ModelNotFound(m)) => assert_eq!(m, "models/silero_vad.onnx"),
        _ => panic!("an absent file is not found"),
    }
    match SileroVad::load(&file(true), &Graph::Refused("no runtime".into()), cfg()) {
        Err(AsrError::Load(m)) => assert_eq!(m, "no runtime"),
        _ => panic!("a refused session fails to load"),
    }
    let broken = Graph::Unreadable { path: "p".into(), message: "bad graph".into() };
    match SileroVad::load(&file(true), &broken, cfg()) {
        Err(AsrError::Load(m)) => assert_eq!(m, "bad graph"),
        _ => panic!("an unreadable file fails to load"),
    }
    match SileroVad::load(&file(true), &graph(&["a", "b\""]), cfg()) {
        Err(AsrError::Load(m)) => assert_eq!(
            m,
            "expected a Silero v5 model with 3 inputs (audio, state, sr), got 2: [\"a\", \"b\\\"\"]"
        ),
        _ => panic!("two inputs are not three"),
    }
}

/// Speech wherever the first sample of the window is positive; the state counts
/// the windows.
fn run(window: &[Single], state: &[Single]) -> VadAnswer {
    assert_eq!(window.len(), WIN);
    let count = f32::from_bits(state[0].to_bits());
    let p = if f32::from_bits(window[0].to_bits()) > 0.0 { 0.9 } else { 0.1 };
    let mut next = state.to_vec();
    next[0] = single(count + 1.0);
    Ok(VadOutput { probability: vec![single(p)], state: Ok(next) })
}

#[test]
fn vad_hears_every_window_and_starts_afresh() {
    let mut v = vad();
    let mut audio = vec![0.0f32; 20 * WIN];
    for s in audio.iter_mut().take(15 * WIN).skip(4 * WIN) {
        *s = 0.5;
    }
    audio.push(0.5);
    let audio = singles(&audio);
    let segs = v.segments(&audio, &run).ok().unwrap();
    assert_eq!(segs, vec![SpeechSegment { start: 4 * WIN - 480, end: 15 * WIN + 480 }]);
    // 21 windows, the last one zero-padded.
    assert_eq!(f32::from_bits(v.state[0].to_bits()), 21.0);
    let again = v.segments(&audio, &run).ok().unwrap();
    assert_eq!(again, segs);
    assert_eq!(f32::from_bits(v.state[0].to_bits()), 21.0);
    let kept = v.collect_speech(&audio, &run).ok().unwrap();
    assert_eq!(kept.len(), segs[0].len());
    assert_eq!(kept, audio[segs[0].start..segs[0].end].to_vec());
    assert!(v.segments(&[], &run).ok().unwrap().is_empty());
}

#[test]
fn a_state_of_the_wrong_length_is_ignored() {
    let mut v = vad();
    let short = |_w: &[Single], s: &[Single]| -> VadAnswer {
        assert_eq!(s.len(), STATE_LEN);
        Ok(VadOutput { probability: vec![single(0.1)], state: Ok(vec![single(1.0)]) })
    };
    assert!(v.segments(&singles(&[0.0; 2000]), &short).ok().unwrap().is_empty());
    assert_eq!(v.state, singles(&[0.0; 256]));
}

#[test]
fn vad_inference_errors() {
    let mut v = vad();
    let audio = singles(&[0.0; 10]);
    let shown = |r: Result<Vec<SpeechSegment>, AsrError>| match r {
        Err(AsrError::Transcribe(m)) => m,
        _ => panic!("expected a failed transcription"),
    };
    for (stage, label) in [
        (VadStage::Audio, "vad audio tensor: boom"),
        (VadStage::State, "vad state tensor: boom"),
        (VadStage::Rate, "vad sr tensor: boom"),
        (VadStage::Inference, "vad inference: boom"),
        (VadStage::Probability, "vad probability: boom"),
    ] {
        let fail =
            |_w: &[Single], _s: &[Single]| -> VadAnswer { Err((stage, "boom".to_string())) };
        assert_eq!(shown(v.segments(&audio, &fail)), label);
    }
    let empty = |_w: &[Single], _s: &[Single]| -> VadAnswer {
        Ok(VadOutput { probability: Vec::new(), state: Err("unread".into()) })
    };
    assert_eq!(shown(v.segments(&audio, &empty)), "vad returned an empty probability");
    let lost = |_w: &[Single], _s: &[Single]| -> VadAnswer {
        Ok(VadOutput { probability: vec![single(0.5)], state: Err("unread".into()) })
    };
    assert_eq!(shown(v.segments(&audio, &lost)), "vad state output: unread");
}
