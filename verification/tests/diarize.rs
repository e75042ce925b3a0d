use dictata_engine::diarize::{to_segments, DiarizeConfig, Diarizer, RawTurn, SpeakerSegment};
use dictata_engine::model::ModelFile;
use dictata_engine::single::Single;
use dictata_engine::AsrError;

fn value(s: Single) -> f32 {
    f32::from_bits(s.to_bits())
}

#[test]
fn loading_a_missing_model_reports_model_not_found() {
    let path = std::path::Path::new("does/not/exist_sortformer.onnx");
    let file = ModelFile { shown: path.display().to_string(), exists: path.exists() };
    let result = Diarizer::load(&file, &Ok(()), DiarizeConfig::default());
    match result {
        Err(AsrError::ModelNotFound(m)) => assert_eq!(m, "does/not/exist_sortformer.onnx"),
        _ => panic!("a missing file is not found"),
    }
}

#[test]
fn a_model_that_cannot_be_opened_reports_a_load_error() {
    let file = ModelFile { shown: "m.onnx".into(), exists: true };
    match Diarizer::load(&file, &Err("bad graph".into()), DiarizeConfig::default()) {
        Err(AsrError::Load(m)) => assert_eq!(m, "bad graph"),
        _ => panic!("the loader's words are expected"),
    }
}

#[test]
fn default_config_matches_the_callhome_preset() {
    let c = DiarizeConfig::default();
    assert!((value(c.onset) - 0.641).abs() < 1e-6);
    assert!((value(c.offset) - 0.561).abs() < 1e-6);
    assert_eq!(c.min_speech_ms, 511);
    assert_eq!(c.min_gap_ms, 296);
}

#[test]
fn diarize_segment_len_and_is_empty_are_consistent() {
    let s = SpeakerSegment { start: 100, end: 900, speaker: 2 };
    assert_eq!(s.len(), 800);
    assert!(!s.is_empty());

    let empty = SpeakerSegment { start: 500, end: 500, speaker: 0 };
    assert_eq!(empty.len(), 0);
    assert!(empty.is_empty());
}

fn diarizer() -> Diarizer {
    let file = ModelFile { shown: "m.onnx".into(), exists: true };
    Diarizer::load(&file, &Ok(()), DiarizeConfig::default()).ok().unwrap()
}

#[test]
fn turns_keep_their_order_and_speakers() {
    let turns: Vec<RawTurn> = vec![(0, 8_000, 1), (8_000, 20_000, 0), (20_000, 20_000, 3)];
    let run = |_a: &[Single]| -> Result<Vec<RawTurn>, String> { Ok(turns.clone()) };
    let audio = vec![Single::from_bits(0); 10];
    let out = diarizer().diarize(&audio, &run).ok().unwrap();
    assert_eq!(
        out,
        vec![
            SpeakerSegment { start: 0, end: 8_000, speaker: 1 },
            SpeakerSegment { start: 8_000, end: 20_000, speaker: 0 },
            SpeakerSegment { start: 20_000, end: 20_000, speaker: 3 },
        ]
    );
    assert_eq!(to_segments(&turns), out);
}

#[test]
fn turns_come_out_in_start_order_and_equal_starts_keep_theirs() {
    let turns: Vec<RawTurn> =
        vec![(500, 900, 1), (0, 400, 2), (500, 600, 0), (100, 200, 3), (0, 50, 1), (500, 900, 1)];
    let run = |_a: &[Single]| -> Result<Vec<RawTurn>, String> { Ok(turns.clone()) };
    let out = diarizer().diarize(&[Single::from_bits(0)], &run).ok().unwrap();
    let seen: Vec<(usize, usize, usize)> =
        out.iter().map(|s| (s.start, s.end, s.speaker)).collect();
    assert_eq!(
        seen,
        vec![(0, 400, 2), (0, 50, 1), (100, 200, 3), (500, 900, 1), (500, 600, 0), (500, 900, 1)]
    );
}

#[test]
fn an_empty_buffer_has_no_turns_and_a_failure_is_reported() {
    let fail = |_a: &[Single]| -> Result<Vec<RawTurn>, String> { Err("no memory".to_string()) };
    assert!(diarizer().diarize(&[], &fail).ok().unwrap().is_empty());
    match diarizer().diarize(&[Single::from_bits(0)], &fail) {
        Err(AsrError::Transcribe(m)) => assert_eq!(m, "no memory"),
        _ => panic!("the runtime's words are expected"),
    }
}
