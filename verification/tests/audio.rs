use dictata_engine::engines::sanitize_audio;
use dictata_engine::engines::windows::{
    find_min_rms_cut, progress_at, quietest_cut, Walk, BAND_BLOCKS, SEARCH_START_SAMPLES,
    WINDOW_SAMPLES,
};
use dictata_engine::resample::to_engine_audio;
use dictata_engine::single::Single;
use dictata_engine::{TranscriptionResult, SAMPLE_RATE};
use std::borrow::Cow;

const RATE: usize = SAMPLE_RATE as usize;

fn singles(values: &[f32]) -> Vec<Single> {
    values.iter().map(|v| Single::from_bits(v.to_bits())).collect()
}

fn floats(values: &[Single]) -> Vec<f32> {
    values.iter().map(|v| f32::from_bits(v.to_bits())).collect()
}

fn rms(block: &[Single]) -> Single {
    let sum: f32 = floats(block).iter().map(|s| s * s).sum();
    Single::from_bits((sum / block.len() as f32).sqrt().to_bits())
}

fn cut(audio: &[f32]) -> usize {
    find_min_rms_cut(&singles(audio), &rms)
}

#[test]
fn sanitize_borrows_clean_audio_without_allocating() {
    let clean = singles(&[0.0, 0.5, -0.5, 1.0, -1.0]);
    assert!(matches!(sanitize_audio(&clean), Cow::Borrowed(_)));
    assert_eq!(&*sanitize_audio(&clean), &clean[..]);
}

#[test]
fn sanitize_replaces_non_finite_and_clamps_out_of_range() {
    let dirty = singles(&[f32::NAN, f32::INFINITY, f32::NEG_INFINITY, 2.0, -3.0, 0.3]);
    let out = sanitize_audio(&dirty);
    assert!(matches!(out, Cow::Owned(_)));
    let out = floats(&out);
    assert_eq!(&out[..], &[0.0, 0.0, 0.0, 1.0, -1.0, 0.3]);
    assert!(out.iter().all(|s| s.is_finite() && (-1.0..=1.0).contains(s)));
}

#[test]
fn sanitizing_twice_changes_nothing_more() {
    let dirty = singles(&[1.0000001, -1.5, 0.25, f32::NAN]);
    let once = sanitize_audio(&dirty).into_owned();
    assert!(matches!(sanitize_audio(&once), Cow::Borrowed(_)));
}

#[test]
fn singles_compare_as_floats_do() {
    let values = [
        0.0,
        -0.0,
        f32::MIN_POSITIVE,
        1e-45,
        -1e-45,
        0.5,
        1.0,
        -1.0,
        1.5,
        f32::MAX,
        f32::MIN,
        f32::INFINITY,
        f32::NEG_INFINITY,
        f32::NAN,
    ];
    for a in values {
        for b in values {
            let (x, y) = (Single::from_bits(a.to_bits()), Single::from_bits(b.to_bits()));
            assert_eq!(x.greater_than(y), a > b, "{a} > {b}");
            assert_eq!(x.at_least(y), a >= b, "{a} >= {b}");
        }
        let x = Single::from_bits(a.to_bits());
        assert_eq!(x.is_nan(), a.is_nan());
        assert_eq!(x.is_finite(), a.is_finite());
    }
}

/// `secs` seconds of a signal at amplitude `amp` (0.0 = silence).
fn tone(secs: f32, amp: f32) -> Vec<f32> {
    let n = (RATE as f32 * secs) as usize;
    (0..n).map(|i| if i % 2 == 0 { amp } else { -amp }).collect()
}

#[test]
fn cut_takes_the_whole_clip_when_it_fits_in_one_window() {
    assert_eq!(cut(&tone(10.0, 0.3)), 10 * RATE);
    assert_eq!(cut(&tone(30.0, 0.3)), 30 * RATE);
    assert_eq!(cut(&tone(32.0, 0.3)), 32 * RATE);
}

#[test]
fn cut_falls_on_the_quietest_block_in_the_search_band() {
    let mut audio = tone(26.0, 0.3);
    audio.extend(tone(0.2, 0.0));
    audio.extend(tone(6.8, 0.3));
    let cut_s = cut(&audio) as f32 / RATE as f32;
    assert!(
        (26.0..=26.3).contains(&cut_s),
        "cut expected near 26 s (the gap), got {cut_s} s"
    );
}

#[test]
fn cut_stays_within_the_search_band_on_continuous_speech() {
    let cut = cut(&tone(40.0, 0.3));
    assert!(
        (SEARCH_START_SAMPLES..=WINDOW_SAMPLES).contains(&cut),
        "cut {cut} outside band [{SEARCH_START_SAMPLES}, {WINDOW_SAMPLES}]"
    );
}

#[test]
fn a_split_never_leaves_a_tiny_trailing_window() {
    for secs in [30.1f32, 32.1, 33.0, 45.0, 60.0] {
        let audio = tone(secs, 0.2);
        let cut = cut(&audio);
        if cut < audio.len() {
            let tail = audio.len() - cut;
            assert!(tail >= 2 * RATE, "tail {tail} samples < 2 s at {secs} s");
        }
    }
}

#[test]
fn cut_always_makes_progress() {
    for secs in [1.0f32, 15.0, 29.9, 30.0, 32.1, 61.0, 120.0] {
        assert!(cut(&tone(secs, 0.2)) > 0, "null cut at {secs} s");
    }
}

#[test]
fn the_quietest_block_wins_and_ties_go_to_the_first() {
    let mut levels = vec![0.5f32; BAND_BLOCKS];
    levels[0] = 0.2;
    assert_eq!(quietest_cut(&singles(&levels)), SEARCH_START_SAMPLES);
    levels[7] = 0.1;
    levels[9] = 0.1;
    assert_eq!(quietest_cut(&singles(&levels)), SEARCH_START_SAMPLES + 7 * 1600);
    levels[BAND_BLOCKS - 1] = 0.05;
    assert_eq!(quietest_cut(&singles(&levels)), WINDOW_SAMPLES - 1600);
    // No block below infinity: the hard cap.
    let loud = vec![f32::INFINITY; BAND_BLOCKS];
    assert_eq!(quietest_cut(&singles(&loud)), WINDOW_SAMPLES);
    let broken = vec![f32::NAN; BAND_BLOCKS];
    assert_eq!(quietest_cut(&singles(&broken)), WINDOW_SAMPLES);
}

#[test]
fn a_band_without_a_dip_is_cut_at_the_hard_cap() {
    for level in [0.0f32, 0.3, 1.0] {
        let levels = vec![level; BAND_BLOCKS];
        assert_eq!(quietest_cut(&singles(&levels)), WINDOW_SAMPLES);
    }
    assert_eq!(cut(&vec![0.3f32; 640_000]), 480_000);
    // All but one block at the lowest level: the first of them.
    let mut levels = vec![0.3f32; BAND_BLOCKS];
    levels[0] = 0.4;
    assert_eq!(quietest_cut(&singles(&levels)), SEARCH_START_SAMPLES + 1600);
}

#[test]
fn windows_cover_a_long_clip_without_gap_or_overlap() {
    let audio = singles(&tone(100.0, 0.2));
    let mut walk = Walk::new(&audio, &rms);
    let mut seen = 0;
    while walk.start < audio.len() {
        let len = walk.next_len(&audio, &rms);
        assert!(len <= 32 * RATE && len >= 2 * RATE);
        seen += len;
        walk.add_part(TranscriptionResult::default(), len, &audio, &rms);
        assert_eq!(walk.start, seen);
    }
    assert_eq!(seen, audio.len());
}

#[test]
fn window_progress_is_a_share_of_the_clip() {
    assert_eq!(progress_at(0, 50, 0, 200), 0);
    assert_eq!(progress_at(0, 50, 20, 200), 5);
    assert_eq!(progress_at(50, 100, 50, 200), 50);
    assert_eq!(progress_at(100, 100, 100, 200), 100);
}

// --- resampling ---

fn mean(frame: &[Single]) -> Single {
    let inv = 1.0 / frame.len() as f32;
    Single::from_bits((floats(frame).iter().sum::<f32>() * inv).to_bits())
}

fn blend(a: Single, b: Single, num: u32, den: u32) -> Single {
    let (a, b) = (f32::from_bits(a.to_bits()), f32::from_bits(b.to_bits()));
    let frac = (num as f64 / den as f64) as f32;
    Single::from_bits((a + (b - a) * frac).to_bits())
}

fn convert(input: &[f32], from_rate: u32, channels: u16) -> Vec<f32> {
    floats(&to_engine_audio(&singles(input), from_rate, channels, &mean, &blend))
}

#[test]
fn degenerate_input_yields_empty() {
    assert!(convert(&[], 48_000, 2).is_empty());
    assert!(convert(&[0.1, 0.2], 48_000, 0).is_empty());
    assert!(convert(&[0.1, 0.2], 0, 1).is_empty());
}

#[test]
fn mono_at_target_rate_is_unchanged() {
    let input = vec![0.0, 0.5, -0.5, 1.0, -1.0];
    let out = convert(&input, SAMPLE_RATE, 1);
    assert_eq!(out, input);
}

#[test]
fn stereo_is_averaged_to_mono() {
    let input = vec![0.0, 1.0, 0.2, 0.4, -1.0, 1.0];
    let out = convert(&input, SAMPLE_RATE, 2);
    assert_eq!(out.len(), 3);
    assert!((out[0] - 0.5).abs() < 1e-6);
    assert!((out[1] - 0.3).abs() < 1e-6);
    assert!((out[2] - 0.0).abs() < 1e-6);
}

#[test]
fn trailing_partial_stereo_frame_is_dropped() {
    let input = vec![0.0, 0.0, 0.4, 0.6, 0.9];
    let out = convert(&input, SAMPLE_RATE, 2);
    assert_eq!(out.len(), 2);
}

#[test]
fn downsampling_scales_length_by_the_rate_ratio() {
    let input: Vec<f32> = (0..3200).map(|i| (i as f32 * 0.01).sin()).collect();
    let out = convert(&input, 32_000, 1);
    assert_eq!(out.len(), 1600);
}

#[test]
fn upsampling_scales_length_by_the_rate_ratio() {
    let input: Vec<f32> = (0..800).map(|i| (i as f32 * 0.01).sin()).collect();
    let out = convert(&input, 8_000, 1);
    assert_eq!(out.len(), 1600);
}

#[test]
fn interpolated_values_stay_within_the_input_envelope() {
    let input = vec![0.0, 0.8, -0.4, 0.2, -0.9, 0.6];
    let out = convert(&input, 44_100, 1);
    let (lo, hi) = (-0.9f32, 0.8f32);
    assert!(out.iter().all(|&s| s >= lo - 1e-6 && s <= hi + 1e-6));
}

#[test]
fn interpolation_takes_the_two_neighbours() {
    // Doubling the rate: every other sample is halfway, and the last one holds.
    assert_eq!(convert(&[0.0, 1.0, 0.5], 8_000, 1), vec![0.0, 0.5, 1.0, 0.75, 0.5, 0.5]);
    // Halving it keeps every other sample.
    assert_eq!(convert(&[0.0, 1.0, 0.5, 0.25], 32_000, 1), vec![0.0, 0.5]);
}
