//! Shared Silero voice-activity detection.
//!
//! A backend-agnostic pre-filter: the model gives a speech probability for every
//! 512-sample window of a mono 16 kHz buffer, and this module turns those
//! probabilities into the speech regions of the buffer.

use crate::error::{AsrError, ErrorView};
use crate::model::{input_name, resolve_input, Graph, ModelFile};
use crate::single::Single;
use crate::text::{concat, debug_names, debug_text, decimal, decimal_usize, views};
use crate::types::SAMPLE_RATE;
use vstd::prelude::*;
use vstd::string::*;

verus! {

/// Samples per inference window. Silero v5 is trained for a fixed 512-sample
/// window at 16 kHz; other sizes are not accepted by the graph.
pub const WINDOW_SAMPLES: usize = 512;

/// Length of the recurrent state tensor: shape `[2, 1, 128]`.
pub const STATE_LEN: usize = 256;

/// Tuning knobs for turning per-window speech probabilities into segments.
#[derive(Debug, Clone, Copy)]
pub struct VadConfig {
    /// Speech starts when the window probability reaches this value.
    pub threshold: Single,
    /// Speech can end when the window probability is below this value, which is
    /// `threshold - 0.15`.
    pub release: Single,
    /// Speech shorter than this is discarded as a blip (milliseconds).
    pub min_speech_ms: u32,
    /// A silence gap shorter than this does not split a segment (milliseconds).
    pub min_silence_ms: u32,
    /// Padding added to each side of a segment so words are not clipped
    /// (milliseconds).
    pub speech_pad_ms: u32,
}

impl Default for VadConfig {
    /// A threshold of 0.5, so a release of 0.35, with 250 ms of speech, 100 ms of
    /// silence and 30 ms of padding.
    fn default() -> (r: Self)
        ensures
            r.threshold.bits == 0x3f00_0000,
            r.release.bits == 0x3eb3_3333,
            r.min_speech_ms == 250,
            r.min_silence_ms == 100,
            r.speech_pad_ms == 30,
    {
        VadConfig {
            threshold: Single { bits: 0x3f00_0000 },
            release: Single { bits: 0x3eb3_3333 },
            min_speech_ms: 250,
            min_silence_ms: 100,
            speech_pad_ms: 30,
        }
    }
}

/// A detected speech region, as **sample indices** into the buffer. Convert to
/// seconds by dividing by [`SAMPLE_RATE`]. `end` is exclusive.
#[derive(Debug, Clone, Copy, PartialEq, Eq, Structural)]
pub struct SpeechSegment {
    /// First speech sample (inclusive).
    pub start: usize,
    /// One past the last speech sample (exclusive).
    pub end: usize,
}

/// A half-open range of samples.
pub struct Span {
    pub start: int,
    pub end: int,
}

impl View for SpeechSegment {
    type V = Span;

    open spec fn view(&self) -> Span {
        Span { start: self.start as int, end: self.end as int }
    }
}

impl SpeechSegment {
    /// Length of the segment in samples.
    pub fn len(&self) -> (r: usize)
        requires
            self.start <= self.end,
        ensures
            r == self.end - self.start,
    {
        self.end - self.start
    }

    /// True when the segment carries no samples.
    pub fn is_empty(&self) -> (r: bool)
        ensures
            r == (self.end <= self.start),
    {
        self.end <= self.start
    }
}

/// The spans of a list of segments.
pub open spec fn spans(segments: Seq<SpeechSegment>) -> Seq<Span> {
    segments.map_values(|s: SpeechSegment| s@)
}

/// The number of samples in `ms` milliseconds.
pub open spec fn ms_samples(ms: int) -> int {
    SAMPLE_RATE * ms / 1000
}

fn samples_in(ms: u32) -> (r: u64)
    ensures
        r == ms_samples(ms as int),
        r <= 0x10_0000_0000,
{
    assert(SAMPLE_RATE as u64 * ms as u64 <= 0x10_0000_0000 * 1000 && SAMPLE_RATE as u64
        * ms as u64 >= 0) by (nonlinear_arith)
        requires
            SAMPLE_RATE == 16_000,
            ms <= 0xffff_ffff,
    ;
    let all: u64 = SAMPLE_RATE as u64 * ms as u64;
    all / 1000
}

// --- hysteresis -----------------------------------------------------------------

/// Where the detector stands after some windows.
pub struct Tracker {
    /// The sample at which the region being followed began, if one is.
    pub open: Option<int>,
    /// The sample since which the probability has stayed below the release value,
    /// if it does now.
    pub quiet: Option<int>,
    /// The regions followed to their end and kept, in order.
    pub closed: Seq<Span>,
}

impl Tracker {
    /// Nothing heard yet.
    pub open spec fn start() -> Tracker {
        Tracker { open: None, quiet: None, closed: Seq::empty() }
    }

    /// After one more window, at sample `pos`, with speech probability `p`.
    ///
    /// A region opens when the probability reaches the threshold. It closes, at
    /// the first sample of the silence, once the probability has stayed below the
    /// release value from that sample to one `min_silence_ms` later, and is kept
    /// unless shorter than `min_speech_ms`.
    pub open spec fn hear(self, pos: int, p: Single, cfg: VadConfig) -> Tracker {
        let speech = p.ge(cfg.threshold);
        let quiet = if speech || !cfg.release.gt(p) {
            None
        } else {
            self.quiet
        };
        match self.open {
            None => if speech {
                Tracker { open: Some(pos), quiet, ..self }
            } else {
                Tracker { quiet, ..self }
            },
            Some(begun) => if cfg.release.gt(p) {
                let since = match quiet {
                    Some(q) => q,
                    None => pos,
                };
                if pos - since < ms_samples(cfg.min_silence_ms as int) {
                    Tracker { quiet: Some(since), ..self }
                } else {
                    Tracker {
                        open: None,
                        quiet: None,
                        closed: keep_span(
                            self.closed,
                            begun,
                            since,
                            ms_samples(cfg.min_speech_ms as int),
                        ),
                    }
                }
            } else {
                Tracker { quiet, ..self }
            },
        }
    }

    /// After all of `probs`, one per window of `window` samples.
    pub open spec fn hear_all(probs: Seq<Single>, window: int, cfg: VadConfig) -> Tracker
        decreases probs.len(),
    {
        if probs.len() == 0 {
            Tracker::start()
        } else {
            Tracker::hear_all(probs.drop_last(), window, cfg).hear(
                (probs.len() - 1) * window,
                probs.last(),
                cfg,
            )
        }
    }

    /// The regions once the audio ends at sample `total`: one still open closes
    /// there.
    pub open spec fn finish(self, total: int, cfg: VadConfig) -> Seq<Span> {
        match self.open {
            Some(begun) => keep_span(
                self.closed,
                begun,
                total,
                ms_samples(cfg.min_speech_ms as int),
            ),
            None => self.closed,
        }
    }
}

/// `kept` with the span `start..end` at its end, if that holds samples and is no
/// shorter than `floor`.
pub open spec fn keep_span(kept: Seq<Span>, start: int, end: int, floor: int) -> Seq<Span> {
    if start < end && end - start >= floor {
        kept.push(Span { start, end })
    } else {
        kept
    }
}

// --- padding --------------------------------------------------------------------

/// `a - b`, or zero when that is negative.
pub open spec fn minus(a: int, b: int) -> int {
    if a > b {
        a - b
    } else {
        0
    }
}

pub open spec fn least(a: int, b: int) -> int {
    if a < b {
        a
    } else {
        b
    }
}

/// The silence between segment `i` and the next one.
pub open spec fn gap_after(segments: Seq<Span>, i: int) -> int {
    minus(segments[i + 1].start, segments[i].end)
}

/// Where segment `i` ends once padded: `pad` later, or by half the gap to its
/// neighbour, rounded down, when that gap is under `2 * pad`.
pub open spec fn padded_end(segments: Seq<Span>, i: int, pad: int, total: int) -> int {
    if i + 1 < segments.len() && gap_after(segments, i) < 2 * pad {
        segments[i].end + gap_after(segments, i) / 2
    } else {
        least(segments[i].end + pad, total)
    }
}

/// Where segment `i` starts once padded: `pad` earlier, or by what its neighbour
/// leaves of the gap between them when that gap is under `2 * pad`.
pub open spec fn padded_start(segments: Seq<Span>, i: int, pad: int) -> int {
    if i > 0 && gap_after(segments, i - 1) < 2 * pad {
        segments[i].start - (gap_after(segments, i - 1) - gap_after(segments, i - 1) / 2)
    } else {
        minus(segments[i].start, pad)
    }
}

/// Each segment padded by `pad` samples per side, clamped to `[0, total]`; two
/// segments closer than `2 * pad` share the gap between them and meet.
pub open spec fn padded(segments: Seq<Span>, pad: int, total: int) -> Seq<Span> {
    Seq::new(
        segments.len(),
        |i: int|
            Span {
                start: padded_start(segments, i, pad),
                end: padded_end(segments, i, pad, total),
            },
    )
}

/// Pad each segment by `pad` samples per side: see [`padded`].
pub fn apply_padding(segments: &mut Vec<SpeechSegment>, pad: usize, total_samples: usize)
    requires
        2 * pad <= usize::MAX,
        forall|i: int|
            0 <= i < old(segments)@.len() ==> #[trigger] old(segments)@[i].end + pad <= usize::MAX,
    ensures
        spans(final(segments)@) == padded(spans(old(segments)@), pad as int, total_samples as int),
{
    let ghost raw = spans(segments@);
    let ghost given = segments@;
    let n: usize = segments.len();
    let mut i: usize = 0;
    while i < n
        invariant
            n == segments@.len() == raw.len() == given.len(),
            raw == spans(given),
            i <= n,
            2 * pad <= usize::MAX,
            forall|j: int| 0 <= j < n ==> #[trigger] given[j].end + pad <= usize::MAX,
            forall|j: int|
                0 <= j < i ==> #[trigger] segments@[j]@ == padded(
                    raw,
                    pad as int,
                    total_samples as int,
                )[j],
            0 < i < n ==> segments@[i as int].start == padded_start(raw, i as int, pad as int)
                && segments@[i as int].end == raw[i as int].end,
            forall|j: int|
                i < j < n || (i == 0 && j == 0 && n > 0) ==> #[trigger] segments@[j]@ == raw[j],
        decreases n - i,
    {
        assert(given[i as int].end == raw[i as int].end);
        let mut here: SpeechSegment = segments[i];
        if i == 0 {
            assert(segments@[0]@ == raw[0]);
            here.start = here.start.saturating_sub(pad);
        }
        assert(here.end == given[i as int].end);
        if i + 1 < n {
            let mut next: SpeechSegment = segments[i + 1];
            assert(segments@[i + 1]@ == raw[i + 1]);
            let gap: usize = next.start.saturating_sub(here.end);
            assert(gap == gap_after(raw, i as int));
            if gap < 2 * pad {
                let half: usize = gap / 2;
                here.end = here.end + half;
                next.start = next.start - (gap - half);
            } else {
                here.end = if here.end + pad < total_samples {
                    here.end + pad
                } else {
                    total_samples
                };
                next.start = next.start.saturating_sub(pad);
            }
            segments[i + 1] = next;
        } else {
            here.end = if here.end + pad < total_samples {
                here.end + pad
            } else {
                total_samples
            };
        }
        segments[i] = here;
        i += 1;
    }
    assert(spans(segments@) =~= padded(raw, pad as int, total_samples as int));
}

/// Turn per-window speech probabilities into padded speech segments.
///
/// A segment opens once the probability reaches `threshold`, and only closes
/// after the probability stays below `release` for at least `min_silence_ms`
/// (short dips do not split a word). Segments shorter than `min_speech_ms` are
/// dropped, then each is padded by `speech_pad_ms` and neighbouring pads are
/// split so they never overlap. See [`Tracker`] and [`padded`].
pub fn probs_to_segments(
    probs: &[Single],
    window: usize,
    total_samples: usize,
    cfg: &VadConfig,
) -> (r: Vec<SpeechSegment>)
    requires
        probs@.len() * window + 2 * ms_samples(cfg.speech_pad_ms as int) <= usize::MAX,
        total_samples + 2 * ms_samples(cfg.speech_pad_ms as int) <= usize::MAX,
        Tracker::hear_all(probs@, window as int, *cfg).open matches Some(begun) ==> begun
            <= total_samples,
    ensures
        spans(r@) == padded(
            Tracker::hear_all(probs@, window as int, *cfg).finish(total_samples as int, *cfg),
            ms_samples(cfg.speech_pad_ms as int),
            total_samples as int,
        ),
{
    let min_speech: u64 = samples_in(cfg.min_speech_ms);
    let min_silence: u64 = samples_in(cfg.min_silence_ms);
    let pad: usize = samples_in(cfg.speech_pad_ms) as usize;

    let mut segments: Vec<SpeechSegment> = Vec::new();
    let mut open: Option<usize> = None;
    let mut quiet: Option<usize> = None;
    let n: usize = probs.len();
    let mut i: usize = 0;
    assert(probs@.take(0) =~= Seq::empty());
    assert(spans(segments@) =~= Seq::empty());
    while i < n
        invariant
            i <= n,
            n == probs@.len(),
            n * window + 2 * pad <= usize::MAX,
            pad == ms_samples(cfg.speech_pad_ms as int),
            min_speech == ms_samples(cfg.min_speech_ms as int),
            min_silence == ms_samples(cfg.min_silence_ms as int),
            ({
                let t = Tracker::hear_all(probs@.take(i as int), window as int, *cfg);
                &&& t.open == (match open {
                    Some(v) => Some(v as int),
                    None => None::<int>,
                })
                &&& t.quiet == (match quiet {
                    Some(v) => Some(v as int),
                    None => None::<int>,
                })
                &&& t.closed == spans(segments@)
                &&& open matches Some(v) ==> v + 2 * pad <= usize::MAX && v <= i * window
                &&& quiet matches Some(v) ==> v + 2 * pad <= usize::MAX && v <= i * window
                &&& (open matches Some(b) ==> (quiet matches Some(q) ==> b <= q))
                &&& open is None ==> quiet is None
            }),
            forall|j: int|
                0 <= j < segments@.len() ==> #[trigger] segments@[j].end + pad <= usize::MAX,
        decreases n - i,
    {
        assert(i * window + window <= n * window) by (nonlinear_arith)
            requires
                i < n,
        ;
        assert((i + 1) * window == i * window + window) by (nonlinear_arith);
        let ghost before = probs@.take(i as int);
        let ghost after = probs@.take(i + 1);
        assert(after.drop_last() =~= before);
        assert(after.last() == probs@[i as int]);
        let ghost kept = spans(segments@);
        let pos: usize = i * window;
        let p: Single = probs[i];
        let speech: bool = p.at_least(cfg.threshold);
        let low: bool = cfg.release.greater_than(p);
        if speech || !low {
            quiet = None;
        }
        match open {
            None => {
                if speech {
                    open = Some(pos);
                }
            },
            Some(begun) => {
                if low {
                    let since: usize = match quiet {
                        Some(q) => q,
                        None => pos,
                    };
                    if ((pos - since) as u64) < min_silence {
                        quiet = Some(since);
                    } else {
                        if begun < since && (since - begun) as u64 >= min_speech {
                            segments.push(SpeechSegment { start: begun, end: since });
                            assert(spans(segments@) =~= kept.push(
                                Span { start: begun as int, end: since as int },
                            ));
                        }
                        open = None;
                        quiet = None;
                    }
                }
            },
        }
        i += 1;
    }
    assert(probs@.take(n as int) =~= probs@);
    let ghost kept = spans(segments@);
    if let Some(begun) = open {
        if begun < total_samples && (total_samples - begun) as u64 >= min_speech {
            segments.push(SpeechSegment { start: begun, end: total_samples });
            assert(spans(segments@) =~= kept.push(
                Span { start: begun as int, end: total_samples as int },
            ));
        }
    }
    apply_padding(&mut segments, pad, total_samples);
    segments
}

// --- laws -----------------------------------------------------------------------

/// The spans hold samples, are no shorter than `floor`, lie in `0..=bound`, and
/// stand in order with at least `gap` samples between one and the next.
pub open spec fn apart(kept: Seq<Span>, floor: int, gap: int, bound: int) -> bool {
    &&& forall|i: int|
        0 <= i < kept.len() ==> 0 <= #[trigger] kept[i].start < kept[i].end <= bound
            && kept[i].end - kept[i].start >= floor
    &&& forall|i: int, j: int|
        0 <= i < j < kept.len() ==> #[trigger] kept[j].start - #[trigger] kept[i].end >= gap
}

/// What holds of the detector after windows up to sample `bound`.
spec fn tracks(t: Tracker, cfg: VadConfig, bound: int) -> bool {
    let gap = ms_samples(cfg.min_silence_ms as int);
    &&& apart(t.closed, ms_samples(cfg.min_speech_ms as int), gap, bound)
    &&& t.open is None ==> t.quiet is None && (t.closed.len() > 0 ==> bound - t.closed.last().end
        >= gap)
    &&& t.open matches Some(b) ==> {
        &&& 0 <= b <= bound
        &&& t.closed.len() > 0 ==> b - t.closed.last().end >= gap
        &&& t.quiet matches Some(q) ==> b <= q <= bound
    }
}

proof fn lemma_apart_push(kept: Seq<Span>, floor: int, gap: int, bound: int, s: Span)
    requires
        apart(kept, floor, gap, bound),
        0 <= s.start,
        s.start < s.end,
        s.end - s.start >= floor,
        s.end <= bound,
        gap >= 0,
        kept.len() > 0 ==> s.start - kept.last().end >= gap,
    ensures
        apart(kept.push(s), floor, gap, bound),
{
    let all = kept.push(s);
    assert forall|i: int, j: int| 0 <= i < j < all.len() implies #[trigger] all[j].start
        - #[trigger] all[i].end >= gap by {
        if j == kept.len() && i < kept.len() - 1 {
            assert(kept[kept.len() - 1].start - kept[i].end >= gap);
            assert(kept[kept.len() - 1].start < kept[kept.len() - 1].end);
        }
    }
}

proof fn lemma_tracks(probs: Seq<Single>, window: int, cfg: VadConfig)
    requires
        probs.len() > 0,
        window >= 0,
    ensures
        tracks(Tracker::hear_all(probs, window, cfg), cfg, (probs.len() - 1) * window),
    decreases probs.len(),
{
    let pos = (probs.len() - 1) * window;
    let before = Tracker::hear_all(probs.drop_last(), window, cfg);
    let gap = ms_samples(cfg.min_silence_ms as int);
    let floor = ms_samples(cfg.min_speech_ms as int);
    if probs.len() > 1 {
        lemma_tracks(probs.drop_last(), window, cfg);
        assert((probs.len() - 2) * window <= pos && 0 <= pos) by (nonlinear_arith)
            requires
                pos == (probs.len() - 1) * window,
                window >= 0,
                probs.len() >= 2,
        ;
    } else {
        assert(probs.drop_last() =~= Seq::empty());
        assert(pos == 0) by (nonlinear_arith)
            requires
                pos == (probs.len() - 1) * window,
                probs.len() == 1,
        ;
    }
    assert(tracks(before, cfg, pos));
    if let Some(begun) = before.open {
        if cfg.release.gt(probs.last()) {
            let quiet = if probs.last().ge(cfg.threshold) {
                None
            } else {
                before.quiet
            };
            let since = match quiet {
                Some(q) => q,
                None => pos,
            };
            if pos - since >= gap && begun < since && since - begun >= floor {
                lemma_apart_push(
                    before.closed,
                    floor,
                    gap,
                    pos,
                    Span { start: begun, end: since },
                );
            }
        }
    }
}

/// The detected regions, before padding, are no shorter than the minimum, lie
/// inside the audio, and stand in order with at least `min_silence_ms` between one and
/// the next: a shorter dip never splits a region.
pub proof fn law_regions_are_apart(probs: Seq<Single>, window: int, total: int, cfg: VadConfig)
    requires
        0 <= window,
        0 <= total,
        probs.len() > 0 ==> (probs.len() - 1) * window <= total,
    ensures
        apart(
            Tracker::hear_all(probs, window, cfg).finish(total, cfg),
            ms_samples(cfg.min_speech_ms as int),
            ms_samples(cfg.min_silence_ms as int),
            total,
        ),
{
    let t = Tracker::hear_all(probs, window, cfg);
    let gap = ms_samples(cfg.min_silence_ms as int);
    let floor = ms_samples(cfg.min_speech_ms as int);
    if probs.len() > 0 {
        lemma_tracks(probs, window, cfg);
        assert(apart(t.closed, floor, gap, total));
        if let Some(begun) = t.open {
            if begun < total && total - begun >= floor {
                lemma_apart_push(t.closed, floor, gap, total, Span { start: begun, end: total });
            }
        }
    }
}

/// Audio in which no window reaches the threshold has no region.
pub proof fn law_silence_has_no_region(probs: Seq<Single>, window: int, total: int, cfg: VadConfig)
    requires
        forall|i: int| 0 <= i < probs.len() ==> !(#[trigger] probs[i]).ge(cfg.threshold),
    ensures
        Tracker::hear_all(probs, window, cfg).finish(total, cfg) == Seq::<Span>::empty(),
{
    lemma_silence(probs, window, cfg);
}

proof fn lemma_silence(probs: Seq<Single>, window: int, cfg: VadConfig)
    requires
        forall|i: int| 0 <= i < probs.len() ==> !(#[trigger] probs[i]).ge(cfg.threshold),
    ensures
        Tracker::hear_all(probs, window, cfg) == Tracker::start(),
    decreases probs.len(),
{
    if probs.len() > 0 {
        lemma_silence(probs.drop_last(), window, cfg);
        assert(!probs.last().ge(cfg.threshold));
    }
}

/// A region begins at a window that reaches the threshold.
pub proof fn law_regions_begin_with_speech(
    probs: Seq<Single>,
    window: int,
    total: int,
    cfg: VadConfig,
    i: int,
)
    requires
        0 <= i < Tracker::hear_all(probs, window, cfg).finish(total, cfg).len(),
    ensures
        exists|k: int|
            0 <= k < probs.len() && (#[trigger] probs[k]).ge(cfg.threshold)
                && Tracker::hear_all(probs, window, cfg).finish(total, cfg)[i].start == k * window,
{
    lemma_begins(probs, window, cfg);
    let t = Tracker::hear_all(probs, window, cfg);
    let all = t.finish(total, cfg);
    if i < t.closed.len() {
        assert(all[i] == t.closed[i]);
        assert(begins(probs, window, cfg, t.closed[i].start));
    } else {
        assert(begins(probs, window, cfg, t.open->0));
    }
}

spec fn begins(probs: Seq<Single>, window: int, cfg: VadConfig, at: int) -> bool {
    exists|k: int|
        0 <= k < probs.len() && (#[trigger] probs[k]).ge(cfg.threshold) && at == k * window
}

proof fn lemma_begins(probs: Seq<Single>, window: int, cfg: VadConfig)
    ensures
        Tracker::hear_all(probs, window, cfg).open matches Some(b) ==> begins(
            probs,
            window,
            cfg,
            b,
        ),
        forall|i: int|
            0 <= i < Tracker::hear_all(probs, window, cfg).closed.len() ==> begins(
                probs,
                window,
                cfg,
                (#[trigger] Tracker::hear_all(probs, window, cfg).closed[i]).start,
            ),
    decreases probs.len(),
{
    if probs.len() > 0 {
        let rest = probs.drop_last();
        lemma_begins(rest, window, cfg);
        let before = Tracker::hear_all(rest, window, cfg);
        let after = Tracker::hear_all(probs, window, cfg);
        assert forall|at: int| #[trigger] begins(rest, window, cfg, at) implies begins(
            probs,
            window,
            cfg,
            at,
        ) by {
            let k = choose|k: int|
                0 <= k < rest.len() && (#[trigger] rest[k]).ge(cfg.threshold) && at == k * window;
            assert(probs[k] == rest[k]);
        }
        if probs.last().ge(cfg.threshold) {
            assert(probs[probs.len() - 1].ge(cfg.threshold));
            assert(begins(probs, window, cfg, (probs.len() - 1) * window));
        }
        assert forall|i: int| 0 <= i < after.closed.len() implies begins(
            probs,
            window,
            cfg,
            (#[trigger] after.closed[i]).start,
        ) by {
            if i < before.closed.len() {
                assert(after.closed[i] == before.closed[i]);
                assert(begins(rest, window, cfg, before.closed[i].start));
            } else {
                assert(begins(rest, window, cfg, before.open->0));
            }
        }
    }
}

/// A region that closed before the end of the audio closed at a window from which
/// on every window, to one at least `min_silence_ms` later, is below the release
/// value.
pub proof fn law_regions_close_in_silence(probs: Seq<Single>, window: int, cfg: VadConfig, i: int)
    requires
        0 <= i < Tracker::hear_all(probs, window, cfg).closed.len(),
    ensures
        exists|k: int, n: int| #[trigger]
            quiet_run(probs, cfg, k, n) && Tracker::hear_all(probs, window, cfg).closed[i].end == k
                * window && n * window - k * window >= ms_samples(cfg.min_silence_ms as int),
{
    lemma_closes(probs, window, cfg);
    assert(closes(probs, window, cfg, Tracker::hear_all(probs, window, cfg).closed[i].end));
}

/// The windows `k..=n` are all below the release value.
pub open spec fn quiet_run(probs: Seq<Single>, cfg: VadConfig, k: int, n: int) -> bool {
    &&& 0 <= k <= n < probs.len()
    &&& forall|j: int| k <= j <= n ==> cfg.release.gt(#[trigger] probs[j])
}

spec fn closes(probs: Seq<Single>, window: int, cfg: VadConfig, at: int) -> bool {
    exists|k: int, n: int| #[trigger]
        quiet_run(probs, cfg, k, n) && at == k * window && n * window - k * window >= ms_samples(
            cfg.min_silence_ms as int,
        )
}

proof fn lemma_closes(probs: Seq<Single>, window: int, cfg: VadConfig)
    ensures
        Tracker::hear_all(probs, window, cfg).quiet matches Some(q) ==> exists|k: int|
            #[trigger] quiet_run(probs, cfg, k, probs.len() - 1) && q == k * window,
        forall|i: int|
            0 <= i < Tracker::hear_all(probs, window, cfg).closed.len() ==> closes(
                probs,
                window,
                cfg,
                (#[trigger] Tracker::hear_all(probs, window, cfg).closed[i]).end,
            ),
    decreases probs.len(),
{
    if probs.len() > 0 {
        let rest = probs.drop_last();
        lemma_closes(rest, window, cfg);
        let before = Tracker::hear_all(rest, window, cfg);
        let after = Tracker::hear_all(probs, window, cfg);
        let last = probs.len() - 1;
        let p = probs.last();
        assert forall|k: int, n: int| #[trigger] quiet_run(rest, cfg, k, n) implies quiet_run(
            probs,
            cfg,
            k,
            n,
        ) by {
            assert forall|j: int| k <= j <= n implies cfg.release.gt(#[trigger] probs[j]) by {
                assert(rest[j] == probs[j]);
            }
        }
        if cfg.release.gt(p) {
            assert(probs[last] == p);
            let k = if before.quiet is Some && !p.ge(cfg.threshold) {
                choose|k: int|
                    #[trigger] quiet_run(rest, cfg, k, rest.len() - 1) && before.quiet == Some(
                        k * window,
                    )
            } else {
                last
            };
            assert(quiet_run(probs, cfg, k, last)) by {
                assert forall|j: int| k <= j <= last implies cfg.release.gt(
                    #[trigger] probs[j],
                ) by {
                    if j < last {
                        assert(rest[j] == probs[j]);
                    }
                }
            }
        }
        assert forall|i: int| 0 <= i < after.closed.len() implies closes(
            probs,
            window,
            cfg,
            (#[trigger] after.closed[i]).end,
        ) by {
            if i < before.closed.len() {
                assert(after.closed[i] == before.closed[i]);
                assert(closes(rest, window, cfg, before.closed[i].end));
            }
        }
    }
}

/// Window `a` opens a long silence: from it to one that begins at least
/// `min_silence_ms` later, every window is below the release value.
pub open spec fn long_silence(probs: Seq<Single>, window: int, cfg: VadConfig, a: int) -> bool {
    exists|m: int| #[trigger]
        quiet_run(probs, cfg, a, m) && m * window - a * window >= ms_samples(
            cfg.min_silence_ms as int,
        )
}

/// Window `b` is the first of an utterance: it reaches the threshold, and a long
/// silence lies between it and every window before it that does.
pub open spec fn opens(probs: Seq<Single>, window: int, cfg: VadConfig, b: int) -> bool {
    &&& 0 <= b < probs.len()
    &&& probs[b].ge(cfg.threshold)
    &&& forall|j: int|
        0 <= j < b && (#[trigger] probs[j]).ge(cfg.threshold) ==> exists|a: int|
            j < a < b && #[trigger] long_silence(probs, window, cfg, a)
}

/// The utterance that window `b` opens ends at sample `end`: where the first long
/// silence after it begins, or with the audio when none follows.
pub open spec fn utterance(
    probs: Seq<Single>,
    window: int,
    total: int,
    cfg: VadConfig,
    b: int,
    end: int,
) -> bool {
    &&& opens(probs, window, cfg, b)
    &&& {
        ||| end == total && forall|a: int| b < a ==> !#[trigger] long_silence(probs, window, cfg, a)
        ||| exists|a: int|
            {
                &&& b < a
                &&& #[trigger] long_silence(probs, window, cfg, a)
                &&& end == a * window
                &&& forall|c: int| b < c < a ==> !#[trigger] long_silence(probs, window, cfg, c)
            }
    }
}

/// What a threshold and a release below it, windows that hold samples, and audio
/// that reaches into the last window are.
pub open spec fn heard_in_full(
    probs: Seq<Single>,
    window: int,
    total: int,
    cfg: VadConfig,
) -> bool {
    &&& 0 < window
    &&& (probs.len() - 1) * window < total
    &&& cfg.threshold.ge(cfg.release)
}

/// No speech is lost: every window that reaches the threshold lies in an utterance,
/// and the utterance, unless it is shorter than `min_speech_ms`, is a detected
/// region from its first sample to its end, be that a long silence or the end of the
/// audio.
pub proof fn law_no_speech_is_lost(
    probs: Seq<Single>,
    window: int,
    total: int,
    cfg: VadConfig,
    k: int,
)
    requires
        heard_in_full(probs, window, total, cfg),
        0 <= k < probs.len(),
        probs[k].ge(cfg.threshold),
    ensures
        exists|b: int, end: int|
            {
                &&& #[trigger] utterance(probs, window, total, cfg, b, end)
                &&& b * window <= k * window < end
                &&& end - b * window >= ms_samples(cfg.min_speech_ms as int)
                    ==> Tracker::hear_all(probs, window, cfg).finish(total, cfg).contains(
                    Span { start: b * window, end },
                )
            },
{
    let (o, q) = lemma_heard(probs, window, cfg);
    let t = Tracker::hear_all(probs, window, cfg);
    let all = t.finish(total, cfg);
    lemma_order(k, probs.len() - 1, window);
    if t.open is Some && o <= k {
        lemma_order(o, k, window);
        assert(utterance(probs, window, total, cfg, o, total));
        if total - o * window >= ms_samples(cfg.min_speech_ms as int) {
            assert(all[all.len() - 1] == (Span { start: o * window, end: total }));
        }
    } else {
        let (b, a) = choose|b: int, a: int| #[trigger]
            settled(probs, window, cfg, b, a) && b <= k < a && (a * window - b * window
                >= ms_samples(cfg.min_speech_ms as int) ==> t.closed.contains(
                Span { start: b * window, end: a * window },
            ));
        lemma_order(b, k, window);
        lemma_order(k, a, window);
        let s = Span { start: b * window, end: a * window };
        assert(utterance(probs, window, total, cfg, b, a * window));
        if t.closed.contains(s) {
            let i = choose|i: int| 0 <= i < t.closed.len() && t.closed[i] == s;
            assert(all[i] == s);
        }
    }
}

/// Speech at the end of the audio is kept: where too little audio follows a window that
/// reaches the threshold for a silence of `min_silence_ms`, and there is enough of it from
/// that window on for speech of `min_speech_ms`, a region holds the window and goes on to
/// the end of the audio.
pub proof fn law_trailing_speech_is_kept(
    probs: &[Single],
    window: usize,
    total: usize,
    cfg: &VadConfig,
    k: int,
    r: Vec<SpeechSegment>,
)
    requires
        0 < window,
        (probs@.len() - 1) * window < total,
        cfg.threshold.ge(cfg.release),
        0 <= k < probs@.len(),
        probs@[k].ge(cfg.threshold),
        (probs@.len() - 2) * window - k * window < 16_000 * cfg.min_silence_ms / 1000,
        total - k * window >= 16_000 * cfg.min_speech_ms / 1000,
        call_ensures(probs_to_segments, (probs, window, total, cfg), r),
    ensures
        exists|i: int|
            0 <= i < r@.len() && (#[trigger] r@[i]).start <= k * window && r@[i].end == total,
{
    let raw = Tracker::hear_all(probs@, window as int, *cfg).finish(total as int, *cfg);
    let pad = ms_samples(cfg.speech_pad_ms as int);
    let j = lemma_trailing_speech(probs@, window as int, total as int, *cfg, k);
    law_regions_are_apart(probs@, window as int, total as int, *cfg);
    assert(apart(raw, 0, 0, total as int));
    law_padding(raw, pad, total as int);
    let out = padded(raw, pad, total as int);
    assert(out[j].start <= raw[j].start && raw[j].end <= out[j].end <= total);
    assert(spans(r@)[j] == r@[j]@);
    assert(r@[j].start <= k * window && r@[j].end == total);
}

proof fn lemma_trailing_speech(
    probs: Seq<Single>,
    window: int,
    total: int,
    cfg: VadConfig,
    k: int,
) -> (i: int)
    requires
        0 < window,
        (probs.len() - 1) * window < total,
        cfg.threshold.ge(cfg.release),
        0 <= k < probs.len(),
        probs[k].ge(cfg.threshold),
        (probs.len() - 2) * window - k * window < ms_samples(cfg.min_silence_ms as int),
        total - k * window >= ms_samples(cfg.min_speech_ms as int),
    ensures
        0 <= i < Tracker::hear_all(probs, window, cfg).finish(total, cfg).len(),
        Tracker::hear_all(probs, window, cfg).finish(total, cfg)[i].start <= k * window,
        Tracker::hear_all(probs, window, cfg).finish(total, cfg)[i].end == total,
{
    law_no_speech_is_lost(probs, window, total, cfg, k);
    let all = Tracker::hear_all(probs, window, cfg).finish(total, cfg);
    let n = probs.len() as int;
    let (b, end) = choose|b: int, end: int|
        {
            &&& #[trigger] utterance(probs, window, total, cfg, b, end)
            &&& b * window <= k * window < end
            &&& end - b * window >= ms_samples(cfg.min_speech_ms as int) ==> all.contains(
                Span { start: b * window, end },
            )
        };
    if end != total {
        let a = choose|a: int|
            {
                &&& b < a
                &&& #[trigger] long_silence(probs, window, cfg, a)
                &&& end == a * window
            };
        if a <= k {
            lemma_order(a, k, window);
        }
        let m = choose|m: int| #[trigger]
            quiet_run(probs, cfg, a, m) && m * window - a * window >= ms_samples(
                cfg.min_silence_ms as int,
            );
        lemma_order(m, n - 1, window);
        lemma_order(k + 1, a, window);
        assert((n - 2) * window == (n - 1) * window - window) by (nonlinear_arith);
        assert((k + 1) * window == k * window + window) by (nonlinear_arith);
    }
    let s = Span { start: b * window, end: total };
    let i = choose|i: int| 0 <= i < all.len() && all[i] == s;
    i
}

/// Nothing but speech is found: every detected region is an utterance of at least
/// `min_speech_ms`, from its first sample to its end.
pub proof fn law_only_speech_is_found(
    probs: Seq<Single>,
    window: int,
    total: int,
    cfg: VadConfig,
    i: int,
)
    requires
        heard_in_full(probs, window, total, cfg),
        0 <= i < Tracker::hear_all(probs, window, cfg).finish(total, cfg).len(),
    ensures
        ({
            let s = Tracker::hear_all(probs, window, cfg).finish(total, cfg)[i];
            &&& s.end - s.start >= ms_samples(cfg.min_speech_ms as int)
            &&& s.start < s.end
            &&& exists|b: int| #[trigger]
                utterance(probs, window, total, cfg, b, s.end) && s.start == b * window
        }),
{
    let (o, q) = lemma_heard(probs, window, cfg);
    let t = Tracker::hear_all(probs, window, cfg);
    let s = t.finish(total, cfg)[i];
    if i < t.closed.len() {
        assert(s == t.closed[i]);
        let (b, a) = choose|b: int, a: int| #[trigger]
            settled(probs, window, cfg, b, a) && t.closed[i] == (Span {
                start: b * window,
                end: a * window,
            });
        lemma_order(b, a, window);
        assert(utterance(probs, window, total, cfg, b, a * window));
    } else {
        lemma_order(o, probs.len() - 1, window);
        assert(utterance(probs, window, total, cfg, o, total));
    }
}

/// The utterance from window `b` is over: the first long silence after it begins at
/// window `a`.
spec fn settled(probs: Seq<Single>, window: int, cfg: VadConfig, b: int, a: int) -> bool {
    &&& opens(probs, window, cfg, b)
    &&& b < a < probs.len()
    &&& !cfg.release.gt(probs[a - 1])
    &&& long_silence(probs, window, cfg, a)
    &&& forall|c: int| b < c < a ==> !#[trigger] long_silence(probs, window, cfg, c)
}

proof fn lemma_order(a: int, b: int, window: int)
    requires
        0 < window,
    ensures
        a <= b ==> a * window <= b * window,
        a < b ==> a * window < b * window,
{
    if a <= b {
        assert(a * window <= b * window) by (nonlinear_arith)
            requires
                a <= b,
                0 < window,
        ;
    }
    if a < b {
        assert(a * window < b * window) by (nonlinear_arith)
            requires
                a < b,
                0 < window,
        ;
    }
}

/// One more window keeps what is known of those before it.
proof fn lemma_one_more(probs: Seq<Single>, window: int, cfg: VadConfig)
    requires
        probs.len() > 0,
    ensures
        forall|a: int| #[trigger]
            long_silence(probs.drop_last(), window, cfg, a) ==> long_silence(probs, window, cfg, a),
        forall|b: int| #[trigger]
            opens(probs.drop_last(), window, cfg, b) ==> opens(probs, window, cfg, b),
        forall|b: int, a: int| #[trigger]
            settled(probs.drop_last(), window, cfg, b, a) ==> settled(probs, window, cfg, b, a),
{
    let rest = probs.drop_last();
    assert(forall|j: int| 0 <= j < rest.len() ==> #[trigger] rest[j] == probs[j]);
    assert forall|a: int, m: int| #[trigger] quiet_run(rest, cfg, a, m) implies quiet_run(
        probs,
        cfg,
        a,
        m,
    ) by {
        assert forall|j: int| a <= j <= m implies cfg.release.gt(#[trigger] probs[j]) by {
            assert(rest[j] == probs[j]);
        }
    }
    assert forall|a: int| #[trigger] long_silence(rest, window, cfg, a) implies long_silence(
        probs,
        window,
        cfg,
        a,
    ) by {
        let m = choose|m: int| #[trigger]
            quiet_run(rest, cfg, a, m) && m * window - a * window >= ms_samples(
                cfg.min_silence_ms as int,
            );
        assert(quiet_run(probs, cfg, a, m));
    }
    assert forall|b: int| #[trigger] opens(rest, window, cfg, b) implies opens(
        probs,
        window,
        cfg,
        b,
    ) by {
        assert forall|j: int|
            0 <= j < b && (#[trigger] probs[j]).ge(cfg.threshold) implies exists|a: int|
            j < a < b && #[trigger] long_silence(probs, window, cfg, a) by {
            assert(rest[j] == probs[j]);
            let a = choose|a: int| j < a < b && #[trigger] long_silence(rest, window, cfg, a);
            assert(long_silence(probs, window, cfg, a));
        }
    }
    assert forall|b: int, a: int| #[trigger] settled(rest, window, cfg, b, a) implies settled(
        probs,
        window,
        cfg,
        b,
        a,
    ) by {
        assert(rest[a - 1] == probs[a - 1]);
        assert(opens(probs, window, cfg, b));
        lemma_earlier(probs, window, cfg, b, a);
    }
}

/// A silence that begins before window `a`, when the window before `a` is not quiet,
/// is over before the last window.
proof fn lemma_earlier(probs: Seq<Single>, window: int, cfg: VadConfig, b: int, a: int)
    requires
        probs.len() > 0,
        0 <= b < a < probs.len(),
        !cfg.release.gt(probs[a - 1]),
        forall|c: int|
            b < c < a ==> !#[trigger] long_silence(probs.drop_last(), window, cfg, c),
    ensures
        forall|c: int| b < c < a ==> !#[trigger] long_silence(probs, window, cfg, c),
{
    let rest = probs.drop_last();
    assert forall|c: int| b < c < a implies !#[trigger] long_silence(probs, window, cfg, c) by {
        if long_silence(probs, window, cfg, c) {
            let m = choose|m: int| #[trigger]
                quiet_run(probs, cfg, c, m) && m * window - c * window >= ms_samples(
                    cfg.min_silence_ms as int,
                );
            assert(m < a - 1) by {
                if m >= a - 1 {
                    assert(cfg.release.gt(probs[a - 1]));
                }
            }
            assert forall|j: int| c <= j <= m implies cfg.release.gt(#[trigger] rest[j]) by {
                assert(rest[j] == probs[j]);
            }
            assert(quiet_run(rest, cfg, c, m));
            assert(long_silence(rest, window, cfg, c));
        }
    }
}

/// What the detector holds after some windows: `r.0` is the window that opened the
/// region being followed, `r.1` that from which on all is quiet.
#[verifier::rlimit(60)]
#[verifier::spinoff_prover]
proof fn lemma_heard(probs: Seq<Single>, window: int, cfg: VadConfig) -> (r: (int, int))
    requires
        0 < window,
        cfg.threshold.ge(cfg.release),
    ensures
        ({
            let t = Tracker::hear_all(probs, window, cfg);
            let (b, a) = r;
            let n = probs.len() as int;
            &&& t.open is None ==> t.quiet is None
            &&& t.open matches Some(o) ==> {
                &&& o == b * window
                &&& opens(probs, window, cfg, b)
                &&& forall|c: int| b < c ==> !#[trigger] long_silence(probs, window, cfg, c)
                &&& t.quiet is None ==> !cfg.release.gt(probs[n - 1])
            }
            &&& t.quiet matches Some(q) ==> {
                &&& q == a * window
                &&& b < a < n
                &&& quiet_run(probs, cfg, a, n - 1)
                &&& !cfg.release.gt(probs[a - 1])
                &&& (n - 1) * window - a * window < ms_samples(cfg.min_silence_ms as int)
            }
            &&& forall|i: int|
                0 <= i < t.closed.len() ==> {
                    let s = #[trigger] t.closed[i];
                    &&& s.end - s.start >= ms_samples(cfg.min_speech_ms as int)
                    &&& exists|x: int, y: int| #[trigger]
                        settled(probs, window, cfg, x, y) && s == (Span {
                            start: x * window,
                            end: y * window,
                        })
                }
            &&& forall|k: int|
                0 <= k < n && (#[trigger] probs[k]).ge(cfg.threshold) ==> (t.open is Some && b <= k)
                    || covered(probs, window, cfg, t.closed, k)
        }),
    decreases probs.len(),
{
    if probs.len() == 0 {
        (0, 0)
    } else {
        let rest = probs.drop_last();
        let (b, a) = lemma_heard(rest, window, cfg);
        lemma_one_more(probs, window, cfg);
        let n = probs.len() as int;
        let p = probs.last();
        let before = Tracker::hear_all(rest, window, cfg);
        let after = Tracker::hear_all(probs, window, cfg);
        let pos = (n - 1) * window;
        let low = cfg.release.gt(p);
        assert(probs[n - 1] == p);
        assert(forall|j: int| 0 <= j < rest.len() ==> #[trigger] rest[j] == probs[j]);
        assert forall|s: Span| #[trigger] before.closed.contains(s) implies after.closed.contains(
            s,
        ) by {
            let i = choose|i: int| 0 <= i < before.closed.len() && before.closed[i] == s;
            assert(after.closed[i] == s);
        }
        lemma_covered(probs, window, cfg, before.closed, after.closed);
        assert forall|i: int| 0 <= i < before.closed.len() implies {
            let s = #[trigger] before.closed[i];
            &&& s.end - s.start >= ms_samples(cfg.min_speech_ms as int)
            &&& exists|x: int, y: int| #[trigger]
                settled(probs, window, cfg, x, y) && s == (Span {
                    start: x * window,
                    end: y * window,
                })
        } by {
            let (x, y) = choose|x: int, y: int| #[trigger]
                settled(rest, window, cfg, x, y) && before.closed[i] == (Span {
                    start: x * window,
                    end: y * window,
                });
            assert(settled(probs, window, cfg, x, y));
        }
        assert forall|k: int| 0 <= k < n - 1 && (#[trigger] probs[k]).ge(cfg.threshold) implies (
        before.open is Some && b <= k) || covered(probs, window, cfg, after.closed, k) by {
            assert(rest[k].ge(cfg.threshold));
        }
        match before.open {
            None => {
                if p.ge(cfg.threshold) {
                    assert forall|j: int|
                        0 <= j < n - 1 && (#[trigger] probs[j]).ge(cfg.threshold) implies exists|
                        c: int,
                    |
                        j < c < n - 1 && #[trigger] long_silence(probs, window, cfg, c) by {
                        assert(rest[j].ge(cfg.threshold));
                        assert(covered(rest, window, cfg, before.closed, j));
                        let (x, y) = choose|x: int, y: int| #[trigger]
                            settled(rest, window, cfg, x, y) && x <= j < y;
                        assert(long_silence(probs, window, cfg, y));
                    }
                    assert(opens(probs, window, cfg, n - 1));
                    assert forall|c: int| n - 1 < c implies !#[trigger] long_silence(
                        probs,
                        window,
                        cfg,
                        c,
                    ) by {}
                    (n - 1, 0)
                } else {
                    (b, a)
                }
            },
            Some(o) => {
                assert(opens(probs, window, cfg, b));
                if !low {
                    assert forall|c: int| b < c implies !#[trigger] long_silence(
                        probs,
                        window,
                        cfg,
                        c,
                    ) by {
                        lemma_not_at_end(probs, window, cfg, c);
                    }
                    (b, a)
                } else {
                    let from = if before.quiet is Some {
                        a
                    } else {
                        n - 1
                    };
                    assert(quiet_run(probs, cfg, from, n - 1)) by {
                        assert forall|j: int| from <= j <= n - 1 implies cfg.release.gt(
                            #[trigger] probs[j],
                        ) by {
                            if j < n - 1 {
                                assert(rest[j] == probs[j]);
                            }
                        }
                    }
                    assert(!cfg.release.gt(probs[from - 1])) by {
                        assert(rest[from - 1] == probs[from - 1]);
                    }
                    assert forall|c: int| b < c < from implies !#[trigger] long_silence(
                        rest,
                        window,
                        cfg,
                        c,
                    ) by {}
                    lemma_earlier(probs, window, cfg, b, from);
                    if pos - from * window < ms_samples(cfg.min_silence_ms as int) {
                        assert forall|c: int| b < c implies !#[trigger] long_silence(
                            probs,
                            window,
                            cfg,
                            c,
                        ) by {
                            if c >= from && long_silence(probs, window, cfg, c) {
                                let m = choose|m: int| #[trigger]
                                    quiet_run(probs, cfg, c, m) && m * window - c * window
                                        >= ms_samples(cfg.min_silence_ms as int);
                                lemma_order(m, n - 1, window);
                                lemma_order(from, c, window);
                            }
                        }
                        (b, from)
                    } else {
                        assert(long_silence(probs, window, cfg, from));
                        assert(settled(probs, window, cfg, b, from));
                        lemma_order(b, from, window);
                        let s = Span { start: b * window, end: from * window };
                        if s.end - s.start >= ms_samples(cfg.min_speech_ms as int) {
                            assert(after.closed == before.closed.push(s));
                            assert(after.closed[before.closed.len() as int] == s);
                            assert(after.closed.contains(s));
                        } else {
                            assert(after.closed == before.closed);
                        }
                        assert forall|i: int| 0 <= i < after.closed.len() implies {
                            let s = #[trigger] after.closed[i];
                            &&& s.end - s.start >= ms_samples(cfg.min_speech_ms as int)
                            &&& exists|x: int, y: int| #[trigger]
                                settled(probs, window, cfg, x, y) && s == (Span {
                                    start: x * window,
                                    end: y * window,
                                })
                        } by {
                            if i < before.closed.len() {
                                assert(after.closed[i] == before.closed[i]);
                            }
                        }
                        assert forall|k: int|
                            0 <= k < n && (#[trigger] probs[k]).ge(cfg.threshold) implies covered(
                            probs,
                            window,
                            cfg,
                            after.closed,
                            k,
                        ) by {
                            assert(k < from) by {
                                if k >= from {
                                    assert(cfg.release.gt(probs[k]));
                                }
                            }
                            assert(rest[k].ge(cfg.threshold));
                            if b <= k {
                                assert(settled(probs, window, cfg, b, from) && b <= k < from);
                            }
                        }
                        (b, a)
                    }
                }
            },
        }
    }
}

/// Window `k` lies in an utterance that is over, which is among `closed` unless it is
/// too short.
spec fn covered(
    probs: Seq<Single>,
    window: int,
    cfg: VadConfig,
    closed: Seq<Span>,
    k: int,
) -> bool {
    exists|b: int, a: int| #[trigger]
        settled(probs, window, cfg, b, a) && b <= k < a && (a * window - b * window >= ms_samples(
            cfg.min_speech_ms as int,
        ) ==> closed.contains(Span { start: b * window, end: a * window }))
}

proof fn lemma_covered(
    probs: Seq<Single>,
    window: int,
    cfg: VadConfig,
    closed: Seq<Span>,
    more: Seq<Span>,
)
    requires
        probs.len() > 0,
        forall|s: Span| #[trigger] closed.contains(s) ==> more.contains(s),
    ensures
        forall|k: int| #[trigger]
            covered(probs.drop_last(), window, cfg, closed, k) ==> covered(
                probs,
                window,
                cfg,
                more,
                k,
            ),
{
    lemma_one_more(probs, window, cfg);
    assert forall|k: int| #[trigger]
        covered(probs.drop_last(), window, cfg, closed, k) implies covered(
        probs,
        window,
        cfg,
        more,
        k,
    ) by {
        let (b, a) = choose|b: int, a: int| #[trigger]
            settled(probs.drop_last(), window, cfg, b, a) && b <= k < a && (a * window - b * window
                >= ms_samples(cfg.min_speech_ms as int) ==> closed.contains(
                Span { start: b * window, end: a * window },
            ));
        assert(settled(probs, window, cfg, b, a));
    }
}

/// A silence does not reach into a last window that is not quiet.
proof fn lemma_not_at_end(probs: Seq<Single>, window: int, cfg: VadConfig, c: int)
    requires
        probs.len() > 0,
        !cfg.release.gt(probs[probs.len() - 1]),
        !long_silence(probs.drop_last(), window, cfg, c),
    ensures
        !long_silence(probs, window, cfg, c),
{
    let rest = probs.drop_last();
    if long_silence(probs, window, cfg, c) {
        let m = choose|m: int| #[trigger]
            quiet_run(probs, cfg, c, m) && m * window - c * window >= ms_samples(
                cfg.min_silence_ms as int,
            );
        assert(m < probs.len() - 1);
        assert forall|j: int| c <= j <= m implies cfg.release.gt(#[trigger] rest[j]) by {
            assert(rest[j] == probs[j]);
        }
        assert(quiet_run(rest, cfg, c, m));
        assert(long_silence(rest, window, cfg, c));
    }
}

/// Padding keeps every segment whole, keeps the segments in order and free of
/// overlap, and never leaves the buffer. A side with room grows by `pad`, to the end
/// of the buffer at most; neighbours closer than `2 * pad` meet, and share the gap
/// between them evenly up to one sample.
pub proof fn law_padding(segments: Seq<Span>, pad: int, total: int)
    requires
        pad >= 0,
        apart(segments, 0, 0, total),
    ensures
        padded(segments, pad, total).len() == segments.len(),
        forall|i: int|
            0 <= i < segments.len() ==> 0 <= (#[trigger] padded(segments, pad, total)[i]).start
                <= segments[i].start && segments[i].end <= padded(segments, pad, total)[i].end
                <= total,
        forall|i: int, j: int|
            0 <= i < j < segments.len() ==> (#[trigger] padded(segments, pad, total)[i]).end <= (
            #[trigger] padded(segments, pad, total)[j]).start,
        forall|i: int|
            0 <= i < segments.len() - 1 && #[trigger] gap_after(segments, i) < 2 * pad ==> padded(
                segments,
                pad,
                total,
            )[i].end == padded(segments, pad, total)[i + 1].start,
        forall|i: int|
            0 <= i < segments.len() ==> segments[i].start - (#[trigger] padded(
                segments,
                pad,
                total,
            )[i]).start <= pad && padded(segments, pad, total)[i].end - segments[i].end <= pad,
        forall|i: int|
            0 <= i < segments.len() && (i == 0 || segments[i].start - segments[i - 1].end >= 2
                * pad) ==> (#[trigger] padded(segments, pad, total)[i]).start == if segments[i].start
                < pad {
                0
            } else {
                segments[i].start - pad
            },
        forall|i: int|
            0 <= i < segments.len() && (i == segments.len() - 1 || segments[i + 1].start
                - segments[i].end >= 2 * pad) ==> (#[trigger] padded(segments, pad, total)[i]).end
                == if segments[i].end + pad > total {
                total
            } else {
                segments[i].end + pad
            },
        forall|i: int|
            0 <= i < segments.len() - 1 && segments[i + 1].start - segments[i].end < 2 * pad ==> 0
                <= (segments[i + 1].start - padded(segments, pad, total)[i + 1].start) - ((
            #[trigger] padded(segments, pad, total)[i]).end - segments[i].end) <= 1,
{
    let out = padded(segments, pad, total);
    assert forall|i: int, j: int| 0 <= i < j < segments.len() implies (#[trigger] out[i]).end <= (
    #[trigger] out[j]).start by {
        assert(segments[i + 1].start - segments[i].end >= 0);
        let g = segments[i + 1].start - segments[i].end;
        if j > i + 1 {
            assert(segments[j].start - segments[j - 1].end >= 0);
            assert(segments[j - 1].start - segments[i].end >= 0);
            assert(segments[j - 1].end - segments[j - 1].start > 0);
            assert(out[j].start >= segments[j - 1].end);
            assert(out[i].end <= segments[i + 1].start);
            if j - 1 > i + 1 {
                assert(segments[j - 1].start - segments[i + 1].end >= 0);
                assert(segments[i + 1].end - segments[i + 1].start > 0);
            }
        }
    }
    assert forall|i: int| 0 <= i < segments.len() implies 0 <= (#[trigger] out[i]).start
        <= segments[i].start && segments[i].end <= out[i].end <= total by {
        if i + 1 < segments.len() {
            assert(segments[i + 1].start - segments[i].end >= 0);
            assert(segments[i + 1].end - segments[i + 1].start > 0);
        }
        if i > 0 {
            assert(segments[i].start - segments[i - 1].end >= 0);
            assert(segments[i - 1].end - segments[i - 1].start > 0);
        }
    }
    assert forall|i: int| 0 <= i < segments.len() implies segments[i].start - (
    #[trigger] out[i]).start <= pad && out[i].end - segments[i].end <= pad by {
        if i + 1 < segments.len() {
            assert(segments[i + 1].start - segments[i].end >= 0);
        }
        if i > 0 {
            assert(segments[i].start - segments[i - 1].end >= 0);
        }
    }
    assert forall|i: int|
        0 <= i < segments.len() - 1 && segments[i + 1].start - segments[i].end < 2 * pad implies 0
        <= (segments[i + 1].start - out[i + 1].start) - ((#[trigger] out[i]).end - segments[i].end)
        <= 1 by {
        assert(segments[i + 1].start - segments[i].end >= 0);
    }
    assert forall|i: int|
        0 <= i < segments.len() && (i == 0 || segments[i].start - segments[i - 1].end >= 2
            * pad) implies (#[trigger] out[i]).start == if segments[i].start < pad {
        0
    } else {
        segments[i].start - pad
    } by {
        assert(0 <= segments[i].start);
    }
}

/// The spans are the utterances of at least `min_speech_ms`, all of them and nothing
/// else, each grown by no more than `speech_pad_ms` on either side.
pub open spec fn all_utterances(
    probs: Seq<Single>,
    window: int,
    total: int,
    cfg: VadConfig,
    spans: Seq<Span>,
) -> bool {
    &&& forall|k: int|
        0 <= k < probs.len() && (#[trigger] probs[k]).ge(cfg.threshold) ==> speech_found(
            probs,
            window,
            total,
            cfg,
            spans,
            k,
        )
    &&& forall|i: int|
        0 <= i < spans.len() ==> grown(probs, window, total, cfg, #[trigger] spans[i])
}

/// Window `k` lies in an utterance, which a span holds unless it is too short.
pub open spec fn speech_found(
    probs: Seq<Single>,
    window: int,
    total: int,
    cfg: VadConfig,
    spans: Seq<Span>,
    k: int,
) -> bool {
    exists|b: int, end: int|
        {
            &&& #[trigger] utterance(probs, window, total, cfg, b, end)
            &&& b * window <= k * window < end
            &&& end - b * window >= ms_samples(cfg.min_speech_ms as int) ==> exists|i: int|
                0 <= i < spans.len() && (#[trigger] spans[i]).start <= b * window && end
                    <= spans[i].end
        }
}

/// The span is an utterance of at least `min_speech_ms`, grown by no more than
/// `speech_pad_ms` on either side.
pub open spec fn grown(
    probs: Seq<Single>,
    window: int,
    total: int,
    cfg: VadConfig,
    s: Span,
) -> bool {
    exists|b: int, end: int|
        {
            &&& #[trigger] utterance(probs, window, total, cfg, b, end)
            &&& end - b * window >= ms_samples(cfg.min_speech_ms as int)
            &&& 0 <= b * window - s.start <= ms_samples(cfg.speech_pad_ms as int)
            &&& 0 <= s.end - end <= ms_samples(cfg.speech_pad_ms as int)
        }
}

/// What a call of [`probs_to_segments`] gives: see [`all_utterances`].
pub proof fn law_segments_are_the_utterances(
    probs: &[Single],
    window: usize,
    total: usize,
    cfg: &VadConfig,
    r: Vec<SpeechSegment>,
)
    requires
        heard_in_full(probs@, window as int, total as int, *cfg),
        call_ensures(probs_to_segments, (probs, window, total, cfg), r),
    ensures
        all_utterances(
            probs@,
            window as int,
            total as int,
            *cfg,
            r@.map_values(
                |s: SpeechSegment| Span { start: s.start as int, end: s.end as int },
            ),
        ),
{
    law_spans_are_the_utterances(probs@, window as int, total as int, *cfg);
    assert(r@.map_values(|s: SpeechSegment| Span { start: s.start as int, end: s.end as int })
        =~= spans(r@));
}

/// The regions, padded, are the utterances: see [`all_utterances`].
pub proof fn law_spans_are_the_utterances(
    probs: Seq<Single>,
    window: int,
    total: int,
    cfg: VadConfig,
)
    requires
        heard_in_full(probs, window, total, cfg),
        0 <= total,
    ensures
        all_utterances(
            probs,
            window,
            total,
            cfg,
            padded(
                Tracker::hear_all(probs, window, cfg).finish(total, cfg),
                ms_samples(cfg.speech_pad_ms as int),
                total,
            ),
        ),
{
    let raw = Tracker::hear_all(probs, window, cfg).finish(total, cfg);
    let pad = ms_samples(cfg.speech_pad_ms as int);
    let out = padded(raw, pad, total);
    law_regions_are_apart(probs, window, total, cfg);
    assert(apart(raw, 0, 0, total));
    law_padding(raw, pad, total);
    assert forall|k: int| 0 <= k < probs.len() && (#[trigger] probs[k]).ge(
        cfg.threshold,
    ) implies speech_found(probs, window, total, cfg, out, k) by {
        law_no_speech_is_lost(probs, window, total, cfg, k);
        let (b, end) = choose|b: int, end: int|
            {
                &&& #[trigger] utterance(probs, window, total, cfg, b, end)
                &&& b * window <= k * window < end
                &&& end - b * window >= ms_samples(cfg.min_speech_ms as int) ==> raw.contains(
                    Span { start: b * window, end },
                )
            };
        if end - b * window >= ms_samples(cfg.min_speech_ms as int) {
            let i = choose|i: int|
                0 <= i < raw.len() && raw[i] == (Span { start: b * window, end });
            assert(out[i].start <= raw[i].start);
        }
    }
    assert forall|i: int| 0 <= i < out.len() implies grown(
        probs,
        window,
        total,
        cfg,
        #[trigger] out[i],
    ) by {
        law_only_speech_is_found(probs, window, total, cfg, i);
        assert(out[i].start <= raw[i].start);
        let b = choose|b: int| #[trigger]
            utterance(probs, window, total, cfg, b, raw[i].end) && raw[i].start == b * window;
        assert(utterance(probs, window, total, cfg, b, raw[i].end));
    }
}

/// The segments of a buffer of `total` samples heard window by window lie inside
/// it, carry samples, stand in order and never overlap.
pub proof fn law_segments_lie_in_the_buffer(
    probs: Seq<Single>,
    window: int,
    total: int,
    cfg: VadConfig,
)
    requires
        0 <= window,
        0 <= total,
        probs.len() > 0 ==> (probs.len() - 1) * window <= total,
    ensures
        ({
            let out = padded(
                Tracker::hear_all(probs, window, cfg).finish(total, cfg),
                ms_samples(cfg.speech_pad_ms as int),
                total,
            );
            &&& forall|i: int|
                0 <= i < out.len() ==> 0 <= (#[trigger] out[i]).start < out[i].end <= total
            &&& forall|i: int, j: int|
                0 <= i < j < out.len() ==> (#[trigger] out[i]).end <= (#[trigger] out[j]).start
        }),
{
    law_regions_are_apart(probs, window, total, cfg);
    let raw = Tracker::hear_all(probs, window, cfg).finish(total, cfg);
    let pad = ms_samples(cfg.speech_pad_ms as int);
    assert(apart(raw, 0, 0, total));
    law_padding(raw, pad, total);
    let out = padded(raw, pad, total);
    assert forall|i: int| 0 <= i < out.len() implies 0 <= (#[trigger] out[i]).start < out[i].end
        <= total by {
        assert(raw[i].start < raw[i].end);
    }
}

// --- the model --------------------------------------------------------------------

/// Where an inference on one window went wrong.
#[derive(Debug, Clone, Copy, PartialEq, Eq, Structural)]
pub enum VadStage {
    /// Building the audio tensor.
    Audio,
    /// Building the state tensor.
    State,
    /// Building the sample-rate tensor.
    Rate,
    /// Running the graph.
    Inference,
    /// Reading the probability.
    Probability,
    /// Reading the updated state.
    StateOutput,
}

impl VadStage {
    /// What an error of this stage is introduced by.
    pub open spec fn spec_label(self) -> Seq<char> {
        match self {
            VadStage::Audio => "vad audio tensor: "@,
            VadStage::State => "vad state tensor: "@,
            VadStage::Rate => "vad sr tensor: "@,
            VadStage::Inference => "vad inference: "@,
            VadStage::Probability => "vad probability: "@,
            VadStage::StateOutput => "vad state output: "@,
        }
    }

    /// The error of this stage with the runtime's own words.
    pub fn error(self, message: &str) -> (r: AsrError)
        ensures
            r@ == ErrorView::Transcribe(self.spec_label() + message@),
    {
        let label = match self {
            VadStage::Audio => "vad audio tensor: ",
            VadStage::State => "vad state tensor: ",
            VadStage::Rate => "vad sr tensor: ",
            VadStage::Inference => "vad inference: ",
            VadStage::Probability => "vad probability: ",
            VadStage::StateOutput => "vad state output: ",
        };
        AsrError::Transcribe(concat(label, message))
    }
}

/// What the graph gave for one window: the speech probability, and the updated
/// recurrent state or the reason why it cannot be read.
pub struct VadOutput {
    pub probability: Vec<Single>,
    pub state: Result<Vec<Single>, String>,
}

/// What one inference gives, or the stage at which it failed and the runtime's own
/// words.
pub type VadAnswer = Result<VadOutput, (VadStage, String)>;

/// The recurrent state before the first window.
pub open spec fn silence() -> Seq<Single> {
    Seq::new(STATE_LEN as nat, |i: int| Single { bits: 0 })
}

/// The probability of a window, given the graph's answer.
pub open spec fn heard(answer: VadAnswer) -> Result<Single, ErrorView> {
    match answer {
        Err((stage, message)) => Err(ErrorView::Transcribe(stage.spec_label() + message@)),
        Ok(out) => if out.probability@.len() == 0 {
            Err(ErrorView::Transcribe("vad returned an empty probability"@))
        } else {
            match out.state {
                Err(message) => Err(
                    ErrorView::Transcribe(VadStage::StateOutput.spec_label() + message@),
                ),
                Ok(_) => Ok(out.probability@[0]),
            }
        },
    }
}

/// The recurrent state after a window, given the graph's answer: the updated one
/// when it has the right length, else the one before.
pub open spec fn next_state(answer: VadAnswer, state: Seq<Single>) -> Seq<Single> {
    match (heard(answer), answer) {
        (Ok(_), Ok(out)) => match out.state {
            Ok(new) => if new@.len() == STATE_LEN {
                new@
            } else {
                state
            },
            Err(_) => state,
        },
        _ => state,
    }
}

/// How many windows cover `len` samples.
pub open spec fn window_count(len: int) -> int {
    (len + WINDOW_SAMPLES - 1) / (WINDOW_SAMPLES as int)
}

/// The `w`th window of `audio`, zero-padded past its end.
pub open spec fn window_at(audio: Seq<Single>, w: int) -> Seq<Single> {
    Seq::new(
        WINDOW_SAMPLES as nat,
        |i: int|
            if w * WINDOW_SAMPLES + i < audio.len() {
                audio[w * WINDOW_SAMPLES + i]
            } else {
                Single { bits: 0 }
            },
    )
}

/// The function `run` can answer `answer` to a window and a state.
pub open spec fn ran<F: Fn(&[Single], &[Single]) -> VadAnswer>(
    run: F,
    window: Seq<Single>,
    state: Seq<Single>,
    answer: VadAnswer,
) -> bool {
    exists|w: &[Single], s: &[Single]|
        w@ == window && s@ == state && #[trigger] call_ensures(run, (w, s), answer)
}

/// The function `run` can be called on one window and a recurrent state, and on
/// nothing of another size is it asked to.
pub open spec fn takes_windows<F: Fn(&[Single], &[Single]) -> VadAnswer>(run: F) -> bool {
    forall|w: &[Single], s: &[Single]|
        w@.len() == WINDOW_SAMPLES && s@.len() == STATE_LEN ==> #[trigger] call_requires(
            run,
            (w, s),
        )
}

/// `probs` are probabilities of the first `w` windows of `audio`, heard one after
/// the other from silence on, and `state` is the recurrent state after them.
pub open spec fn probed<F: Fn(&[Single], &[Single]) -> VadAnswer>(
    run: F,
    audio: Seq<Single>,
    w: nat,
    probs: Seq<Single>,
    state: Seq<Single>,
) -> bool
    decreases w,
{
    if w == 0 {
        probs.len() == 0 && state == silence()
    } else {
        exists|before: Seq<Single>, answer: VadAnswer|
            {
                &&& #[trigger] ran(run, window_at(audio, w - 1), before, answer)
                &&& probed(run, audio, (w - 1) as nat, probs.drop_last(), before)
                &&& probs.len() > 0
                &&& heard(answer) == Ok::<Single, ErrorView>(probs.last())
                &&& state == next_state(answer, before)
            }
    }
}

/// Some window of `audio` can fail with `e` after those before it succeeded.
pub open spec fn probing_fails<F: Fn(&[Single], &[Single]) -> VadAnswer>(
    run: F,
    audio: Seq<Single>,
    e: ErrorView,
) -> bool {
    exists|w: nat, probs: Seq<Single>, state: Seq<Single>, answer: VadAnswer|
        w < window_count(audio.len() as int) && #[trigger] probed(run, audio, w, probs, state)
            && #[trigger] ran(run, window_at(audio, w as int), state, answer) && heard(answer)
            == Err::<Single, ErrorView>(e)
}

/// The segments that probabilities give for a buffer of `len` samples.
pub open spec fn speech_spans(probs: Seq<Single>, len: int, cfg: VadConfig) -> Seq<Span> {
    padded(
        Tracker::hear_all(probs, WINDOW_SAMPLES as int, cfg).finish(len, cfg),
        ms_samples(cfg.speech_pad_ms as int),
        len,
    )
}

/// `probs` can be the probabilities of all windows of `audio`, in order: each is the
/// first that the graph gives for the 512 samples of its window, silence past the end
/// of the audio, with the state that the window before it left. The first state is
/// all zeros, and one of another length leaves the state as it was.
pub open spec fn listened<F: Fn(&[Single], &[Single]) -> VadAnswer>(
    run: F,
    audio: Seq<Single>,
    probs: Seq<Single>,
) -> bool {
    exists|states: Seq<Seq<Single>>|
        {
            &&& probs.len() * 512 >= audio.len() > (probs.len() - 1) * 512
            &&& states.len() == probs.len() + 1
            &&& states[0] == Seq::new(256, |i: int| Single { bits: 0 })
            &&& forall|k: int|
                0 <= k < probs.len() ==> #[trigger] listened_to(run, audio, states, k, probs[k])
        }
}

/// The graph can give `p` for window `k` with the state before it, and leave the state
/// after it.
pub open spec fn listened_to<F: Fn(&[Single], &[Single]) -> VadAnswer>(
    run: F,
    audio: Seq<Single>,
    states: Seq<Seq<Single>>,
    k: int,
    p: Single,
) -> bool {
    exists|w: &[Single], s: &[Single], out: VadOutput|
        {
            &&& #[trigger] call_ensures(run, (w, s), Ok(out))
            &&& w@.len() == 512
            &&& forall|j: int|
                0 <= j < 512 ==> #[trigger] w@[j] == if k * 512 + j < audio.len() {
                    audio[k * 512 + j]
                } else {
                    Single { bits: 0 }
                }
            &&& s@ == states[k]
            &&& out.probability@.len() > 0 && out.probability@[0] == p
            &&& out.state matches Ok(new) && states[k + 1] == if new@.len() == 256 {
                new@
            } else {
                states[k]
            }
        }
}

/// The probabilities are those of every window: see [`listened`].
pub proof fn law_every_window_is_heard<F: Fn(&[Single], &[Single]) -> VadAnswer>(
    run: F,
    audio: Seq<Single>,
    probs: Seq<Single>,
    state: Seq<Single>,
)
    requires
        audio.len() > 0,
        probed(run, audio, window_count(audio.len() as int) as nat, probs, state),
    ensures
        listened(run, audio, probs),
        probs.len() > 0,
{
    let n = window_count(audio.len() as int) as nat;
    let states = lemma_listened(run, audio, n, probs, state);
    assert(states.len() == probs.len() + 1);
}

proof fn lemma_listened<F: Fn(&[Single], &[Single]) -> VadAnswer>(
    run: F,
    audio: Seq<Single>,
    w: nat,
    probs: Seq<Single>,
    state: Seq<Single>,
) -> (states: Seq<Seq<Single>>)
    requires
        probed(run, audio, w, probs, state),
    ensures
        probs.len() == w,
        states.len() == w + 1,
        states.last() == state,
        states[0] == Seq::new(256, |i: int| Single { bits: 0 }),
        forall|k: int|
            0 <= k < w ==> #[trigger] listened_to(run, audio, states, k, probs[k]),
    decreases w,
{
    if w == 0 {
        assert(silence() =~= Seq::new(256, |i: int| Single { bits: 0 }));
        seq![state]
    } else {
        let (before, answer) = choose|before: Seq<Single>, answer: VadAnswer|
            {
                &&& #[trigger] ran(run, window_at(audio, w - 1), before, answer)
                &&& probed(run, audio, (w - 1) as nat, probs.drop_last(), before)
                &&& probs.len() > 0
                &&& heard(answer) == Ok::<Single, ErrorView>(probs.last())
                &&& state == next_state(answer, before)
            };
        let known = lemma_listened(run, audio, (w - 1) as nat, probs.drop_last(), before);
        let states = known.push(state);
        assert forall|k: int| 0 <= k < w implies #[trigger] listened_to(
            run,
            audio,
            states,
            k,
            probs[k],
        ) by {
            if k < w - 1 {
                assert(listened_to(run, audio, known, k, probs.drop_last()[k]));
                let (x, s, out) = choose|x: &[Single], s: &[Single], out: VadOutput|
                    {
                        &&& #[trigger] call_ensures(run, (x, s), Ok(out))
                        &&& x@.len() == 512
                        &&& forall|j: int|
                            0 <= j < 512 ==> #[trigger] x@[j] == if k * 512 + j < audio.len() {
                                audio[k * 512 + j]
                            } else {
                                Single { bits: 0 }
                            }
                        &&& s@ == known[k]
                        &&& out.probability@.len() > 0 && out.probability@[0] == probs.drop_last()[k]
                        &&& out.state matches Ok(new) && known[k + 1] == if new@.len() == 256 {
                            new@
                        } else {
                            known[k]
                        }
                    };
                assert(call_ensures(run, (x, s), Ok(out)));
            } else {
                let (x, s) = choose|x: &[Single], s: &[Single]|
                    x@ == window_at(audio, w - 1) && s@ == before && #[trigger] call_ensures(
                        run,
                        (x, s),
                        answer,
                    );
                let out = answer->Ok_0;
                assert(call_ensures(run, (x, s), Ok(out)));
                assert(states[k] == before && states[k + 1] == state);
            }
        }
        states
    }
}

/// A loaded Silero VAD model.
///
/// Stateful **within** one call (the recurrent `state` carries context between
/// windows) but reset at the start of every [`segments`](Self::segments) call,
/// so successive calls are independent.
pub struct SileroVad {
    /// How probabilities become segments.
    pub config: VadConfig,
    /// The graph's audio input.
    pub audio_input: String,
    /// The graph's state input.
    pub state_input: String,
    /// The graph's sample-rate input.
    pub sr_input: String,
    /// Recurrent state, carried window to window.
    pub state: Vec<Single>,
}

/// How loading a Silero VAD model ends, given what is at its path.
pub open spec fn vad_load_error(file: ModelFile, graph: Graph) -> Option<ErrorView> {
    if !file.exists {
        Some(ErrorView::ModelNotFound(file.shown@))
    } else {
        match graph {
            Graph::Refused(message) => Some(ErrorView::Load(message@)),
            Graph::Unreadable { message, .. } => Some(ErrorView::Load(message@)),
            Graph::Open { inputs, .. } => if inputs@.len() != 3 {
                Some(
                    ErrorView::Load(
                        "expected a Silero v5 model with 3 inputs (audio, state, sr), got "@
                            + decimal(inputs@.len()) + ": "@ + debug_text(views(inputs@)),
                    ),
                )
            } else {
                None
            },
        }
    }
}

impl SileroVad {
    /// The recurrent state.
    pub open spec fn memory(&self) -> Seq<Single> {
        self.state@
    }

    /// The recurrent state has the length that the graph takes.
    pub open spec fn wf(&self) -> bool {
        self.memory().len() == STATE_LEN
    }

    /// Load a Silero v5 ONNX model with the given config, from what is at its path
    /// and what opening it gave.
    ///
    /// Fails with [`AsrError::ModelNotFound`] if the file is absent, or
    /// [`AsrError::Load`] if the graph is not a recognizable Silero v5 model
    /// (wrong input set). The inputs are found by the names "input", "state" and
    /// "sr", or in that order when the model uses other labels.
    pub fn load(file: &ModelFile, graph: &Graph, config: VadConfig) -> (r: Result<Self, AsrError>)
        ensures
            r is Ok <==> vad_load_error(*file, *graph) is None,
            r matches Err(e) ==> vad_load_error(*file, *graph) == Some(e@),
            r matches Ok(vad) ==> {
                &&& vad.wf()
                &&& vad.memory() == silence()
                &&& vad.config == config
                &&& graph matches Graph::Open { inputs, .. }
                &&& vad.audio_input@ == input_name(views(inputs@), "input"@, 0)
                &&& vad.state_input@ == input_name(views(inputs@), "state"@, 1)
                &&& vad.sr_input@ == input_name(views(inputs@), "sr"@, 2)
            },
    {
        if !file.exists {
            return Err(AsrError::ModelNotFound(file.shown.clone()));
        }
        match graph {
            Graph::Refused(message) => Err(AsrError::Load(message.clone())),
            Graph::Unreadable { message, .. } => Err(AsrError::Load(message.clone())),
            Graph::Open { inputs, .. } => {
                if inputs.len() != 3 {
                    let head = concat(
                        "expected a Silero v5 model with 3 inputs (audio, state, sr), got ",
                        decimal_usize(inputs.len()).as_str(),
                    );
                    let mid = concat(head.as_str(), ": ");
                    return Err(
                        AsrError::Load(concat(mid.as_str(), debug_names(inputs).as_str())),
                    );
                }
                Ok(
                    SileroVad {
                        config,
                        audio_input: resolve_input(inputs, "input", 0),
                        state_input: resolve_input(inputs, "state", 1),
                        sr_input: resolve_input(inputs, "sr", 2),
                        state: zeros(STATE_LEN),
                    },
                )
            },
        }
    }

    /// Detect speech regions in a mono 16 kHz buffer, with `run` for the graph.
    ///
    /// Returns the segments in order, already padded per the config. An empty or
    /// all-silence buffer yields an empty vector.
    pub fn segments<F: Fn(&[Single], &[Single]) -> VadAnswer>(
        &mut self,
        audio: &[Single],
        run: &F,
    ) -> (r: Result<Vec<SpeechSegment>, AsrError>)
        requires
            old(self).wf(),
            audio@.len() + WINDOW_SAMPLES + 2 * ms_samples(old(self).config.speech_pad_ms as int)
                <= usize::MAX,
            takes_windows(*run),
        ensures
            final(self).wf(),
            final(self).config == old(self).config,
            audio@.len() == 0 ==> (r matches Ok(segments) && segments@.len() == 0),
            audio@.len() > 0 ==> (r matches Ok(segments) ==> exists|probs: Seq<Single>|
                #[trigger]
                probed(
                    *run,
                    audio@,
                    window_count(audio@.len() as int) as nat,
                    probs,
                    final(self).memory(),
                ) && spans(segments@) == speech_spans(
                    probs,
                    audio@.len() as int,
                    old(self).config,
                )),
            r matches Err(e) ==> probing_fails(*run, audio@, e@),
            r matches Ok(segments) ==> crate::pipeline::in_order(
                spans(segments@),
                audio@.len() as int,
            ),
    {
        if audio.len() == 0 {
            let none: Vec<SpeechSegment> = Vec::new();
            return Ok(none);
        }
        match self.window_probabilities(audio, run) {
            Err(e) => Err(e),
            Ok(probs) => {
                proof {
                    lemma_windows(audio@.len() as int);
                    lemma_open(probs@, WINDOW_SAMPLES as int, audio@.len() as int, self.config);
                    law_segments_lie_in_the_buffer(
                        probs@,
                        WINDOW_SAMPLES as int,
                        audio@.len() as int,
                        self.config,
                    );
                }
                Ok(probs_to_segments(probs.as_slice(), WINDOW_SAMPLES, audio.len(), &self.config))
            },
        }
    }

    /// Convenience: concatenate only the speech regions of `audio` into a new
    /// buffer, dropping the silence. Useful to hand a backend a compact clip.
    pub fn collect_speech<F: Fn(&[Single], &[Single]) -> VadAnswer>(
        &mut self,
        audio: &[Single],
        run: &F,
    ) -> (r: Result<Vec<Single>, AsrError>)
        requires
            old(self).wf(),
            audio@.len() + WINDOW_SAMPLES + 2 * ms_samples(old(self).config.speech_pad_ms as int)
                <= usize::MAX,
            takes_windows(*run),
        ensures
            final(self).wf(),
            final(self).config == old(self).config,
            audio@.len() == 0 ==> (r matches Ok(kept) && kept@.len() == 0),
            audio@.len() > 0 ==> (r matches Ok(kept) ==> exists|probs: Seq<Single>|
                #[trigger]
                probed(
                    *run,
                    audio@,
                    window_count(audio@.len() as int) as nat,
                    probs,
                    final(self).memory(),
                ) && kept@ == speech(
                    audio@,
                    speech_spans(probs, audio@.len() as int, old(self).config),
                )),
            r matches Err(e) ==> probing_fails(*run, audio@, e@),
    {
        match self.segments(audio, run) {
            Err(e) => Err(e),
            Ok(segments) => Ok(cut_out(audio, segments.as_slice())),
        }
    }

    /// Run the model over every 512-sample window and collect the per-window
    /// speech probability. The recurrent state is reset first, so the result
    /// depends only on `audio`.
    pub fn window_probabilities<F: Fn(&[Single], &[Single]) -> VadAnswer>(
        &mut self,
        audio: &[Single],
        run: &F,
    ) -> (r: Result<Vec<Single>, AsrError>)
        requires
            audio@.len() + WINDOW_SAMPLES <= usize::MAX,
            takes_windows(*run),
        ensures
            final(self).wf(),
            final(self).config == old(self).config,
            r matches Ok(probs) ==> probs@.len() == window_count(audio@.len() as int) && probed(
                *run,
                audio@,
                window_count(audio@.len() as int) as nat,
                probs@,
                final(self).memory(),
            ),
            r matches Err(e) ==> probing_fails(*run, audio@, e@),
    {
        self.state = zeros(STATE_LEN);
        let count: usize = (audio.len() + (WINDOW_SAMPLES - 1)) / WINDOW_SAMPLES;
        let mut probs: Vec<Single> = Vec::new();
        let mut w: usize = 0;
        while w < count
            invariant
                audio@.len() + WINDOW_SAMPLES <= usize::MAX,
                count == window_count(audio@.len() as int),
                w <= count,
                self.wf(),
                self.config == old(self).config,
                probs@.len() == w,
                probed(*run, audio@, w as nat, probs@, self.memory()),
                takes_windows(*run),
            decreases count - w,
        {
            proof {
                lemma_windows(audio@.len() as int);
                assert(w * WINDOW_SAMPLES <= audio@.len());
            }
            let window = padded_window(audio, w);
            let ghost before = self.memory();
            let ghost known = probs@;
            match self.process_window(window.as_slice(), run) {
                Err(e) => {
                    proof {
                        let answer = choose|answer: VadAnswer| #[trigger]
                            ran(*run, window@, before, answer) && heard(answer) == Err::<
                                Single,
                                ErrorView,
                            >(e@);
                        assert(ran(*run, window_at(audio@, w as int), before, answer));
                        assert(probed(*run, audio@, w as nat, known, before));
                    }
                    return Err(e);
                },
                Ok(p) => {
                    probs.push(p);
                    assert(probs@.drop_last() =~= known);
                    assert(probs@.last() == p);
                    assert(probed(*run, audio@, (w + 1) as nat, probs@, self.memory()));
                },
            }
            w += 1;
        }
        Ok(probs)
    }

    /// Feed one 512-sample window through the model, update the recurrent state,
    /// and return the speech probability for that window.
    pub fn process_window<F: Fn(&[Single], &[Single]) -> VadAnswer>(
        &mut self,
        window: &[Single],
        run: &F,
    ) -> (r: Result<Single, AsrError>)
        requires
            old(self).wf(),
            forall|s: &[Single]|
                s@.len() == STATE_LEN ==> #[trigger] call_requires(*run, (window, s)),
        ensures
            final(self).wf(),
            final(self).config == old(self).config,
            exists|answer: VadAnswer| #[trigger]
                ran(*run, window@, old(self).memory(), answer) && final(self).memory()
                    == next_state(answer, old(self).memory()) && (match r {
                    Ok(p) => heard(answer) == Ok::<Single, ErrorView>(p),
                    Err(e) => heard(answer) == Err::<Single, ErrorView>(e@),
                }),
    {
        let answer = run(window, self.state.as_slice());
        let ghost given = answer;
        assert(ran(*run, window@, self.memory(), given));
        match answer {
            Err((stage, message)) => Err(stage.error(message.as_str())),
            Ok(out) => {
                if out.probability.len() == 0 {
                    return Err(
                        AsrError::Transcribe("vad returned an empty probability".to_owned()),
                    );
                }
                let p: Single = out.probability[0];
                match out.state {
                    Err(message) => Err(VadStage::StateOutput.error(message.as_str())),
                    Ok(state) => {
                        if state.len() == STATE_LEN {
                            self.state = state;
                        }
                        Ok(p)
                    },
                }
            },
        }
    }
}

/// `n` zero samples.
fn zeros(n: usize) -> (r: Vec<Single>)
    ensures
        r@ == Seq::new(n as nat, |i: int| Single { bits: 0 }),
{
    let mut out: Vec<Single> = Vec::new();
    while out.len() < n
        invariant
            out@.len() <= n,
            forall|i: int| 0 <= i < out@.len() ==> #[trigger] out@[i] == (Single { bits: 0 }),
        decreases n - out@.len(),
    {
        out.push(Single { bits: 0 });
    }
    assert(out@ =~= Seq::new(n as nat, |i: int| Single { bits: 0 }));
    out
}

/// The `w`th window of `audio`: see [`window_at`].
fn padded_window(audio: &[Single], w: usize) -> (r: Vec<Single>)
    requires
        w * WINDOW_SAMPLES <= audio@.len(),
        audio@.len() + WINDOW_SAMPLES <= usize::MAX,
    ensures
        r@ == window_at(audio@, w as int),
{
    let start: usize = w * WINDOW_SAMPLES;
    let n: usize = audio.len();
    let mut out: Vec<Single> = Vec::new();
    let mut i: usize = 0;
    while i < WINDOW_SAMPLES
        invariant
            n == audio@.len(),
            start == w * WINDOW_SAMPLES,
            start <= n,
            n + WINDOW_SAMPLES <= usize::MAX,
            i <= WINDOW_SAMPLES,
            out@.len() == i,
            forall|j: int| 0 <= j < i ==> #[trigger] out@[j] == window_at(audio@, w as int)[j],
        decreases WINDOW_SAMPLES - i,
    {
        let s: Single = if start + i < n {
            audio[start + i]
        } else {
            Single { bits: 0 }
        };
        out.push(s);
        i += 1;
    }
    assert(out@ =~= window_at(audio@, w as int));
    out
}

/// The samples of the spans, one span after the other.
pub open spec fn speech(audio: Seq<Single>, spans: Seq<Span>) -> Seq<Single>
    decreases spans.len(),
{
    if spans.len() == 0 {
        Seq::empty()
    } else {
        speech(audio, spans.drop_last()) + audio.subrange(spans.last().start, spans.last().end)
    }
}

/// Copy the samples of the segments out of `audio`.
fn cut_out(audio: &[Single], segments: &[SpeechSegment]) -> (r: Vec<Single>)
    requires
        crate::pipeline::in_order(spans(segments@), audio@.len() as int),
    ensures
        r@ == speech(audio@, spans(segments@)),
{
    let ghost all = spans(segments@);
    let mut out: Vec<Single> = Vec::new();
    let n: usize = segments.len();
    let mut i: usize = 0;
    assert(all.take(0) =~= Seq::empty());
    while i < n
        invariant
            n == segments@.len(),
            all == spans(segments@),
            crate::pipeline::in_order(all, audio@.len() as int),
            i <= n,
            out@ == speech(audio@, all.take(i as int)),
        decreases n - i,
    {
        let here: SpeechSegment = segments[i];
        assert(all[i as int] == here@);
        assert(all.take(i + 1).drop_last() =~= all.take(i as int));
        let ghost before = out@;
        let part: &[Single] = &audio[here.start..here.end];
        out.extend_from_slice(part);
        assert(out@ =~= before + part@);
        i += 1;
    }
    assert(all.take(n as int) =~= all);
    out
}

/// What is collected is the samples of the spans, put end to end.
pub proof fn law_collected_is_the_speech(audio: Seq<Single>, spans: Seq<Span>)
    ensures
        speech(audio, spans) == spans.map_values(
            |s: Span| audio.subrange(s.start, s.end),
        ).flatten(),
    decreases spans.len(),
{
    let cut = |s: Span| audio.subrange(s.start, s.end);
    if spans.len() == 0 {
        assert(spans.map_values(cut) =~= Seq::empty());
    } else {
        let rest = spans.drop_last();
        law_collected_is_the_speech(audio, rest);
        assert(spans.map_values(cut) =~= rest.map_values(cut).push(cut(spans.last())));
        rest.map_values(cut).lemma_flatten_push(cut(spans.last()));
    }
}

/// What is collected has as many samples as the spans together.
pub proof fn law_collected_length(audio: Seq<Single>, spans: Seq<Span>)
    requires
        crate::pipeline::in_order(spans, audio.len() as int),
    ensures
        speech(audio, spans).len() == crate::pipeline::total_speech(spans),
    decreases spans.len(),
{
    if spans.len() > 0 {
        let rest = spans.drop_last();
        assert forall|i: int| 0 <= i < rest.len() implies 0 <= (#[trigger] rest[i]).start
            <= rest[i].end <= audio.len() by {
            assert(rest[i] == spans[i]);
        }
        assert forall|i: int, j: int| 0 <= i < j < rest.len() implies (#[trigger] rest[i]).end <= (
        #[trigger] rest[j]).start by {
            assert(rest[i] == spans[i] && rest[j] == spans[j]);
        }
        law_collected_length(audio, rest);
        assert(spans[spans.len() - 1].start <= spans[spans.len() - 1].end <= audio.len());
    }
}

/// What a call of [`SileroVad::segments`] gives on a buffer: the utterances that the
/// probabilities of all its windows show.
pub proof fn law_detected_speech<F: Fn(&[Single], &[Single]) -> VadAnswer>(
    audio: &[Single],
    run: &F,
    cfg: VadConfig,
    r: Vec<SpeechSegment>,
)
    requires
        audio@.len() > 0,
        cfg.threshold.ge(cfg.release),
        exists|v: &mut SileroVad|
            (*v).config == cfg && #[trigger] call_ensures(
                SileroVad::segments::<F>,
                (v, audio, run),
                Ok(r),
            ),
    ensures
        exists|probs: Seq<Single>| #[trigger]
            listened(*run, audio@, probs) && all_utterances(
                probs,
                512,
                audio@.len() as int,
                cfg,
                spans(r@),
            ),
{
    let len = audio@.len() as int;
    let (probs, state) = choose|probs: Seq<Single>, state: Seq<Single>| #[trigger]
        probed(*run, audio@, window_count(len) as nat, probs, state) && spans(r@) == speech_spans(
            probs,
            len,
            cfg,
        );
    law_every_window_is_heard(*run, audio@, probs, state);
    law_spans_are_the_utterances(probs, 512, len, cfg);
}

/// Success is owed: with a graph that always answers, with a probability and a state, a
/// call of [`SileroVad::segments`] succeeds.
pub proof fn law_detection_succeeds<F: Fn(&[Single], &[Single]) -> VadAnswer>(
    audio: &[Single],
    run: &F,
    r: Result<Vec<SpeechSegment>, AsrError>,
)
    requires
        exists|v: &mut SileroVad| #[trigger]
            call_ensures(SileroVad::segments::<F>, (v, audio, run), r),
        forall|w: &[Single], s: &[Single], q: VadAnswer| #[trigger]
            call_ensures(*run, (w, s), q) ==> (q matches Ok(out) && out.probability@.len() > 0
                && out.state is Ok),
    ensures
        r is Ok,
        audio@.len() == 0 ==> r->Ok_0@.len() == 0,
{
}

/// What a call of [`SileroVad::collect_speech`] gives on a buffer: the samples of those
/// utterances, put end to end.
pub proof fn law_collected_speech<F: Fn(&[Single], &[Single]) -> VadAnswer>(
    audio: &[Single],
    run: &F,
    cfg: VadConfig,
    kept: Vec<Single>,
)
    requires
        audio@.len() > 0,
        cfg.threshold.ge(cfg.release),
        exists|v: &mut SileroVad|
            (*v).config == cfg && #[trigger] call_ensures(
                SileroVad::collect_speech::<F>,
                (v, audio, run),
                Ok(kept),
            ),
    ensures
        exists|probs: Seq<Single>, found: Seq<Span>|
            {
                &&& #[trigger] listened(*run, audio@, probs)
                &&& #[trigger] all_utterances(probs, 512, audio@.len() as int, cfg, found)
                &&& kept@ == found.map_values(
                    |s: Span| audio@.subrange(s.start, s.end),
                ).flatten()
            },
{
    let len = audio@.len() as int;
    let (probs, state) = choose|probs: Seq<Single>, state: Seq<Single>| #[trigger]
        probed(*run, audio@, window_count(len) as nat, probs, state) && kept@ == speech(
            audio@,
            speech_spans(probs, len, cfg),
        );
    law_every_window_is_heard(*run, audio@, probs, state);
    law_spans_are_the_utterances(probs, 512, len, cfg);
    law_collected_is_the_speech(audio@, speech_spans(probs, len, cfg));
}

/// Windows of 512 samples start inside the buffer that they cover.
proof fn lemma_windows(len: int)
    requires
        len >= 0,
    ensures
        window_count(len) >= 0,
        window_count(len) * WINDOW_SAMPLES <= len + WINDOW_SAMPLES - 1,
        len > 0 ==> window_count(len) > 0,
        forall|w: int| 0 <= w < window_count(len) ==> #[trigger] (w * WINDOW_SAMPLES) <= len,
{
}

/// A region still open at the end began inside the buffer.
proof fn lemma_open(probs: Seq<Single>, window: int, total: int, cfg: VadConfig)
    requires
        window >= 0,
        total >= 0,
        probs.len() > 0 ==> (probs.len() - 1) * window <= total,
    ensures
        Tracker::hear_all(probs, window, cfg).open matches Some(begun) ==> begun <= total,
{
    if probs.len() > 0 {
        lemma_tracks(probs, window, cfg);
    }
}

/// A call of [`SileroVad::load`] succeeds exactly when the file is there and opens as a
/// graph of three inputs.
pub proof fn law_present_model_loads(
    file: &ModelFile,
    graph: &Graph,
    config: VadConfig,
    r: Result<SileroVad, AsrError>,
)
    requires
        call_ensures(SileroVad::load, (file, graph, config), r),
    ensures
        r is Ok <==> file.exists && (graph matches Graph::Open { inputs, .. } && inputs@.len() == 3),
        r matches Err(e) ==> (e@ is ModelNotFound <==> !file.exists),
        r matches Ok(vad) ==> vad.config == config && vad.wf(),
{
}

} // verus!
