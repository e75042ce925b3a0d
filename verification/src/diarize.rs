//! Speaker diarization.
//!
//! "Who spoke when", as a standalone pass, deliberately **outside** the
//! [`crate::AsrEngine`] trait. Diarization produces speaker-labelled time spans,
//! not text, so it does not fit `transcribe`; like the shared [`crate::vad`] it
//! lives beside the trait, and the caller composes the two: diarize to get the
//! spans, then transcribe each span.
//!
//! Backed by NVIDIA's streaming Sortformer v2, which tells up to 4 speakers apart.
//! This offline pass is tuned for **turn-taking** speech, not heavy cross-talk.

use crate::error::{AsrError, ErrorView};
use crate::model::ModelFile;
use crate::single::Single;
use vstd::prelude::*;
use vstd::string::*;

verus! {

/// A speaker identifier, `0..4` for the 4-speaker Sortformer model.
///
/// A shared alias so a speaker-attributed transcription API can label its output
/// with the same type, without either side depending on the other.
pub type SpeakerId = usize;

/// Post-processing knobs for turning raw per-frame speaker probabilities into
/// segments. The defaults are NVIDIA's tuned CallHome preset for Sortformer v2;
/// the remaining internal knobs (padding, median smoothing) keep that preset's
/// values.
#[derive(Debug, Clone, Copy)]
pub struct DiarizeConfig {
    /// A speaker turn starts when its probability reaches this value.
    pub onset: Single,
    /// A speaker turn ends when its probability falls below this value.
    pub offset: Single,
    /// A turn shorter than this is discarded (milliseconds).
    pub min_speech_ms: u32,
    /// Two turns of the same speaker closer than this are merged (milliseconds).
    pub min_gap_ms: u32,
}

impl Default for DiarizeConfig {
    /// An onset of 0.641 and an offset of 0.561, with 511 ms of speech and gaps of
    /// 296 ms.
    fn default() -> (r: Self)
        ensures
            r.onset.bits == 0x3f24_1893,
            r.offset.bits == 0x3f0f_9db2,
            r.min_speech_ms == 511,
            r.min_gap_ms == 296,
    {
        DiarizeConfig {
            onset: Single { bits: 0x3f24_1893 },
            offset: Single { bits: 0x3f0f_9db2 },
            min_speech_ms: 511,
            min_gap_ms: 296,
        }
    }
}

/// A single-speaker time span, as **sample indices** at [`crate::SAMPLE_RATE`]
/// into the buffer passed to [`Diarizer::diarize`]. Convert to seconds by
/// dividing by [`crate::SAMPLE_RATE`]. `end` is exclusive.
#[derive(Debug, Clone, Copy, PartialEq, Eq, Structural)]
pub struct SpeakerSegment {
    /// First sample of the turn (inclusive).
    pub start: usize,
    /// One past the last sample of the turn (exclusive).
    pub end: usize,
    /// Which speaker is talking.
    pub speaker: SpeakerId,
}

impl SpeakerSegment {
    /// Length of the segment in samples.
    pub fn len(&self) -> (r: usize)
        requires
            self.start <= self.end,
        ensures
            r == self.end - self.start,
    {
        self.end - self.start
    }

    /// True when the segment carries no samples.
    pub fn is_empty(&self) -> (r: bool)
        ensures
            r == (self.start >= self.end),
    {
        self.start >= self.end
    }
}

/// A turn as the model reports it: first sample, one past the last, speaker.
pub type RawTurn = (u64, u64, usize);

/// The turn as a segment, its samples counted in the machine's own size.
pub open spec fn as_segment(turn: RawTurn) -> SpeakerSegment {
    SpeakerSegment { start: turn.0 as usize, end: turn.1 as usize, speaker: turn.2 }
}

/// The turns as segments, in order.
pub open spec fn as_segments(turns: Seq<RawTurn>) -> Seq<SpeakerSegment> {
    turns.map_values(|t: RawTurn| as_segment(t))
}

/// The segments stand in start order.
pub open spec fn by_start(segments: Seq<SpeakerSegment>) -> bool {
    forall|i: int, j: int|
        0 <= i <= j < segments.len() ==> (#[trigger] segments[i]).start <= (
        #[trigger] segments[j]).start
}

/// The segments that start at sample `start`, in order.
pub open spec fn starting_at(segments: Seq<SpeakerSegment>, start: usize) -> Seq<SpeakerSegment> {
    segments.filter(|s: SpeakerSegment| s.start == start)
}

/// `sorted` holds the turns in start order; turns that start together keep the
/// order in which the model reports them.
pub open spec fn put_in_order(turns: Seq<RawTurn>, sorted: Seq<SpeakerSegment>) -> bool {
    &&& by_start(sorted)
    &&& sorted.to_multiset() == as_segments(turns).to_multiset()
    &&& forall|start: usize| #[trigger]
        starting_at(sorted, start) == starting_at(as_segments(turns), start)
}

/// Offline speaker diarizer over NVIDIA Sortformer v2.
///
/// Load once, then call [`diarize`](Diarizer::diarize) per clip. Sortformer resets
/// its streaming state at the start of each call, so successive calls are
/// independent.
pub struct Diarizer {
    /// How turns are told apart.
    pub config: DiarizeConfig,
}

impl Diarizer {
    /// Load a Sortformer ONNX model and configure post-processing, from what is at
    /// its path and, when it is there, what opening it gave.
    ///
    /// Returns [`AsrError::ModelNotFound`] when there is nothing at the path, and
    /// [`AsrError::Load`] when the model exists but cannot be loaded.
    pub fn load(
        file: &ModelFile,
        opened: &Result<(), String>,
        config: DiarizeConfig,
    ) -> (r: Result<Self, AsrError>)
        ensures
            r is Ok <==> file.exists && opened is Ok,
            r matches Ok(d) ==> d.config == config,
            r matches Err(e) ==> e@ == (if !file.exists {
                ErrorView::ModelNotFound(file.shown@)
            } else {
                ErrorView::Load(opened->Err_0@)
            }),
    {
        if !file.exists {
            return Err(AsrError::ModelNotFound(file.shown.clone()));
        }
        match opened {
            Err(message) => Err(AsrError::Load(message.clone())),
            Ok(()) => Ok(Diarizer { config }),
        }
    }

    /// Diarize a full **mono 16 kHz** buffer, with `run` for the model, returning
    /// the speaker turns in start-time order.
    ///
    /// An empty buffer yields an empty vector without error. Inference failure
    /// surfaces as [`AsrError::Transcribe`].
    pub fn diarize<F: Fn(&[Single]) -> Result<Vec<RawTurn>, String>>(
        &self,
        audio: &[Single],
        run: &F,
    ) -> (r: Result<Vec<SpeakerSegment>, AsrError>)
        requires
            audio@.len() > 0 ==> call_requires(*run, (audio,)),
        ensures
            r matches Ok(turns) ==> by_start(turns@),
            audio@.len() == 0 ==> (r matches Ok(turns) && turns@.len() == 0),
            audio@.len() > 0 ==> (match r {
                Ok(turns) => exists|raw: Vec<RawTurn>| #[trigger]
                    call_ensures(*run, (audio,), Ok(raw)) && put_in_order(raw@, turns@),
                Err(e) => exists|message: String| #[trigger]
                    call_ensures(*run, (audio,), Err(message)) && e@ == ErrorView::Transcribe(
                        message@,
                    ),
            }),
    {
        if audio.len() == 0 {
            let none: Vec<SpeakerSegment> = Vec::new();
            return Ok(none);
        }
        match run(audio) {
            Err(message) => Err(AsrError::Transcribe(message)),
            Ok(raw) => Ok(to_segments(&raw)),
        }
    }
}

/// The turns as segments in start order: see [`put_in_order`].
pub fn to_segments(raw: &Vec<RawTurn>) -> (r: Vec<SpeakerSegment>)
    ensures
        put_in_order(raw@, r@),
{
    let mut out: Vec<SpeakerSegment> = Vec::new();
    let n: usize = raw.len();
    let mut i: usize = 0;
    assert(raw@.take(0) =~= Seq::empty());
    assert(as_segments(raw@.take(0)) =~= Seq::empty());
    assert(out@ =~= as_segments(raw@.take(0)));
    while i < n
        invariant
            n == raw@.len(),
            i <= n,
            out@.len() == i,
            put_in_order(raw@.take(i as int), out@),
        decreases n - i,
    {
        let turn: RawTurn = raw[i];
        let segment = SpeakerSegment {
            start: #[verifier::truncate] (turn.0 as usize),
            end: #[verifier::truncate] (turn.1 as usize),
            speaker: turn.2,
        };
        let ghost held = out@;
        let at: usize = place_for(&out, segment.start);
        out.insert(at, segment);
        proof {
            lemma_inserted(raw@.take(i as int), held, turn, at as int);
            assert(raw@.take(i + 1) =~= raw@.take(i as int).push(turn));
            assert(out@ =~= held.insert(at as int, segment));
        }
        i += 1;
    }
    assert(raw@.take(n as int) =~= raw@);
    out
}

/// Where a segment that starts at `start` goes among sorted ones: behind those that
/// start no later.
fn place_for(sorted: &Vec<SpeakerSegment>, start: usize) -> (r: usize)
    requires
        by_start(sorted@),
    ensures
        r <= sorted@.len(),
        forall|j: int| 0 <= j < r ==> (#[trigger] sorted@[j]).start <= start,
        forall|j: int| r <= j < sorted@.len() ==> start < (#[trigger] sorted@[j]).start,
{
    let mut at: usize = sorted.len();
    while at > 0 && sorted[at - 1].start > start
        invariant
            at <= sorted@.len(),
            forall|j: int| at <= j < sorted@.len() ==> start < (#[trigger] sorted@[j]).start,
        decreases at,
    {
        at -= 1;
    }
    assert forall|j: int| 0 <= j < at implies (#[trigger] sorted@[j]).start <= start by {
        assert(sorted@[j].start <= sorted@[at - 1].start);
    }
    at
}

/// One more turn at its place keeps the turns in order.
proof fn lemma_inserted(turns: Seq<RawTurn>, sorted: Seq<SpeakerSegment>, turn: RawTurn, at: int)
    requires
        put_in_order(turns, sorted),
        0 <= at <= sorted.len(),
        forall|j: int| 0 <= j < at ==> (#[trigger] sorted[j]).start <= as_segment(turn).start,
        forall|j: int|
            at <= j < sorted.len() ==> as_segment(turn).start < (#[trigger] sorted[j]).start,
    ensures
        put_in_order(turns.push(turn), sorted.insert(at, as_segment(turn))),
{
    let new = as_segment(turn);
    let low = sorted.take(at);
    let high = sorted.skip(at);
    let after = sorted.insert(at, new);
    let all = as_segments(turns);
    assert(as_segments(turns.push(turn)) =~= all.push(new));
    assert(sorted =~= low + high);
    assert(after =~= low.push(new) + high);
    assert(after.to_multiset() =~= all.push(new).to_multiset()) by {
        broadcast use vstd::seq_lib::group_to_multiset_ensures;
    }
    assert forall|start: usize| #[trigger] starting_at(after, start) == starting_at(
        all.push(new),
        start,
    ) by {
        let here = |s: SpeakerSegment| s.start == start;
        assert(starting_at(sorted, start) == starting_at(all, start));
        Seq::filter_distributes_over_add(low, high, here);
        Seq::filter_distributes_over_add(low.push(new), high, here);
        lemma_filter_push(low, new, start);
        lemma_filter_push(all, new, start);
        if start == new.start {
            lemma_filter_none(high, start);
        }
    }
}

proof fn lemma_filter_push(segments: Seq<SpeakerSegment>, new: SpeakerSegment, start: usize)
    ensures
        starting_at(segments.push(new), start) == (if new.start == start {
            starting_at(segments, start).push(new)
        } else {
            starting_at(segments, start)
        }),
{
    reveal(Seq::filter);
    assert(segments.push(new).drop_last() =~= segments);
}

proof fn lemma_filter_none(segments: Seq<SpeakerSegment>, start: usize)
    requires
        forall|j: int| 0 <= j < segments.len() ==> (#[trigger] segments[j]).start != start,
    ensures
        starting_at(segments, start) == Seq::<SpeakerSegment>::empty(),
    decreases segments.len(),
{
    reveal(Seq::filter);
    if segments.len() > 0 {
        let rest = segments.drop_last();
        assert forall|j: int| 0 <= j < rest.len() implies (#[trigger] rest[j]).start != start by {
            assert(rest[j] == segments[j]);
        }
        lemma_filter_none(rest, start);
        assert(segments[segments.len() - 1].start != start);
    }
}

// --- laws -------------------------------------------------------------------------

/// What a call of [`to_segments`] gives: as many segments as the model reports turns, in
/// start order, and for each turn whose samples the machine can count a segment with its
/// start, end and speaker.
pub proof fn law_every_turn_is_there(raw: &Vec<RawTurn>, r: Vec<SpeakerSegment>, i: int)
    requires
        call_ensures(to_segments, (raw,), r),
        0 <= i < raw@.len(),
        raw@[i].0 <= usize::MAX,
        raw@[i].1 <= usize::MAX,
    ensures
        r@.len() == raw@.len(),
        forall|a: int, b: int|
            0 <= a <= b < r@.len() ==> (#[trigger] r@[a]).start <= (#[trigger] r@[b]).start,
        exists|k: int|
            0 <= k < r@.len() && (#[trigger] r@[k]).start == raw@[i].0 && r@[k].end == raw@[i].1
                && r@[k].speaker == raw@[i].2,
{
    let all = as_segments(raw@);
    let s = all[i];
    broadcast use vstd::seq_lib::group_to_multiset_ensures;
    assert(r@.to_multiset().len() == r@.len());
    assert(all.to_multiset().len() == all.len());
    assert(all.contains(s));
    assert(all.to_multiset().count(s) > 0);
    assert(r@.to_multiset().count(s) > 0);
    assert(r@.contains(s));
    let k = choose|k: int| 0 <= k < r@.len() && r@[k] == s;
    assert(r@[k].start == raw@[i].0);
}

/// What the model reports fixes the segments.
pub proof fn law_order_is_fixed(
    turns: Seq<RawTurn>,
    a: Seq<SpeakerSegment>,
    b: Seq<SpeakerSegment>,
)
    requires
        put_in_order(turns, a),
        put_in_order(turns, b),
    ensures
        a == b,
{
    assert forall|start: usize| #[trigger] starting_at(a, start) == starting_at(b, start) by {
        assert(starting_at(a, start) == starting_at(as_segments(turns), start));
    }
    lemma_same(a, b);
}

/// Turns that come in start order come out as they are.
pub proof fn law_sorted_turns_are_kept(turns: Seq<RawTurn>, sorted: Seq<SpeakerSegment>)
    requires
        put_in_order(turns, sorted),
        by_start(as_segments(turns)),
    ensures
        sorted == as_segments(turns),
{
    law_order_is_fixed(turns, sorted, as_segments(turns));
}

/// Two lists in start order that agree on the segments of each start are the same.
proof fn lemma_same(a: Seq<SpeakerSegment>, b: Seq<SpeakerSegment>)
    requires
        by_start(a),
        by_start(b),
        forall|start: usize| #[trigger] starting_at(a, start) == starting_at(b, start),
    ensures
        a == b,
    decreases a.len(),
{
    if a.len() == 0 && b.len() == 0 {
        assert(a =~= b);
    } else if a.len() == 0 {
        lemma_last(b);
        lemma_filter_none(a, b.last().start);
        assert(starting_at(a, b.last().start) == starting_at(b, b.last().start));
    } else if b.len() == 0 {
        lemma_last(a);
        lemma_filter_none(b, a.last().start);
        assert(starting_at(a, a.last().start) == starting_at(b, a.last().start));
    } else {
        let v = a.last().start;
        let w = b.last().start;
        lemma_last(a);
        lemma_last(b);
        assert(starting_at(a, v) == starting_at(b, v));
        assert(starting_at(a, w) == starting_at(b, w));
        if v < w {
            assert forall|j: int| 0 <= j < a.len() implies (#[trigger] a[j]).start != w by {
                assert(a[j].start <= a[a.len() - 1].start);
            }
            lemma_filter_none(a, w);
        }
        if w < v {
            assert forall|j: int| 0 <= j < b.len() implies (#[trigger] b[j]).start != v by {
                assert(b[j].start <= b[b.len() - 1].start);
            }
            lemma_filter_none(b, v);
        }
        assert(a.last() == b.last());
        let x = a.drop_last();
        let y = b.drop_last();
        assert forall|start: usize| #[trigger] starting_at(x, start) == starting_at(y, start) by {
            lemma_filter_push(x, a.last(), start);
            lemma_filter_push(y, b.last(), start);
            assert(x.push(a.last()) =~= a);
            assert(y.push(b.last()) =~= b);
            assert(starting_at(a, start) == starting_at(b, start));
            if start == v {
                assert(starting_at(x, start) =~= starting_at(a, start).drop_last());
                assert(starting_at(y, start) =~= starting_at(b, start).drop_last());
            }
        }
        assert(by_start(x)) by {
            assert forall|i: int, j: int| 0 <= i <= j < x.len() implies (#[trigger] x[i]).start <= (
            #[trigger] x[j]).start by {
                assert(a[i].start <= a[j].start);
            }
        }
        assert(by_start(y)) by {
            assert forall|i: int, j: int| 0 <= i <= j < y.len() implies (#[trigger] y[i]).start <= (
            #[trigger] y[j]).start by {
                assert(b[i].start <= b[j].start);
            }
        }
        lemma_same(x, y);
        assert(a =~= x.push(a.last()));
        assert(b =~= y.push(b.last()));
    }
}

/// The last segment is the last of those that start with it.
proof fn lemma_last(segments: Seq<SpeakerSegment>)
    requires
        segments.len() > 0,
    ensures
        starting_at(segments, segments.last().start).len() > 0,
        starting_at(segments, segments.last().start).last() == segments.last(),
{
    lemma_filter_push(segments.drop_last(), segments.last(), segments.last().start);
    assert(segments.drop_last().push(segments.last()) =~= segments);
}

} // verus!
