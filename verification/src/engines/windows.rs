//! Cutting a long clip into bounded windows.
//!
//! Shared by every backend that feeds the runtime the WHOLE sequence at once
//! (Parakeet, SenseVoice, Moonshine): the runtime's arena never returns its peak
//! to the system, so a long clip must be split into bounded windows and freed
//! between passes. These are also short-form models, trained on 30 s at most, so
//! windowing is a correctness matter too, not only one of memory.

use crate::monitor::lemma_share;
use crate::single::{Single, INFINITY_BITS};
use crate::stitch::{append_part, stitched};
use crate::types::{ResultView, TranscriptionResult, SAMPLE_RATE};
use vstd::prelude::*;

verus! {

/// Where the search for a cut ends, in samples (30 s).
pub const WINDOW_SAMPLES: usize = 480_000;

/// A clip up to this length (32 s) is transcribed in a single window. Set above
/// [`WINDOW_SAMPLES`] on purpose: whenever a clip IS split, the remainder after a
/// cut in the [25 s, 30 s] band is then always at least 2 s. A very short trailing
/// window makes the model hallucinate; this removes that case by construction.
pub const SINGLE_WINDOW_MAX_SAMPLES: usize = 512_000;

/// Start of the cut-point search band (25 s). Past 25 s of speech we want to cut,
/// but at the best spot in that band.
pub const SEARCH_START_SAMPLES: usize = 400_000;

/// Size of the blocks whose level is compared (100 ms).
pub const RMS_BLOCK: usize = 1_600;

/// How many blocks the band holds.
pub const BAND_BLOCKS: usize = 50;

/// `i` is the first of the quietest blocks whose level is below infinity.
pub open spec fn quietest(levels: Seq<Single>, i: int) -> bool {
    &&& 0 <= i < levels.len()
    &&& (Single { bits: INFINITY_BITS }).gt(levels[i])
    &&& forall|j: int| 0 <= j < levels.len() ==> !levels[i].gt(#[trigger] levels[j])
    &&& forall|j: int| 0 <= j < i ==> !levels[i].ge(#[trigger] levels[j])
}

/// Block `i` is the dip of the band: the first of the quietest blocks, and some
/// other block is louder.
pub open spec fn dip(levels: Seq<Single>, i: int) -> bool {
    &&& quietest(levels, i)
    &&& exists|j: int| 0 <= j < levels.len() && (#[trigger] levels[j]).gt(levels[i])
}

/// Where the cut falls, given the levels of the band's blocks: at the start of the
/// dip, or at the hard cap when there is none.
pub open spec fn cut_at(levels: Seq<Single>, cut: int) -> bool {
    ||| exists|i: int| #[trigger] dip(levels, i) && cut == SEARCH_START_SAMPLES + i * RMS_BLOCK
    ||| cut == WINDOW_SAMPLES && forall|i: int| !#[trigger] dip(levels, i)
}

/// The `k`th block of the band.
pub open spec fn band_block(rest: Seq<Single>, k: int) -> Seq<Single> {
    rest.subrange(
        SEARCH_START_SAMPLES + k * RMS_BLOCK,
        SEARCH_START_SAMPLES + k * RMS_BLOCK + RMS_BLOCK,
    )
}

/// The function `rms` can give `level` as the level of `block`.
pub open spec fn measured<F: Fn(&[Single]) -> Single>(
    rms: F,
    block: Seq<Single>,
    level: Single,
) -> bool {
    exists|b: &[Single]| b@ == block && #[trigger] call_ensures(rms, (b,), level)
}

/// The function `rms` can be called on a block of the band, and on nothing of
/// another size is it asked to.
pub open spec fn measures_blocks<F: Fn(&[Single]) -> Single>(rms: F) -> bool {
    forall|b: &[Single]| b@.len() == RMS_BLOCK ==> #[trigger] call_requires(rms, (b,))
}

/// `levels` are levels of the band's blocks.
pub open spec fn band_levels<F: Fn(&[Single]) -> Single>(
    rms: F,
    rest: Seq<Single>,
    levels: Seq<Single>,
) -> bool {
    &&& levels.len() == BAND_BLOCKS
    &&& forall|k: int|
        0 <= k < BAND_BLOCKS ==> measured(rms, band_block(rest, k), #[trigger] levels[k])
}

/// `cut` is where the next window of `rest` ends.
pub open spec fn window_cut<F: Fn(&[Single]) -> Single>(
    rms: F,
    rest: Seq<Single>,
    cut: int,
) -> bool {
    if rest.len() <= SINGLE_WINDOW_MAX_SAMPLES {
        cut == rest.len()
    } else {
        exists|levels: Seq<Single>| #[trigger]
            band_levels(rms, rest, levels) && cut_at(levels, cut)
    }
}

/// Where the cut falls, given the levels of the band's blocks: see [`cut_at`].
pub fn quietest_cut(levels: &[Single]) -> (r: usize)
    requires
        levels@.len() == BAND_BLOCKS,
    ensures
        cut_at(levels@, r as int),
{
    let infinity = Single { bits: INFINITY_BITS };
    let n: usize = levels.len();
    let mut best: Option<usize> = None;
    let mut i: usize = 0;
    while i < n
        invariant
            n == levels@.len() == BAND_BLOCKS,
            i <= n,
            infinity == (Single { bits: INFINITY_BITS }),
            best matches Some(b) ==> b < i && quietest(levels@.take(i as int), b as int),
            best is None ==> forall|j: int| 0 <= j < i ==> !infinity.gt(#[trigger] levels@[j]),
        decreases n - i,
    {
        let ghost seen = levels@.take(i as int);
        let ghost more = levels@.take(i + 1);
        assert(forall|j: int| 0 <= j < i ==> #[trigger] more[j] == seen[j]);
        assert(forall|j: int| 0 <= j < i ==> #[trigger] more[j] == levels@[j]);
        assert(more[i as int] == levels@[i as int]);
        let level: Single = levels[i];
        match best {
            None => {
                if infinity.greater_than(level) {
                    best = Some(i);
                }
            },
            Some(b) => {
                assert(more[b as int] == seen[b as int]);
                if levels[b].greater_than(level) {
                    best = Some(i);
                }
            },
        }
        i += 1;
    }
    assert(levels@.take(n as int) =~= levels@);
    match best {
        Some(b) => {
            assert(quietest(levels@, b as int));
            if stands_out(levels, b) {
                assert(dip(levels@, b as int));
                SEARCH_START_SAMPLES + b * RMS_BLOCK
            } else {
                assert forall|i: int| !#[trigger] dip(levels@, i) by {
                    if quietest(levels@, i) {
                        lemma_quietest_is_one(levels@, b as int, i);
                    }
                }
                WINDOW_SAMPLES
            }
        },
        None => WINDOW_SAMPLES,
    }
}

/// Some block is louder than block `i`.
fn stands_out(levels: &[Single], i: usize) -> (r: bool)
    requires
        i < levels@.len(),
    ensures
        r == exists|j: int| 0 <= j < levels@.len() && (#[trigger] levels@[j]).gt(levels@[i as int]),
{
    let n: usize = levels.len();
    let mut j: usize = 0;
    while j < n
        invariant
            n == levels@.len(),
            i < n,
            j <= n,
            forall|k: int| 0 <= k < j ==> !(#[trigger] levels@[k]).gt(levels@[i as int]),
        decreases n - j,
    {
        if levels[j].greater_than(levels[i]) {
            return true;
        }
        j += 1;
    }
    false
}

/// Cut position (in samples) of the next window within `rest`.
///
/// Returns `rest.len()` when everything fits in a single window. Otherwise it
/// searches the [25 s, 30 s] band for the 100 ms block of lowest energy, as the
/// function `rms` measures it, and cuts at its start: we land on the least-bad
/// breath rather than mid-word. If no dip stands out (continuous speech, no block
/// quieter than another), the hard cap at 30 s applies, so the window is always
/// bounded.
pub fn find_min_rms_cut<F: Fn(&[Single]) -> Single>(rest: &[Single], rms: &F) -> (r: usize)
    requires
        measures_blocks(*rms),
    ensures
        window_cut(*rms, rest@, r as int),
        r <= rest@.len(),
        r <= SINGLE_WINDOW_MAX_SAMPLES,
        rest@.len() > 0 ==> r > 0,
        rest@.len() > SINGLE_WINDOW_MAX_SAMPLES ==> SEARCH_START_SAMPLES <= r <= WINDOW_SAMPLES
            && rest@.len() - r >= 2 * SAMPLE_RATE,
{
    let n: usize = rest.len();
    if n <= SINGLE_WINDOW_MAX_SAMPLES {
        return n;
    }
    let mut levels: Vec<Single> = Vec::new();
    let mut k: usize = 0;
    while k < BAND_BLOCKS
        invariant
            n == rest@.len(),
            n > SINGLE_WINDOW_MAX_SAMPLES,
            k <= BAND_BLOCKS,
            levels@.len() == k,
            measures_blocks(*rms),
            forall|j: int|
                0 <= j < k ==> measured(*rms, band_block(rest@, j), #[trigger] levels@[j]),
        decreases BAND_BLOCKS - k,
    {
        let pos: usize = SEARCH_START_SAMPLES + k * RMS_BLOCK;
        let block: &[Single] = &rest[pos..pos + RMS_BLOCK];
        assert(block@ =~= band_block(rest@, k as int));
        let level: Single = rms(block);
        levels.push(level);
        k += 1;
    }
    assert(band_levels(*rms, rest@, levels@));
    let cut: usize = quietest_cut(levels.as_slice());
    proof {
        law_cut(levels@, n as int, cut as int);
    }
    cut
}

// --- the windows of a clip ----------------------------------------------------------

/// The `i`th window is cut from what the windows before it left.
pub open spec fn window_step<F: Fn(&[Single]) -> Single>(
    rms: F,
    audio: Seq<Single>,
    bounds: Seq<int>,
    i: int,
) -> bool {
    0 <= bounds[i] < audio.len() && window_cut(
        rms,
        audio.skip(bounds[i]),
        bounds[i + 1] - bounds[i],
    )
}

/// `bounds` are where the windows of `audio` begin and end, so far: from zero on,
/// each window cut from what the last one left.
pub open spec fn cut_from<F: Fn(&[Single]) -> Single>(
    rms: F,
    audio: Seq<Single>,
    bounds: Seq<int>,
) -> bool {
    &&& bounds.len() >= 1
    &&& bounds[0] == 0
    &&& forall|i: int|
        0 <= i < bounds.len() - 1 ==> #[trigger] window_step(rms, audio, bounds, i)
}

/// `bounds` are where the windows of the whole of `audio` begin and end.
pub open spec fn windows_of<F: Fn(&[Single]) -> Single>(
    rms: F,
    audio: Seq<Single>,
    bounds: Seq<int>,
) -> bool {
    cut_from(rms, audio, bounds) && bounds.last() == audio.len()
}

/// The samples of the `i`th window.
pub open spec fn window(audio: Seq<Single>, bounds: Seq<int>, i: int) -> Seq<Single> {
    audio.subrange(bounds[i], bounds[i + 1])
}

/// The percentage of a clip of `total` samples that is done when `pct` percent of
/// the window of `len` samples at `start` are.
pub open spec fn window_progress(start: int, len: int, pct: int, total: int) -> int {
    (start * 100 + len * pct) / total
}

/// The percentages of a clip of `total` samples that are done at the starts of the
/// windows.
pub open spec fn window_marks(bounds: Seq<int>, total: int) -> Seq<int> {
    Seq::new((bounds.len() - 1) as nat, |i: int| bounds[i] * 100 / total)
}

/// See [`window_progress`].
pub fn progress_at(start: usize, len: usize, pct: u8, total: usize) -> (r: u8)
    requires
        start + len <= total,
        0 < total,
        pct <= 100,
    ensures
        r == window_progress(start as int, len as int, pct as int, total as int),
        r <= 100,
        start as int * 100 / (total as int) <= r <= (start + len) * 100 / (total as int),
{
    assert(len as int * pct as int <= len as int * 100) by (nonlinear_arith)
        requires
            pct <= 100,
    ;
    assert(0 <= len as int * pct as int) by (nonlinear_arith);
    let done: u128 = start as u128 * 100 + len as u128 * pct as u128;
    proof {
        law_progress(start as int, len as int, pct as int, total as int);
    }
    (done / total as u128) as u8
}

// --- walking through a clip ---------------------------------------------------------

/// A clip being transcribed window by window.
pub struct Walk {
    /// Where the next window starts.
    pub start: usize,
    /// The results so far, put together.
    pub whole: TranscriptionResult,
    /// Where the windows so far begin and end.
    pub bounds: Ghost<Seq<int>>,
    /// The results so far, one by one.
    pub parts: Ghost<Seq<ResultView>>,
}

impl Walk {
    /// The windows so far are those of `audio`, and the whole is their results put
    /// together at their starts.
    pub open spec fn inv<F: Fn(&[Single]) -> Single>(&self, rms: F, audio: Seq<Single>) -> bool {
        &&& cut_from(rms, audio, self.bounds@)
        &&& self.bounds@.last() == self.start
        &&& self.start <= audio.len()
        &&& self.parts@.len() == self.bounds@.len() - 1
        &&& self.whole@ == stitched(self.parts@, self.bounds@.drop_last())
    }

    /// No window yet.
    pub fn new<F: Fn(&[Single]) -> Single>(audio: &[Single], rms: &F) -> (r: Self)
        ensures
            r.inv(*rms, audio@),
            r.start == 0,
            r.bounds@ == seq![0int],
            r.parts@ == Seq::<ResultView>::empty(),
    {
        let ghost bounds = seq![0int];
        Walk {
            start: 0,
            whole: TranscriptionResult::default(),
            bounds: Ghost(bounds),
            parts: Ghost(Seq::empty()),
        }
    }

    /// The length of the next window.
    pub fn next_len<F: Fn(&[Single]) -> Single>(&self, audio: &[Single], rms: &F) -> (r: usize)
        requires
            self.start < audio@.len(),
            measures_blocks(*rms),
        ensures
            window_cut(*rms, audio@.skip(self.start as int), r as int),
            0 < r <= audio@.len() - self.start,
    {
        let n: usize = audio.len();
        let rest: &[Single] = &audio[self.start..n];
        assert(rest@ =~= audio@.skip(self.start as int));
        find_min_rms_cut(rest, rms)
    }

    /// Add the result of the next window, of `len` samples.
    pub fn add_part<F: Fn(&[Single]) -> Single>(
        &mut self,
        part: TranscriptionResult,
        len: usize,
        audio: &[Single],
        rms: &F,
    )
        requires
            old(self).inv(*rms, audio@),
            old(self).start < audio@.len(),
            window_cut(*rms, audio@.skip(old(self).start as int), len as int),
            0 < len <= audio@.len() - old(self).start,
        ensures
            final(self).inv(*rms, audio@),
            final(self).start == old(self).start + len,
            final(self).bounds@ == old(self).bounds@.push(old(self).start + len),
            final(self).parts@ == old(self).parts@.push(part@),
    {
        let n: usize = audio.len();
        assert(self.start + len <= n);
        let ghost held = self.bounds@;
        let ghost known = self.parts@;
        let ghost next = held.push(self.start + len);
        let ghost more = known.push(part@);
        append_part(&mut self.whole, part, self.start);
        self.bounds = Ghost(next);
        self.parts = Ghost(more);
        self.start = self.start + len;
        proof {
            assert(next.drop_last() =~= held);
            assert(more.drop_last() =~= known);
            assert(next.drop_last().drop_last() =~= held.drop_last());
            assert(next.drop_last().last() == held.last());
            assert forall|i: int| 0 <= i < next.len() - 1 implies #[trigger] window_step(
                *rms,
                audio@,
                next,
                i,
            ) by {
                if i < held.len() - 1 {
                    assert(window_step(*rms, audio@, held, i));
                }
            }
        }
    }
}

// --- laws -------------------------------------------------------------------------

/// A cut of a clip over 32 s lies in the band [25 s, 30 s], so it makes progress,
/// bounds the window, and leaves at least 2 s.
pub proof fn law_cut(levels: Seq<Single>, len: int, cut: int)
    requires
        levels.len() == BAND_BLOCKS,
        cut_at(levels, cut),
        len > SINGLE_WINDOW_MAX_SAMPLES,
    ensures
        SEARCH_START_SAMPLES <= cut <= WINDOW_SAMPLES,
        len - cut >= 2 * SAMPLE_RATE,
{
}

/// No window is over 32 s.
pub(crate) proof fn lemma_window_bound<F: Fn(&[Single]) -> Single>(
    rms: F,
    rest: Seq<Single>,
    cut: int,
)
    requires
        window_cut(rms, rest, cut),
    ensures
        cut <= SINGLE_WINDOW_MAX_SAMPLES,
{
    if rest.len() > SINGLE_WINDOW_MAX_SAMPLES {
        let levels = choose|levels: Seq<Single>| #[trigger]
            band_levels(rms, rest, levels) && cut_at(levels, cut);
        law_cut(levels, rest.len() as int, cut);
    }
}

/// The levels of the band's blocks fix the cut.
pub proof fn law_cut_is_unique(levels: Seq<Single>, a: int, b: int)
    requires
        cut_at(levels, a),
        cut_at(levels, b),
    ensures
        a == b,
{
    if exists|i: int| #[trigger] dip(levels, i) {
        let i = choose|i: int| #[trigger] dip(levels, i);
        assert forall|j: int| #[trigger] dip(levels, j) implies i == j by {
            lemma_quietest_is_one(levels, i, j);
        }
    }
}

/// There is one first quietest block.
proof fn lemma_quietest_is_one(levels: Seq<Single>, i: int, j: int)
    requires
        quietest(levels, i),
        quietest(levels, j),
    ensures
        i == j,
{
    assert(!levels[i].gt(levels[j]));
    assert(!levels[j].gt(levels[i]));
    if i < j {
        assert(!levels[j].ge(levels[i]));
    }
    if j < i {
        assert(!levels[i].ge(levels[j]));
    }
}

/// A band whose blocks all have one level has no dip, so the clip is cut at the
/// hard cap.
pub proof fn law_level_band_is_cut_at_the_cap(levels: Seq<Single>, cut: int)
    requires
        cut_at(levels, cut),
        forall|i: int, j: int|
            0 <= i < levels.len() && 0 <= j < levels.len() ==> !(#[trigger] levels[i]).gt(
                #[trigger] levels[j],
            ),
    ensures
        cut == WINDOW_SAMPLES,
{
}

/// `cut` is the start of the first of the quietest of the blocks, when some block is
/// louder than it and it is below infinity; the hard cap when no block is such.
pub open spec fn at_the_dip(levels: Seq<Single>, cut: int) -> bool {
    if cut == 480_000 {
        forall|i: int, j: int|
            0 <= i < 50 && 0 <= j < 50 && (Single { bits: INFINITY_BITS }).gt(levels[i]) && (
            #[trigger] levels[j]).gt(#[trigger] levels[i]) ==> exists|k: int|
                0 <= k < 50 && levels[i].gt(#[trigger] levels[k])
    } else {
        exists|i: int|
            {
                &&& 0 <= i < 50
                &&& cut == 400_000 + 1_600 * i
                &&& forall|k: int| 0 <= k < 50 ==> !(#[trigger] levels[i]).gt(levels[k])
                &&& forall|k: int| 0 <= k < i ==> !levels[i].ge(#[trigger] levels[k])
                &&& exists|j: int| 0 <= j < 50 && (#[trigger] levels[j]).gt(levels[i])
            }
    }
}

/// No block is quieter than the one that a call of [`quietest_cut`] cuts at, none before
/// it is as quiet, and some block is louder.
pub proof fn law_no_block_is_quieter(levels: &[Single], r: usize, k: int)
    requires
        levels@.len() == 50,
        call_ensures(quietest_cut, (levels,), r),
        0 <= k < 50,
    ensures
        400_000 <= r <= 480_000,
        (r - 400_000) % 1_600 == 0,
        r < 480_000 ==> !levels@[(r - 400_000) / 1_600].gt(levels@[k]),
        r < 480_000 && 400_000 + 1_600 * k < r ==> !levels@[(r - 400_000) / 1_600].ge(levels@[k]),
        r < 480_000 ==> exists|j: int|
            0 <= j < 50 && (#[trigger] levels@[j]).gt(levels@[(r - 400_000) / 1_600]),
        r == 480_000 && (Single { bits: INFINITY_BITS }).gt(levels@[k]) && (forall|j: int|
            0 <= j < 50 ==> !levels@[k].gt(#[trigger] levels@[j])) ==> forall|j: int|
            0 <= j < 50 ==> !(#[trigger] levels@[j]).gt(levels@[k]),
{
    lemma_at_the_dip(levels@, r as int);
    if r != 480_000 {
        let i = choose|i: int|
            {
                &&& 0 <= i < 50
                &&& r == 400_000 + 1_600 * i
                &&& forall|k: int| 0 <= k < 50 ==> !(#[trigger] levels@[i]).gt(levels@[k])
                &&& forall|k: int| 0 <= k < i ==> !levels@[i].ge(#[trigger] levels@[k])
                &&& exists|j: int| 0 <= j < 50 && (#[trigger] levels@[j]).gt(levels@[i])
            };
        assert((r - 400_000) / 1_600 == i);
        assert(!levels@[i].gt(levels@[k]));
    }
}

/// A call of [`quietest_cut`] cuts at the dip: see [`at_the_dip`].
pub proof fn law_cut_is_at_the_dip(levels: &[Single], r: usize)
    requires
        levels@.len() == 50,
        call_ensures(quietest_cut, (levels,), r),
    ensures
        at_the_dip(levels@, r as int),
{
    lemma_at_the_dip(levels@, r as int);
}

proof fn lemma_at_the_dip(levels: Seq<Single>, cut: int)
    requires
        levels.len() == 50,
        cut_at(levels, cut),
    ensures
        at_the_dip(levels, cut),
{
    if cut == 480_000 {
        assert forall|i: int, j: int|
            0 <= i < 50 && 0 <= j < 50 && (Single { bits: INFINITY_BITS }).gt(levels[i]) && (
            #[trigger] levels[j]).gt(#[trigger] levels[i]) implies exists|k: int|
            0 <= k < 50 && levels[i].gt(#[trigger] levels[k]) by {
            if forall|k: int| 0 <= k < 50 ==> !levels[i].gt(#[trigger] levels[k]) {
                let f = lemma_first_as_quiet(levels, i, i);
                assert(quietest(levels, f));
                assert(levels[j].gt(levels[f]));
                assert(dip(levels, f));
            }
        }
    } else {
        let i = choose|i: int| #[trigger]
            dip(levels, i) && cut == SEARCH_START_SAMPLES + i * RMS_BLOCK;
        assert(quietest(levels, i));
        assert forall|k: int| 0 <= k < 50 implies !(#[trigger] levels[i]).gt(levels[k]) by {
            assert(!levels[i].gt(levels[k]));
        }
    }
}

/// Among the blocks up to `n` that are as quiet as block `i`, the quietest of all, there
/// is a first one.
proof fn lemma_first_as_quiet(levels: Seq<Single>, i: int, n: int) -> (f: int)
    requires
        levels.len() == 50,
        0 <= n <= i < 50,
        (Single { bits: INFINITY_BITS }).gt(levels[i]),
        forall|k: int| 0 <= k < 50 ==> !levels[i].gt(#[trigger] levels[k]),
        levels[i].ge(levels[n]),
    ensures
        quietest(levels, f),
        levels[f].value() == levels[i].value(),
        !levels[f].nan(),
    decreases n,
{
    assert(!levels[i].gt(levels[n]));
    if exists|k: int| 0 <= k < n && levels[i].ge(#[trigger] levels[k]) {
        let k = choose|k: int| 0 <= k < n && levels[i].ge(#[trigger] levels[k]);
        lemma_first_as_quiet(levels, i, k)
    } else {
        assert forall|k: int| 0 <= k < levels.len() implies !levels[n].gt(
            #[trigger] levels[k],
        ) by {
            assert(!levels[i].gt(levels[k]));
        }
        n
    }
}

/// What a call of [`find_min_rms_cut`] gives: all of a clip up to 32 s, else a cut at
/// the dip of the blocks of 100 ms from 25 s to 30 s, as `rms` measures them.
pub proof fn law_cut_of_a_clip<F: Fn(&[Single]) -> Single>(
    rest: &[Single],
    rms: &F,
    r: usize,
)
    requires
        call_ensures(find_min_rms_cut::<F>, (rest, rms), r),
    ensures
        cut_of(*rms, rest@, r as int),
{
    lemma_cut_of(*rms, rest@, r as int);
}

/// `cut` is where the first window of `rest` ends: see [`law_cut_of_a_clip`].
pub open spec fn cut_of<F: Fn(&[Single]) -> Single>(rms: F, rest: Seq<Single>, cut: int) -> bool {
    if rest.len() <= 512_000 {
        cut == rest.len()
    } else {
        exists|levels: Seq<Single>|
            {
                &&& levels.len() == 50
                &&& forall|k: int|
                    0 <= k < 50 ==> level_of_block(rms, rest, k, #[trigger] levels[k])
                &&& #[trigger] at_the_dip(levels, cut)
            }
    }
}

/// `level` is what `rms` can give for the `k`th block of 1600 samples from 400000 on.
pub open spec fn level_of_block<F: Fn(&[Single]) -> Single>(
    rms: F,
    rest: Seq<Single>,
    k: int,
    level: Single,
) -> bool {
    exists|b: &[Single]|
        {
            &&& b@.len() == 1_600
            &&& forall|j: int| 0 <= j < 1_600 ==> #[trigger] b@[j] == rest[400_000 + 1_600 * k + j]
            &&& #[trigger] call_ensures(rms, (b,), level)
        }
}

proof fn lemma_cut_of<F: Fn(&[Single]) -> Single>(rms: F, rest: Seq<Single>, cut: int)
    requires
        window_cut(rms, rest, cut),
    ensures
        cut_of(rms, rest, cut),
{
    if rest.len() > 512_000 {
        let levels = choose|levels: Seq<Single>| #[trigger]
            band_levels(rms, rest, levels) && cut_at(levels, cut);
        assert forall|k: int| 0 <= k < 50 implies level_of_block(
            rms,
            rest,
            k,
            #[trigger] levels[k],
        ) by {
            assert(measured(rms, band_block(rest, k), levels[k]));
            let b = choose|b: &[Single]|
                b@ == band_block(rest, k) && #[trigger] call_ensures(rms, (b,), levels[k]);
            assert(b@.len() == 1_600);
        }
        lemma_at_the_dip(levels, cut);
    }
}

/// The windows of a clip tile it: the first starts at its first sample, each starts
/// where the one before it ends, the last ends with it, and each is cut from what is
/// left as [`cut_of`] says.
pub open spec fn tiles<F: Fn(&[Single]) -> Single>(
    rms: F,
    audio: Seq<Single>,
    bounds: Seq<int>,
) -> bool {
    &&& bounds.len() >= 1
    &&& bounds[0] == 0
    &&& bounds.last() == audio.len()
    &&& forall|i: int|
        0 <= i < bounds.len() - 1 ==> #[trigger] bounds[i] < bounds[i + 1] <= audio.len()
            && bounds[i + 1] - bounds[i] <= 512_000 && cut_of(
            rms,
            audio.skip(bounds[i]),
            bounds[i + 1] - bounds[i],
        )
}

/// The windows tile the clip: see [`tiles`].
pub proof fn law_windows_tile<F: Fn(&[Single]) -> Single>(
    rms: F,
    audio: Seq<Single>,
    bounds: Seq<int>,
)
    requires
        windows_of(rms, audio, bounds),
    ensures
        tiles(rms, audio, bounds),
{
    assert forall|i: int| 0 <= i < bounds.len() - 1 implies #[trigger] bounds[i] < bounds[i + 1]
        <= audio.len() && bounds[i + 1] - bounds[i] <= 512_000 && cut_of(
        rms,
        audio.skip(bounds[i]),
        bounds[i + 1] - bounds[i],
    ) by {
        law_windows(rms, audio, bounds, i);
        assert(window_step(rms, audio, bounds, i));
        lemma_cut_of(rms, audio.skip(bounds[i]), bounds[i + 1] - bounds[i]);
    }
}

/// The windows of a clip are never empty nor over 32 s, follow one another without
/// gap or overlap from the first sample to the last, and when there is more than
/// one, none is under 2 s. A clip up to 32 s is one window.
pub proof fn law_windows<F: Fn(&[Single]) -> Single>(
    rms: F,
    audio: Seq<Single>,
    bounds: Seq<int>,
    i: int,
)
    requires
        windows_of(rms, audio, bounds),
        0 <= i < bounds.len() - 1,
    ensures
        0 <= bounds[i] < bounds[i + 1] <= audio.len(),
        bounds[i + 1] - bounds[i] <= SINGLE_WINDOW_MAX_SAMPLES,
        bounds.len() > 2 ==> bounds[i + 1] - bounds[i] >= 2 * SAMPLE_RATE,
        audio.len() <= SINGLE_WINDOW_MAX_SAMPLES ==> bounds.len() == 2,
{
    assert(window_step(rms, audio, bounds, i));
    if bounds.len() > 2 {
        assert(window_step(rms, audio, bounds, 0));
        assert(window_step(rms, audio, bounds, 1));
    }
    let rest = audio.skip(bounds[i]);
    if rest.len() > SINGLE_WINDOW_MAX_SAMPLES {
        let levels = choose|levels: Seq<Single>| #[trigger]
            band_levels(rms, rest, levels) && cut_at(levels, bounds[i + 1] - bounds[i]);
        law_cut(levels, rest.len() as int, bounds[i + 1] - bounds[i]);
    } else if bounds.len() > 2 {
        if i > 0 {
            assert(window_step(rms, audio, bounds, i - 1));
            let before = audio.skip(bounds[i - 1]);
            if before.len() > SINGLE_WINDOW_MAX_SAMPLES {
                let levels = choose|levels: Seq<Single>| #[trigger]
                    band_levels(rms, before, levels) && cut_at(levels, bounds[i] - bounds[i - 1]);
                law_cut(levels, before.len() as int, bounds[i] - bounds[i - 1]);
            } else {
                assert(bounds[i] - bounds[i - 1] == before.len());
            }
        } else {
            assert(window_step(rms, audio, bounds, 1));
            assert(bounds[1] == audio.len());
        }
    }
}

/// Every sample of the clip is in exactly one window: put end to end, the windows
/// are the clip.
pub proof fn law_windows_cover<F: Fn(&[Single]) -> Single>(
    rms: F,
    audio: Seq<Single>,
    bounds: Seq<int>,
    n: int,
)
    requires
        windows_of(rms, audio, bounds),
        0 <= n < bounds.len(),
    ensures
        concatenated(audio, bounds, n) == audio.take(bounds[n]),
        concatenated(audio, bounds, bounds.len() - 1) == audio,
    decreases n,
{
    lemma_cover(rms, audio, bounds, n);
    lemma_cover(rms, audio, bounds, bounds.len() - 1);
    assert(audio.take(audio.len() as int) =~= audio);
}

/// The first `n` windows put end to end.
pub open spec fn concatenated(audio: Seq<Single>, bounds: Seq<int>, n: int) -> Seq<Single>
    decreases n,
{
    if n <= 0 {
        Seq::empty()
    } else {
        concatenated(audio, bounds, n - 1) + window(audio, bounds, n - 1)
    }
}

proof fn lemma_cover<F: Fn(&[Single]) -> Single>(
    rms: F,
    audio: Seq<Single>,
    bounds: Seq<int>,
    n: int,
)
    requires
        windows_of(rms, audio, bounds),
        0 <= n < bounds.len(),
    ensures
        concatenated(audio, bounds, n) == audio.take(bounds[n]),
    decreases n,
{
    if n > 0 {
        lemma_cover(rms, audio, bounds, n - 1);
        law_windows(rms, audio, bounds, n - 1);
        assert(audio.take(bounds[n - 1]) + window(audio, bounds, n - 1) =~= audio.take(bounds[n]));
    } else {
        assert(audio.take(0) =~= Seq::empty());
    }
}

/// The percentages at the starts of the windows are the shares of the samples before
/// them, rounded down.
pub proof fn law_marks_are_shares(bounds: Seq<int>, total: int)
    requires
        bounds.len() >= 1,
        0 < total,
    ensures
        window_marks(bounds, total).len() == bounds.len() - 1,
        forall|i: int|
            0 <= i < bounds.len() - 1 ==> 0 <= bounds[i] * 100 - #[trigger] window_marks(
                bounds,
                total,
            )[i] * total < total,
{
    assert forall|i: int| 0 <= i < bounds.len() - 1 implies 0 <= bounds[i] * 100
        - #[trigger] window_marks(bounds, total)[i] * total < total by {
        let n = bounds[i] * 100;
        let q = n / total;
        vstd::arithmetic::div_mod::lemma_fundamental_div_mod(n, total);
        vstd::arithmetic::div_mod::lemma_mod_bound(n, total);
        assert(q * total == total * q) by (nonlinear_arith);
    }
}

/// The progress inside a window lies between that at its start and that at its
/// end, grows with the share of the window that is done, and is 100 at the end of
/// the clip.
pub proof fn law_progress(start: int, len: int, pct: int, total: int)
    requires
        0 <= start,
        0 <= len,
        start + len <= total,
        0 < total,
        0 <= pct <= 100,
    ensures
        start * 100 / total <= window_progress(start, len, pct, total) <= (start + len) * 100
            / total <= 100,
        0 <= window_progress(start, len, pct, total),
        window_progress(start, len, 100, total) == (start + len) * 100 / total,
        forall|less: int|
            0 <= less <= pct ==> #[trigger] window_progress(start, len, less, total)
                <= window_progress(start, len, pct, total),
        start + len == total ==> window_progress(start, len, 100, total) == 100,
{
    assert(0 <= len * pct <= len * 100) by (nonlinear_arith)
        requires
            0 <= pct <= 100,
            0 <= len,
    ;
    assert(len * 100 == 100 * len) by (nonlinear_arith);
    vstd::arithmetic::div_mod::lemma_div_is_ordered(start * 100, start * 100 + len * pct, total);
    vstd::arithmetic::div_mod::lemma_div_is_ordered(
        start * 100 + len * pct,
        (start + len) * 100,
        total,
    );
    lemma_share(start, start + len, total);
    assert forall|less: int| 0 <= less <= pct implies #[trigger] window_progress(
        start,
        len,
        less,
        total,
    ) <= window_progress(start, len, pct, total) by {
        assert(len * less <= len * pct) by (nonlinear_arith)
            requires
                0 <= less <= pct,
                0 <= len,
        ;
        vstd::arithmetic::div_mod::lemma_div_is_ordered(
            start * 100 + len * less,
            start * 100 + len * pct,
            total,
        );
    }
}

} // verus!
