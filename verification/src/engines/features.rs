//! The SenseVoice front-end: framing for the filterbank, low-frame-rate stacking,
//! and normalization.
//!
//! What is computed on samples (the filterbank of one frame, the normalization of
//! one feature) comes from the caller as functions; which samples, frames and
//! statistics they are given is decided here.

use crate::single::Single;
use vstd::prelude::*;

verus! {

/// Frame length in samples (25 ms at 16 kHz).
pub const FRAME_LEN: usize = 400;

/// Frame shift in samples (10 ms at 16 kHz).
pub const FRAME_SHIFT: usize = 160;

/// Mel filterbank size before stacking.
pub const NUM_MEL: usize = 80;

// --- filterbank ---------------------------------------------------------------------

/// How many complete frames `len` samples hold.
pub open spec fn frame_count(len: int) -> int {
    if len < FRAME_LEN {
        0
    } else {
        1 + (len - FRAME_LEN) / (FRAME_SHIFT as int)
    }
}

/// The samples of frame `f`.
pub open spec fn frame_samples(samples: Seq<Single>, f: int) -> Seq<Single> {
    samples.subrange(f * FRAME_SHIFT, f * FRAME_SHIFT + FRAME_LEN)
}

/// The function `mel` can give `row` for a frame at a scale.
pub open spec fn filtered<M: Fn(&[Single], Single) -> Vec<Single>>(
    mel: M,
    frame: Seq<Single>,
    scale: Single,
    row: Seq<Single>,
) -> bool {
    exists|f: &[Single], r: Vec<Single>|
        f@ == frame && r@ == row && #[trigger] call_ensures(mel, (f, scale), r)
}

/// `rows` are the features of the first `frames` frames, one row after the other.
pub open spec fn fbanked<M: Fn(&[Single], Single) -> Vec<Single>>(
    mel: M,
    samples: Seq<Single>,
    scale: Single,
    frames: nat,
    rows: Seq<Single>,
) -> bool
    decreases frames,
{
    if frames == 0 {
        rows.len() == 0
    } else {
        exists|row: Seq<Single>|
            {
                let rest = rows.len() - row.len();
                &&& #[trigger] filtered(mel, frame_samples(samples, frames - 1), scale, row)
                &&& 0 <= rest
                &&& rows.skip(rest) == row
                &&& fbanked(mel, samples, scale, (frames - 1) as nat, rows.take(rest))
            }
    }
}

/// Every row that `mel` gives has one value per mel bin.
pub open spec fn mel_rows<M: Fn(&[Single], Single) -> Vec<Single>>(mel: M) -> bool {
    &&& forall|f: &[Single], scale: Single| #[trigger] call_requires(mel, (f, scale))
    &&& forall|f: &[Single], scale: Single, r: Vec<Single>| #[trigger]
        call_ensures(mel, (f, scale), r) ==> r@.len() == NUM_MEL
}

/// Compute the filterbank features of `samples`, with `mel` for one frame at
/// `scale`. Returns the features row-major as `frames * NUM_MEL` and the frame
/// count. Fewer than one frame yields no rows.
pub fn compute_fbank<M: Fn(&[Single], Single) -> Vec<Single>>(
    samples: &[Single],
    scale: Single,
    mel: &M,
) -> (r: (Vec<Single>, usize))
    requires
        mel_rows(*mel),
    ensures
        r.1 == frame_count(samples@.len() as int),
        fbanked(*mel, samples@, scale, r.1 as nat, r.0@),
        r.0@.len() == r.1 * NUM_MEL,
{
    let n: usize = samples.len();
    let mut out: Vec<Single> = Vec::new();
    if n < FRAME_LEN {
        return (out, 0);
    }
    let frames: usize = 1 + (n - FRAME_LEN) / FRAME_SHIFT;
    let mut f: usize = 0;
    while f < frames
        invariant
            n == samples@.len(),
            n >= FRAME_LEN,
            frames == 1 + (n - FRAME_LEN) / (FRAME_SHIFT as int),
            f <= frames,
            mel_rows(*mel),
            fbanked(*mel, samples@, scale, f as nat, out@),
            out@.len() == f * NUM_MEL,
        decreases frames - f,
    {
        let start: usize = f * FRAME_SHIFT;
        let window: &[Single] = &samples[start..start + FRAME_LEN];
        assert(window@ =~= frame_samples(samples@, f as int));
        let ghost before = out@;
        let mut row = mel(window, scale);
        let ghost given = row@;
        assert(filtered(*mel, frame_samples(samples@, f as int), scale, given));
        out.append(&mut row);
        assert(out@ =~= before + given);
        proof {
            let next: nat = (f + 1) as nat;
            assert((next - 1) as nat == f as nat);
            assert(filtered(*mel, frame_samples(samples@, next - 1), scale, given));
            assert(out@.skip(out@.len() - given.len()) =~= given);
            assert(out@.take(out@.len() - given.len()) =~= before);
            assert(fbanked(*mel, samples@, scale, next, out@));
        }
        f += 1;
    }
    (out, frames)
}

// --- low-frame-rate stacking ----------------------------------------------------------

/// How many stacked frames `frames` frames give with shift `n`: `frames / n`,
/// rounded up.
pub open spec fn stacked_count(frames: int, n: int) -> int {
    (frames + n - 1) / n
}

/// Which frame stands at place `j` of stacked frame `i`: the `j`th from `i * n`
/// on, once `(m - 1) / 2` copies of the first frame stand before it and copies of
/// the last one after it.
pub open spec fn stacked_source(i: int, j: int, frames: int, m: int, n: int) -> int {
    let at = i * n + j - (m - 1) / 2;
    if at < 0 {
        0
    } else if at >= frames {
        frames - 1
    } else {
        at
    }
}

/// Frame `f` of frames of `dim` values.
pub open spec fn frame_at<T>(feats: Seq<T>, dim: int, f: int) -> Seq<T> {
    feats.subrange(f * dim, f * dim + dim)
}

/// The first `places` places of the stacked frames, one after the other.
pub open spec fn stacked<T>(
    feats: Seq<T>,
    frames: int,
    dim: int,
    m: int,
    n: int,
    places: nat,
) -> Seq<T>
    decreases places,
{
    if places == 0 {
        Seq::empty()
    } else {
        let s = places - 1;
        stacked(feats, frames, dim, m, n, s as nat) + frame_at(
            feats,
            dim,
            stacked_source(s / m, s % m, frames, m, n),
        )
    }
}

/// Low-frame-rate stacking: stack `m` consecutive frames with shift `n`,
/// left-padding by `(m-1)/2` copies of the first frame and right-padding the tail
/// with the last frame. Input is `frames * dim`; output is `t_lfr * (dim*m)`, with
/// the count `t_lfr`.
pub fn apply_lfr<T: Copy>(feats: &[T], frames: usize, dim: usize, m: usize, n: usize) -> (r: (
    Vec<T>,
    usize,
))
    requires
        frames > 0 ==> {
            &&& m > 0
            &&& n > 0
            &&& frames * dim <= feats@.len()
            &&& frames + m <= usize::MAX
            &&& stacked_count(frames as int, n as int) * m <= usize::MAX
        },
    ensures
        r.1 == (if frames == 0 {
            0
        } else {
            stacked_count(frames as int, n as int)
        }),
        r.0@ == stacked(
            feats@,
            frames as int,
            dim as int,
            m as int,
            n as int,
            (r.1 * m) as nat,
        ),
{
    let mut out: Vec<T> = Vec::new();
    if frames == 0 {
        assert(0 * m == 0);
        return (out, 0);
    }
    proof {
        lemma_rounded_up(frames as int, n as int);
    }
    let t_lfr: usize = if frames % n == 0 {
        frames / n
    } else {
        frames / n + 1
    };
    let left_pad: usize = (m - 1) / 2;
    let len: usize = feats.len();
    let mut i: usize = 0;
    assert(0 * m == 0);
    while i < t_lfr
        invariant
            m > 0,
            n > 0,
            frames > 0,
            len == feats@.len(),
            frames * dim <= len,
            frames + m <= usize::MAX,
            t_lfr == stacked_count(frames as int, n as int),
            t_lfr * m <= usize::MAX,
            left_pad == (m - 1) / 2,
            i <= t_lfr,
            out@ == stacked(
                feats@,
                frames as int,
                dim as int,
                m as int,
                n as int,
                (i * m) as nat,
            ),
        decreases t_lfr - i,
    {
        proof {
            lemma_start_in_range(frames as int, n as int, i as int);
        }
        let start: usize = i * n;
        let mut j: usize = 0;
        while j < m
            invariant
                m > 0,
                n > 0,
                frames > 0,
                len == feats@.len(),
                frames * dim <= len,
                frames + m <= usize::MAX,
                left_pad == (m - 1) / 2,
                start == i * n,
                start < frames,
                j <= m,
                out@ == stacked(
                    feats@,
                    frames as int,
                    dim as int,
                    m as int,
                    n as int,
                    (i * m + j) as nat,
                ),
            decreases m - j,
        {
            let p: usize = start + j;
            let source: usize = if p < left_pad {
                0
            } else if p - left_pad >= frames {
                frames - 1
            } else {
                p - left_pad
            };
            assert(source == stacked_source(i as int, j as int, frames as int, m as int, n as int));
            proof {
                lemma_place(i as int, j as int, m as int);
                lemma_frame_in_range(source as int, frames as int, dim as int);
            }
            let from: usize = source * dim;
            let part: &[T] = &feats[from..from + dim];
            let ghost before = out@;
            push_all(&mut out, part);
            assert(part@ =~= frame_at(feats@, dim as int, source as int));
            assert(out@ == before + part@);
            j += 1;
        }
        assert(i * m + m == (i + 1) * m) by (nonlinear_arith);
        i += 1;
    }
    (out, t_lfr)
}

/// Appends a slice.
fn push_all<T: Copy>(out: &mut Vec<T>, part: &[T])
    ensures
        final(out)@ == old(out)@ + part@,
{
    let n: usize = part.len();
    let mut k: usize = 0;
    assert(out@ =~= old(out)@ + part@.take(0));
    while k < n
        invariant
            n == part@.len(),
            k <= n,
            out@ == old(out)@ + part@.take(k as int),
        decreases n - k,
    {
        out.push(part[k]);
        assert(out@ =~= old(out)@ + part@.take(k + 1));
        k += 1;
    }
    assert(part@.take(n as int) =~= part@);
}

proof fn lemma_rounded_up(frames: int, n: int)
    requires
        0 < frames,
        0 < n,
    ensures
        stacked_count(frames, n) == if frames % n == 0 {
            frames / n
        } else {
            frames / n + 1
        },
        0 < stacked_count(frames, n) <= frames,
{
    vstd::arithmetic::div_mod::lemma_fundamental_div_mod(frames, n);
    vstd::arithmetic::div_mod::lemma_mod_bound(frames, n);
    let q = frames / n;
    let r = frames % n;
    if r == 0 {
        assert(frames + n - 1 == q * n + (n - 1)) by (nonlinear_arith)
            requires
                frames == n * q + r,
                r == 0,
        ;
        vstd::arithmetic::div_mod::lemma_fundamental_div_mod_converse(
            frames + n - 1,
            n,
            q,
            n - 1,
        );
        assert(q > 0) by (nonlinear_arith)
            requires
                0 < frames,
                frames == n * q + r,
                r == 0,
                0 < n,
        ;
        assert(q <= frames) by (nonlinear_arith)
            requires
                frames == n * q + r,
                r == 0,
                0 < n,
                q > 0,
        ;
    } else {
        assert(frames + n - 1 == (q + 1) * n + (r - 1)) by (nonlinear_arith)
            requires
                frames == n * q + r,
        ;
        vstd::arithmetic::div_mod::lemma_fundamental_div_mod_converse(
            frames + n - 1,
            n,
            q + 1,
            r - 1,
        );
        assert(0 <= q) by {
            vstd::arithmetic::div_mod::lemma_div_pos_is_pos(frames, n);
        }
        assert(q + 1 <= frames) by (nonlinear_arith)
            requires
                frames == n * q + r,
                1 <= r < n,
                0 <= q,
        ;
    }
}

/// There is at least one stacked frame, and no more of them than frames.
pub proof fn law_stacked_count(frames: int, n: int)
    requires
        0 < frames,
        0 < n,
    ensures
        0 < stacked_count(frames, n) <= frames,
        (stacked_count(frames, n) - 1) * n < frames <= stacked_count(frames, n) * n,
{
    lemma_rounded_up(frames, n);
    vstd::arithmetic::div_mod::lemma_fundamental_div_mod(frames, n);
    vstd::arithmetic::div_mod::lemma_mod_bound(frames, n);
    let q = frames / n;
    let r = frames % n;
    assert((q - 1) * n + n == q * n && (q + 1) * n == q * n + n && q * n == n * q)
        by (nonlinear_arith);
}

proof fn lemma_place(i: int, j: int, m: int)
    requires
        0 <= i,
        0 <= j < m,
    ensures
        (i * m + j) / m == i,
        (i * m + j) % m == j,
        i * m + j >= 0,
{
    vstd::arithmetic::div_mod::lemma_fundamental_div_mod_converse(i * m + j, m, i, j);
    assert(0 <= i * m) by (nonlinear_arith)
        requires
            0 <= i,
            0 < m,
    ;
}

proof fn lemma_frame_in_range(f: int, frames: int, dim: int)
    requires
        0 <= f < frames,
        0 <= dim,
    ensures
        0 <= f * dim,
        f * dim + dim <= frames * dim,
{
    assert(0 <= f * dim && f * dim + dim <= frames * dim) by (nonlinear_arith)
        requires
            0 <= f,
            f + 1 <= frames,
            0 <= dim,
    ;
}

proof fn lemma_start_in_range(frames: int, n: int, i: int)
    requires
        0 < n,
        0 < frames,
        0 <= i < stacked_count(frames, n),
    ensures
        0 <= i * n < frames,
{
    let total = frames + n - 1;
    vstd::arithmetic::div_mod::lemma_fundamental_div_mod(total, n);
    vstd::arithmetic::div_mod::lemma_mod_bound(total, n);
    let q = total / n;
    assert(i * n < frames) by (nonlinear_arith)
        requires
            i + 1 <= q,
            total == n * q + total % n,
            total % n >= 0,
            total == frames + n - 1,
            n > 0,
    ;
    assert(0 <= i * n) by (nonlinear_arith)
        requires
            0 <= i,
            0 < n,
    ;
}

/// The stacked frames are `t_lfr` rows of `m` frames of `dim` values.
pub proof fn law_stacked_len<T>(
    feats: Seq<T>,
    frames: int,
    dim: int,
    m: int,
    n: int,
    places: nat,
)
    requires
        frames > 0,
        0 <= dim,
        m > 0,
        n > 0,
        frames * dim <= feats.len(),
    ensures
        stacked(feats, frames, dim, m, n, places).len() == places * dim,
    decreases places,
{
    if places > 0 {
        let s = places - 1;
        law_stacked_len(feats, frames, dim, m, n, s as nat);
        lemma_frame_in_range(stacked_source(s / m, s % m, frames, m, n), frames, dim);
        assert(s * dim + dim == places * dim) by (nonlinear_arith)
            requires
                s == places - 1,
        ;
    } else {
        assert(0 * dim == 0);
    }
}

/// Value `d` of place `s` of the stacked frames is value `d` of the frame that
/// stands there.
pub proof fn law_stacked_value<T>(
    feats: Seq<T>,
    frames: int,
    dim: int,
    m: int,
    n: int,
    places: nat,
    s: int,
    d: int,
)
    requires
        frames > 0,
        m > 0,
        n > 0,
        frames * dim <= feats.len(),
        0 <= s < places,
        0 <= d < dim,
    ensures
        0 <= s * dim + d < stacked(feats, frames, dim, m, n, places).len(),
        stacked(feats, frames, dim, m, n, places)[s * dim + d] == feats[stacked_source(
            s / m,
            s % m,
            frames,
            m,
            n,
        ) * dim + d],
    decreases places,
{
    let l = places - 1;
    law_stacked_len(feats, frames, dim, m, n, l as nat);
    law_stacked_len(feats, frames, dim, m, n, places);
    lemma_frame_in_range(stacked_source(l / m, l % m, frames, m, n), frames, dim);
    assert(l * dim + dim == places * dim) by (nonlinear_arith)
        requires
            l == places - 1,
    ;
    assert(0 <= s * dim) by (nonlinear_arith)
        requires
            0 <= s,
            0 < dim,
    ;
    if s < l {
        law_stacked_value(feats, frames, dim, m, n, l as nat, s, d);
    } else {
        assert(s == l);
    }
}

/// A stacked frame has every input frame of its window in its place: with a window
/// of one and a shift of one, stacking changes nothing.
pub proof fn law_stacking_by_one<T>(feats: Seq<T>, frames: int, dim: int, places: nat)
    requires
        frames > 0,
        0 <= dim,
        frames * dim == feats.len(),
        places <= frames,
    ensures
        stacked(feats, frames, dim, 1, 1, places) == feats.take(places * dim),
    decreases places,
{
    if places > 0 {
        let s = places - 1;
        law_stacking_by_one(feats, frames, dim, s as nat);
        lemma_frame_in_range(s, frames, dim);
        assert(s * dim + dim == places * dim) by (nonlinear_arith)
            requires
                s == places - 1,
        ;
        assert(stacked_source(s / 1, s % 1, frames, 1, 1) == s);
        assert(feats.take(s * dim) + frame_at(feats, dim, s) =~= feats.take(places * dim));
    } else {
        assert(0 * dim == 0);
        assert(feats.take(0) =~= Seq::empty());
    }
}

// --- normalization --------------------------------------------------------------------

/// `out` is `feats` with its first `count` values normalized, each with the
/// statistics of its column.
pub open spec fn normalized<N: Fn(Single, Single, Single) -> Single>(
    norm: N,
    feats: Seq<Single>,
    count: int,
    dim: int,
    neg_mean: Seq<Single>,
    inv_stddev: Seq<Single>,
    out: Seq<Single>,
) -> bool {
    &&& out.len() == feats.len()
    &&& forall|k: int|
        0 <= k < count ==> call_ensures(
            norm,
            (feats[k], neg_mean[k % dim], inv_stddev[k % dim]),
            #[trigger] out[k],
        )
    &&& forall|k: int| count <= k < feats.len() ==> #[trigger] out[k] == feats[k]
}

/// Normalize `t` rows of `dim` values in place, with `norm` for one value:
/// `norm(x, neg_mean, inv_stddev)` is `(x + neg_mean) * inv_stddev`.
pub fn apply_cmvn<N: Fn(Single, Single, Single) -> Single>(
    feats: &mut Vec<Single>,
    t: usize,
    dim: usize,
    neg_mean: &[Single],
    inv_stddev: &[Single],
    norm: &N,
)
    requires
        t * dim <= old(feats)@.len(),
        dim <= neg_mean@.len(),
        dim <= inv_stddev@.len(),
        forall|x: Single, a: Single, b: Single| #[trigger] call_requires(*norm, (x, a, b)),
    ensures
        normalized(
            *norm,
            old(feats)@,
            t * dim,
            dim as int,
            neg_mean@,
            inv_stddev@,
            final(feats)@,
        ),
{
    let ghost given = feats@;
    let n: usize = feats.len();
    let count: usize = t * dim;
    let mut k: usize = 0;
    let mut d: usize = 0;
    assert(0int % (dim as int) == 0 || dim == 0) by {
        if dim > 0 {
            vstd::arithmetic::div_mod::lemma_small_mod(0, dim as nat);
        }
    }
    assert(dim == 0 ==> count == 0) by (nonlinear_arith)
        requires
            count == t * dim,
    ;
    while k < count
        invariant
            n == feats@.len() == given.len(),
            count <= n,
            count == t * dim,
            k <= count,
            dim == 0 ==> count == 0,
            dim > 0 ==> d == k as int % dim as int && d < dim,
            dim <= neg_mean@.len(),
            dim <= inv_stddev@.len(),
            forall|x: Single, a: Single, b: Single| #[trigger] call_requires(*norm, (x, a, b)),
            normalized(*norm, given, k as int, dim as int, neg_mean@, inv_stddev@, feats@),
        decreases count - k,
    {
        let ghost before = feats@;
        let v: Single = norm(feats[k], neg_mean[d], inv_stddev[d]);
        feats.set(k, v);
        proof {
            lemma_next_column(k as int, dim as int);
            assert forall|q: int| 0 <= q < k + 1 implies call_ensures(
                *norm,
                (given[q], neg_mean@[q % (dim as int)], inv_stddev@[q % (dim as int)]),
                #[trigger] feats@[q],
            ) by {
                if q < k {
                    assert(feats@[q] == before[q]);
                }
            }
        }
        k += 1;
        d = if d + 1 < dim {
            d + 1
        } else {
            0
        };
    }
}

proof fn lemma_next_column(k: int, dim: int)
    requires
        0 <= k,
        0 < dim,
    ensures
        (k + 1) % dim == if k % dim + 1 < dim {
            k % dim + 1
        } else {
            0
        },
        0 <= k % dim < dim,
{
    vstd::arithmetic::div_mod::lemma_fundamental_div_mod(k, dim);
    vstd::arithmetic::div_mod::lemma_mod_bound(k, dim);
    let q = k / dim;
    let r = k % dim;
    if r + 1 < dim {
        assert(k + 1 == q * dim + (r + 1)) by (nonlinear_arith)
            requires
                k == dim * q + r,
        ;
        vstd::arithmetic::div_mod::lemma_fundamental_div_mod_converse(k + 1, dim, q, r + 1);
    } else {
        assert(k + 1 == (q + 1) * dim + 0) by (nonlinear_arith)
            requires
                k == dim * q + r,
                r + 1 == dim,
        ;
        vstd::arithmetic::div_mod::lemma_fundamental_div_mod_converse(k + 1, dim, q + 1, 0);
    }
}

// --- laws -----------------------------------------------------------------------------

/// `row` is what `mel` can give for the 400 samples from `160 * f` on.
pub open spec fn mel_of<M: Fn(&[Single], Single) -> Vec<Single>>(
    mel: M,
    samples: Seq<Single>,
    scale: Single,
    f: int,
    row: Seq<Single>,
) -> bool {
    exists|s: &[Single], r: Vec<Single>|
        {
            &&& s@.len() == 400
            &&& forall|j: int| 0 <= j < 400 ==> #[trigger] s@[j] == samples[160 * f + j]
            &&& #[trigger] call_ensures(mel, (s, scale), r)
            &&& r@ == row
        }
}

/// `rows` are the mel rows of all complete frames of 400 samples, one every 160, in
/// order and end to end.
pub open spec fn mel_of_all<M: Fn(&[Single], Single) -> Vec<Single>>(
    mel: M,
    samples: Seq<Single>,
    scale: Single,
    frames: int,
    rows: Seq<Single>,
) -> bool {
    &&& samples.len() < 400 ==> frames == 0
    &&& samples.len() >= 400 ==> 160 * (frames - 1) + 400 <= samples.len() < 160 * frames + 400
    &&& rows.len() == frames * 80
    &&& forall|f: int|
        0 <= f < frames ==> #[trigger] mel_of(
            mel,
            samples,
            scale,
            f,
            rows.subrange(f * 80, f * 80 + 80),
        )
}

/// A call of [`compute_fbank`] filters every frame: see [`mel_of_all`].
pub proof fn law_every_frame_is_filtered<M: Fn(&[Single], Single) -> Vec<Single>>(
    samples: &[Single],
    scale: Single,
    mel: &M,
    rows: Vec<Single>,
    frames: usize,
)
    requires
        mel_rows(*mel),
        call_ensures(compute_fbank::<M>, (samples, scale, mel), (rows, frames)),
    ensures
        mel_of_all(*mel, samples@, scale, frames as int, rows@),
{
    lemma_mel_of_all(*mel, samples@, scale, rows@);
}

pub(crate) proof fn lemma_mel_of_all<M: Fn(&[Single], Single) -> Vec<Single>>(
    mel: M,
    samples: Seq<Single>,
    scale: Single,
    rows: Seq<Single>,
)
    requires
        mel_rows(mel),
        fbanked(mel, samples, scale, frame_count(samples.len() as int) as nat, rows),
    ensures
        mel_of_all(mel, samples, scale, frame_count(samples.len() as int), rows),
{
    let frames = frame_count(samples.len() as int);
    lemma_mel_rows(mel, samples, scale, frames as nat, rows);
}

proof fn lemma_mel_rows<M: Fn(&[Single], Single) -> Vec<Single>>(
    mel: M,
    samples: Seq<Single>,
    scale: Single,
    frames: nat,
    rows: Seq<Single>,
)
    requires
        mel_rows(mel),
        frames <= frame_count(samples.len() as int),
        fbanked(mel, samples, scale, frames, rows),
    ensures
        rows.len() == frames * 80,
        forall|f: int|
            0 <= f < frames ==> #[trigger] mel_of(
                mel,
                samples,
                scale,
                f,
                rows.subrange(f * 80, f * 80 + 80),
            ),
    decreases frames,
{
    if frames > 0 {
        let row = choose|row: Seq<Single>|
            {
                let rest = rows.len() - row.len();
                &&& #[trigger] filtered(mel, frame_samples(samples, frames - 1), scale, row)
                &&& 0 <= rest
                &&& rows.skip(rest) == row
                &&& fbanked(mel, samples, scale, (frames - 1) as nat, rows.take(rest))
            };
        let rest = rows.len() - row.len();
        lemma_mel_rows(mel, samples, scale, (frames - 1) as nat, rows.take(rest));
        let (s, r) = choose|s: &[Single], r: Vec<Single>|
            s@ == frame_samples(samples, frames - 1) && r@ == row && #[trigger] call_ensures(
                mel,
                (s, scale),
                r,
            );
        assert(row.len() == 80);
        assert forall|f: int| 0 <= f < frames implies #[trigger] mel_of(
            mel,
            samples,
            scale,
            f,
            rows.subrange(f * 80, f * 80 + 80),
        ) by {
            if f < frames - 1 {
                assert(rows.take(rest).subrange(f * 80, f * 80 + 80) =~= rows.subrange(
                    f * 80,
                    f * 80 + 80,
                ));
                assert(mel_of(
                    mel,
                    samples,
                    scale,
                    f,
                    rows.take(rest).subrange(f * 80, f * 80 + 80),
                ));
            } else {
                assert(rows.subrange(f * 80, f * 80 + 80) =~= row);
                assert(call_ensures(mel, (s, scale), r));
            }
        }
    }
}

/// `out` is `feats` stacked: row `i` is the `m` frames from `i * n` on, shifted left by
/// `(m - 1) / 2`, the first frame standing for those before it and the last for those
/// after it, and the rows start at every `n`th frame.
pub open spec fn rows_of_frames<T>(
    feats: Seq<T>,
    frames: int,
    dim: int,
    m: int,
    n: int,
    out: Seq<T>,
    rows: int,
) -> bool {
    &&& (rows - 1) * n < frames <= rows * n
    &&& out.len() == rows * m * dim
    &&& forall|i: int, j: int, d: int|
        0 <= i < rows && 0 <= j < m && 0 <= d < dim ==> #[trigger] out[(i * m + j) * dim + d]
            == feats[nearest(i * n + j - (m - 1) / 2, frames) * dim + d]
}

/// The frame `f`, or the nearest one there is.
pub open spec fn nearest(f: int, frames: int) -> int {
    if f < 0 {
        0
    } else if f < frames {
        f
    } else {
        frames - 1
    }
}

/// A call of [`apply_lfr`] stacks every frame: see [`rows_of_frames`].
pub proof fn law_every_frame_is_stacked<T: Copy>(
    feats: &[T],
    frames: usize,
    dim: usize,
    m: usize,
    n: usize,
    out: Vec<T>,
    rows: usize,
)
    requires
        frames > 0,
        m > 0,
        n > 0,
        frames * dim <= feats@.len(),
        call_ensures(apply_lfr::<T>, (feats, frames, dim, m, n), (out, rows)),
    ensures
        rows_of_frames(
            feats@,
            frames as int,
            dim as int,
            m as int,
            n as int,
            out@,
            rows as int,
        ),
{
    lemma_rows_of_frames(feats@, frames as int, dim as int, m as int, n as int);
}

pub(crate) proof fn lemma_rows_of_frames<T>(
    feats: Seq<T>,
    frames: int,
    dim: int,
    m: int,
    n: int,
)
    requires
        frames > 0,
        dim >= 0,
        m > 0,
        n > 0,
        frames * dim <= feats.len(),
    ensures
        rows_of_frames(
            feats,
            frames,
            dim,
            m,
            n,
            stacked(feats, frames, dim, m, n, (stacked_count(frames, n) * m) as nat),
            stacked_count(frames, n),
        ),
{
    let rows = stacked_count(frames, n);
    law_stacked_count(frames, n);
    assert(0 <= rows * m) by (nonlinear_arith)
        requires
            0 < rows,
            0 < m,
    ;
    let out = stacked(feats, frames, dim, m, n, (rows * m) as nat);
    law_stacked_len(feats, frames, dim, m, n, (rows * m) as nat);
    assert forall|i: int, j: int, d: int|
        0 <= i < rows && 0 <= j < m && 0 <= d < dim implies #[trigger] out[(i * m + j) * dim + d]
        == feats[nearest(i * n + j - (m - 1) / 2, frames) * dim + d] by {
        lemma_place(i, j, m);
        assert(i * m + j < rows * m) by (nonlinear_arith)
            requires
                i + 1 <= rows,
                j < m,
                0 < m,
        ;
        law_stacked_value(feats, frames, dim, m, n, (rows * m) as nat, i * m + j, d);
    }
}

/// Normalizing treats every value of a column alike: the value at row `r` and column `c`
/// is what `norm` gives for the value there before and the statistics of column `c`.
pub proof fn law_columns_are_normalized<N: Fn(Single, Single, Single) -> Single>(
    norm: N,
    feats: Seq<Single>,
    rows: int,
    dim: int,
    neg_mean: Seq<Single>,
    inv_stddev: Seq<Single>,
    out: Seq<Single>,
    r: int,
    c: int,
)
    requires
        normalized(norm, feats, rows * dim, dim, neg_mean, inv_stddev, out),
        0 <= r < rows,
        0 <= c < dim,
    ensures
        out.len() == feats.len(),
        call_ensures(norm, (feats[r * dim + c], neg_mean[c], inv_stddev[c]), out[r * dim + c]),
{
    lemma_place(r, c, dim);
    assert(r * dim + c < rows * dim) by (nonlinear_arith)
        requires
            r + 1 <= rows,
            c < dim,
            0 < dim,
    ;
}

} // verus!
