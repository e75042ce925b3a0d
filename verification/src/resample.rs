//! Optional audio conversion helper.
//!
//! Every backend consumes the same contract: **mono, 16 kHz** samples in
//! `[-1.0, 1.0]` (see [`crate::SAMPLE_RATE`]). Capture hardware and decoded media
//! rarely match it: microphones deliver 44.1/48 kHz, files come stereo. This
//! module bridges the gap with **channel averaging + linear interpolation**.
//!
//! Which samples are averaged, which two are interpolated and at what fraction is
//! decided here in exact integer arithmetic; the two functions that compute on
//! samples, `mean` and `blend`, come from the caller.
//!
//! It is a *helper*, not part of the [`crate::AsrEngine`] contract: the engine
//! still refuses to guess and never resamples on its own. Call this at the
//! capture/decode stage, then hand the result to `transcribe`.

use crate::single::Single;
use crate::types::SAMPLE_RATE;
use vstd::prelude::*;

verus! {

/// The `k`th frame of `channels` interleaved samples.
pub open spec fn frame(input: Seq<Single>, channels: int, k: int) -> Seq<Single> {
    input.subrange(k * channels, k * channels + channels)
}

/// The function `mean` can give `out` as the average of `samples`.
pub open spec fn averaged<M: Fn(&[Single]) -> Single>(
    mean: M,
    samples: Seq<Single>,
    out: Single,
) -> bool {
    exists|s: &[Single]| s@ == samples && #[trigger] call_ensures(mean, (s,), out)
}

/// `mono` is the interleaved `input` with each complete frame averaged; a mono
/// input is itself.
pub open spec fn downmixed<M: Fn(&[Single]) -> Single>(
    mean: M,
    input: Seq<Single>,
    channels: int,
    mono: Seq<Single>,
) -> bool {
    if channels == 1 {
        mono == input
    } else {
        &&& mono.len() == input.len() as int / channels
        &&& forall|k: int|
            0 <= k < mono.len() ==> averaged(mean, frame(input, channels, k), #[trigger] mono[k])
    }
}

/// How many samples `len` samples become when their rate changes.
pub open spec fn resampled_len(len: int, from_rate: int, to_rate: int) -> int {
    len * to_rate / from_rate
}

/// The input sample at or just before the place of output sample `i`.
pub open spec fn left_tap(i: int, from_rate: int, to_rate: int) -> int {
    i * from_rate / to_rate
}

/// How far past its left tap output sample `i` lies, in parts of `to_rate`.
pub open spec fn fraction(i: int, from_rate: int, to_rate: int) -> int {
    i * from_rate % to_rate
}

/// The neighbour after the left tap, or the tap itself at the end of the input.
pub open spec fn right_tap(mono: Seq<Single>, left: int) -> Single {
    if left + 1 < mono.len() {
        mono[left + 1]
    } else {
        mono[left]
    }
}

/// `out` is `mono` linearly resampled: the same samples when the rates agree, else
/// each output sample blended from its two neighbouring input samples.
pub open spec fn resampled<B: Fn(Single, Single, u32, u32) -> Single>(
    blend: B,
    mono: Seq<Single>,
    from_rate: u32,
    to_rate: u32,
    out: Seq<Single>,
) -> bool {
    if from_rate == to_rate {
        out == mono
    } else {
        &&& out.len() == resampled_len(mono.len() as int, from_rate as int, to_rate as int)
        &&& forall|i: int|
            0 <= i < out.len() ==> call_ensures(
                blend,
                (
                    mono[left_tap(i, from_rate as int, to_rate as int)],
                    right_tap(mono, left_tap(i, from_rate as int, to_rate as int)),
                    fraction(i, from_rate as int, to_rate as int) as u32,
                    to_rate,
                ),
                #[trigger] out[i],
            )
    }
}

/// The places of the taps of output sample `i` lie inside the input.
proof fn lemma_taps(len: int, i: int, from_rate: int, to_rate: int)
    requires
        0 <= i < resampled_len(len, from_rate, to_rate),
        0 < from_rate,
        0 < to_rate,
        0 <= len,
    ensures
        0 <= left_tap(i, from_rate, to_rate) < len,
        0 <= fraction(i, from_rate, to_rate) < to_rate,
        left_tap(i, from_rate, to_rate) * to_rate + fraction(i, from_rate, to_rate) == i
            * from_rate,
{
    let total = len * to_rate;
    vstd::arithmetic::div_mod::lemma_fundamental_div_mod(total, from_rate);
    vstd::arithmetic::div_mod::lemma_mod_bound(total, from_rate);
    let q = total / from_rate;
    assert(i * from_rate < total) by (nonlinear_arith)
        requires
            i < q,
            total == from_rate * q + total % from_rate,
            total % from_rate >= 0,
            from_rate > 0,
    ;
    assert(0 <= i * from_rate) by (nonlinear_arith)
        requires
            0 <= i,
            0 < from_rate,
    ;
    let place = i * from_rate;
    vstd::arithmetic::div_mod::lemma_fundamental_div_mod(place, to_rate);
    vstd::arithmetic::div_mod::lemma_mod_bound(place, to_rate);
    let left = place / to_rate;
    assert(left < len) by (nonlinear_arith)
        requires
            place < len * to_rate,
            place == to_rate * left + place % to_rate,
            place % to_rate >= 0,
            to_rate > 0,
    ;
    assert(0 <= left) by {
        vstd::arithmetic::div_mod::lemma_div_pos_is_pos(place, to_rate);
    }
    assert(left * to_rate == to_rate * left) by (nonlinear_arith);
}

/// Copies samples.
fn copied(samples: &[Single]) -> (r: Vec<Single>)
    ensures
        r@ == samples@,
{
    let mut out: Vec<Single> = Vec::new();
    out.extend_from_slice(samples);
    assert(out@ =~= samples@);
    out
}

/// Convert interleaved `channels`-channel PCM sampled at `from_rate` Hz into the
/// engine's **mono 16 kHz** buffer.
///
/// `input` is interleaved by frame (`[l, r, l, r, …]` for stereo). Channels are
/// averaged to mono, then linearly resampled to [`crate::SAMPLE_RATE`]. When
/// `from_rate` already equals the target and the input is mono, the samples are
/// returned unchanged (a plain copy).
///
/// Returns an empty vector for degenerate input (`channels == 0`, `from_rate == 0`,
/// or empty `input`) rather than panicking.
///
/// The output is **not** range-sanitized here; the engines clamp on entry. This
/// keeps the helper a pure format conversion.
pub fn to_engine_audio<
    M: Fn(&[Single]) -> Single,
    B: Fn(Single, Single, u32, u32) -> Single,
>(input: &[Single], from_rate: u32, channels: u16, mean: &M, blend: &B) -> (r: Vec<Single>)
    requires
        forall|s: &[Single]| #[trigger] call_requires(*mean, (s,)),
        forall|a: Single, b: Single, n: u32, d: u32|
            n < d ==> #[trigger] call_requires(*blend, (a, b, n, d)),
        from_rate > 0 ==> resampled_len(input@.len() as int, from_rate as int, SAMPLE_RATE as int)
            <= usize::MAX,
    ensures
        input@.len() == 0 || channels == 0 || from_rate == 0 ==> r@.len() == 0,
        input@.len() > 0 && channels > 0 && from_rate > 0 ==> exists|mono: Seq<Single>| #[trigger]
            downmixed(*mean, input@, channels as int, mono) && resampled(
                *blend,
                mono,
                from_rate,
                SAMPLE_RATE,
                r@,
            ),
        channels == 1 && from_rate == SAMPLE_RATE ==> r@ == input@,
{
    if input.len() == 0 || channels == 0 || from_rate == 0 {
        let none: Vec<Single> = Vec::new();
        assert(none@ =~= input@ || input@.len() > 0);
        return none;
    }
    let mono = downmix_to_mono(input, channels, mean);
    proof {
        lemma_shorter(input@.len() as int, mono@.len() as int, from_rate as int);
    }
    let out = resample_linear(mono.as_slice(), from_rate, SAMPLE_RATE, blend);
    out
}

proof fn lemma_shorter(len: int, less: int, from_rate: int)
    requires
        0 <= less <= len,
        0 < from_rate,
    ensures
        resampled_len(less, from_rate, SAMPLE_RATE as int) <= resampled_len(
            len,
            from_rate,
            SAMPLE_RATE as int,
        ),
{
    vstd::arithmetic::div_mod::lemma_div_is_ordered(
        less * SAMPLE_RATE,
        len * SAMPLE_RATE,
        from_rate,
    );
}

/// Average interleaved channels into a mono buffer, with `mean` for one frame. A
/// mono input is returned as a direct copy. A trailing partial frame (input length
/// not a multiple of `channels`) is dropped: it cannot form a complete frame.
pub fn downmix_to_mono<M: Fn(&[Single]) -> Single>(
    input: &[Single],
    channels: u16,
    mean: &M,
) -> (r: Vec<Single>)
    requires
        channels > 0,
        forall|s: &[Single]| #[trigger] call_requires(*mean, (s,)),
    ensures
        downmixed(*mean, input@, channels as int, r@),
        r@.len() <= input@.len(),
{
    if channels == 1 {
        return copied(input);
    }
    let width: usize = channels as usize;
    let n: usize = input.len();
    let frames: usize = n / width;
    proof {
        vstd::arithmetic::div_mod::lemma_fundamental_div_mod(n as int, width as int);
        vstd::arithmetic::div_mod::lemma_mod_bound(n as int, width as int);
        assert(frames <= n) by (nonlinear_arith)
            requires
                n == width * frames + n as int % width as int,
                n as int % width as int >= 0,
                width >= 1,
        ;
    }
    let mut out: Vec<Single> = Vec::new();
    let mut k: usize = 0;
    while k < frames
        invariant
            n == input@.len(),
            width == channels,
            width >= 1,
            frames == n / width,
            n == width * frames + n as int % width as int,
            n as int % width as int >= 0,
            k <= frames,
            out@.len() == k,
            forall|s: &[Single]| #[trigger] call_requires(*mean, (s,)),
            forall|j: int|
                0 <= j < k ==> averaged(*mean, frame(input@, width as int, j), #[trigger] out@[j]),
        decreases frames - k,
    {
        assert(k * width + width <= n) by (nonlinear_arith)
            requires
                k + 1 <= frames,
                n == width * frames + n as int % width as int,
                n as int % width as int >= 0,
        ;
        let start: usize = k * width;
        let samples: &[Single] = &input[start..start + width];
        assert(samples@ =~= frame(input@, width as int, k as int));
        let m: Single = mean(samples);
        out.push(m);
        k += 1;
    }
    out
}

/// Linearly resample a mono buffer from `from_rate` to `to_rate`.
///
/// Returns a direct copy when the rates match. Otherwise each output sample is
/// blended from its two neighbouring input samples: `blend(a, b, n, d)` is `n/d`
/// of the way from `a` to `b`. The final sample holds the last input value.
pub fn resample_linear<B: Fn(Single, Single, u32, u32) -> Single>(
    mono: &[Single],
    from_rate: u32,
    to_rate: u32,
    blend: &B,
) -> (r: Vec<Single>)
    requires
        from_rate > 0,
        to_rate > 0,
        resampled_len(mono@.len() as int, from_rate as int, to_rate as int) <= usize::MAX,
        forall|a: Single, b: Single, n: u32, d: u32|
            n < d ==> #[trigger] call_requires(*blend, (a, b, n, d)),
    ensures
        resampled(*blend, mono@, from_rate, to_rate, r@),
{
    if from_rate == to_rate {
        return copied(mono);
    }
    let n: usize = mono.len();
    assert(n as u128 * to_rate as u128 <= 0xffff_ffff_ffff_ffff * 0xffff_ffff) by (nonlinear_arith)
        requires
            n <= 0xffff_ffff_ffff_ffff,
            to_rate <= 0xffff_ffff,
    ;
    let out_len: usize = (n as u128 * to_rate as u128 / from_rate as u128) as usize;
    let mut out: Vec<Single> = Vec::new();
    let mut i: usize = 0;
    while i < out_len
        invariant
            n == mono@.len(),
            from_rate > 0,
            to_rate > 0,
            out_len == resampled_len(n as int, from_rate as int, to_rate as int),
            i <= out_len,
            out@.len() == i,
            forall|a: Single, b: Single, num: u32, d: u32|
                num < d ==> #[trigger] call_requires(*blend, (a, b, num, d)),
            forall|j: int|
                0 <= j < i ==> call_ensures(
                    *blend,
                    (
                        mono@[left_tap(j, from_rate as int, to_rate as int)],
                        right_tap(mono@, left_tap(j, from_rate as int, to_rate as int)),
                        fraction(j, from_rate as int, to_rate as int) as u32,
                        to_rate,
                    ),
                    #[trigger] out@[j],
                ),
        decreases out_len - i,
    {
        proof {
            lemma_taps(n as int, i as int, from_rate as int, to_rate as int);
        }
        assert(i as u128 * from_rate as u128 <= 0xffff_ffff_ffff_ffff * 0xffff_ffff)
            by (nonlinear_arith)
            requires
                i <= 0xffff_ffff_ffff_ffff,
                from_rate <= 0xffff_ffff,
        ;
        let place: u128 = i as u128 * from_rate as u128;
        let left: usize = (place / to_rate as u128) as usize;
        let part: u32 = (place % to_rate as u128) as u32;
        assert(left == left_tap(i as int, from_rate as int, to_rate as int));
        assert(part == fraction(i as int, from_rate as int, to_rate as int));
        let a: Single = mono[left];
        let b: Single = if left + 1 < n {
            mono[left + 1]
        } else {
            a
        };
        let s: Single = blend(a, b, part, to_rate);
        out.push(s);
        i += 1;
    }
    out
}

// --- laws -------------------------------------------------------------------------

/// `out` holds as many samples as fit in the time of `mono`, and each, at its own
/// place in time, is blended from the sample at or just before that place and the one
/// after it, in this order, by how far it lies past the first.
pub open spec fn at_places<B: Fn(Single, Single, u32, u32) -> Single>(
    blend: B,
    mono: Seq<Single>,
    from_rate: u32,
    to_rate: u32,
    out: Seq<Single>,
) -> bool {
    &&& out.len() * from_rate <= mono.len() * to_rate < (out.len() + 1) * from_rate
    &&& from_rate == to_rate ==> out == mono
    &&& from_rate != to_rate ==> forall|i: int, left: int, past: int|
        {
            &&& 0 <= i < out.len()
            &&& #[trigger] place(left, past, to_rate as int) == i * from_rate
            &&& 0 <= past < to_rate
        } ==> call_ensures(
            blend,
            (
                mono[left],
                if left + 1 < mono.len() {
                    mono[left + 1]
                } else {
                    mono[left]
                },
                past as u32,
                to_rate,
            ),
            #[trigger] out[i],
        )
}

/// A call of [`resample_linear`] puts every sample at its place: see [`at_places`].
pub proof fn law_each_sample_is_at_its_place<B: Fn(Single, Single, u32, u32) -> Single>(
    mono: &[Single],
    from_rate: u32,
    to_rate: u32,
    blend: &B,
    out: Vec<Single>,
)
    requires
        from_rate > 0,
        to_rate > 0,
        call_ensures(resample_linear::<B>, (mono, from_rate, to_rate, blend), out),
    ensures
        at_places(*blend, mono@, from_rate, to_rate, out@),
{
    lemma_at_places(*blend, mono@, from_rate, to_rate, out@);
}

proof fn lemma_at_places<B: Fn(Single, Single, u32, u32) -> Single>(
    blend: B,
    mono: Seq<Single>,
    from_rate: u32,
    to_rate: u32,
    out: Seq<Single>,
)
    requires
        from_rate > 0,
        to_rate > 0,
        resampled(blend, mono, from_rate, to_rate, out),
    ensures
        at_places(blend, mono, from_rate, to_rate, out),
{
    let len = mono.len() as int;
    let f = from_rate as int;
    let t = to_rate as int;
    if f == t {
        assert(len * t < (len + 1) * f) by (nonlinear_arith)
            requires
                f == t,
                f > 0,
        ;
    } else {
        vstd::arithmetic::div_mod::lemma_fundamental_div_mod(len * t, f);
        vstd::arithmetic::div_mod::lemma_mod_bound(len * t, f);
        let n = out.len() as int;
        assert(n * f <= len * t < (n + 1) * f) by (nonlinear_arith)
            requires
                len * t == f * n + (len * t) % f,
                0 <= (len * t) % f < f,
        ;
        assert forall|i: int, left: int, past: int|
            {
                &&& 0 <= i < out.len()
                &&& #[trigger] place(left, past, t) == i * f
                &&& 0 <= past < t
            } implies call_ensures(
            blend,
            (
                mono[left],
                if left + 1 < mono.len() {
                    mono[left + 1]
                } else {
                    mono[left]
                },
                past as u32,
                to_rate,
            ),
            #[trigger] out[i],
        ) by {
            vstd::arithmetic::div_mod::lemma_fundamental_div_mod_converse(i * f, t, left, past);
            assert(left * t == t * left) by (nonlinear_arith);
            assert(left_tap(i, f, t) == left);
            assert(fraction(i, f, t) == past);
        }
    }
}

/// `past` parts of `1 / rate` after sample `left`, in such parts.
pub open spec fn place(left: int, past: int, rate: int) -> int {
    left * rate + past
}

/// A rising input stays rising: where `blend` stays between its two samples and moves
/// towards the second one as its fraction grows, the resampled signal rises as the
/// input does.
pub proof fn law_a_rise_stays_a_rise<B: Fn(Single, Single, u32, u32) -> Single>(
    mono: &[Single],
    from_rate: u32,
    to_rate: u32,
    blend: &B,
    out: Vec<Single>,
    i: int,
)
    requires
        from_rate > 0,
        to_rate > 0,
        call_ensures(resample_linear::<B>, (mono, from_rate, to_rate, blend), out),
        forall|j: int, k: int|
            0 <= j <= k < mono@.len() ==> (#[trigger] mono@[k]).ge(#[trigger] mono@[j]),
        forall|a: Single, b: Single, n: u32, d: u32, s: Single|
            n < d && b.ge(a) && #[trigger] call_ensures(*blend, (a, b, n, d), s) ==> b.ge(s)
                && s.ge(a),
        forall|a: Single, b: Single, n: u32, m: u32, d: u32, s: Single, u: Single|
            n <= m < d && b.ge(a) && #[trigger] call_ensures(*blend, (a, b, n, d), s)
                && #[trigger] call_ensures(*blend, (a, b, m, d), u) ==> u.ge(s),
        0 <= i < out@.len() - 1,
    ensures
        out@[i + 1].ge(out@[i]),
{
    let len = mono@.len() as int;
    let f = from_rate as int;
    let t = to_rate as int;
    if f == t {
        assert(mono@[i + 1].ge(mono@[i]));
    } else {
        law_each_sample_is_at_its_place(mono, from_rate, to_rate, blend, out);
        lemma_taps(len, i, f, t);
        lemma_taps(len, i + 1, f, t);
        let (l, p) = (left_tap(i, f, t), fraction(i, f, t));
        let (m, q) = (left_tap(i + 1, f, t), fraction(i + 1, f, t));
        assert(place(l, p, t) == i * f);
        assert(place(m, q, t) == (i + 1) * f);
        assert((i + 1) * f == i * f + f) by (nonlinear_arith);
        assert(l <= m && (l == m ==> p <= q)) by (nonlinear_arith)
            requires
                l * t + p + f == m * t + q,
                0 <= p < t,
                0 <= q < t,
                f > 0,
                t > 0,
        ;
        let a = mono@[l];
        let b = right_tap(mono@, l);
        let c = mono@[m];
        let d = right_tap(mono@, m);
        assert(b.ge(a) && d.ge(c));
        assert(call_ensures(*blend, (a, b, p as u32, to_rate), out@[i]));
        assert(call_ensures(*blend, (c, d, q as u32, to_rate), out@[i + 1]));
        if l < m {
            assert(c.ge(b)) by {
                assert(l + 1 < len);
                assert(mono@[m].ge(mono@[l + 1]));
            }
        }
    }
}

/// `x` is the mean of the `channels` samples from `k * channels` on.
pub open spec fn mean_of_frame<M: Fn(&[Single]) -> Single>(
    mean: M,
    input: Seq<Single>,
    channels: int,
    k: int,
    x: Single,
) -> bool {
    exists|s: &[Single]|
        {
            &&& s@.len() == channels
            &&& forall|c: int| 0 <= c < channels ==> #[trigger] s@[c] == input[k * channels + c]
            &&& #[trigger] call_ensures(mean, (s,), x)
        }
}

/// `mono` holds one sample for each complete frame of `input`: the mean of the samples
/// of that frame alone.
pub open spec fn frame_means<M: Fn(&[Single]) -> Single>(
    mean: M,
    input: Seq<Single>,
    channels: int,
    mono: Seq<Single>,
) -> bool {
    &&& channels == 1 ==> mono == input
    &&& mono.len() * channels <= input.len() < (mono.len() + 1) * channels
    &&& channels > 1 ==> forall|k: int|
        0 <= k < mono.len() ==> mean_of_frame(mean, input, channels, k, #[trigger] mono[k])
}

/// A call of [`downmix_to_mono`] averages every frame: see [`frame_means`].
pub proof fn law_each_frame_is_averaged<M: Fn(&[Single]) -> Single>(
    input: &[Single],
    channels: u16,
    mean: &M,
    mono: Vec<Single>,
)
    requires
        channels > 0,
        call_ensures(downmix_to_mono::<M>, (input, channels, mean), mono),
    ensures
        frame_means(*mean, input@, channels as int, mono@),
{
    lemma_frame_means(*mean, input@, channels, mono@);
}

proof fn lemma_frame_means<M: Fn(&[Single]) -> Single>(
    mean: M,
    input: Seq<Single>,
    channels: u16,
    mono: Seq<Single>,
)
    requires
        channels > 0,
        downmixed(mean, input, channels as int, mono),
    ensures
        frame_means(mean, input, channels as int, mono),
{
    let n = input.len() as int;
    let w = channels as int;
    vstd::arithmetic::div_mod::lemma_fundamental_div_mod(n, w);
    vstd::arithmetic::div_mod::lemma_mod_bound(n, w);
    let m = mono.len() as int;
    if w == 1 {
        assert(m * 1 <= n < (m + 1) * 1);
    } else {
        assert(m * w <= n < (m + 1) * w) by (nonlinear_arith)
            requires
                n == w * m + n % w,
                0 <= n % w < w,
        ;
        assert forall|k: int| 0 <= k < mono.len() implies mean_of_frame(
            mean,
            input,
            w,
            k,
            #[trigger] mono[k],
        ) by {
            assert(averaged(mean, frame(input, w, k), mono[k]));
            let s = choose|s: &[Single]|
                s@ == frame(input, w, k) && #[trigger] call_ensures(mean, (s,), mono[k]);
            assert(0 <= k * w && k * w + w <= n) by (nonlinear_arith)
                requires
                    0 <= k,
                    k + 1 <= m,
                    m * w <= n,
                    w > 0,
            ;
        }
    }
}

/// What a call of [`to_engine_audio`] gives is the input brought to mono, frame by
/// frame, and then to the engine's rate, every sample at its place.
pub proof fn law_conversion_is_two_steps<
    M: Fn(&[Single]) -> Single,
    B: Fn(Single, Single, u32, u32) -> Single,
>(
    input: &[Single],
    from_rate: u32,
    channels: u16,
    mean: &M,
    blend: &B,
    out: Vec<Single>,
)
    requires
        call_ensures(to_engine_audio::<M, B>, (input, from_rate, channels, mean, blend), out),
    ensures
        input@.len() == 0 || channels == 0 || from_rate == 0 ==> out@.len() == 0,
        input@.len() > 0 && channels > 0 && from_rate > 0 ==> exists|mono: Seq<Single>| #[trigger]
            frame_means(*mean, input@, channels as int, mono) && at_places(
                *blend,
                mono,
                from_rate,
                16_000,
                out@,
            ),
{
    if input@.len() > 0 && channels > 0 && from_rate > 0 {
        let mono = choose|mono: Seq<Single>| #[trigger]
            downmixed(*mean, input@, channels as int, mono) && resampled(
                *blend,
                mono,
                from_rate,
                SAMPLE_RATE,
                out@,
            );
        lemma_frame_means(*mean, input@, channels, mono);
        lemma_at_places(*blend, mono, from_rate, SAMPLE_RATE, out@);
    }
}

/// Every output sample is taken from inside the input, at a fraction below one, and
/// its place is exactly the output index times the ratio of the rates.
pub proof fn law_taps(len: int, i: int, from_rate: int, to_rate: int)
    requires
        0 <= i < resampled_len(len, from_rate, to_rate),
        0 < from_rate,
        0 < to_rate,
        0 <= len,
    ensures
        0 <= left_tap(i, from_rate, to_rate) < len,
        0 <= fraction(i, from_rate, to_rate) < to_rate,
        left_tap(i, from_rate, to_rate) * to_rate + fraction(i, from_rate, to_rate) == i
            * from_rate,
{
    lemma_taps(len, i, from_rate, to_rate);
}

/// A rate that is a multiple of the target divides the length by that multiple.
pub proof fn law_downsampled_len(len: int, to_rate: int, factor: int)
    requires
        0 <= len,
        0 < to_rate,
        0 < factor,
    ensures
        resampled_len(len, to_rate * factor, to_rate) == len / factor,
{
    assert(0 <= len * to_rate) by (nonlinear_arith)
        requires
            0 <= len,
            0 < to_rate,
    ;
    vstd::arithmetic::div_mod::lemma_div_denominator(len * to_rate, to_rate, factor);
    vstd::arithmetic::div_mod::lemma_div_by_multiple(len, to_rate);
}

/// A rate that divides the target multiplies the length.
pub proof fn law_upsampled_len(len: int, from_rate: int, factor: int)
    requires
        0 <= len,
        0 < from_rate,
        0 < factor,
    ensures
        resampled_len(len, from_rate, from_rate * factor) == len * factor,
{
    assert(len * (from_rate * factor) == (len * factor) * from_rate) by (nonlinear_arith);
    vstd::arithmetic::div_mod::lemma_div_by_multiple(len * factor, from_rate);
}

/// Where `blend` never leaves the interval between its two samples, the output
/// never leaves an interval that holds the whole input.
pub proof fn law_envelope<B: Fn(Single, Single, u32, u32) -> Single>(
    blend: B,
    mono: Seq<Single>,
    from_rate: u32,
    to_rate: u32,
    out: Seq<Single>,
    low: Single,
    high: Single,
)
    requires
        resampled(blend, mono, from_rate, to_rate, out),
        from_rate > 0,
        to_rate > 0,
        forall|i: int| 0 <= i < mono.len() ==> high.ge(#[trigger] mono[i]) && mono[i].ge(low),
        forall|a: Single, b: Single, n: u32, d: u32, s: Single|
            n < d && high.ge(a) && a.ge(low) && high.ge(b) && b.ge(low) && #[trigger] call_ensures(
                blend,
                (a, b, n, d),
                s,
            ) ==> (a.ge(b) ==> a.ge(s) && s.ge(b)) && (b.ge(a) ==> b.ge(s) && s.ge(a)),
    ensures
        forall|i: int| 0 <= i < out.len() ==> high.ge(#[trigger] out[i]) && out[i].ge(low),
{
    if from_rate != to_rate {
        assert forall|i: int| 0 <= i < out.len() implies high.ge(#[trigger] out[i]) && out[i].ge(
            low,
        ) by {
            lemma_taps(mono.len() as int, i, from_rate as int, to_rate as int);
            let left = left_tap(i, from_rate as int, to_rate as int);
            let a = mono[left];
            let b = right_tap(mono, left);
            let n = fraction(i, from_rate as int, to_rate as int) as u32;
            assert(high.ge(a) && a.ge(low));
            assert(high.ge(b) && b.ge(low)) by {
                if left + 1 < mono.len() {
                    assert(high.ge(mono[left + 1]));
                }
            }
            assert(call_ensures(blend, (a, b, n, to_rate), out[i]));
            assert(a.ge(b) || b.ge(a));
        }
    }
}

/// The output sample that lies `past` parts of `1 / to_rate` after input sample `left` is
/// blended from that one and the next, the earlier one first, at just that fraction.
pub proof fn law_earlier_sample_comes_first<B: Fn(Single, Single, u32, u32) -> Single>(
    mono: &[Single],
    from_rate: u32,
    to_rate: u32,
    blend: &B,
    out: Vec<Single>,
    i: int,
    left: int,
    past: u32,
)
    requires
        from_rate > 0,
        to_rate > 0,
        from_rate != to_rate,
        call_ensures(resample_linear::<B>, (mono, from_rate, to_rate, blend), out),
        0 <= i < out@.len(),
        i * from_rate == left * to_rate + past,
        past < to_rate,
    ensures
        0 <= left < mono@.len(),
        left + 1 < mono@.len() ==> call_ensures(
            *blend,
            (mono@[left], mono@[left + 1], past, to_rate),
            out@[i],
        ),
        left + 1 == mono@.len() ==> call_ensures(
            *blend,
            (mono@[left], mono@[left], past, to_rate),
            out@[i],
        ),
{
    law_each_sample_is_at_its_place(mono, from_rate, to_rate, blend, out);
    let f = from_rate as int;
    let t = to_rate as int;
    lemma_taps(mono@.len() as int, i, f, t);
    assert(left == left_tap(i, f, t)) by {
        vstd::arithmetic::div_mod::lemma_fundamental_div_mod_converse(
            i * f,
            t,
            left,
            past as int,
        );
    }
    assert(place(left, past as int, t) == i * from_rate);
}

} // verus!
