//! The [`AsrEngine`] trait, the backend factory and the audio contract.
//!
//! Each backend lives in its own submodule. It holds everything the backend
//! decides (what to check at load, how to cut, feed and stop the model, how to
//! read its output) and takes the model itself as functions to call.
//! [`MockEngine`] needs no model at all: it is the reference implementation.

pub mod features;
pub mod mock;
pub mod moonshine;
pub mod parakeet;
pub mod sensevoice;
pub mod whisper;
pub mod windows;
pub mod zipformer;

pub use mock::MockEngine;

use crate::error::{AsrError, ErrorView};
use crate::single::{law_sanitized_is_in_range, law_sanitized_is_nearest, Single};
use crate::types::{
    EngineCapabilities, EngineConfig, LanguagesView, TranscribeControl, TranscribeOptions,
    TranscriptionResult,
};
use std::borrow::Cow;
use vstd::prelude::*;

verus! {

/// An ASR backend: loads a model once, transcribes clips on demand.
///
/// **Stateless between calls**: each [`transcribe`](AsrEngine::transcribe) is
/// independent. Any continuity (vocabulary, already-emitted text) goes through
/// [`TranscribeOptions::initial_prompt`], never through state carried on the
/// engine — one instance can be shared between one-shot and streaming.
///
/// `Send` lets the engine move onto a worker thread; it is not `Sync`, so
/// concurrent access goes through the caller's own `Mutex`.
pub trait AsrEngine: Send {
    /// Transcribe `audio` (mono 16 kHz, see [`crate::SAMPLE_RATE`]).
    ///
    /// Empty `audio` returns an empty result without error.
    ///
    /// `control` carries cooperative cancellation and progress (see
    /// [`TranscribeControl`]); pass `&TranscribeControl::none()` for a plain
    /// call. A requested cancellation returns [`AsrError::Cancelled`], never a
    /// partial `Ok`.
    fn transcribe(
        &mut self,
        audio: &[Single],
        opts: &TranscribeOptions,
        control: &TranscribeControl,
    ) -> (r: Result<TranscriptionResult, AsrError>);

    /// This backend's capabilities (honoured options, languages). Stable for the
    /// lifetime of the instance.
    fn capabilities(&self) -> (r: &EngineCapabilities);
}

/// Identifies a backend for the [`load_engine`] factory.
#[derive(Debug, Clone, Copy, PartialEq, Eq, Structural)]
pub enum EngineKind {
    /// whisper.cpp (feature `whisper`).
    Whisper,
    /// NVIDIA Parakeet over ONNX (feature `parakeet`).
    Parakeet,
    /// SenseVoice CTC over ONNX (feature `sensevoice`).
    SenseVoice,
    /// Moonshine encoder-decoder over ONNX (feature `moonshine`).
    Moonshine,
    /// Zipformer transducer over ONNX (feature `zipformer`).
    Zipformer,
}

/// Which backends a binary was built with.
#[derive(Debug, Clone, Copy, PartialEq, Eq, Structural)]
pub struct Backends {
    pub whisper: bool,
    pub parakeet: bool,
    pub sensevoice: bool,
    pub moonshine: bool,
    pub zipformer: bool,
}

impl Backends {
    /// Whether backend `kind` was built.
    pub open spec fn built(self, kind: EngineKind) -> bool {
        match kind {
            EngineKind::Whisper => self.whisper,
            EngineKind::Parakeet => self.parakeet,
            EngineKind::SenseVoice => self.sensevoice,
            EngineKind::Moonshine => self.moonshine,
            EngineKind::Zipformer => self.zipformer,
        }
    }

    /// Whether backend `kind` was built.
    pub fn has(&self, kind: EngineKind) -> (r: bool)
        ensures
            r == self.built(kind),
    {
        match kind {
            EngineKind::Whisper => self.whisper,
            EngineKind::Parakeet => self.parakeet,
            EngineKind::SenseVoice => self.sensevoice,
            EngineKind::Moonshine => self.moonshine,
            EngineKind::Zipformer => self.zipformer,
        }
    }
}

/// What is said of a backend that was not built.
pub open spec fn not_built(kind: EngineKind) -> Seq<char> {
    match kind {
        EngineKind::Whisper => "whisper backend not built (feature `whisper` off)"@,
        EngineKind::Parakeet => "parakeet backend not built (feature `parakeet` off)"@,
        EngineKind::SenseVoice => "sensevoice backend not built (feature `sensevoice` off)"@,
        EngineKind::Moonshine => "moonshine backend not built (feature `moonshine` off)"@,
        EngineKind::Zipformer => "zipformer backend not built (feature `zipformer` off)"@,
    }
}

/// Loads backend `kind` from `config`, returned behind `dyn AsrEngine` for
/// dynamic dispatch on the caller's side.
///
/// When a backend is not built, returns [`AsrError::BackendUnavailable`] and
/// loads nothing. Otherwise returns what the backend's own loader `load` does.
pub fn load_engine<F: Fn(EngineKind, &EngineConfig) -> Result<Box<dyn AsrEngine>, AsrError>>(
    kind: EngineKind,
    config: &EngineConfig,
    backends: Backends,
    load: F,
) -> (r: Result<Box<dyn AsrEngine>, AsrError>)
    requires
        backends.built(kind) ==> call_requires(load, (kind, config)),
    ensures
        backends.built(kind) ==> call_ensures(load, (kind, config), r),
        !backends.built(kind) ==> (r matches Err(e) && e@ == ErrorView::BackendUnavailable(
            not_built(kind),
        )),
{
    if backends.has(kind) {
        return load(kind, config);
    }
    let message = match kind {
        EngineKind::Whisper => "whisper backend not built (feature `whisper` off)",
        EngineKind::Parakeet => "parakeet backend not built (feature `parakeet` off)",
        EngineKind::SenseVoice => "sensevoice backend not built (feature `sensevoice` off)",
        EngineKind::Moonshine => "moonshine backend not built (feature `moonshine` off)",
        EngineKind::Zipformer => "zipformer backend not built (feature `zipformer` off)",
    };
    Err(AsrError::BackendUnavailable(message.to_owned()))
}

// --- the audio contract -----------------------------------------------------------

/// Every sample is finite and in `[-1.0, 1.0]`.
pub open spec fn clean(audio: Seq<Single>) -> bool {
    forall|i: int| 0 <= i < audio.len() ==> (#[trigger] audio[i]).in_unit_range()
}

/// Each sample brought into range: see [`Single::sanitized`].
pub open spec fn sanitized(audio: Seq<Single>) -> Seq<Single> {
    audio.map_values(|s: Single| s.sanitized())
}

/// Enforce the audio contract before it reaches a model.
///
/// Every backend documents mono 16 kHz samples in `[-1.0, 1.0]`, but callers only
/// promise it. A single NaN or infinite sample can make whisper.cpp abort the
/// whole process or poison a feature extraction into garbage text, and samples
/// out of range distort the spectrogram. This replaces non-finite samples with
/// silence and clamps the rest into range. It borrows the input untouched when
/// the audio is already clean, so the overwhelmingly common path allocates
/// nothing.
pub fn sanitize_audio(audio: &[Single]) -> (r: Cow<'_, [Single]>)
    ensures
        r@ == sanitized(audio@),
        clean(r@),
        r is Borrowed <==> clean(audio@),
        clean(audio@) ==> r@ == audio@,
{
    let n: usize = audio.len();
    let mut i: usize = 0;
    while i < n
        invariant
            n == audio@.len(),
            i <= n,
            forall|j: int|
                0 <= j < i ==> (#[trigger] audio@[j]).in_unit_range() && audio@[j].sanitized()
                    == audio@[j],
        decreases n - i,
    {
        let fixed: Single = audio[i].sanitize();
        proof {
            law_sanitized_is_in_range(audio@[i as int]);
        }
        if fixed.to_bits() != audio[i].to_bits() {
            return Cow::Owned(sanitize_copy(audio));
        }
        i += 1;
    }
    assert(sanitized(audio@) =~= audio@);
    Cow::Borrowed(audio)
}

/// A sanitized copy of `audio`.
fn sanitize_copy(audio: &[Single]) -> (r: Vec<Single>)
    ensures
        r@ == sanitized(audio@),
        clean(r@),
{
    let mut out: Vec<Single> = Vec::new();
    let n: usize = audio.len();
    let mut i: usize = 0;
    while i < n
        invariant
            n == audio@.len(),
            i <= n,
            out@.len() == i,
            forall|j: int|
                0 <= j < i ==> #[trigger] out@[j] == audio@[j].sanitized()
                    && out@[j].in_unit_range(),
        decreases n - i,
    {
        proof {
            law_sanitized_is_in_range(audio@[i as int]);
        }
        out.push(audio[i].sanitize());
        i += 1;
    }
    assert(out@ =~= sanitized(audio@));
    out
}

/// Sanitizing keeps the length, yields clean audio, and leaves clean audio alone;
/// so the second time it has nothing left to do.
pub proof fn law_sanitized(audio: Seq<Single>)
    ensures
        sanitized(audio).len() == audio.len(),
        clean(sanitized(audio)),
        clean(audio) ==> sanitized(audio) == audio,
        sanitized(sanitized(audio)) == sanitized(audio),
{
    assert forall|i: int| 0 <= i < audio.len() implies (#[trigger] sanitized(
        audio,
    )[i]).in_unit_range() by {
        law_sanitized_is_in_range(audio[i]);
    }
    if clean(audio) {
        assert forall|i: int| 0 <= i < audio.len() implies sanitized(audio)[i] == audio[i] by {
            law_sanitized_is_in_range(audio[i]);
        }
        assert(sanitized(audio) =~= audio);
    }
    let once = sanitized(audio);
    assert forall|i: int| 0 <= i < once.len() implies sanitized(once)[i] == once[i] by {
        law_sanitized_is_in_range(once[i]);
    }
    assert(sanitized(once) =~= once);
}

/// What a call of [`sanitize_audio`] gives: as many samples, each the nearest in range of
/// the one at its place, silence for one that is not finite.
pub proof fn law_sanitized_samples(audio: &[Single], r: Cow<'_, [Single]>, i: int, x: Single)
    requires
        call_ensures(sanitize_audio, (audio,), r),
        0 <= i < audio@.len(),
        x.in_unit_range(),
    ensures
        r@.len() == audio@.len(),
        r@[i].in_unit_range(),
        audio@[i].in_unit_range() ==> r@[i] == audio@[i],
        !audio@[i].finite() ==> r@[i].value() == 0,
        audio@[i].finite() && audio@[i].value() <= x.value() ==> audio@[i].value() <= r@[i].value()
            <= x.value(),
        audio@[i].finite() && audio@[i].value() >= x.value() ==> audio@[i].value() >= r@[i].value()
            >= x.value(),
{
    law_sanitized_is_in_range(audio@[i]);
    law_sanitized_is_nearest(audio@[i], x);
}

/// Capabilities are honest: whisper alone claims to honour a prompt, beam search,
/// translation and a VAD of its own, and each backend names the languages that it covers.
pub proof fn law_only_whisper_claims_options(
    w: EngineCapabilities,
    p: EngineCapabilities,
    s: EngineCapabilities,
    m: EngineCapabilities,
    z: EngineCapabilities,
)
    requires
        call_ensures(whisper::WhisperEngine::capabilities_static, (), w),
        call_ensures(parakeet::ParakeetEngine::capabilities_static, (), p),
        call_ensures(sensevoice::SenseVoiceEngine::capabilities_static, (), s),
        call_ensures(moonshine::MoonshineEngine::capabilities_static, (), m),
        call_ensures(zipformer::ZipformerEngine::capabilities_static, (), z),
    ensures
        w.supports_prompt && w.supports_beam && w.supports_translate && w.supports_internal_vad,
        !p.supports_prompt && !p.supports_beam && !p.supports_translate && !p.supports_internal_vad,
        !s.supports_prompt && !s.supports_beam && !s.supports_translate && !s.supports_internal_vad,
        !m.supports_prompt && !m.supports_beam && !m.supports_translate && !m.supports_internal_vad,
        !z.supports_prompt && !z.supports_beam && !z.supports_translate && !z.supports_internal_vad,
        w.languages@ is Any && z.languages@ is Any,
        p.languages@ matches LanguagesView::Only(names) && names.len() == 25,
        s.languages@ matches LanguagesView::Only(names) && names.len() == 5,
        m.languages@ matches LanguagesView::Only(names) && names.len() == 1,
{
}

/// The samples of a possibly borrowed buffer.
pub(crate) fn samples<'a>(audio: &'a Cow<'_, [Single]>) -> (r: &'a [Single])
    ensures
        r@ == audio@,
{
    match audio {
        Cow::Borrowed(b) => b,
        Cow::Owned(v) => v.as_slice(),
    }
}

} // verus!
