//! `dictata-engine`: multi-backend, offline speech-to-text.
//!
//! A single [`AsrEngine`] trait exposes transcription; each backend (whisper.cpp,
//! NVIDIA Parakeet, SenseVoice, Moonshine, Zipformer) is one implementation.
//!
//! # Audio contract
//!
//! Every engine consumes **mono, 16 kHz** audio in `[-1.0, 1.0]` (see
//! [`SAMPLE_RATE`]); the engine does not resample. A sample is a
//! [`single::Single`], the bit pattern of a single-precision number.
//!
//! # Execution model
//!
//! The trait is **synchronous**: transcription runs on a worker thread on the
//! caller's side. *Streaming* is **orchestrated by the caller**, which calls
//! [`AsrEngine::transcribe`] per chunk; the engine stays stateless between calls.
//!
//! # What is proved
//!
//! The crate decides everything that surrounds a model: what to check before it is
//! opened, how to cut, pad and stack what it is fed, when to stop, and how to read
//! what it gives. Models, files and arithmetic on samples come in as plain values or
//! as functions to call. Contracts speak of what those functions answered, so they
//! hold for every model.

pub mod diarize;
pub mod engines;
pub mod error;
pub mod model;
pub mod monitor;
pub mod pipeline;
pub mod resample;
pub mod single;
pub mod stitch;
pub mod text;
pub mod tokens;
pub mod types;
pub mod vad;

pub use engines::{load_engine, AsrEngine, EngineKind};
pub use error::AsrError;
pub use types::{
    DevicePreference, EngineCapabilities, EngineConfig, LanguageSupport, Segment,
    TranscribeControl, TranscribeOptions, TranscriptionResult, SAMPLE_RATE,
};
