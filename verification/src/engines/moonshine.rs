//! Moonshine backend (ONNX models).
//!
//! Runs the **Moonshine** English speech-to-text model, an encoder-decoder
//! transformer with autoregressive greedy decoding. It uses the sherpa-onnx "v1"
//! export, split into four graphs (`preprocess`, `encode`, `uncached_decode`,
//! `cached_decode`) plus a SentencePiece `tokens.txt`.
//!
//! The pipeline is: raw waveform -> `preprocess` (learned conv front-end) ->
//! `encode` -> autoregressive decode. Decoding starts from the start token through
//! `uncached_decode` (which also emits the initial cache states), then loops
//! `cached_decode`, feeding the previous token and threading the cache, and takes
//! the arg-max token each step until the end token or a duration-derived step cap.
//!
//! Moonshine is English-only, has no beam search, no decoding prompt, no
//! translation and no internal VAD.
//!
//! # Model
//!
//! The **directory** of a sherpa-onnx Moonshine export, containing
//! `preprocess.onnx`, `encode(.int8).onnx`, `uncached_decode(.int8).onnx`,
//! `cached_decode(.int8).onnx` and `tokens.txt`.

use crate::engines::windows::{
    cut_from, law_progress, law_windows_tile, lemma_window_bound, measures_blocks, progress_at,
    tiles, window, window_cut, window_progress, windows_of, Walk, SINGLE_WINDOW_MAX_SAMPLES,
};
use crate::engines::{samples, sanitize_audio, sanitized};
use crate::error::{AsrError, ErrorView};
use crate::model::{
    check_dir, check_graph, check_tokens_file, dim_at, dir_error, ends, graph_error, has_model,
    inputs_of, law_held_models_are_found, reachable,
    outputs_of, pick_model, picked, shape_dim, tokens_file_error, Graph, Host, ModelDir,
};
use crate::monitor::{climbing, lemma_climbs, lemma_share, level, Monitor};
use crate::single::{best_of, first_peak, Single};
use crate::stitch::{
    in_line, law_stitched_in_line, law_stitched_text_is_tidy, law_tidy_is_trimmed, stitched, tidy,
};
use crate::text::{concat, decimal, decimal_usize, views};
use crate::tokens::{
    detokenize, detokenized, first_place, ids_fit, ints as wide_ints, joined_bytes, joined_text,
    load_tokens, loaded_tokens, plain, position, read_view, spaced, token_table,
};
use crate::types::{
    empty_result, flag_reads, outcome, segment_views, EngineCapabilities, LanguageSupport,
    LanguagesView, ResultView, Segment, SegmentView, TranscribeControl, TranscribeOptions,
    TranscriptionResult,
};
use vstd::prelude::*;
use vstd::string::*;
use vstd::utf8::{decode_utf8, valid_utf8};

verus! {

/// Below this many samples the learned conv front-end has too little context to
/// produce a frame; such clips yield an empty transcription instead of an error.
pub const MIN_SAMPLES: usize = 512;

// --- decoding -----------------------------------------------------------------------

/// The most tokens that `frames` encoder frames may decode to. A frame stands for
/// 384 samples, and a second of audio for at most 6 tokens, so this is
/// `frames * 384 / 16000 * 6`, rounded down, but at least one.
pub open spec fn step_cap(frames: int) -> int {
    let cap = frames * 18 / 125;
    if cap < 1 {
        1
    } else {
        cap
    }
}

/// Duration-derived cap on decoded tokens: see [`step_cap`].
pub fn decode_step_cap(enc_frames: usize) -> (r: usize)
    ensures
        r == step_cap(enc_frames as int),
{
    let cap: u128 = enc_frames as u128 * 18 / 125;
    if cap < 1 {
        1
    } else {
        cap as usize
    }
}

/// Index of the maximum value (see [`best_of`]), or `None` for an empty slice. The
/// index is a token id, of 32 bits.
pub fn argmax(values: &[Single]) -> (r: Option<i32>)
    ensures
        values@.len() == 0 ==> r is None,
        values@.len() > 0 ==> r == Some(best_of(values@) as i32),
{
    if values.len() == 0 {
        None
    } else {
        let best: usize = first_peak(values);
        Some(#[verifier::truncate] (best as i32))
    }
}

/// Token ids as integers.
pub open spec fn ints(ids: Seq<i32>) -> Seq<int> {
    ids.map_values(|id: i32| id as int)
}

/// Turn SentencePiece ids into text: see [`detokenize`].
pub fn tokens_to_text(ids: &[i32], tokens: &Vec<String>) -> (r: String)
    ensures
        r@ == detokenized(ints(ids@), views(tokens@)),
        plain(ints(ids@), views(tokens@)) ==> r@ == crate::text::trimmed(
            spaced(joined_text(ints(ids@), views(tokens@))),
        ),
        valid_utf8(joined_bytes(ints(ids@), views(tokens@))) ==> r@ == crate::text::trimmed(
            decode_utf8(joined_bytes(ints(ids@), views(tokens@))),
        ),
{
    let mut wide: Vec<i64> = Vec::new();
    let n: usize = ids.len();
    let mut i: usize = 0;
    while i < n
        invariant
            n == ids@.len(),
            i <= n,
            wide@.len() == i,
            forall|j: int| 0 <= j < i ==> #[trigger] wide@[j] == ids@[j],
        decreases n - i,
    {
        wide.push(ids[i] as i64);
        i += 1;
    }
    assert(wide_ints(wide@) =~= ints(ids@));
    detokenize(wide.as_slice(), tokens)
}

/// The id of a special token, when it stands in the table at a 32-bit place.
pub open spec fn special_id(table: Seq<Seq<char>>, symbol: Seq<char>) -> Option<int> {
    match first_place(table, symbol) {
        Some(p) => if p <= i32::MAX {
            Some(p)
        } else {
            None
        },
        None => None,
    }
}

/// Look up a special token's id by its exact symbol.
pub fn token_id(tokens: &Vec<String>, symbol: &str) -> (r: Option<i32>)
    ensures
        r is Some == special_id(views(tokens@), symbol@) is Some,
        r matches Some(id) ==> special_id(views(tokens@), symbol@) == Some(id as int),
{
    match position(tokens, symbol) {
        Some(p) => if p <= i32::MAX as usize {
            Some(p as i32)
        } else {
            None
        },
        None => None,
    }
}

// --- loading ------------------------------------------------------------------------

/// The model files of an export.
#[derive(Debug, Clone)]
pub struct MoonshineFiles {
    pub preprocess: String,
    pub encode: String,
    pub uncached: String,
    pub cached: String,
}

/// The graphs of an export, as opened.
#[derive(Debug, Clone)]
pub struct MoonshineGraphs {
    pub preprocess: Graph,
    pub encode: Graph,
    pub uncached: Graph,
    pub cached: Graph,
}

/// Why the model directory cannot be loaded from, if it cannot: the directory, then
/// the four model files, then the vocabulary.
pub open spec fn plan_error(dir: ModelDir, host: Host) -> Option<ErrorView> {
    match dir_error("moonshine"@, dir, host) {
        Some(e) => Some(e),
        None => match picked(dir, "preprocess"@) {
            Err(e) => Some(e),
            Ok(_) => match picked(dir, "encode"@) {
                Err(e) => Some(e),
                Ok(_) => match picked(dir, "uncached_decode"@) {
                    Err(e) => Some(e),
                    Ok(_) => match picked(dir, "cached_decode"@) {
                        Err(e) => Some(e),
                        Ok(_) => tokens_file_error(dir),
                    },
                },
            },
        },
    }
}

/// What is said of a graph with the wrong number of inputs or outputs.
pub open spec fn arity_error(what: Seq<char>, inputs: nat, outputs: nat) -> ErrorView {
    ErrorView::Load(what + decimal(inputs) + " / "@ + decimal(outputs))
}

/// What is wrong with the numbers of inputs and outputs of the graphs, if anything.
/// The cached decoder must take and give exactly the states that the uncached one
/// gives.
pub open spec fn graphs_error(graphs: MoonshineGraphs) -> Option<ErrorView> {
    let pi = inputs_of(graphs.preprocess).len();
    let po = outputs_of(graphs.preprocess).len();
    let ei = inputs_of(graphs.encode).len();
    let eo = outputs_of(graphs.encode).len();
    let ui = inputs_of(graphs.uncached).len();
    let uo = outputs_of(graphs.uncached).len();
    let ci = inputs_of(graphs.cached).len();
    let co = outputs_of(graphs.cached).len();
    if pi != 1 || po != 1 {
        Some(arity_error("moonshine preprocess expects 1 input and 1 output, got "@, pi, po))
    } else if ei < 1 || ei > 2 || eo != 1 {
        Some(arity_error("moonshine encode expects 1-2 inputs and 1 output, got "@, ei, eo))
    } else if ui != 3 || uo < 2 {
        Some(
            arity_error(
                "moonshine uncached_decode expects 3 inputs (token, encoder_out, seq_len) and >=2 outputs (logits, states), got "@,
                ui,
                uo,
            ),
        )
    } else if ci != 3 + (uo - 1) || co != uo {
        Some(
            ErrorView::Load(
                "moonshine cached_decode arity mismatch: inputs "@ + decimal(ci) + " (expected "@
                    + decimal((3 + (uo - 1)) as nat) + "), outputs "@ + decimal(co)
                    + " (expected "@ + decimal(uo) + ")"@,
            ),
        )
    } else {
        None
    }
}

/// What loading fails with, if it does: the directory, the vocabulary, each graph
/// in turn, then their inputs and outputs.
pub open spec fn load_error(
    dir: ModelDir,
    host: Host,
    tokens: Result<String, String>,
    graphs: MoonshineGraphs,
) -> Option<ErrorView> {
    match plan_error(dir, host) {
        Some(e) => Some(e),
        None => match loaded_tokens("moonshine"@, read_view(tokens)) {
            Err(e) => Some(e),
            Ok(_) => match graph_error("moonshine"@, graphs.preprocess) {
                Some(e) => Some(e),
                None => match graph_error("moonshine"@, graphs.encode) {
                    Some(e) => Some(e),
                    None => match graph_error("moonshine"@, graphs.uncached) {
                        Some(e) => Some(e),
                        None => match graph_error("moonshine"@, graphs.cached) {
                            Some(e) => Some(e),
                            None => graphs_error(graphs),
                        },
                    },
                },
            },
        },
    }
}

/// Moonshine encoder-decoder backend.
pub struct MoonshineEngine {
    /// Token id -> SentencePiece symbol.
    pub tokens: Vec<String>,
    /// Preprocess input (audio) and output (features).
    pub prep_in: String,
    pub prep_out: String,
    /// Encode inputs (features, then optionally their length) and output.
    pub enc_in: Vec<String>,
    pub enc_out: String,
    /// Uncached decoder inputs (token, encoder output, sequence length) and outputs
    /// (logits, states).
    pub unc_in: Vec<String>,
    pub unc_out: Vec<String>,
    /// Cached decoder inputs (token, encoder output, sequence length, states) and
    /// outputs (logits, states).
    pub cac_in: Vec<String>,
    pub cac_out: Vec<String>,
    /// Start- and end-of-sequence token ids.
    pub sos: i32,
    pub eos: i32,
    /// What the backend can do.
    pub caps: EngineCapabilities,
}

fn arity_message(what: &str, inputs: usize, outputs: usize) -> (r: AsrError)
    ensures
        r@ == arity_error(what@, inputs as nat, outputs as nat),
{
    let a = concat(what, decimal_usize(inputs).as_str());
    let b = concat(a.as_str(), " / ");
    AsrError::Load(concat(b.as_str(), decimal_usize(outputs).as_str()))
}

impl MoonshineEngine {
    /// Check the model directory and say which model files to open.
    pub fn plan(dir: &ModelDir, host: Host) -> (r: Result<MoonshineFiles, AsrError>)
        ensures
            r is Ok <==> plan_error(*dir, host) is None,
            r matches Err(e) ==> plan_error(*dir, host) == Some(e@),
            r matches Ok(files) ==> {
                &&& picked(*dir, "preprocess"@) == Ok::<_, ErrorView>(files.preprocess@)
                &&& picked(*dir, "encode"@) == Ok::<_, ErrorView>(files.encode@)
                &&& picked(*dir, "uncached_decode"@) == Ok::<_, ErrorView>(files.uncached@)
                &&& picked(*dir, "cached_decode"@) == Ok::<_, ErrorView>(files.cached@)
            },
    {
        if let Err(e) = check_dir("moonshine", dir, host) {
            return Err(e);
        }
        let preprocess = match pick_model(dir, "preprocess") {
            Err(e) => {
                return Err(e);
            },
            Ok(name) => name,
        };
        let encode = match pick_model(dir, "encode") {
            Err(e) => {
                return Err(e);
            },
            Ok(name) => name,
        };
        let uncached = match pick_model(dir, "uncached_decode") {
            Err(e) => {
                return Err(e);
            },
            Ok(name) => name,
        };
        let cached = match pick_model(dir, "cached_decode") {
            Err(e) => {
                return Err(e);
            },
            Ok(name) => name,
        };
        match check_tokens_file(dir) {
            Err(e) => Err(e),
            Ok(()) => Ok(MoonshineFiles { preprocess, encode, uncached, cached }),
        }
    }

    /// Load a sherpa-onnx Moonshine export from its **directory**, given what
    /// reading `tokens.txt` and opening the model files gave.
    ///
    /// Fails with [`AsrError::ModelNotFound`] when the directory, a model file or
    /// `tokens.txt` is absent, and [`AsrError::Load`] when a graph does not have
    /// the expected input/output arity of a Moonshine v1 export. Node names are
    /// resolved positionally: the export binds inputs in a fixed order.
    pub fn load(
        dir: &ModelDir,
        host: Host,
        tokens: &Result<String, String>,
        graphs: &MoonshineGraphs,
    ) -> (r: Result<Self, AsrError>)
        requires
            tokens matches Ok(text) ==> ids_fit(text@),
        ensures
            r is Ok <==> load_error(*dir, host, *tokens, *graphs) is None,
            r matches Err(e) ==> load_error(*dir, host, *tokens, *graphs) == Some(e@),
            r matches Ok(engine) ==> {
                &&& loaded_tokens("moonshine"@, read_view(*tokens)) == Ok::<_, ErrorView>(
                    views(engine.tokens@),
                )
                &&& engine.prep_in@ == inputs_of(graphs.preprocess)[0]@
                &&& engine.prep_out@ == outputs_of(graphs.preprocess)[0]@
                &&& views(engine.enc_in@) == views(inputs_of(graphs.encode))
                &&& engine.enc_out@ == outputs_of(graphs.encode)[0]@
                &&& views(engine.unc_in@) == views(inputs_of(graphs.uncached))
                &&& views(engine.unc_out@) == views(outputs_of(graphs.uncached))
                &&& views(engine.cac_in@) == views(inputs_of(graphs.cached))
                &&& views(engine.cac_out@) == views(outputs_of(graphs.cached))
                &&& engine.sos == (match special_id(views(engine.tokens@), "<s>"@) {
                    Some(id) => id,
                    None => 1,
                })
                &&& engine.eos == (match special_id(views(engine.tokens@), "</s>"@) {
                    Some(id) => id,
                    None => 2,
                })
                &&& engine.caps.plain("moonshine"@, LanguagesView::Only(seq!["english"@]))
            },
    {
        if let Err(e) = MoonshineEngine::plan(dir, host) {
            return Err(e);
        }
        let table = match load_tokens("moonshine", tokens) {
            Err(e) => {
                return Err(e);
            },
            Ok(table) => table,
        };
        if let Err(e) = check_graph("moonshine", &graphs.preprocess) {
            return Err(e);
        }
        if let Err(e) = check_graph("moonshine", &graphs.encode) {
            return Err(e);
        }
        if let Err(e) = check_graph("moonshine", &graphs.uncached) {
            return Err(e);
        }
        if let Err(e) = check_graph("moonshine", &graphs.cached) {
            return Err(e);
        }
        let (prep_in, prep_out) = ends(&graphs.preprocess);
        if prep_in.len() != 1 || prep_out.len() != 1 {
            return Err(
                arity_message(
                    "moonshine preprocess expects 1 input and 1 output, got ",
                    prep_in.len(),
                    prep_out.len(),
                ),
            );
        }
        let (enc_in, enc_out) = ends(&graphs.encode);
        if enc_in.len() < 1 || enc_in.len() > 2 || enc_out.len() != 1 {
            return Err(
                arity_message(
                    "moonshine encode expects 1-2 inputs and 1 output, got ",
                    enc_in.len(),
                    enc_out.len(),
                ),
            );
        }
        let (unc_in, unc_out) = ends(&graphs.uncached);
        if unc_in.len() != 3 || unc_out.len() < 2 {
            return Err(
                arity_message(
                    "moonshine uncached_decode expects 3 inputs (token, encoder_out, seq_len) and >=2 outputs (logits, states), got ",
                    unc_in.len(),
                    unc_out.len(),
                ),
            );
        }
        let (cac_in, cac_out) = ends(&graphs.cached);
        let expected: u128 = 3 + (unc_out.len() as u128 - 1);
        if cac_in.len() as u128 != expected || cac_out.len() != unc_out.len() {
            let a = concat(
                "moonshine cached_decode arity mismatch: inputs ",
                decimal_usize(cac_in.len()).as_str(),
            );
            let b = concat(a.as_str(), " (expected ");
            let c = concat(b.as_str(), crate::text::decimal_u128(expected).as_str());
            let d = concat(c.as_str(), "), outputs ");
            let e = concat(d.as_str(), decimal_usize(cac_out.len()).as_str());
            let f = concat(e.as_str(), " (expected ");
            let g = concat(f.as_str(), decimal_usize(unc_out.len()).as_str());
            return Err(AsrError::Load(concat(g.as_str(), ")")));
        }
        let sos: i32 = match token_id(&table, "<s>") {
            Some(id) => id,
            None => 1,
        };
        let eos: i32 = match token_id(&table, "</s>") {
            Some(id) => id,
            None => 2,
        };
        assert(views(prep_in@)[0] == views(inputs_of(graphs.preprocess))[0]);
        assert(views(prep_out@)[0] == views(outputs_of(graphs.preprocess))[0]);
        assert(views(enc_out@)[0] == views(outputs_of(graphs.encode))[0]);
        Ok(
            MoonshineEngine {
                tokens: table,
                prep_in: prep_in[0].clone(),
                prep_out: prep_out[0].clone(),
                enc_in,
                enc_out: enc_out[0].clone(),
                unc_in,
                unc_out,
                cac_in,
                cac_out,
                sos,
                eos,
                caps: MoonshineEngine::capabilities_static(),
            },
        )
    }

    /// What every Moonshine engine can do.
    pub fn capabilities_static() -> (r: EngineCapabilities)
        ensures
            r.plain("moonshine"@, LanguagesView::Only(seq!["english"@])),
    {
        let names: Vec<String> = vec!["english".to_owned()];
        assert(views(names@) =~= seq!["english"@]);
        EngineCapabilities {
            name: "moonshine",
            supports_prompt: false,
            supports_beam: false,
            supports_translate: false,
            supports_internal_vad: false,
            languages: LanguageSupport::Only(names),
        }
    }

    /// What the backend can do.
    pub fn capabilities(&self) -> (r: &EngineCapabilities)
        ensures
            *r == self.caps,
    {
        &self.caps
    }
}

// --- transcription --------------------------------------------------------------------

/// Where an inference went wrong.
#[derive(Debug, Clone, Copy, PartialEq, Eq, Structural)]
pub enum MoonshineStage {
    /// Building the audio tensor.
    Audio,
    /// Running `preprocess`.
    Preprocess,
    /// Its output is missing.
    PreprocessOutput,
    /// Building the feature-length tensor.
    FeaturesLen,
    /// Running `encode`.
    Encode,
    /// Its output is missing.
    EncodeOutput,
    /// Building the token tensor.
    Token,
    /// Building the sequence-length tensor.
    SeqLen,
    /// Running `uncached_decode`.
    Uncached,
    /// Running `cached_decode`.
    Cached,
    /// Reading the logits.
    Logits,
    /// A state output is missing; the message is its name.
    State,
}

/// A stage at which an inference failed, and the runtime's own words.
pub type Fault = (MoonshineStage, String);

/// What is said of an inference that failed.
pub open spec fn fault_error(fault: Fault) -> ErrorView {
    let m = fault.1@;
    ErrorView::Transcribe(
        match fault.0 {
            MoonshineStage::Audio => "moonshine audio tensor: "@ + m,
            MoonshineStage::Preprocess => "moonshine preprocess: "@ + m,
            MoonshineStage::PreprocessOutput => "moonshine preprocess: missing output"@,
            MoonshineStage::FeaturesLen => "moonshine features_len: "@ + m,
            MoonshineStage::Encode => "moonshine encode: "@ + m,
            MoonshineStage::EncodeOutput => "moonshine encode: missing output"@,
            MoonshineStage::Token => "moonshine token tensor: "@ + m,
            MoonshineStage::SeqLen => "moonshine seq_len tensor: "@ + m,
            MoonshineStage::Uncached => "moonshine uncached decode: "@ + m,
            MoonshineStage::Cached => "moonshine cached decode: "@ + m,
            MoonshineStage::Logits => "moonshine logits: "@ + m,
            MoonshineStage::State => "moonshine missing state output '"@ + m + "'"@,
        },
    )
}

/// See [`fault_error`].
pub fn fault_message(fault: &Fault) -> (r: AsrError)
    ensures
        r@ == fault_error(*fault),
{
    let m: &str = fault.1.as_str();
    AsrError::Transcribe(
        match fault.0 {
            MoonshineStage::Audio => concat("moonshine audio tensor: ", m),
            MoonshineStage::Preprocess => concat("moonshine preprocess: ", m),
            MoonshineStage::PreprocessOutput => "moonshine preprocess: missing output".to_owned(),
            MoonshineStage::FeaturesLen => concat("moonshine features_len: ", m),
            MoonshineStage::Encode => concat("moonshine encode: ", m),
            MoonshineStage::EncodeOutput => "moonshine encode: missing output".to_owned(),
            MoonshineStage::Token => concat("moonshine token tensor: ", m),
            MoonshineStage::SeqLen => concat("moonshine seq_len tensor: ", m),
            MoonshineStage::Uncached => concat("moonshine uncached decode: ", m),
            MoonshineStage::Cached => concat("moonshine cached decode: ", m),
            MoonshineStage::Logits => concat("moonshine logits: ", m),
            MoonshineStage::State => {
                let named = concat("moonshine missing state output '", m);
                concat(named.as_str(), "'")
            },
        },
    )
}

/// What one decoder step gives: the logits of the next token, and the cache states
/// or the reason why one cannot be read.
pub struct Step<S> {
    pub logits: Vec<Single>,
    pub states: Result<S, Fault>,
}

/// The next token and the states after a decoder step, given what it answered.
pub open spec fn stepped<S>(answer: Result<Step<S>, Fault>) -> Result<(i32, S), ErrorView> {
    match answer {
        Err(fault) => Err(fault_error(fault)),
        Ok(step) => if step.logits@.len() == 0 {
            Err(ErrorView::Transcribe("moonshine logits: empty vocab dimension"@))
        } else {
            match step.states {
                Err(fault) => Err(fault_error(fault)),
                Ok(states) => Ok((best_of(step.logits@) as i32, states)),
            }
        },
    }
}

/// See [`stepped`].
pub fn take_step<S>(answer: Result<Step<S>, Fault>) -> (r: Result<(i32, S), AsrError>)
    ensures
        match r {
            Ok(next) => stepped(answer) == Ok::<_, ErrorView>(next),
            Err(e) => stepped(answer) == Err::<(i32, S), _>(e@),
        },
{
    match answer {
        Err(fault) => Err(fault_message(&fault)),
        Ok(step) => match argmax(step.logits.as_slice()) {
            None => Err(
                AsrError::Transcribe("moonshine logits: empty vocab dimension".to_owned()),
            ),
            Some(id) => match step.states {
                Err(fault) => Err(fault_message(&fault)),
                Ok(states) => Ok((id, states)),
            },
        },
    }
}

/// How far a window comes: into the front-end, into the encoder, into the decoder.
#[derive(Debug, Clone, Copy, PartialEq, Eq, Structural)]
pub enum Phase {
    FrontEnd,
    Encoder,
    Decoder,
}

/// The graphs of a loaded model, as functions: `preprocess` from a waveform to
/// features, `encode` from features and, where the graph takes it, their length, to
/// an encoder output, `first` and `next` for the uncached and the cached decoder
/// step from an encoder output, a token, a sequence length and states. Features and
/// encoder outputs come with their shapes.
pub struct MoonshineModel<P, N, D, C> {
    pub preprocess: P,
    pub encode: N,
    pub first: D,
    pub next: C,
}

/// The functions can be called, `preprocess` on the waveform of one window of 32 s
/// at most and on no more, and the shapes that they give have sizes that the step
/// counter can hold.
pub open spec fn callable<
    F,
    E,
    S,
    P: Fn(&[Single]) -> Result<(F, Vec<i64>), Fault>,
    N: Fn(&F, Option<i32>) -> Result<(E, Vec<i64>), Fault>,
    D: Fn(&E, i32, i32) -> Result<Step<S>, Fault>,
    C: Fn(&E, i32, i32, S) -> Result<Step<S>, Fault>,
>(model: MoonshineModel<P, N, D, C>) -> bool {
    &&& forall|a: &[Single]|
        MIN_SAMPLES <= a@.len() <= SINGLE_WINDOW_MAX_SAMPLES ==> #[trigger] call_requires(
            model.preprocess,
            (a,),
        )
    &&& forall|f: &F, n: Option<i32>| #[trigger] call_requires(model.encode, (f, n))
    &&& forall|e: &E, t: i32, n: i32| #[trigger] call_requires(model.first, (e, t, n))
    &&& forall|e: &E, t: i32, n: i32, s: S| #[trigger] call_requires(model.next, (e, t, n, s))
    &&& forall|a: &[Single], f: F, shape: Vec<i64>| #[trigger]
        call_ensures(model.preprocess, (a,), Ok((f, shape))) ==> dim_at(shape@, 1) <= usize::MAX
    &&& forall|f: &F, n: Option<i32>, e: E, shape: Vec<i64>| #[trigger]
        call_ensures(model.encode, (f, n), Ok((e, shape))) ==> dim_at(shape@, 1) <= i32::MAX
}

/// `preprocess` can answer `answer` to a waveform.
pub open spec fn preprocessed<F, P: Fn(&[Single]) -> Result<(F, Vec<i64>), Fault>>(
    preprocess: P,
    clip: Seq<Single>,
    answer: Result<(F, Vec<i64>), Fault>,
) -> bool {
    exists|a: &[Single]| a@ == clip && #[trigger] call_ensures(preprocess, (a,), answer)
}

impl MoonshineEngine {
    /// Whether the encoder takes the length of the features.
    pub open spec fn takes_length(&self) -> bool {
        self.enc_in@.len() == 2
    }

    /// The length that the encoder is given for features of this shape.
    pub open spec fn length_input(&self, shape: Seq<i64>) -> Option<i32> {
        if self.takes_length() {
            Some((dim_at(shape, 1) as usize) as i32)
        } else {
            None
        }
    }

    /// After `k` tokens, `ids`, the next token is `id` and the states are `states`:
    /// the decoder was started from the start token, and then given each token that
    /// it came up with, none of which is the end token.
    pub open spec fn reached<
        E,
        S,
        D: Fn(&E, i32, i32) -> Result<Step<S>, Fault>,
        C: Fn(&E, i32, i32, S) -> Result<Step<S>, Fault>,
    >(
        &self,
        first: D,
        next: C,
        encoded: E,
        k: nat,
        ids: Seq<i32>,
        id: i32,
        states: S,
    ) -> bool
        decreases k,
    {
        if k == 0 {
            ids.len() == 0 && exists|answer: Result<Step<S>, Fault>| #[trigger]
                call_ensures(first, (&encoded, self.sos, 1i32), answer) && stepped(answer)
                    == Ok::<_, ErrorView>((id, states))
        } else {
            exists|last: i32, before: S, answer: Result<Step<S>, Fault>|
                {
                    &&& #[trigger] call_ensures(
                        next,
                        (&encoded, last, (k + 1) as i32, before),
                        answer,
                    )
                    &&& self.reached(
                        first,
                        next,
                        encoded,
                        (k - 1) as nat,
                        ids.drop_last(),
                        last,
                        before,
                    )
                    &&& ids.len() > 0
                    &&& ids.last() == last
                    &&& last != self.eos
                    &&& stepped(answer) == Ok::<_, ErrorView>((id, states))
                }
        }
    }

    /// Decoding can end with the tokens `ids`: the next one is the end token, or
    /// the cap is reached.
    pub open spec fn decodes<
        E,
        S,
        D: Fn(&E, i32, i32) -> Result<Step<S>, Fault>,
        C: Fn(&E, i32, i32, S) -> Result<Step<S>, Fault>,
    >(&self, first: D, next: C, encoded: E, cap: int, ids: Seq<i32>) -> bool {
        exists|id: i32, states: S|
            ids.len() <= cap && (id == self.eos || ids.len() == cap) && #[trigger] self.reached(
                first,
                next,
                encoded,
                ids.len(),
                ids,
                id,
                states,
            )
    }

    /// Decoding can have come to the tokens `ids`, with `states` before the step that
    /// the last of them is given to.
    pub open spec fn decoding_at<
        E,
        S,
        D: Fn(&E, i32, i32) -> Result<Step<S>, Fault>,
        C: Fn(&E, i32, i32, S) -> Result<Step<S>, Fault>,
    >(&self, first: D, next: C, encoded: E, cap: int, ids: Seq<i32>, states: S) -> bool {
        &&& 0 < ids.len() <= cap
        &&& ids.last() != self.eos
        &&& self.reached(
            first,
            next,
            encoded,
            (ids.len() - 1) as nat,
            ids.drop_last(),
            ids.last(),
            states,
        )
    }

    /// Decoding can fail with `e` after the tokens `ids`: at its first step, or at a
    /// later one after those before it succeeded.
    pub open spec fn decoding_fails<
        E,
        S,
        D: Fn(&E, i32, i32) -> Result<Step<S>, Fault>,
        C: Fn(&E, i32, i32, S) -> Result<Step<S>, Fault>,
    >(&self, first: D, next: C, encoded: E, cap: int, ids: Seq<i32>, e: ErrorView) -> bool {
        if ids.len() == 0 {
            exists|answer: Result<Step<S>, Fault>| #[trigger]
                call_ensures(first, (&encoded, self.sos, 1i32), answer) && stepped(answer) == Err::<
                    (i32, S),
                    _,
                >(e)
        } else {
            exists|states: S, answer: Result<Step<S>, Fault>|
                {
                    &&& #[trigger] self.decoding_at(first, next, encoded, cap, ids, states)
                    &&& #[trigger] call_ensures(
                        next,
                        (&encoded, ids.last(), (ids.len() + 1) as i32, states),
                        answer,
                    )
                    &&& stepped(answer) == Err::<(i32, S), _>(e)
                }
        }
    }

    /// Decoding can be cancelled after the tokens `ids`.
    pub open spec fn decoding_stops<
        E,
        S,
        D: Fn(&E, i32, i32) -> Result<Step<S>, Fault>,
        C: Fn(&E, i32, i32, S) -> Result<Step<S>, Fault>,
    >(&self, first: D, next: C, encoded: E, cap: int, ids: Seq<i32>) -> bool {
        exists|states: S| #[trigger] self.decoding_at(first, next, encoded, cap, ids, states)
    }

    /// The result of a window that decoded to `ids`. Moonshine is English-only, and
    /// greedy decoding carries no timing.
    pub open spec fn ids_result(&self, ids: Seq<i32>) -> ResultView {
        ResultView {
            text: detokenized(ints(ids), views(self.tokens@)),
            detected_language: Some("english"@),
            segments: Seq::empty(),
        }
    }

    /// How far a window of `len` samples comes: a short one is not encoded.
    pub open spec fn last_phase(len: int) -> Phase {
        if len < MIN_SAMPLES {
            Phase::FrontEnd
        } else {
            Phase::Decoder
        }
    }

    /// What is reported for the window of `len` samples at `start` of a clip of
    /// `total` that comes as far as `phase`: the share done at its start and, once it
    /// is encoded, with a fifth of it done.
    pub open spec fn marks_in(start: int, len: int, total: int, phase: Phase) -> Seq<int> {
        match phase {
            Phase::FrontEnd | Phase::Encoder => seq![start * 100 / total],
            Phase::Decoder => seq![
                start * 100 / total,
                window_progress(start, len, 20, total),
            ],
        }
    }

    /// What is reported for such a window that is cancelled when it asks in `phase`:
    /// it asks before it is reported.
    pub open spec fn stop_marks(start: int, len: int, total: int, phase: Phase) -> Seq<int> {
        match phase {
            Phase::FrontEnd => Seq::empty(),
            _ => MoonshineEngine::marks_in(start, len, total, phase),
        }
    }

    /// What is reported for the windows.
    pub open spec fn marks(bounds: Seq<int>, total: int) -> Seq<int>
        decreases bounds.len(),
    {
        if bounds.len() <= 1 {
            Seq::empty()
        } else {
            let start = bounds[bounds.len() - 2];
            MoonshineEngine::marks(bounds.drop_last(), total) + MoonshineEngine::marks_in(
                start,
                bounds.last() - start,
                total,
                MoonshineEngine::last_phase(bounds.last() - start),
            )
        }
    }

    /// How often a window that comes as far as `phase`, and decodes to `ids`, asks
    /// whether to stop: before it, before the encoder and after each token.
    pub open spec fn asks_in(phase: Phase, ids: Seq<i32>) -> int {
        match phase {
            Phase::FrontEnd => 1,
            Phase::Encoder => 2,
            Phase::Decoder => 2 + ids.len() as int,
        }
    }

    /// How often the windows ask whether to stop.
    pub open spec fn asks(bounds: Seq<int>, said: Seq<Seq<i32>>) -> int
        decreases bounds.len(),
    {
        if bounds.len() <= 1 {
            0
        } else {
            MoonshineEngine::asks(bounds.drop_last(), said.drop_last()) + MoonshineEngine::asks_in(
                MoonshineEngine::last_phase(bounds.last() - bounds[bounds.len() - 2]),
                said.last(),
            )
        }
    }

    /// A window can end with `r` in `phase`, having decoded to `ids`: empty when it is
    /// too short, else through the front-end, the encoder and the decoder.
    pub open spec fn window_ends<
        F,
        E,
        S,
        P: Fn(&[Single]) -> Result<(F, Vec<i64>), Fault>,
        N: Fn(&F, Option<i32>) -> Result<(E, Vec<i64>), Fault>,
        D: Fn(&E, i32, i32) -> Result<Step<S>, Fault>,
        C: Fn(&E, i32, i32, S) -> Result<Step<S>, Fault>,
    >(
        &self,
        model: MoonshineModel<P, N, D, C>,
        clip: Seq<Single>,
        phase: Phase,
        ids: Seq<i32>,
        r: Result<ResultView, ErrorView>,
    ) -> bool {
        if clip.len() < MIN_SAMPLES {
            phase == Phase::FrontEnd && ids.len() == 0 && r == Ok::<_, ErrorView>(empty_result())
        } else {
            exists|answer: Result<(F, Vec<i64>), Fault>| #[trigger]
                preprocessed(model.preprocess, clip, answer) && (match answer {
                    Err(fault) => phase == Phase::FrontEnd && ids.len() == 0 && r == Err::<
                        ResultView,
                        _,
                    >(fault_error(fault)),
                    Ok((features, shape)) => self.features_end::<F, E, S, P, N, D, C>(
                        model,
                        features,
                        shape@,
                        phase,
                        ids,
                        r,
                    ),
                })
        }
    }

    /// A window can end with `r` in `phase`, having decoded to `ids`, once its
    /// features are there.
    pub open spec fn features_end<
        F,
        E,
        S,
        P: Fn(&[Single]) -> Result<(F, Vec<i64>), Fault>,
        N: Fn(&F, Option<i32>) -> Result<(E, Vec<i64>), Fault>,
        D: Fn(&E, i32, i32) -> Result<Step<S>, Fault>,
        C: Fn(&E, i32, i32, S) -> Result<Step<S>, Fault>,
    >(
        &self,
        model: MoonshineModel<P, N, D, C>,
        features: F,
        shape: Seq<i64>,
        phase: Phase,
        ids: Seq<i32>,
        r: Result<ResultView, ErrorView>,
    ) -> bool {
        exists|answer: Result<(E, Vec<i64>), Fault>| #[trigger]
            call_ensures(model.encode, (&features, self.length_input(shape)), answer) && (
            match answer {
                Err(fault) => phase == Phase::Encoder && ids.len() == 0 && r == Err::<
                    ResultView,
                    _,
                >(fault_error(fault)),
                Ok((encoded, out_shape)) => phase == Phase::Decoder && (match r {
                    Ok(result) => self.decodes::<E, S, D, C>(
                        model.first,
                        model.next,
                        encoded,
                        step_cap(dim_at(out_shape@, 1)),
                        ids,
                    ) && result == self.ids_result(ids),
                    Err(e) => self.decoding_fails::<E, S, D, C>(
                        model.first,
                        model.next,
                        encoded,
                        step_cap(dim_at(out_shape@, 1)),
                        ids,
                        e,
                    ),
                }),
            })
    }

    /// A window can be cancelled in `phase`, having decoded to `ids`: before it,
    /// before the encoder once its features are there, or after a token.
    pub open spec fn window_stops<
        F,
        E,
        S,
        P: Fn(&[Single]) -> Result<(F, Vec<i64>), Fault>,
        N: Fn(&F, Option<i32>) -> Result<(E, Vec<i64>), Fault>,
        D: Fn(&E, i32, i32) -> Result<Step<S>, Fault>,
        C: Fn(&E, i32, i32, S) -> Result<Step<S>, Fault>,
    >(
        &self,
        model: MoonshineModel<P, N, D, C>,
        clip: Seq<Single>,
        phase: Phase,
        ids: Seq<i32>,
    ) -> bool {
        match phase {
            Phase::FrontEnd => ids.len() == 0,
            Phase::Encoder => ids.len() == 0 && clip.len() >= MIN_SAMPLES && exists|
                features: F,
                shape: Vec<i64>,
            | #[trigger]
                preprocessed(model.preprocess, clip, Ok((features, shape))),
            Phase::Decoder => clip.len() >= MIN_SAMPLES && exists|features: F, shape: Vec<i64>|
                #[trigger]
                preprocessed(model.preprocess, clip, Ok((features, shape)))
                    && self.features_stop::<F, E, S, P, N, D, C>(model, features, shape@, ids),
        }
    }

    /// A window can be cancelled, having decoded to `ids`, once its features are
    /// there.
    pub open spec fn features_stop<
        F,
        E,
        S,
        P: Fn(&[Single]) -> Result<(F, Vec<i64>), Fault>,
        N: Fn(&F, Option<i32>) -> Result<(E, Vec<i64>), Fault>,
        D: Fn(&E, i32, i32) -> Result<Step<S>, Fault>,
        C: Fn(&E, i32, i32, S) -> Result<Step<S>, Fault>,
    >(
        &self,
        model: MoonshineModel<P, N, D, C>,
        features: F,
        shape: Seq<i64>,
        ids: Seq<i32>,
    ) -> bool {
        exists|encoded: E, out_shape: Vec<i64>| #[trigger]
            call_ensures(
                model.encode,
                (&features, self.length_input(shape)),
                Ok((encoded, out_shape)),
            ) && self.decoding_stops::<E, S, D, C>(
                model.first,
                model.next,
                encoded,
                step_cap(dim_at(out_shape@, 1)),
                ids,
            )
    }

    /// `parts` are results of the windows of `audio` that `bounds` gives, which
    /// decoded to the tokens `said`.
    pub open spec fn windows_end<
        F,
        E,
        S,
        P: Fn(&[Single]) -> Result<(F, Vec<i64>), Fault>,
        N: Fn(&F, Option<i32>) -> Result<(E, Vec<i64>), Fault>,
        D: Fn(&E, i32, i32) -> Result<Step<S>, Fault>,
        C: Fn(&E, i32, i32, S) -> Result<Step<S>, Fault>,
    >(
        &self,
        model: MoonshineModel<P, N, D, C>,
        audio: Seq<Single>,
        bounds: Seq<int>,
        said: Seq<Seq<i32>>,
        parts: Seq<ResultView>,
    ) -> bool {
        &&& parts.len() == bounds.len() - 1
        &&& said.len() == parts.len()
        &&& forall|i: int|
            0 <= i < parts.len() ==> self.window_ends::<F, E, S, P, N, D, C>(
                model,
                window(audio, bounds, i),
                MoonshineEngine::last_phase(window(audio, bounds, i).len() as int),
                said[i],
                Ok(#[trigger] parts[i]),
            )
    }

    /// Some window of `audio` can end with the error `e` after those before it
    /// succeeded, which is how far `monitor` followed it.
    pub open spec fn window_fails<
        L: Fn(&[Single]) -> Single,
        F,
        E,
        S,
        P: Fn(&[Single]) -> Result<(F, Vec<i64>), Fault>,
        N: Fn(&F, Option<i32>) -> Result<(E, Vec<i64>), Fault>,
        D: Fn(&E, i32, i32) -> Result<Step<S>, Fault>,
        C: Fn(&E, i32, i32, S) -> Result<Step<S>, Fault>,
    >(
        &self,
        rms: L,
        model: MoonshineModel<P, N, D, C>,
        audio: Seq<Single>,
        monitor: Monitor<'_>,
        e: ErrorView,
    ) -> bool {
        exists|
            bounds: Seq<int>,
            said: Seq<Seq<i32>>,
            parts: Seq<ResultView>,
            len: int,
            phase: Phase,
            ids: Seq<i32>,
        |
            {
                &&& cut_from(rms, audio, bounds)
                &&& #[trigger] self.windows_end::<F, E, S, P, N, D, C>(
                    model,
                    audio,
                    bounds,
                    said,
                    parts,
                )
                &&& #[trigger] window_cut(rms, audio.skip(bounds.last()), len)
                &&& #[trigger] self.window_ends::<F, E, S, P, N, D, C>(
                    model,
                    audio.subrange(bounds.last(), bounds.last() + len),
                    phase,
                    ids,
                    Err(e),
                )
                &&& monitor.followed(
                    MoonshineEngine::marks(bounds, audio.len() as int)
                        + MoonshineEngine::marks_in(
                        bounds.last(),
                        len,
                        audio.len() as int,
                        phase,
                    ),
                    MoonshineEngine::asks(bounds, said) + MoonshineEngine::asks_in(phase, ids),
                )
            }
    }

    /// A transcription was cancelled in some window of `audio` after those before it
    /// succeeded, which is how far `monitor` followed it.
    pub open spec fn window_cancelled<
        L: Fn(&[Single]) -> Single,
        F,
        E,
        S,
        P: Fn(&[Single]) -> Result<(F, Vec<i64>), Fault>,
        N: Fn(&F, Option<i32>) -> Result<(E, Vec<i64>), Fault>,
        D: Fn(&E, i32, i32) -> Result<Step<S>, Fault>,
        C: Fn(&E, i32, i32, S) -> Result<Step<S>, Fault>,
    >(
        &self,
        rms: L,
        model: MoonshineModel<P, N, D, C>,
        audio: Seq<Single>,
        monitor: Monitor<'_>,
    ) -> bool {
        exists|
            bounds: Seq<int>,
            said: Seq<Seq<i32>>,
            parts: Seq<ResultView>,
            len: int,
            phase: Phase,
            ids: Seq<i32>,
        |
            {
                &&& cut_from(rms, audio, bounds)
                &&& bounds.last() < audio.len()
                &&& #[trigger] self.windows_end::<F, E, S, P, N, D, C>(
                    model,
                    audio,
                    bounds,
                    said,
                    parts,
                )
                &&& #[trigger] window_cut(rms, audio.skip(bounds.last()), len)
                &&& #[trigger] self.window_stops::<F, E, S, P, N, D, C>(
                    model,
                    audio.subrange(bounds.last(), bounds.last() + len),
                    phase,
                    ids,
                )
                &&& monitor.followed(
                    MoonshineEngine::marks(bounds, audio.len() as int)
                        + MoonshineEngine::stop_marks(
                        bounds.last(),
                        len,
                        audio.len() as int,
                        phase,
                    ),
                    MoonshineEngine::asks(bounds, said) + MoonshineEngine::asks_in(phase, ids),
                )
            }
    }

    proof fn lemma_window_added<
        F,
        E,
        S,
        P: Fn(&[Single]) -> Result<(F, Vec<i64>), Fault>,
        N: Fn(&F, Option<i32>) -> Result<(E, Vec<i64>), Fault>,
        D: Fn(&E, i32, i32) -> Result<Step<S>, Fault>,
        C: Fn(&E, i32, i32, S) -> Result<Step<S>, Fault>,
    >(
        &self,
        model: MoonshineModel<P, N, D, C>,
        audio: Seq<Single>,
        bounds: Seq<int>,
        said: Seq<Seq<i32>>,
        parts: Seq<ResultView>,
        end: int,
        ids: Seq<i32>,
        part: ResultView,
    )
        requires
            bounds.len() >= 1,
            self.windows_end::<F, E, S, P, N, D, C>(model, audio, bounds, said, parts),
            self.window_ends::<F, E, S, P, N, D, C>(
                model,
                audio.subrange(bounds.last(), end),
                MoonshineEngine::last_phase(audio.subrange(bounds.last(), end).len() as int),
                ids,
                Ok(part),
            ),
        ensures
            self.windows_end::<F, E, S, P, N, D, C>(
                model,
                audio,
                bounds.push(end),
                said.push(ids),
                parts.push(part),
            ),
    {
        let next = bounds.push(end);
        let more = parts.push(part);
        assert forall|i: int| 0 <= i < more.len() implies self.window_ends::<F, E, S, P, N, D, C>(
            model,
            window(audio, next, i),
            MoonshineEngine::last_phase(window(audio, next, i).len() as int),
            said.push(ids)[i],
            Ok(#[trigger] more[i]),
        ) by {
            if i < parts.len() {
                assert(more[i] == parts[i]);
                assert(window(audio, next, i) == window(audio, bounds, i));
            } else {
                assert(window(audio, next, i) == audio.subrange(bounds.last(), end));
            }
        }
    }

    /// Decode an encoder output, token by token. A cancellation is checked after
    /// each token.
    fn decode<
        E,
        S,
        D: Fn(&E, i32, i32) -> Result<Step<S>, Fault>,
        C: Fn(&E, i32, i32, S) -> Result<Step<S>, Fault>,
    >(
        &self,
        encoded: &E,
        cap: usize,
        monitor: &mut Monitor<'_>,
        first: &D,
        next: &C,
    ) -> (r: Result<Vec<i32>, AsrError>)
        requires
            old(monitor).heeded(),
            !old(monitor).stopped(),
            cap < i32::MAX,
            forall|e: &E, t: i32, n: i32| #[trigger] call_requires(*first, (e, t, n)),
            forall|e: &E, t: i32, n: i32, s: S| #[trigger] call_requires(*next, (e, t, n, s)),
        ensures
            final(monitor).caller() == old(monitor).caller(),
            final(monitor).reported() == old(monitor).reported(),
            final(monitor).heeded(),
            final(monitor).asked() >= old(monitor).asked(),
            final(monitor).stopped() <==> (r matches Err(e) && e@ == ErrorView::Cancelled),
            r matches Ok(ids) ==> final(monitor).asked() == old(monitor).asked() + ids@.len(),
            r matches Ok(ids) ==> self.decodes::<E, S, D, C>(
                *first,
                *next,
                *encoded,
                cap as int,
                ids@,
            ),
            r matches Err(e) ==> if final(monitor).stopped() {
                exists|ids: Seq<i32>| #[trigger]
                    self.decoding_stops::<E, S, D, C>(*first, *next, *encoded, cap as int, ids)
                        && final(monitor).asked() == old(monitor).asked() + ids.len()
            } else {
                exists|ids: Seq<i32>| #[trigger]
                    self.decoding_fails::<E, S, D, C>(*first, *next, *encoded, cap as int, ids, e@)
                        && final(monitor).asked() == old(monitor).asked() + ids.len()
            },
    {
        let answer = first(encoded, self.sos, 1i32);
        let ghost given = answer;
        assert(call_ensures(*first, (encoded, self.sos, 1i32), given));
        let (id, states) = match take_step(answer) {
            Err(e) => {
                assert(self.decoding_fails::<E, S, D, C>(
                    *first,
                    *next,
                    *encoded,
                    cap as int,
                    Seq::empty(),
                    e@,
                ));
                return Err(e);
            },
            Ok(begun) => begun,
        };
        let mut id: i32 = id;
        let mut states: S = states;
        let mut generated: Vec<i32> = Vec::new();
        let mut seq_len: i32 = 1;
        let ghost was = *monitor;
        while generated.len() < cap && id != self.eos
            invariant
                cap < i32::MAX,
                was == *old(monitor),
                monitor.caller() == was.caller(),
                monitor.reported() == was.reported(),
                monitor.asked() == was.asked() + generated@.len(),
                monitor.heeded(),
                !monitor.stopped(),
                generated@.len() <= cap,
                seq_len == generated@.len() + 1,
                self.reached::<E, S, D, C>(
                    *first,
                    *next,
                    *encoded,
                    generated@.len(),
                    generated@,
                    id,
                    states,
                ),
                forall|e: &E, t: i32, n: i32, s: S| #[trigger] call_requires(*next, (e, t, n, s)),
            decreases cap - generated@.len(),
        {
            let ghost held = generated@;
            let ghost last = id;
            let ghost before = states;
            generated.push(id);
            assert(generated@.drop_last() =~= held);
            assert(self.decoding_at::<E, S, D, C>(
                *first,
                *next,
                *encoded,
                cap as int,
                generated@,
                before,
            ));
            if monitor.cancelled() {
                assert(self.decoding_stops::<E, S, D, C>(
                    *first,
                    *next,
                    *encoded,
                    cap as int,
                    generated@,
                ));
                return Err(AsrError::Cancelled);
            }
            seq_len = seq_len + 1;
            let answer = next(encoded, id, seq_len, states);
            let ghost given = answer;
            assert(call_ensures(
                *next,
                (encoded, last, (held.len() + 2) as i32, before),
                given,
            ));
            match take_step(answer) {
                Err(e) => {
                    assert(call_ensures(
                        *next,
                        (encoded, generated@.last(), (generated@.len() + 1) as i32, before),
                        given,
                    ));
                    assert(self.decoding_fails::<E, S, D, C>(
                        *first,
                        *next,
                        *encoded,
                        cap as int,
                        generated@,
                        e@,
                    ));
                    return Err(e);
                },
                Ok((new_id, new_states)) => {
                    proof {
                        let k = generated@.len();
                        assert((k - 1) as nat == held.len());
                        assert((k + 1) as i32 == (held.len() + 2) as i32);
                        assert(call_ensures(
                            *next,
                            (encoded, last, (k + 1) as i32, before),
                            given,
                        ));
                        assert(self.reached::<E, S, D, C>(
                            *first,
                            *next,
                            *encoded,
                            k,
                            generated@,
                            new_id,
                            new_states,
                        ));
                    }
                    id = new_id;
                    states = new_states;
                },
            }
        }
        assert(self.reached::<E, S, D, C>(
            *first,
            *next,
            *encoded,
            generated@.len(),
            generated@,
            id,
            states,
        ));
        Ok(generated)
    }

    /// Transcribe one window, which starts at sample `start` of a clip of `total`.
    fn transcribe_window<
        F,
        E,
        S,
        P: Fn(&[Single]) -> Result<(F, Vec<i64>), Fault>,
        N: Fn(&F, Option<i32>) -> Result<(E, Vec<i64>), Fault>,
        D: Fn(&E, i32, i32) -> Result<Step<S>, Fault>,
        C: Fn(&E, i32, i32, S) -> Result<Step<S>, Fault>,
    >(
        &self,
        clip: &[Single],
        start: usize,
        total: usize,
        monitor: &mut Monitor<'_>,
        model: &MoonshineModel<P, N, D, C>,
    ) -> (r: Result<TranscriptionResult, AsrError>)
        requires
            clip@.len() <= SINGLE_WINDOW_MAX_SAMPLES,
            start + clip@.len() <= total,
            total > 0,
            old(monitor).running(*old(monitor), start as int * 100 / (total as int)),
            callable::<F, E, S, P, N, D, C>(*model),
        ensures
            final(monitor).caller() == old(monitor).caller(),
            climbing(final(monitor).reported()),
            level(final(monitor).reported()) <= (start + clip@.len()) * 100 / (total as int),
            final(monitor).stopped() <==> outcome(r) == Err::<ResultView, _>(ErrorView::Cancelled),
            final(monitor).heeded(),
            final(monitor).asked() > old(monitor).asked(),
            !final(monitor).stopped() ==> exists|phase: Phase, ids: Seq<i32>| #[trigger]
                self.window_ends::<F, E, S, P, N, D, C>(*model, clip@, phase, ids, outcome(r))
                    && final(monitor).followed(
                    old(monitor).reported() + MoonshineEngine::marks_in(
                        start as int,
                        clip@.len() as int,
                        total as int,
                        phase,
                    ),
                    old(monitor).asked() + MoonshineEngine::asks_in(phase, ids),
                ),
            final(monitor).stopped() ==> exists|phase: Phase, ids: Seq<i32>| #[trigger]
                self.window_stops::<F, E, S, P, N, D, C>(*model, clip@, phase, ids)
                    && final(monitor).followed(
                    old(monitor).reported() + MoonshineEngine::stop_marks(
                        start as int,
                        clip@.len() as int,
                        total as int,
                        phase,
                    ),
                    old(monitor).asked() + MoonshineEngine::asks_in(phase, ids),
                ),
    {
        let ghost none: Seq<i32> = Seq::empty();
        if monitor.cancelled() {
            proof {
                law_progress(start as int, clip@.len() as int, 0, total as int);
                assert(self.window_stops::<F, E, S, P, N, D, C>(
                    *model,
                    clip@,
                    Phase::FrontEnd,
                    none,
                ));
            }
            return Err(AsrError::Cancelled);
        }
        let begun: u8 = progress_at(start, clip.len(), 0, total);
        proof {
            law_progress(start as int, clip@.len() as int, 0, total as int);
            law_progress(start as int, clip@.len() as int, 20, total as int);
            lemma_climbs(monitor.reported(), begun as int);
        }
        monitor.report(begun);
        if clip.len() < MIN_SAMPLES {
            let nothing = TranscriptionResult::default();
            assert(self.window_ends::<F, E, S, P, N, D, C>(
                *model,
                clip@,
                Phase::FrontEnd,
                none,
                Ok(nothing@),
            ));
            return Ok(nothing);
        }
        let answer = (model.preprocess)(clip);
        assert(preprocessed(model.preprocess, clip@, answer));
        let (features, shape) = match answer {
            Err(fault) => {
                let e = fault_message(&fault);
                assert(self.window_ends::<F, E, S, P, N, D, C>(
                    *model,
                    clip@,
                    Phase::FrontEnd,
                    none,
                    Err(e@),
                ));
                return Err(e);
            },
            Ok(out) => out,
        };
        let frames: usize = shape_dim(shape.as_slice(), 1);
        if monitor.cancelled() {
            assert(preprocessed(model.preprocess, clip@, Ok((features, shape))));
            assert(self.window_stops::<F, E, S, P, N, D, C>(
                *model,
                clip@,
                Phase::Encoder,
                none,
            ));
            return Err(AsrError::Cancelled);
        }
        let length: Option<i32> = if self.enc_in.len() == 2 {
            Some(#[verifier::truncate] (frames as i32))
        } else {
            None
        };
        assert(length == self.length_input(shape@));
        let answer = (model.encode)(&features, length);
        assert(call_ensures(model.encode, (&features, self.length_input(shape@)), answer));
        let (encoded, out_shape) = match answer {
            Err(fault) => {
                let e = fault_message(&fault);
                assert(self.features_end::<F, E, S, P, N, D, C>(
                    *model,
                    features,
                    shape@,
                    Phase::Encoder,
                    none,
                    Err(e@),
                ));
                assert(self.window_ends::<F, E, S, P, N, D, C>(
                    *model,
                    clip@,
                    Phase::Encoder,
                    none,
                    Err(e@),
                ));
                return Err(e);
            },
            Ok(out) => out,
        };
        let cap: usize = decode_step_cap(shape_dim(out_shape.as_slice(), 1));
        let encoded_pct: u8 = progress_at(start, clip.len(), 20, total);
        proof {
            lemma_climbs(monitor.reported(), encoded_pct as int);
        }
        monitor.report(encoded_pct);
        let ghost then = *monitor;
        match self.decode(&encoded, cap, monitor, &model.first, &model.next) {
            Err(e) => {
                proof {
                    if e@ != ErrorView::Cancelled {
                        let ids = choose|ids: Seq<i32>| #[trigger]
                            self.decoding_fails::<E, S, D, C>(
                                model.first,
                                model.next,
                                encoded,
                                cap as int,
                                ids,
                                e@,
                            ) && monitor.asked() == then.asked() + ids.len();
                        assert(self.features_end::<F, E, S, P, N, D, C>(
                            *model,
                            features,
                            shape@,
                            Phase::Decoder,
                            ids,
                            Err(e@),
                        ));
                        assert(self.window_ends::<F, E, S, P, N, D, C>(
                            *model,
                            clip@,
                            Phase::Decoder,
                            ids,
                            Err(e@),
                        ));
                    } else {
                        let ids = choose|ids: Seq<i32>| #[trigger]
                            self.decoding_stops::<E, S, D, C>(
                                model.first,
                                model.next,
                                encoded,
                                cap as int,
                                ids,
                            ) && monitor.asked() == then.asked() + ids.len();
                        assert(call_ensures(
                            model.encode,
                            (&features, self.length_input(shape@)),
                            Ok((encoded, out_shape)),
                        ));
                        assert(self.features_stop::<F, E, S, P, N, D, C>(
                            *model,
                            features,
                            shape@,
                            ids,
                        ));
                        assert(preprocessed(model.preprocess, clip@, Ok((features, shape))));
                        assert(self.window_stops::<F, E, S, P, N, D, C>(
                            *model,
                            clip@,
                            Phase::Decoder,
                            ids,
                        ));
                    }
                }
                Err(e)
            },
            Ok(ids) => {
                let segments: Vec<Segment> = Vec::new();
                assert(segment_views(segments@) =~= Seq::<SegmentView>::empty());
                let result = TranscriptionResult {
                    text: tokens_to_text(ids.as_slice(), &self.tokens),
                    detected_language: Some("english".to_owned()),
                    segments,
                };
                assert(result@ == self.ids_result(ids@));
                assert(self.features_end::<F, E, S, P, N, D, C>(
                    *model,
                    features,
                    shape@,
                    Phase::Decoder,
                    ids@,
                    Ok(result@),
                ));
                assert(self.window_ends::<F, E, S, P, N, D, C>(
                    *model,
                    clip@,
                    Phase::Decoder,
                    ids@,
                    Ok(result@),
                ));
                Ok(result)
            },
        }
    }

    /// Transcribe `audio` under `monitor`, with `model` for the graphs and `rms` for
    /// the level of a block.
    ///
    /// A long clip is split into windows of 32 s at most, cut on the least-bad
    /// energy dip; each is transcribed on its own and the texts are joined.
    pub fn transcribe<
        L: Fn(&[Single]) -> Single,
        F,
        E,
        S,
        P: Fn(&[Single]) -> Result<(F, Vec<i64>), Fault>,
        N: Fn(&F, Option<i32>) -> Result<(E, Vec<i64>), Fault>,
        D: Fn(&E, i32, i32) -> Result<Step<S>, Fault>,
        C: Fn(&E, i32, i32, S) -> Result<Step<S>, Fault>,
    >(
        &self,
        audio: &[Single],
        _opts: &TranscribeOptions,
        monitor: &mut Monitor<'_>,
        rms: &L,
        model: &MoonshineModel<P, N, D, C>,
    ) -> (r: Result<TranscriptionResult, AsrError>)
        requires
            old(monitor).fresh(),
            measures_blocks(*rms),
            callable::<F, E, S, P, N, D, C>(*model),
        ensures
            final(monitor).ended(*old(monitor), outcome(r)),
            audio@.len() == 0 ==> (r matches Ok(t) && t@ == empty_result())
                && final(monitor).followed(seq![100int], 0),
            audio@.len() > 0 ==> final(monitor).asked() > 0,
            audio@.len() > 0 ==> (r matches Ok(t) ==> exists|
                bounds: Seq<int>,
                said: Seq<Seq<i32>>,
                parts: Seq<ResultView>,
            |
                {
                    &&& windows_of(*rms, sanitized(audio@), bounds)
                    &&& #[trigger] self.windows_end::<F, E, S, P, N, D, C>(
                        *model,
                        sanitized(audio@),
                        bounds,
                        said,
                        parts,
                    )
                    &&& t@ == stitched(parts, bounds.drop_last())
                    &&& final(monitor).followed(
                        MoonshineEngine::marks(bounds, audio@.len() as int).push(100),
                        MoonshineEngine::asks(bounds, said),
                    )
                }),
            r matches Err(e) ==> if final(monitor).stopped() {
                e@ == ErrorView::Cancelled && self.window_cancelled::<L, F, E, S, P, N, D, C>(
                    *rms,
                    *model,
                    sanitized(audio@),
                    *final(monitor),
                )
            } else {
                self.window_fails::<L, F, E, S, P, N, D, C>(
                    *rms,
                    *model,
                    sanitized(audio@),
                    *final(monitor),
                    e@,
                )
            },
    {
        if audio.len() == 0 {
            proof {
                lemma_climbs(monitor.reported(), 100);
            }
            monitor.report(100);
            return Ok(TranscriptionResult::default());
        }
        let fixed = sanitize_audio(audio);
        self.transcribe_clean(samples(&fixed), monitor, rms, model)
    }

    /// Transcribe clean audio, window by window.
    fn transcribe_clean<
        L: Fn(&[Single]) -> Single,
        F,
        E,
        S,
        P: Fn(&[Single]) -> Result<(F, Vec<i64>), Fault>,
        N: Fn(&F, Option<i32>) -> Result<(E, Vec<i64>), Fault>,
        D: Fn(&E, i32, i32) -> Result<Step<S>, Fault>,
        C: Fn(&E, i32, i32, S) -> Result<Step<S>, Fault>,
    >(
        &self,
        audio: &[Single],
        monitor: &mut Monitor<'_>,
        rms: &L,
        model: &MoonshineModel<P, N, D, C>,
    ) -> (r: Result<TranscriptionResult, AsrError>)
        requires
            audio@.len() > 0,
            old(monitor).fresh(),
            measures_blocks(*rms),
            callable::<F, E, S, P, N, D, C>(*model),
        ensures
            final(monitor).ended(*old(monitor), outcome(r)),
            final(monitor).asked() > 0,
            r matches Ok(t) ==> exists|
                bounds: Seq<int>,
                said: Seq<Seq<i32>>,
                parts: Seq<ResultView>,
            |
                {
                    &&& windows_of(*rms, audio@, bounds)
                    &&& #[trigger] self.windows_end::<F, E, S, P, N, D, C>(
                        *model,
                        audio@,
                        bounds,
                        said,
                        parts,
                    )
                    &&& t@ == stitched(parts, bounds.drop_last())
                    &&& final(monitor).followed(
                        MoonshineEngine::marks(bounds, audio@.len() as int).push(100),
                        MoonshineEngine::asks(bounds, said),
                    )
                },
            r matches Err(e) ==> if final(monitor).stopped() {
                e@ == ErrorView::Cancelled && self.window_cancelled::<L, F, E, S, P, N, D, C>(
                    *rms,
                    *model,
                    audio@,
                    *final(monitor),
                )
            } else {
                self.window_fails::<L, F, E, S, P, N, D, C>(
                    *rms,
                    *model,
                    audio@,
                    *final(monitor),
                    e@,
                )
            },
    {
        let total: usize = audio.len();
        let ghost before = *monitor;
        let mut walk = Walk::new(audio, rms);
        let ghost mut said: Seq<Seq<i32>> = Seq::empty();
        proof {
            lemma_share(0, 0, total as int);
        }
        while walk.start < total
            invariant
                total == audio@.len(),
                total > 0,
                before == *old(monitor),
                walk.inv(*rms, audio@),
                self.windows_end::<F, E, S, P, N, D, C>(
                    *model,
                    audio@,
                    walk.bounds@,
                    said,
                    walk.parts@,
                ),
                monitor.running(before, walk.start as int * 100 / (total as int)),
                walk.start > 0 ==> monitor.asked() > 0,
                monitor.followed(
                    MoonshineEngine::marks(walk.bounds@, total as int),
                    MoonshineEngine::asks(walk.bounds@, said),
                ),
                measures_blocks(*rms),
                callable::<F, E, S, P, N, D, C>(*model),
            decreases total - walk.start,
        {
            let len: usize = walk.next_len(audio, rms);
            let start: usize = walk.start;
            let clip: &[Single] = &audio[start..start + len];
            let ghost bounds = walk.bounds@;
            let ghost parts = walk.parts@;
            let ghost then = *monitor;
            assert(len <= SINGLE_WINDOW_MAX_SAMPLES) by {
                lemma_window_bound(*rms, audio@.skip(start as int), len as int);
            }
            assert(clip@ =~= audio@.subrange(bounds.last(), start + len));
            match self.transcribe_window::<F, E, S, P, N, D, C>(clip, start, total, monitor, model) {
                Err(e) => {
                    proof {
                        if e@ != ErrorView::Cancelled {
                            let (phase, ids) = choose|phase: Phase, ids: Seq<i32>| #[trigger]
                                self.window_ends::<F, E, S, P, N, D, C>(
                                    *model,
                                    clip@,
                                    phase,
                                    ids,
                                    Err(e@),
                                ) && monitor.followed(
                                    then.reported() + MoonshineEngine::marks_in(
                                        start as int,
                                        len as int,
                                        total as int,
                                        phase,
                                    ),
                                    then.asked() + MoonshineEngine::asks_in(phase, ids),
                                );
                            assert(self.window_ends::<F, E, S, P, N, D, C>(
                                *model,
                                audio@.subrange(bounds.last(), bounds.last() + len),
                                phase,
                                ids,
                                Err(e@),
                            ));
                            assert(self.window_fails::<L, F, E, S, P, N, D, C>(
                                *rms,
                                *model,
                                audio@,
                                *monitor,
                                e@,
                            ));
                        } else {
                            let (phase, ids) = choose|phase: Phase, ids: Seq<i32>| #[trigger]
                                self.window_stops::<F, E, S, P, N, D, C>(*model, clip@, phase, ids)
                                    && monitor.followed(
                                    then.reported() + MoonshineEngine::stop_marks(
                                        start as int,
                                        len as int,
                                        total as int,
                                        phase,
                                    ),
                                    then.asked() + MoonshineEngine::asks_in(phase, ids),
                                );
                            assert(self.window_stops::<F, E, S, P, N, D, C>(
                                *model,
                                audio@.subrange(bounds.last(), bounds.last() + len),
                                phase,
                                ids,
                            ));
                            assert(self.window_cancelled::<L, F, E, S, P, N, D, C>(
                                *rms,
                                *model,
                                audio@,
                                *monitor,
                            ));
                        }
                    }
                    return Err(e);
                },
                Ok(part) => {
                    proof {
                        let (phase, ids) = choose|phase: Phase, ids: Seq<i32>| #[trigger]
                            self.window_ends::<F, E, S, P, N, D, C>(
                                *model,
                                clip@,
                                phase,
                                ids,
                                Ok(part@),
                            ) && monitor.followed(
                                then.reported() + MoonshineEngine::marks_in(
                                    start as int,
                                    len as int,
                                    total as int,
                                    phase,
                                ),
                                then.asked() + MoonshineEngine::asks_in(phase, ids),
                            );
                        assert(phase == MoonshineEngine::last_phase(len as int));
                        self.lemma_window_added::<F, E, S, P, N, D, C>(
                            *model,
                            audio@,
                            bounds,
                            said,
                            parts,
                            start + len,
                            ids,
                            part@,
                        );
                        assert(bounds.push(start + len).drop_last() =~= bounds);
                        assert(said.push(ids).drop_last() =~= said);
                        said = said.push(ids);
                    }
                    walk.add_part(part, len, audio, rms);
                },
            }
        }
        proof {
            lemma_share(0, total as int, total as int);
            lemma_climbs(monitor.reported(), 100);
        }
        monitor.report(100);
        Ok(walk.whole)
    }
}

// --- laws -------------------------------------------------------------------------

/// At least one step is always allowed, and never more than six per second of
/// audio beyond that.
pub proof fn law_step_cap(frames: int)
    requires
        0 <= frames,
    ensures
        step_cap(frames) >= 1,
        step_cap(frames) > 1 ==> step_cap(frames) * 16_000 <= frames * 384 * 6,
        frames * 384 * 6 < (step_cap(frames) + 1) * 16_000,
{
}

/// What is decoded never holds the end token and never exceeds the cap.
pub proof fn law_decoded_tokens<
    E,
    S,
    D: Fn(&E, i32, i32) -> Result<Step<S>, Fault>,
    C: Fn(&E, i32, i32, S) -> Result<Step<S>, Fault>,
>(engine: MoonshineEngine, first: D, next: C, encoded: E, cap: int, ids: Seq<i32>)
    requires
        engine.decodes::<E, S, D, C>(first, next, encoded, cap, ids),
    ensures
        ids.len() <= cap,
        forall|i: int| 0 <= i < ids.len() ==> #[trigger] ids[i] != engine.eos,
{
    let (id, states) = choose|id: i32, states: S|
        ids.len() <= cap && (id == engine.eos || ids.len() == cap) && #[trigger] engine.reached::<
            E,
            S,
            D,
            C,
        >(first, next, encoded, ids.len(), ids, id, states);
    lemma_reached_tokens::<E, S, D, C>(engine, first, next, encoded, ids.len(), ids, id, states);
}

proof fn lemma_reached_tokens<
    E,
    S,
    D: Fn(&E, i32, i32) -> Result<Step<S>, Fault>,
    C: Fn(&E, i32, i32, S) -> Result<Step<S>, Fault>,
>(
    engine: MoonshineEngine,
    first: D,
    next: C,
    encoded: E,
    k: nat,
    ids: Seq<i32>,
    id: i32,
    states: S,
)
    requires
        engine.reached::<E, S, D, C>(first, next, encoded, k, ids, id, states),
    ensures
        ids.len() == k,
        forall|i: int| 0 <= i < ids.len() ==> #[trigger] ids[i] != engine.eos,
    decreases k,
{
    if k > 0 {
        let (last, before, answer) = choose|last: i32, before: S, answer: Result<Step<S>, Fault>|
            {
                &&& #[trigger] call_ensures(
                    next,
                    (&encoded, last, (k + 1) as i32, before),
                    answer,
                )
                &&& engine.reached::<E, S, D, C>(
                    first,
                    next,
                    encoded,
                    (k - 1) as nat,
                    ids.drop_last(),
                    last,
                    before,
                )
                &&& ids.len() > 0
                &&& ids.last() == last
                &&& last != engine.eos
                &&& stepped(answer) == Ok::<_, ErrorView>((id, states))
            };
        lemma_reached_tokens::<E, S, D, C>(
            engine,
            first,
            next,
            encoded,
            (k - 1) as nat,
            ids.drop_last(),
            last,
            before,
        );
        assert forall|i: int| 0 <= i < ids.len() implies #[trigger] ids[i] != engine.eos by {
            if i < ids.len() - 1 {
                assert(ids[i] == ids.drop_last()[i]);
            }
        }
    }
}

/// The text of a transcript has no white space at either end.
pub proof fn law_transcript_is_tidy<
    F,
    E,
    S,
    P: Fn(&[Single]) -> Result<(F, Vec<i64>), Fault>,
    N: Fn(&F, Option<i32>) -> Result<(E, Vec<i64>), Fault>,
    D: Fn(&E, i32, i32) -> Result<Step<S>, Fault>,
    C: Fn(&E, i32, i32, S) -> Result<Step<S>, Fault>,
>(
    engine: MoonshineEngine,
    model: MoonshineModel<P, N, D, C>,
    audio: Seq<Single>,
    bounds: Seq<int>,
    said: Seq<Seq<i32>>,
    parts: Seq<ResultView>,
)
    requires
        engine.windows_end::<F, E, S, P, N, D, C>(model, audio, bounds, said, parts),
    ensures
        tidy(stitched(parts, bounds.drop_last()).text),
{
    assert forall|i: int| 0 <= i < parts.len() implies tidy((#[trigger] parts[i]).text) by {
        let clip = window(audio, bounds, i);
        assert(engine.window_ends::<F, E, S, P, N, D, C>(
            model,
            clip,
            MoonshineEngine::last_phase(clip.len() as int),
            said[i],
            Ok(parts[i]),
        ));
        if clip.len() >= MIN_SAMPLES {
            assert(parts[i] == engine.ids_result(said[i]));
            law_tidy_is_trimmed(
                crate::text::lossy_text(
                    crate::tokens::joined_bytes(ints(said[i]), views(engine.tokens@)),
                ),
            );
        }
    }
    law_stitched_text_is_tidy(parts, bounds.drop_last());
}

/// `id` is the first of the greatest of `logits`; the first of all when that is a NaN.
pub open spec fn best_token(logits: Seq<Single>, id: i32) -> bool {
    exists|y: int|
        {
            &&& 0 <= y < logits.len()
            &&& id == y as i32
            &&& logits[0].nan() ==> y == 0
            &&& !logits[0].nan() ==> forall|j: int|
                0 <= j < logits.len() ==> !(#[trigger] logits[j]).gt(logits[y]) && (j < y
                    ==> !logits[j].ge(#[trigger] logits[y]))
        }
}

/// Step `k` of decoding can be `step`: the first is given the start token, each later
/// one the token and the states that the step before it came up with.
pub open spec fn decoder_step<
    E,
    S,
    D: Fn(&E, i32, i32) -> Result<Step<S>, Fault>,
    C: Fn(&E, i32, i32, S) -> Result<Step<S>, Fault>,
>(
    first: D,
    next: C,
    encoded: E,
    start: i32,
    ids: Seq<i32>,
    steps: Seq<Step<S>>,
    k: int,
) -> bool {
    if k == 0 {
        call_ensures(first, (&encoded, start, 1i32), Ok(steps[0]))
    } else {
        call_ensures(
            next,
            (&encoded, ids[k - 1], (k + 1) as i32, steps[k - 1].states->Ok_0),
            Ok(steps[k]),
        )
    }
}

/// `ids` are what the decoder says: the best token of each of its steps, up to the end
/// token, which it does not hold, or to `cap` tokens.
pub open spec fn spoken_by<
    E,
    S,
    D: Fn(&E, i32, i32) -> Result<Step<S>, Fault>,
    C: Fn(&E, i32, i32, S) -> Result<Step<S>, Fault>,
>(engine: MoonshineEngine, first: D, next: C, encoded: E, cap: int, ids: Seq<i32>) -> bool {
    exists|steps: Seq<Step<S>>, last: i32|
        {
            &&& steps.len() == ids.len() + 1
            &&& ids.len() <= cap
            &&& forall|k: int|
                0 <= k < steps.len() ==> #[trigger] decoder_step::<E, S, D, C>(
                    first,
                    next,
                    encoded,
                    engine.sos,
                    ids,
                    steps,
                    k,
                )
            &&& forall|k: int|
                0 <= k < ids.len() ==> #[trigger] best_token(steps[k].logits@, ids[k]) && ids[k]
                    != engine.eos
            &&& #[trigger] best_token(steps.last().logits@, last)
            &&& last == engine.eos || ids.len() == cap
        }
}

/// Decoding says the best token of every step: see [`spoken_by`].
pub proof fn law_every_step_speaks<
    E,
    S,
    D: Fn(&E, i32, i32) -> Result<Step<S>, Fault>,
    C: Fn(&E, i32, i32, S) -> Result<Step<S>, Fault>,
>(engine: MoonshineEngine, first: D, next: C, encoded: E, cap: int, ids: Seq<i32>)
    requires
        engine.decodes::<E, S, D, C>(first, next, encoded, cap, ids),
    ensures
        spoken_by::<E, S, D, C>(engine, first, next, encoded, cap, ids),
{
    let (id, states) = choose|id: i32, states: S|
        ids.len() <= cap && (id == engine.eos || ids.len() == cap) && #[trigger] engine.reached::<
            E,
            S,
            D,
            C,
        >(first, next, encoded, ids.len(), ids, id, states);
    let steps = lemma_steps::<E, S, D, C>(
        engine,
        first,
        next,
        encoded,
        ids.len(),
        ids,
        id,
        states,
    );
    assert(best_token(steps.last().logits@, id));
}

proof fn lemma_steps<
    E,
    S,
    D: Fn(&E, i32, i32) -> Result<Step<S>, Fault>,
    C: Fn(&E, i32, i32, S) -> Result<Step<S>, Fault>,
>(
    engine: MoonshineEngine,
    first: D,
    next: C,
    encoded: E,
    k: nat,
    ids: Seq<i32>,
    id: i32,
    states: S,
) -> (steps: Seq<Step<S>>)
    requires
        engine.reached::<E, S, D, C>(first, next, encoded, k, ids, id, states),
    ensures
        ids.len() == k,
        steps.len() == k + 1,
        steps.last().states == Ok::<S, Fault>(states),
        best_token(steps.last().logits@, id),
        forall|j: int|
            0 <= j < steps.len() ==> #[trigger] decoder_step::<E, S, D, C>(
                first,
                next,
                encoded,
                engine.sos,
                ids,
                steps,
                j,
            ),
        forall|j: int|
            0 <= j < ids.len() ==> #[trigger] best_token(steps[j].logits@, ids[j]) && ids[j]
                != engine.eos,
    decreases k,
{
    if k == 0 {
        let answer = choose|answer: Result<Step<S>, Fault>| #[trigger]
            call_ensures(first, (&encoded, engine.sos, 1i32), answer) && stepped(answer) == Ok::<
                _,
                ErrorView,
            >((id, states));
        let step = answer->Ok_0;
        lemma_best_token(step.logits@);
        let steps = seq![step];
        assert(call_ensures(first, (&encoded, engine.sos, 1i32), Ok(step)));
        assert(decoder_step::<E, S, D, C>(first, next, encoded, engine.sos, ids, steps, 0));
        steps
    } else {
        let (last, before, answer) = choose|last: i32, before: S, answer: Result<Step<S>, Fault>|
            {
                &&& #[trigger] call_ensures(
                    next,
                    (&encoded, last, (k + 1) as i32, before),
                    answer,
                )
                &&& engine.reached::<E, S, D, C>(
                    first,
                    next,
                    encoded,
                    (k - 1) as nat,
                    ids.drop_last(),
                    last,
                    before,
                )
                &&& ids.len() > 0
                &&& ids.last() == last
                &&& last != engine.eos
                &&& stepped(answer) == Ok::<_, ErrorView>((id, states))
            };
        let known = lemma_steps::<E, S, D, C>(
            engine,
            first,
            next,
            encoded,
            (k - 1) as nat,
            ids.drop_last(),
            last,
            before,
        );
        let step = answer->Ok_0;
        lemma_best_token(step.logits@);
        let steps = known.push(step);
        assert forall|j: int| 0 <= j < steps.len() implies #[trigger] decoder_step::<E, S, D, C>(
            first,
            next,
            encoded,
            engine.sos,
            ids,
            steps,
            j,
        ) by {
            if j < known.len() {
                assert(decoder_step::<E, S, D, C>(
                    first,
                    next,
                    encoded,
                    engine.sos,
                    ids.drop_last(),
                    known,
                    j,
                ));
                assert(steps[j] == known[j]);
                if j > 0 {
                    assert(steps[j - 1] == known[j - 1]);
                    assert(ids[j - 1] == ids.drop_last()[j - 1]);
                }
            } else {
                assert(steps[j - 1] == known.last());
                assert(ids[j - 1] == last);
                assert(call_ensures(next, (&encoded, last, (j + 1) as i32, before), Ok(step)));
            }
        }
        assert forall|j: int| 0 <= j < ids.len() implies #[trigger] best_token(
            steps[j].logits@,
            ids[j],
        ) && ids[j] != engine.eos by {
            if j < ids.len() - 1 {
                assert(ids[j] == ids.drop_last()[j]);
                assert(best_token(known[j].logits@, ids.drop_last()[j]));
            } else {
                assert(steps[j] == known.last());
            }
        }
        steps
    }
}

proof fn lemma_best_token(logits: Seq<Single>)
    requires
        logits.len() > 0,
    ensures
        best_token(logits, best_of(logits) as i32),
{
    crate::single::law_best_is_peak(logits);
    let y = best_of(logits);
    assert(0 <= y < logits.len());
    if !logits[0].nan() {
        assert forall|j: int| 0 <= j < logits.len() implies !(#[trigger] logits[j]).gt(logits[y])
            && (j < y ==> !logits[j].ge(#[trigger] logits[y])) by {}
    }
}

/// The frames of a tensor of this shape: its second size, zero when there is none.
pub open spec fn frames_of(shape: Seq<i64>) -> int {
    if shape.len() >= 2 && shape[1] > 0 {
        shape[1] as int
    } else {
        0
    }
}

/// `part` is what the model says of a window: nothing when it is shorter than 512
/// samples, else the text of the tokens that its decoder says, in English, once the
/// front-end and the encoder have been through it. The decoder says no more than six
/// tokens for each second of encoder frames, of 384 samples each, but always one.
pub open spec fn said_of<
    F,
    E,
    S,
    P: Fn(&[Single]) -> Result<(F, Vec<i64>), Fault>,
    N: Fn(&F, Option<i32>) -> Result<(E, Vec<i64>), Fault>,
    D: Fn(&E, i32, i32) -> Result<Step<S>, Fault>,
    C: Fn(&E, i32, i32, S) -> Result<Step<S>, Fault>,
>(
    engine: MoonshineEngine,
    model: MoonshineModel<P, N, D, C>,
    clip: Seq<Single>,
    part: ResultView,
) -> bool {
    if clip.len() < 512 {
        part == empty_result()
    } else {
        exists|
            a: &[Single],
            features: F,
            shape: Vec<i64>,
            length: Option<i32>,
            encoded: E,
            out_shape: Vec<i64>,
            cap: int,
            ids: Seq<i32>,
        |
            {
                &&& a@ == clip
                &&& #[trigger] call_ensures(model.preprocess, (a,), Ok((features, shape)))
                &&& #[trigger] call_ensures(
                    model.encode,
                    (&features, length),
                    Ok((encoded, out_shape)),
                )
                &&& length == if engine.enc_in@.len() == 2 {
                    Some((frames_of(shape@) as usize) as i32)
                } else {
                    None
                }
                &&& 1 <= cap
                &&& cap > 1 ==> cap * 16_000 <= frames_of(out_shape@) * 384 * 6
                &&& frames_of(out_shape@) * 384 * 6 < (cap + 1) * 16_000
                &&& #[trigger] spoken_by::<E, S, D, C>(
                    engine,
                    model.first,
                    model.next,
                    encoded,
                    cap,
                    ids,
                )
                &&& part.text == detokenized(
                    ids.map_values(|id: i32| id as int),
                    views(engine.tokens@),
                )
                &&& part.detected_language == Some("english"@)
                &&& part.segments.len() == 0
            }
    }
}

/// What a call of [`MoonshineEngine::transcribe`] gives: windows tile the clean samples,
/// the model is handed each of them, and what it says of them is put in line.
pub proof fn law_transcribed_windows<
    L: Fn(&[Single]) -> Single,
    F,
    E,
    S,
    P: Fn(&[Single]) -> Result<(F, Vec<i64>), Fault>,
    N: Fn(&F, Option<i32>) -> Result<(E, Vec<i64>), Fault>,
    D: Fn(&E, i32, i32) -> Result<Step<S>, Fault>,
    C: Fn(&E, i32, i32, S) -> Result<Step<S>, Fault>,
>(
    engine: &MoonshineEngine,
    audio: &[Single],
    opts: &TranscribeOptions,
    rms: &L,
    model: &MoonshineModel<P, N, D, C>,
    t: TranscriptionResult,
)
    requires
        audio@.len() > 0,
        exists|m: &mut Monitor<'_>| #[trigger]
            call_ensures(
                MoonshineEngine::transcribe::<L, F, E, S, P, N, D, C>,
                (engine, audio, opts, m, rms, model),
                Ok(t),
            ),
    ensures
        exists|bounds: Seq<int>, parts: Seq<ResultView>|
            {
                &&& #[trigger] tiles(*rms, sanitized(audio@), bounds)
                &&& parts.len() == bounds.len() - 1
                &&& forall|i: int|
                    0 <= i < parts.len() ==> said_of::<F, E, S, P, N, D, C>(
                        *engine,
                        *model,
                        sanitized(audio@).subrange(bounds[i], bounds[i + 1]),
                        #[trigger] parts[i],
                    )
                &&& #[trigger] in_line(parts, bounds.drop_last(), t@)
            },
{
    let clean = sanitized(audio@);
    let (bounds, said, parts) = choose|
        bounds: Seq<int>,
        said: Seq<Seq<i32>>,
        parts: Seq<ResultView>,
    |
        {
            &&& windows_of(*rms, clean, bounds)
            &&& #[trigger] engine.windows_end::<F, E, S, P, N, D, C>(
                *model,
                clean,
                bounds,
                said,
                parts,
            )
            &&& t@ == stitched(parts, bounds.drop_last())
        };
    law_windows_tile(*rms, clean, bounds);
    law_stitched_in_line(parts, bounds.drop_last());
    assert forall|i: int| 0 <= i < parts.len() implies said_of::<F, E, S, P, N, D, C>(
        *engine,
        *model,
        clean.subrange(bounds[i], bounds[i + 1]),
        #[trigger] parts[i],
    ) by {
        lemma_said_of::<F, E, S, P, N, D, C>(
            *engine,
            *model,
            window(clean, bounds, i),
            said[i],
            parts[i],
        );
    }
}

proof fn lemma_said_of<
    F,
    E,
    S,
    P: Fn(&[Single]) -> Result<(F, Vec<i64>), Fault>,
    N: Fn(&F, Option<i32>) -> Result<(E, Vec<i64>), Fault>,
    D: Fn(&E, i32, i32) -> Result<Step<S>, Fault>,
    C: Fn(&E, i32, i32, S) -> Result<Step<S>, Fault>,
>(
    engine: MoonshineEngine,
    model: MoonshineModel<P, N, D, C>,
    clip: Seq<Single>,
    ids: Seq<i32>,
    part: ResultView,
)
    requires
        engine.window_ends::<F, E, S, P, N, D, C>(
            model,
            clip,
            MoonshineEngine::last_phase(clip.len() as int),
            ids,
            Ok(part),
        ),
    ensures
        said_of::<F, E, S, P, N, D, C>(engine, model, clip, part),
{
    if clip.len() >= 512 {
        let answer = choose|answer: Result<(F, Vec<i64>), Fault>| #[trigger]
            preprocessed(model.preprocess, clip, answer) && (match answer {
                Err(fault) => false,
                Ok((features, shape)) => engine.features_end::<F, E, S, P, N, D, C>(
                    model,
                    features,
                    shape@,
                    Phase::Decoder,
                    ids,
                    Ok(part),
                ),
            });
        let (features, shape) = answer->Ok_0;
        let a = choose|a: &[Single]|
            a@ == clip && #[trigger] call_ensures(model.preprocess, (a,), answer);
        let reply = choose|reply: Result<(E, Vec<i64>), Fault>| #[trigger]
            call_ensures(model.encode, (&features, engine.length_input(shape@)), reply) && (
            match reply {
                Err(fault) => false,
                Ok((encoded, out_shape)) => engine.decodes::<E, S, D, C>(
                    model.first,
                    model.next,
                    encoded,
                    step_cap(dim_at(out_shape@, 1)),
                    ids,
                ) && part == engine.ids_result(ids),
            });
        let (encoded, out_shape) = reply->Ok_0;
        let cap = step_cap(dim_at(out_shape@, 1));
        law_step_cap(dim_at(out_shape@, 1));
        assert(frames_of(shape@) == dim_at(shape@, 1));
        assert(frames_of(out_shape@) == dim_at(out_shape@, 1));
        assert(engine.length_input(shape@) == if engine.enc_in@.len() == 2 {
            Some((frames_of(shape@) as usize) as i32)
        } else {
            None
        });
        law_every_step_speaks::<E, S, D, C>(
            engine,
            model.first,
            model.next,
            encoded,
            step_cap(dim_at(out_shape@, 1)),
            ids,
        );
        assert(ids.map_values(|id: i32| id as int) =~= ints(ids));
        assert(call_ensures(model.preprocess, (a,), Ok((features, shape))));
        assert(call_ensures(
            model.encode,
            (&features, engine.length_input(shape@)),
            Ok((encoded, out_shape)),
        ));
    }
}

/// A call of [`MoonshineEngine::transcribe`] answers a requested cancellation with `Cancelled`,
/// and nothing else: on a clip with samples it does when the flag can only be read as
/// raised, and it never does when the flag cannot be, or is not there. An empty clip gives
/// an empty result. On success the caller's sink has received 100.
pub proof fn law_cancellation<
    L: Fn(&[Single]) -> Single,
    F,
    E,
    S,
    P: Fn(&[Single]) -> Result<(F, Vec<i64>), Fault>,
    N: Fn(&F, Option<i32>) -> Result<(E, Vec<i64>), Fault>,
    D: Fn(&E, i32, i32) -> Result<Step<S>, Fault>,
    C: Fn(&E, i32, i32, S) -> Result<Step<S>, Fault>,
>(
    engine: &MoonshineEngine,
    audio: &[Single],
    opts: &TranscribeOptions,
    control: TranscribeControl,
    rms: &L,
    model: &MoonshineModel<P, N, D, C>,
    r: Result<TranscriptionResult, AsrError>,
)
    requires
        exists|m: &mut Monitor<'_>|
            (*m).fresh() && (*m).caller() == control && #[trigger] call_ensures(
                MoonshineEngine::transcribe::<L, F, E, S, P, N, D, C>,
                (engine, audio, opts, m, rms, model),
                r,
            ),
    ensures
        audio@.len() == 0 ==> (r matches Ok(t) && t@ == empty_result()),
        audio@.len() > 0 && (control.cancel matches Some(flag) && !flag_reads(&flag, false)) ==> (
        r matches Err(e) && e@ == ErrorView::Cancelled),
        (control.cancel matches Some(flag) ==> !flag_reads(&flag, true)) ==> !(r matches Err(e)
            && e@ == ErrorView::Cancelled),
        r is Ok ==> (control.on_progress matches Some(sink) ==> sink.received(100)),
{
}

/// Success is owed: under a control that cannot say that the caller cancelled, and with
/// graphs that always answer, and whose steps come with logits and states, a call of
/// [`MoonshineEngine::transcribe`] succeeds.
pub proof fn law_success_is_owed<
    L: Fn(&[Single]) -> Single,
    F,
    E,
    S,
    P: Fn(&[Single]) -> Result<(F, Vec<i64>), Fault>,
    N: Fn(&F, Option<i32>) -> Result<(E, Vec<i64>), Fault>,
    D: Fn(&E, i32, i32) -> Result<Step<S>, Fault>,
    C: Fn(&E, i32, i32, S) -> Result<Step<S>, Fault>,
>(
    engine: &MoonshineEngine,
    audio: &[Single],
    opts: &TranscribeOptions,
    control: TranscribeControl,
    rms: &L,
    model: &MoonshineModel<P, N, D, C>,
    r: Result<TranscriptionResult, AsrError>,
)
    requires
        exists|m: &mut Monitor<'_>|
            (*m).fresh() && (*m).caller() == control && #[trigger] call_ensures(
                MoonshineEngine::transcribe::<L, F, E, S, P, N, D, C>,
                (engine, audio, opts, m, rms, model),
                r,
            ),
        control.cancel matches Some(flag) ==> !flag_reads(&flag, true),
        forall|a: &[Single], q: Result<(F, Vec<i64>), Fault>| #[trigger]
            call_ensures(model.preprocess, (a,), q) ==> q is Ok,
        forall|f: &F, n: Option<i32>, q: Result<(E, Vec<i64>), Fault>| #[trigger]
            call_ensures(model.encode, (f, n), q) ==> q is Ok,
        forall|e: &E, t: i32, n: i32, q: Result<Step<S>, Fault>| #[trigger]
            call_ensures(model.first, (e, t, n), q) ==> (q matches Ok(step) && step.logits@.len() > 0
                && step.states is Ok),
        forall|e: &E, t: i32, n: i32, s: S, q: Result<Step<S>, Fault>| #[trigger]
            call_ensures(model.next, (e, t, n, s), q) ==> (q matches Ok(step) && step.logits@.len()
                > 0 && step.states is Ok),
    ensures
        r is Ok,
{
}

/// A call of [`MoonshineEngine::load`] succeeds exactly on a complete export: a directory
/// that can be reached and holds the four models and `tokens.txt`, a vocabulary that is
/// not empty, and four graphs that open, with the inputs and outputs of such an export.
pub proof fn law_complete_export_loads(
    dir: &ModelDir,
    host: Host,
    tokens: &Result<String, String>,
    graphs: &MoonshineGraphs,
    r: Result<MoonshineEngine, AsrError>,
)
    requires
        call_ensures(MoonshineEngine::load, (dir, host, tokens, graphs), r),
    ensures
        r is Ok <==> {
            let g = *graphs;
            &&& reachable(*dir, host)
            &&& has_model(*dir, "preprocess"@) && has_model(*dir, "encode"@) && has_model(
                *dir,
                "uncached_decode"@,
            ) && has_model(*dir, "cached_decode"@)
            &&& exists|i: int|
                0 <= i < dir.files@.len() && (#[trigger] dir.files@[i])@ == "tokens.txt"@
            &&& tokens matches Ok(text) && token_table(text@).len() > 0
            &&& g.preprocess is Open && g.encode is Open && g.uncached is Open && g.cached is Open
            &&& g.preprocess->inputs@.len() == 1 && g.preprocess->outputs@.len() == 1
            &&& 1 <= g.encode->inputs@.len() <= 2 && g.encode->outputs@.len() == 1
            &&& g.uncached->inputs@.len() == 3 && g.uncached->outputs@.len() >= 2
            &&& g.cached->inputs@.len() == g.uncached->outputs@.len() + 2
            &&& g.cached->outputs@.len() == g.uncached->outputs@.len()
        },
        r matches Ok(engine) ==> views(engine.tokens@) == token_table(tokens->Ok_0@),
{
    law_held_models_are_found(*dir, host, "moonshine"@, "preprocess"@);
    law_held_models_are_found(*dir, host, "moonshine"@, "encode"@);
    law_held_models_are_found(*dir, host, "moonshine"@, "uncached_decode"@);
    law_held_models_are_found(*dir, host, "moonshine"@, "cached_decode"@);
}

} // verus!
