//! Zipformer transducer backend (ONNX models).
//!
//! Runs an offline **RNN-T (transducer)** zipformer model exported by sherpa-onnx /
//! icefall, split into three graphs: `encoder`, `decoder` (stateless, over the last
//! `context_size` tokens) and `joiner`, plus a `tokens.txt`.
//!
//! Decoding is **greedy** (one symbol per encoder frame): the joiner runs at each
//! encoder time step, the arg-max token is emitted when it is neither blank nor
//! `<unk>`, and the stateless decoder is re-run only after an emission. The initial
//! decoder context is `context_size` blanks, matching icefall's training-time
//! padding.
//!
//! Like the other backends, it has no beam search, no decoding prompt, no
//! translation and no internal VAD.
//!
//! # Model
//!
//! The **directory** of a sherpa-onnx offline zipformer transducer export: an
//! `*encoder*.onnx`, `*decoder*.onnx`, `*joiner*.onnx` (int8 variants preferred when
//! present) and `tokens.txt`.

use crate::engines::{samples, sanitize_audio, sanitized};
use crate::error::{AsrError, ErrorView};
use crate::model::{
    check_dir, check_graph, check_tokens_file, dir_error, ends, graph_error, inputs_of,
    law_held_models_are_found, meta_usize, reachable, tokens_file_error, usize_value, Graph, Host,
    Metadata, ModelDir, Tensor,
};
use crate::monitor::{lemma_climbs, lemma_share, Monitor};
use crate::single::{peak, Single};
use crate::stitch::{law_tidy_is_trimmed, tidy};
use crate::text::{
    bracketed, concat, contains_chars, debug_names, debug_text, decimal, decimal_usize, lower_chars,
    lowercase, matches_at, occurs, show_list, to_chars, trimmed, views,
};
use crate::tokens::{
    detokenize, detokenized, first_place, ids_fit, ints, joined_bytes, joined_text, load_tokens,
    loaded_tokens, plain, position, read_view, spaced, token_table,
};
use crate::types::{
    empty_result, flag_reads, outcome, segment_views, EngineCapabilities, LanguageSupport,
    LanguagesView, ResultView, Segment, SegmentView, TranscribeControl, TranscribeOptions,
    TranscriptionResult,
};
use vstd::prelude::*;
use vstd::string::*;
use vstd::utf8::{decode_utf8, valid_utf8};

verus! {

/// The blank id.
pub const BLANK_ID: i64 = 0;

/// The bit pattern of negative infinity.
pub const NEG_INFINITY_BITS: u32 = 0xff80_0000;

/// Frames between two progress reports.
pub const REPORT_EVERY: usize = 64;

// --- model files --------------------------------------------------------------------

/// An entry of a model directory.
#[derive(Debug, Clone)]
pub struct DirEntry {
    /// Its name.
    pub name: String,
    /// When it was last modified; a greater number is a later time.
    pub modified: u64,
}

/// The name is that of an ONNX file.
pub open spec fn is_onnx(name: Seq<char>) -> bool {
    name.len() > ".onnx"@.len() && name.skip(name.len() - ".onnx"@.len()) == ".onnx"@
}

/// The entry is an ONNX file whose name contains `keyword`.
pub open spec fn candidate(entry: DirEntry, keyword: Seq<char>) -> bool {
    is_onnx(entry.name@) && occurs(keyword, lowercase(entry.name@))
}

/// The entry is a quantized variant.
pub open spec fn quantized(entry: DirEntry) -> bool {
    occurs("int8"@, lowercase(entry.name@))
}

/// `a` is preferred to `b`: a quantized variant to one that is not, else the newer
/// one.
pub open spec fn preferred(a: DirEntry, b: DirEntry) -> bool {
    if quantized(a) == quantized(b) {
        a.modified > b.modified
    } else {
        quantized(a)
    }
}

/// `i` is the first of the candidates to which no other is preferred.
pub open spec fn chosen(entries: Seq<DirEntry>, keyword: Seq<char>, i: int) -> bool {
    &&& 0 <= i < entries.len()
    &&& candidate(entries[i], keyword)
    &&& forall|j: int|
        0 <= j < entries.len() && candidate(#[trigger] entries[j], keyword) ==> !preferred(
            entries[j],
            entries[i],
        )
    &&& forall|j: int|
        0 <= j < i && candidate(#[trigger] entries[j], keyword) ==> preferred(
            entries[i],
            entries[j],
        )
}

/// What reading a directory gave.
pub type Listing = Result<Vec<DirEntry>, String>;

/// How looking for a model file can end.
pub open spec fn found(
    listing: Listing,
    shown: Seq<char>,
    keyword: Seq<char>,
    r: Result<Seq<char>, ErrorView>,
) -> bool {
    match listing {
        Err(message) => r == Err::<Seq<char>, _>(
            ErrorView::Load("zipformer read dir "@ + shown + ": "@ + message@),
        ),
        Ok(entries) => match r {
            Ok(name) => exists|i: int| #[trigger]
                chosen(entries@, keyword, i) && name == entries@[i].name@,
            Err(e) => e == ErrorView::ModelNotFound("no *"@ + keyword + "*.onnx in "@ + shown)
                && forall|i: int|
                0 <= i < entries@.len() ==> !candidate(#[trigger] entries@[i], keyword),
        },
    }
}

/// There is at most one choice.
pub proof fn law_choice_is_unique(entries: Seq<DirEntry>, keyword: Seq<char>, i: int, j: int)
    requires
        chosen(entries, keyword, i),
        chosen(entries, keyword, j),
    ensures
        i == j,
{
    if i < j {
        assert(preferred(entries[j], entries[i]));
    }
    if j < i {
        assert(preferred(entries[i], entries[j]));
    }
}

/// A quantized variant is chosen whenever there is one.
pub proof fn law_quantized_is_chosen(entries: Seq<DirEntry>, keyword: Seq<char>, i: int, j: int)
    requires
        chosen(entries, keyword, i),
        0 <= j < entries.len(),
        candidate(entries[j], keyword),
        quantized(entries[j]),
    ensures
        quantized(entries[i]),
        entries[i].modified >= entries[j].modified,
{
    assert(!preferred(entries[j], entries[i]));
}

/// What a call of [`find_onnx`] gives: the name of an entry that is a candidate, a
/// quantized one whenever there is one, and among those alike the latest; and an error
/// only when there is no candidate.
pub proof fn law_found_file(
    entries: Vec<DirEntry>,
    shown: &str,
    keyword: &str,
    r: Result<String, AsrError>,
)
    requires
        call_ensures(find_onnx, (&Ok::<Vec<DirEntry>, String>(entries), shown, keyword), r),
    ensures
        r matches Ok(name) ==> exists|i: int|
            0 <= i < entries@.len() && (#[trigger] entries@[i]).name@ == name@ && best_candidate(
                entries@,
                keyword@,
                i,
            ),
        r is Err ==> forall|i: int|
            0 <= i < entries@.len() ==> !candidate(#[trigger] entries@[i], keyword@),
{
    let listing: Listing = Ok(entries);
    match r {
        Ok(name) => {
            assert(found(listing, shown@, keyword@, Ok(name@)));
            let i = choose|i: int| #[trigger]
                chosen(entries@, keyword@, i) && name@ == entries@[i].name@;
            assert(entries@[i].name@ == name@);
        },
        Err(e) => {
            assert(found(listing, shown@, keyword@, Err(e@)));
        },
    }
}

/// Entry `i` is a candidate, and no candidate is quantized where it is not, or as much
/// so and later.
pub open spec fn best_candidate(entries: Seq<DirEntry>, keyword: Seq<char>, i: int) -> bool {
    &&& candidate(entries[i], keyword)
    &&& forall|j: int|
        0 <= j < entries.len() && candidate(#[trigger] entries[j], keyword) ==> {
            &&& quantized(entries[j]) ==> quantized(entries[i])
            &&& quantized(entries[j]) == quantized(entries[i]) ==> entries[j].modified
                <= entries[i].modified
        }
}

fn check_onnx(name: &str) -> (r: bool)
    ensures
        r == is_onnx(name@),
{
    let chars = to_chars(name);
    let tail = to_chars(".onnx");
    if chars.len() <= tail.len() {
        return false;
    }
    let from: usize = chars.len() - tail.len();
    assert(chars@.subrange(from as int, from + tail@.len()) =~= name@.skip(
        name@.len() - ".onnx"@.len(),
    ));
    matches_at(chars.as_slice(), from, tail.as_slice())
}

fn check_candidate(entry: &DirEntry, keyword: &Vec<char>) -> (r: bool)
    ensures
        r == candidate(*entry, keyword@),
{
    let lower = lower_chars(entry.name.as_str());
    check_onnx(entry.name.as_str()) && contains_chars(lower.as_slice(), keyword.as_slice())
}

fn check_quantized(entry: &DirEntry) -> (r: bool)
    ensures
        r == quantized(*entry),
{
    let lower = lower_chars(entry.name.as_str());
    let mark = to_chars("int8");
    contains_chars(lower.as_slice(), mark.as_slice())
}

fn check_preferred(a: &DirEntry, b: &DirEntry) -> (r: bool)
    ensures
        r == preferred(*a, *b),
{
    let qa: bool = check_quantized(a);
    let qb: bool = check_quantized(b);
    if qa == qb {
        a.modified > b.modified
    } else {
        qa
    }
}

/// Find the newest `.onnx` file in a directory whose name contains `keyword`,
/// preferring an int8-quantized variant when both are present. Zipformer exports do
/// not use fixed file names (e.g. `encoder-epoch-99-avg-1.int8.onnx`), so they are
/// matched by substring rather than an exact stem. See [`chosen`].
pub fn find_onnx(listing: &Listing, shown: &str, keyword: &str) -> (r: Result<String, AsrError>)
    ensures
        found(
            *listing,
            shown@,
            keyword@,
            match r {
                Ok(name) => Ok(name@),
                Err(e) => Err(e@),
            },
        ),
{
    match listing {
        Err(message) => {
            let a = concat("zipformer read dir ", shown);
            let b = concat(a.as_str(), ": ");
            Err(AsrError::Load(concat(b.as_str(), message.as_str())))
        },
        Ok(entries) => {
            let key = to_chars(keyword);
            let n: usize = entries.len();
            let mut best: Option<usize> = None;
            let mut i: usize = 0;
            while i < n
                invariant
                    n == entries@.len(),
                    i <= n,
                    key@ == keyword@,
                    best matches Some(b) ==> b < i && chosen(
                        entries@.take(i as int),
                        keyword@,
                        b as int,
                    ),
                    best is None ==> forall|j: int|
                        0 <= j < i ==> !candidate(#[trigger] entries@[j], keyword@),
                decreases n - i,
            {
                let ghost seen = entries@.take(i as int);
                let ghost more = entries@.take(i + 1);
                assert(forall|j: int| 0 <= j < i ==> #[trigger] more[j] == seen[j]);
                assert(forall|j: int| 0 <= j < i ==> #[trigger] more[j] == entries@[j]);
                assert(more[i as int] == entries@[i as int]);
                if check_candidate(&entries[i], &key) {
                    match best {
                        None => {
                            best = Some(i);
                            assert(chosen(more, keyword@, i as int));
                        },
                        Some(b) => {
                            assert(more[b as int] == seen[b as int]);
                            if check_preferred(&entries[i], &entries[b]) {
                                best = Some(i);
                                assert forall|j: int|
                                    0 <= j < i && candidate(
                                        #[trigger] more[j],
                                        keyword@,
                                    ) implies preferred(more[i as int], more[j]) by {
                                    assert(!preferred(seen[j], seen[b as int]));
                                }
                                assert(chosen(more, keyword@, i as int));
                            } else {
                                assert forall|j: int|
                                    0 <= j < b && candidate(
                                        #[trigger] more[j],
                                        keyword@,
                                    ) implies preferred(more[b as int], more[j]) by {
                                    assert(seen[j] == more[j]);
                                }
                                assert forall|j: int|
                                    0 <= j < more.len() && candidate(
                                        #[trigger] more[j],
                                        keyword@,
                                    ) implies !preferred(more[j], more[b as int]) by {
                                    if j < i {
                                        assert(seen[j] == more[j]);
                                    }
                                }
                                assert(chosen(more, keyword@, b as int));
                            }
                        },
                    }
                } else {
                    proof {
                        if let Some(b) = best {
                            assert(more[b as int] == seen[b as int]);
                            assert forall|j: int|
                                0 <= j < b && candidate(
                                    #[trigger] more[j],
                                    keyword@,
                                ) implies preferred(more[b as int], more[j]) by {
                                assert(seen[j] == more[j]);
                            }
                            assert forall|j: int|
                                0 <= j < more.len() && candidate(
                                    #[trigger] more[j],
                                    keyword@,
                                ) implies !preferred(more[j], more[b as int]) by {
                                if j < i {
                                    assert(seen[j] == more[j]);
                                }
                            }
                            assert(chosen(more, keyword@, b as int));
                        }
                    }
                }
                i += 1;
            }
            assert(entries@.take(n as int) =~= entries@);
            match best {
                Some(b) => {
                    assert(chosen(entries@, keyword@, b as int));
                    Ok(entries[b].name.clone())
                },
                None => {
                    let a = concat("no *", keyword);
                    let b = concat(a.as_str(), "*.onnx in ");
                    Err(AsrError::ModelNotFound(concat(b.as_str(), shown)))
                },
            }
        },
    }
}

// --- decoding -----------------------------------------------------------------------

/// Where the first of the greatest values above negative infinity stands.
pub open spec fn best_above(values: Seq<Single>) -> Option<int>
    decreases values.len(),
{
    if values.len() == 0 {
        None
    } else {
        match best_above(values.drop_last()) {
            None => if values.last().gt(Single { bits: NEG_INFINITY_BITS }) {
                Some(values.len() - 1)
            } else {
                None
            },
            Some(b) => if values.last().gt(values[b]) {
                Some(values.len() - 1)
            } else {
                Some(b)
            },
        }
    }
}

/// The best token of a row of logits; the first one when none stands out.
pub open spec fn best_token(values: Seq<Single>) -> int {
    match best_above(values) {
        Some(b) => b,
        None => 0,
    }
}

/// A best value above negative infinity is the peak.
pub proof fn law_best_above_is_peak(values: Seq<Single>)
    ensures
        best_above(values) matches Some(b) ==> peak(values, b) && values[b].gt(
            Single { bits: NEG_INFINITY_BITS },
        ),
        best_above(values) is None ==> forall|j: int|
            0 <= j < values.len() ==> !(#[trigger] values[j]).gt(
                Single { bits: NEG_INFINITY_BITS },
            ),
    decreases values.len(),
{
    if values.len() > 0 {
        let rest = values.drop_last();
        law_best_above_is_peak(rest);
        assert(forall|j: int| 0 <= j < rest.len() ==> #[trigger] rest[j] == values[j]);
        let floor = Single { bits: NEG_INFINITY_BITS };
        match best_above(rest) {
            None => {
                if values.last().gt(floor) {
                    let b = values.len() - 1;
                    assert forall|j: int| 0 <= j < values.len() implies !(#[trigger] values[j]).gt(
                        values[b],
                    ) by {
                        if j < b {
                            assert(!rest[j].gt(floor));
                        }
                    }
                    assert forall|j: int| 0 <= j < b implies !(#[trigger] values[j]).ge(
                        values[b],
                    ) by {
                        assert(!rest[j].gt(floor));
                    }
                } else {
                    assert forall|j: int| 0 <= j < values.len() implies !(#[trigger] values[j]).gt(
                        floor,
                    ) by {
                        if j < rest.len() {
                            assert(!rest[j].gt(floor));
                        }
                    }
                }
            },
            Some(b) => {
                assert(values[b] == rest[b]);
                let c = best_above(values)->0;
                assert forall|j: int| 0 <= j < values.len() implies !(#[trigger] values[j]).gt(
                    values[c],
                ) by {
                    if j < rest.len() {
                        assert(!rest[j].gt(rest[b]));
                    }
                }
                assert forall|j: int| 0 <= j < c implies !(#[trigger] values[j]).ge(values[c]) by {
                    assert(!rest[j].gt(rest[b]));
                    if c == b {
                        assert(!rest[j].ge(rest[b]));
                    }
                }
            },
        }
    }
}

/// Index of the maximum value (first on ties), or 0 for an empty slice. A value
/// that is not above negative infinity is passed over.
pub fn argmax(values: &[Single]) -> (r: usize)
    ensures
        r == best_token(values@),
        best_above(values@) is Some ==> peak(values@, r as int),
{
    let floor = Single { bits: NEG_INFINITY_BITS };
    let n: usize = values.len();
    let mut best: Option<usize> = None;
    let mut i: usize = 0;
    assert(values@.take(0) =~= Seq::empty());
    while i < n
        invariant
            n == values@.len(),
            i <= n,
            floor == (Single { bits: NEG_INFINITY_BITS }),
            best is None ==> best_above(values@.take(i as int)) is None,
            best matches Some(b) ==> b < i && best_above(values@.take(i as int)) == Some(b as int),
        decreases n - i,
    {
        assert(values@.take(i + 1).drop_last() =~= values@.take(i as int));
        match best {
            None => {
                if values[i].greater_than(floor) {
                    best = Some(i);
                }
            },
            Some(b) => {
                if values[i].greater_than(values[b]) {
                    best = Some(i);
                }
            },
        }
        i += 1;
    }
    assert(values@.take(n as int) =~= values@);
    proof {
        law_best_above_is_peak(values@);
    }
    match best {
        Some(b) => b,
        None => 0,
    }
}

/// Turn token ids into text: see [`detokenize`]. Character-level tokens (with no
/// word-start marker) concatenate directly.
pub fn tokens_to_text(ids: &[i64], tokens: &Vec<String>) -> (r: String)
    ensures
        r@ == detokenized(ints(ids@), views(tokens@)),
        plain(ints(ids@), views(tokens@)) ==> r@ == trimmed(
            spaced(joined_text(ints(ids@), views(tokens@))),
        ),
        valid_utf8(joined_bytes(ints(ids@), views(tokens@))) ==> r@ == trimmed(
            decode_utf8(joined_bytes(ints(ids@), views(tokens@))),
        ),
{
    detokenize(ids, tokens)
}

// --- loading ------------------------------------------------------------------------

/// The model files of an export.
#[derive(Debug, Clone)]
pub struct ZipformerFiles {
    pub encoder: String,
    pub decoder: String,
    pub joiner: String,
}

/// The graphs of an export, as opened, and the decoder's metadata.
pub struct ZipformerGraphs {
    pub encoder: Graph,
    pub decoder: Graph,
    pub joiner: Graph,
    pub decoder_meta: Result<Metadata, String>,
}

/// How choosing the model files can end: the directory is checked, then each file
/// is looked for, then the vocabulary.
pub open spec fn planned(
    dir: ModelDir,
    listing: Listing,
    host: Host,
    r: Result<ZipformerFiles, ErrorView>,
) -> bool {
    match dir_error("zipformer"@, dir, host) {
        Some(e) => r == Err::<ZipformerFiles, _>(e),
        None => match r {
            Ok(files) => {
                &&& found(listing, dir.shown@, "encoder"@, Ok(files.encoder@))
                &&& found(listing, dir.shown@, "decoder"@, Ok(files.decoder@))
                &&& found(listing, dir.shown@, "joiner"@, Ok(files.joiner@))
                &&& tokens_file_error(dir) is None
            },
            Err(e) => {
                ||| found(listing, dir.shown@, "encoder"@, Err(e))
                ||| has_file(listing, dir.shown@, "encoder"@) && found(
                    listing,
                    dir.shown@,
                    "decoder"@,
                    Err(e),
                )
                ||| has_file(listing, dir.shown@, "encoder"@) && has_file(
                    listing,
                    dir.shown@,
                    "decoder"@,
                ) && found(listing, dir.shown@, "joiner"@, Err(e))
                ||| has_file(listing, dir.shown@, "encoder"@) && has_file(
                    listing,
                    dir.shown@,
                    "decoder"@,
                ) && has_file(listing, dir.shown@, "joiner"@) && tokens_file_error(dir) == Some(e)
            },
        },
    }
}

/// A model file is found.
pub open spec fn has_file(listing: Listing, shown: Seq<char>, keyword: Seq<char>) -> bool {
    exists|name: Seq<char>| #[trigger] found(listing, shown, keyword, Ok(name))
}

/// What is said of a graph with the wrong number of inputs.
pub open spec fn arity_error(what: Seq<char>, inputs: Seq<Seq<char>>) -> ErrorView {
    ErrorView::Load(what + decimal(inputs.len()) + ": "@ + debug_text(inputs))
}

/// The context width that the decoder's metadata gives.
pub open spec fn context_of(meta: Seq<(String, String)>) -> nat {
    usize_value(meta, "context_size"@, 2)
}

/// What is wrong with the opened export, if anything: the vocabulary, each graph in
/// turn, the context width, then the graphs' inputs.
pub open spec fn export_error(tokens: Result<String, String>, graphs: ZipformerGraphs) -> Option<
    ErrorView,
> {
    match loaded_tokens("zipformer"@, read_view(tokens)) {
        Err(e) => Some(e),
        Ok(_) => match graph_error("zipformer"@, graphs.encoder) {
            Some(e) => Some(e),
            None => match graph_error("zipformer"@, graphs.decoder) {
                Some(e) => Some(e),
                None => match graph_error("zipformer"@, graphs.joiner) {
                    Some(e) => Some(e),
                    None => match graphs.decoder_meta {
                        Err(message) => Some(
                            ErrorView::Load("zipformer decoder metadata: "@ + message@),
                        ),
                        Ok(meta) => if context_of(meta@) == 0 {
                            Some(ErrorView::Load("zipformer decoder reports context_size = 0"@))
                        } else if inputs_of(graphs.encoder).len() != 2 {
                            Some(
                                arity_error(
                                    "zipformer encoder expects 2 inputs (features, feature_lengths), got "@,
                                    views(inputs_of(graphs.encoder)),
                                ),
                            )
                        } else if inputs_of(graphs.decoder).len() != 1 {
                            Some(
                                arity_error(
                                    "zipformer decoder expects 1 input, got "@,
                                    views(inputs_of(graphs.decoder)),
                                ),
                            )
                        } else if inputs_of(graphs.joiner).len() != 2 {
                            Some(
                                arity_error(
                                    "zipformer joiner expects 2 inputs (encoder_out, decoder_out), got "@,
                                    views(inputs_of(graphs.joiner)),
                                ),
                            )
                        } else {
                            None
                        },
                    },
                },
            },
        },
    }
}

/// The id of `<unk>`, or -1 when the vocabulary has none.
pub open spec fn unknown_id(table: Seq<Seq<char>>) -> int {
    match first_place(table, "<unk>"@) {
        Some(p) => if p <= i64::MAX {
            p
        } else {
            -1
        },
        None => -1,
    }
}

/// Zipformer transducer backend.
pub struct ZipformerEngine {
    /// Token id -> symbol.
    pub tokens: Vec<String>,
    /// Stateless-decoder context width.
    pub context_size: usize,
    /// `<unk>` id to skip during greedy search, or `-1` when the model has none.
    pub unk_id: i64,
    /// Encoder inputs (features, their length).
    pub enc_in: Vec<String>,
    /// Decoder input (context).
    pub dec_in: String,
    /// Joiner inputs (encoder output, decoder output).
    pub joiner_in: Vec<String>,
    /// What the backend can do.
    pub caps: EngineCapabilities,
}

fn arity_message(what: &str, inputs: &Vec<String>) -> (r: AsrError)
    ensures
        r@ == arity_error(what@, views(inputs@)),
{
    let a = concat(what, decimal_usize(inputs.len()).as_str());
    let b = concat(a.as_str(), ": ");
    AsrError::Load(concat(b.as_str(), debug_names(inputs).as_str()))
}

impl ZipformerEngine {
    /// Check the model directory and say which model files to open.
    pub fn plan(dir: &ModelDir, listing: &Listing, host: Host) -> (r: Result<
        ZipformerFiles,
        AsrError,
    >)
        ensures
            planned(
                *dir,
                *listing,
                host,
                match r {
                    Ok(files) => Ok(files),
                    Err(e) => Err(e@),
                },
            ),
    {
        if let Err(e) = check_dir("zipformer", dir, host) {
            return Err(e);
        }
        let encoder = match find_onnx(listing, dir.shown.as_str(), "encoder") {
            Err(e) => {
                return Err(e);
            },
            Ok(name) => name,
        };
        assert(has_file(*listing, dir.shown@, "encoder"@)) by {
            assert(found(*listing, dir.shown@, "encoder"@, Ok(encoder@)));
        }
        let decoder = match find_onnx(listing, dir.shown.as_str(), "decoder") {
            Err(e) => {
                return Err(e);
            },
            Ok(name) => name,
        };
        assert(has_file(*listing, dir.shown@, "decoder"@)) by {
            assert(found(*listing, dir.shown@, "decoder"@, Ok(decoder@)));
        }
        let joiner = match find_onnx(listing, dir.shown.as_str(), "joiner") {
            Err(e) => {
                return Err(e);
            },
            Ok(name) => name,
        };
        assert(has_file(*listing, dir.shown@, "joiner"@)) by {
            assert(found(*listing, dir.shown@, "joiner"@, Ok(joiner@)));
        }
        match check_tokens_file(dir) {
            Err(e) => Err(e),
            Ok(()) => Ok(ZipformerFiles { encoder, decoder, joiner }),
        }
    }

    /// Load a sherpa-onnx offline zipformer transducer export from its
    /// **directory**, given what reading `tokens.txt` and opening the model files
    /// gave.
    ///
    /// Fails with [`AsrError::ModelNotFound`] when the directory, an
    /// encoder/decoder/joiner `.onnx` or `tokens.txt` is absent, and
    /// [`AsrError::Load`] when a graph does not have the expected input arity of a
    /// transducer export.
    pub fn load(
        dir: &ModelDir,
        listing: &Listing,
        host: Host,
        tokens: &Result<String, String>,
        graphs: &ZipformerGraphs,
    ) -> (r: Result<Self, AsrError>)
        requires
            tokens matches Ok(text) ==> ids_fit(text@),
        ensures
            r matches Err(e) ==> planned(*dir, *listing, host, Err(e@)) || (exists|
                files: ZipformerFiles,
            | #[trigger]
                planned(*dir, *listing, host, Ok(files))) && export_error(*tokens, *graphs) == Some(
                e@,
            ),
            r matches Ok(engine) ==> {
                &&& exists|files: ZipformerFiles| #[trigger]
                    planned(*dir, *listing, host, Ok(files))
                &&& export_error(*tokens, *graphs) is None
                &&& loaded_tokens("zipformer"@, read_view(*tokens)) == Ok::<_, ErrorView>(
                    views(engine.tokens@),
                )
                &&& graphs.decoder_meta matches Ok(meta)
                &&& engine.context_size == context_of(meta@)
                &&& engine.context_size > 0
                &&& engine.unk_id == unknown_id(views(engine.tokens@))
                &&& views(engine.enc_in@) == views(inputs_of(graphs.encoder))
                &&& engine.dec_in@ == inputs_of(graphs.decoder)[0]@
                &&& views(engine.joiner_in@) == views(inputs_of(graphs.joiner))
                &&& engine.caps.plain("zipformer"@, LanguagesView::Any)
            },
    {
        match ZipformerEngine::plan(dir, listing, host) {
            Err(e) => {
                return Err(e);
            },
            Ok(files) => {
                assert(planned(*dir, *listing, host, Ok(files)));
            },
        }
        let table = match load_tokens("zipformer", tokens) {
            Err(e) => {
                return Err(e);
            },
            Ok(table) => table,
        };
        if let Err(e) = check_graph("zipformer", &graphs.encoder) {
            return Err(e);
        }
        if let Err(e) = check_graph("zipformer", &graphs.decoder) {
            return Err(e);
        }
        if let Err(e) = check_graph("zipformer", &graphs.joiner) {
            return Err(e);
        }
        let meta = match &graphs.decoder_meta {
            Err(message) => {
                return Err(
                    AsrError::Load(concat("zipformer decoder metadata: ", message.as_str())),
                );
            },
            Ok(meta) => meta,
        };
        let context_size: usize = meta_usize(meta, "context_size", 2);
        if context_size == 0 {
            return Err(AsrError::Load("zipformer decoder reports context_size = 0".to_owned()));
        }
        let (enc_in, _) = ends(&graphs.encoder);
        if enc_in.len() != 2 {
            return Err(
                arity_message(
                    "zipformer encoder expects 2 inputs (features, feature_lengths), got ",
                    &enc_in,
                ),
            );
        }
        let (dec_in, _) = ends(&graphs.decoder);
        if dec_in.len() != 1 {
            return Err(arity_message("zipformer decoder expects 1 input, got ", &dec_in));
        }
        let (joiner_in, _) = ends(&graphs.joiner);
        if joiner_in.len() != 2 {
            return Err(
                arity_message(
                    "zipformer joiner expects 2 inputs (encoder_out, decoder_out), got ",
                    &joiner_in,
                ),
            );
        }
        let unk_id: i64 = match position(&table, "<unk>") {
            Some(p) => if p as u64 <= i64::MAX as u64 {
                p as i64
            } else {
                -1
            },
            None => -1,
        };
        assert(views(dec_in@)[0] == views(inputs_of(graphs.decoder))[0]);
        Ok(
            ZipformerEngine {
                tokens: table,
                context_size,
                unk_id,
                enc_in,
                dec_in: dec_in[0].clone(),
                joiner_in,
                caps: ZipformerEngine::capabilities_static(),
            },
        )
    }

    /// What every Zipformer engine can do. A transducer emits whatever tokens its
    /// vocabulary defines, so the backend advertises broad coverage rather than a
    /// fixed set.
    pub fn capabilities_static() -> (r: EngineCapabilities)
        ensures
            r.plain("zipformer"@, LanguagesView::Any),
    {
        EngineCapabilities {
            name: "zipformer",
            supports_prompt: false,
            supports_beam: false,
            supports_translate: false,
            supports_internal_vad: false,
            languages: LanguageSupport::Any,
        }
    }

    /// What the backend can do.
    pub fn capabilities(&self) -> (r: &EngineCapabilities)
        ensures
            *r == self.caps,
    {
        &self.caps
    }
}

// --- transcription --------------------------------------------------------------------

/// Where a computation outside went wrong.
#[derive(Debug, Clone, Copy, PartialEq, Eq, Structural)]
pub enum ZipformerStage {
    /// Setting up the filterbank.
    FbankInit,
    /// Building the feature tensor.
    Features,
    /// Building the feature-length tensor.
    FeatureLengths,
    /// Running the encoder.
    EncoderRun,
    /// Reading its output.
    EncoderOutput,
    /// Building the decoder's input.
    DecoderInput,
    /// Running the decoder.
    DecoderRun,
    /// Reading its output.
    DecoderOutput,
    /// Building the joiner's encoder input.
    JoinerEncoderInput,
    /// Building the joiner's decoder input.
    JoinerDecoderInput,
    /// Running the joiner.
    JoinerRun,
    /// Reading its output.
    JoinerOutput,
}

impl ZipformerStage {
    /// What an error of this stage is introduced by.
    pub open spec fn spec_label(self) -> Seq<char> {
        match self {
            ZipformerStage::FbankInit => "zipformer fbank init: "@,
            ZipformerStage::Features => "zipformer features tensor: "@,
            ZipformerStage::FeatureLengths => "zipformer feature_lengths tensor: "@,
            ZipformerStage::EncoderRun => "zipformer encoder run: "@,
            ZipformerStage::EncoderOutput => "zipformer encoder output: "@,
            ZipformerStage::DecoderInput => "zipformer decoder input: "@,
            ZipformerStage::DecoderRun => "zipformer decoder run: "@,
            ZipformerStage::DecoderOutput => "zipformer decoder output: "@,
            ZipformerStage::JoinerEncoderInput => "zipformer joiner encoder input: "@,
            ZipformerStage::JoinerDecoderInput => "zipformer joiner decoder input: "@,
            ZipformerStage::JoinerRun => "zipformer joiner run: "@,
            ZipformerStage::JoinerOutput => "zipformer joiner output: "@,
        }
    }

    /// The error of this stage with the outside's own words.
    pub fn error(self, message: &str) -> (r: AsrError)
        ensures
            r@ == ErrorView::Transcribe(self.spec_label() + message@),
    {
        let label = match self {
            ZipformerStage::FbankInit => "zipformer fbank init: ",
            ZipformerStage::Features => "zipformer features tensor: ",
            ZipformerStage::FeatureLengths => "zipformer feature_lengths tensor: ",
            ZipformerStage::EncoderRun => "zipformer encoder run: ",
            ZipformerStage::EncoderOutput => "zipformer encoder output: ",
            ZipformerStage::DecoderInput => "zipformer decoder input: ",
            ZipformerStage::DecoderRun => "zipformer decoder run: ",
            ZipformerStage::DecoderOutput => "zipformer decoder output: ",
            ZipformerStage::JoinerEncoderInput => "zipformer joiner encoder input: ",
            ZipformerStage::JoinerDecoderInput => "zipformer joiner decoder input: ",
            ZipformerStage::JoinerRun => "zipformer joiner run: ",
            ZipformerStage::JoinerOutput => "zipformer joiner output: ",
        };
        AsrError::Transcribe(concat(label, message))
    }
}

/// A stage at which a computation failed, and the outside's own words.
pub type Fault = (ZipformerStage, String);

/// What is said of a computation that failed.
pub open spec fn fault_error(fault: Fault) -> ErrorView {
    ErrorView::Transcribe(fault.0.spec_label() + fault.1@)
}

/// The rows that the filterbank gives, one per frame; `None` for one that cannot be
/// read.
pub type Rows = Vec<Option<Vec<Single>>>;

/// The rows, one after the other.
pub open spec fn flattened(rows: Seq<Option<Vec<Single>>>) -> Seq<Single>
    decreases rows.len(),
{
    if rows.len() == 0 {
        Seq::empty()
    } else {
        match rows.last() {
            Some(row) => flattened(rows.drop_last()) + row@,
            None => flattened(rows.drop_last()),
        }
    }
}

/// Every row can be read.
pub open spec fn all_rows(rows: Seq<Option<Vec<Single>>>) -> bool {
    forall|i: int| 0 <= i < rows.len() ==> #[trigger] rows[i] is Some
}

/// Put the filterbank's rows together, row-major, with the frame count.
pub fn compute_features(rows: &Rows) -> (r: Result<(Vec<Single>, usize), AsrError>)
    ensures
        r is Ok <==> all_rows(rows@),
        r matches Ok((feats, frames)) ==> feats@ == flattened(rows@) && frames == rows@.len(),
        r matches Err(e) ==> e@ == ErrorView::Transcribe(
            "zipformer: fbank frame vanished mid-read"@,
        ),
{
    let n: usize = rows.len();
    let mut feats: Vec<Single> = Vec::new();
    let mut i: usize = 0;
    assert(rows@.take(0) =~= Seq::empty());
    while i < n
        invariant
            n == rows@.len(),
            i <= n,
            forall|j: int| 0 <= j < i ==> #[trigger] rows@[j] is Some,
            feats@ == flattened(rows@.take(i as int)),
        decreases n - i,
    {
        assert(rows@.take(i + 1).drop_last() =~= rows@.take(i as int));
        assert(rows@.take(i + 1).last() == rows@[i as int]);
        match &rows[i] {
            None => {
                assert(rows@[i as int] is None);
                return Err(
                    AsrError::Transcribe("zipformer: fbank frame vanished mid-read".to_owned()),
                );
            },
            Some(row) => {
                let ghost before = feats@;
                feats.extend_from_slice(row.as_slice());
                assert(feats@ =~= before + row@);
            },
        }
        i += 1;
    }
    assert(rows@.take(n as int) =~= rows@);
    Ok((feats, n))
}

/// The model as functions: `fbank` from a waveform to filterbank rows, `encode`
/// from features and their frame count to encoder frames, `decode` from a context
/// of token ids to a decoder output, `join` from an encoder frame and a decoder
/// output to logits over the vocabulary.
pub struct ZipformerModel<B, N, D, J> {
    pub fbank: B,
    pub encode: N,
    pub decode: D,
    pub join: J,
}

/// The functions can be called, and the encoder gives all its frames.
pub open spec fn callable<
    B: Fn(&[Single]) -> Result<Rows, Fault>,
    N: Fn(&[Single], usize) -> Result<Tensor, Fault>,
    D: Fn(&[i64]) -> Result<Vec<Single>, Fault>,
    J: Fn(&[Single], &[Single]) -> Result<Vec<Single>, Fault>,
>(model: ZipformerModel<B, N, D, J>) -> bool {
    &&& forall|a: &[Single]| #[trigger] call_requires(model.fbank, (a,))
    &&& forall|x: &[Single], n: usize| #[trigger] call_requires(model.encode, (x, n))
    &&& forall|c: &[i64]| #[trigger] call_requires(model.decode, (c,))
    &&& forall|e: &[Single], d: &[Single]| #[trigger] call_requires(model.join, (e, d))
    &&& forall|x: &[Single], n: usize, t: Tensor| #[trigger]
        call_ensures(model.encode, (x, n), Ok(t)) ==> t.holds_rows()
}

/// `fbank` can answer `answer` to a waveform.
pub open spec fn filtered<B: Fn(&[Single]) -> Result<Rows, Fault>>(
    fbank: B,
    clip: Seq<Single>,
    answer: Result<Rows, Fault>,
) -> bool {
    exists|a: &[Single]| a@ == clip && #[trigger] call_ensures(fbank, (a,), answer)
}

/// `encode` can answer `answer` to features.
pub open spec fn encoded<N: Fn(&[Single], usize) -> Result<Tensor, Fault>>(
    encode: N,
    feats: Seq<Single>,
    frames: int,
    answer: Result<Tensor, Fault>,
) -> bool {
    exists|x: &[Single], n: usize|
        x@ == feats && n == frames && #[trigger] call_ensures(encode, (x, n), answer)
}

/// `decode` can answer `answer` to a context.
pub open spec fn decoded<D: Fn(&[i64]) -> Result<Vec<Single>, Fault>>(
    decode: D,
    context: Seq<i64>,
    answer: Result<Vec<Single>, Fault>,
) -> bool {
    exists|c: &[i64]| c@ == context && #[trigger] call_ensures(decode, (c,), answer)
}

/// `join` can answer `answer` to an encoder frame and a decoder output.
pub open spec fn joined<J: Fn(&[Single], &[Single]) -> Result<Vec<Single>, Fault>>(
    join: J,
    frame: Seq<Single>,
    out: Seq<Single>,
    answer: Result<Vec<Single>, Fault>,
) -> bool {
    exists|e: &[Single], d: &[Single]|
        e@ == frame && d@ == out && #[trigger] call_ensures(join, (e, d), answer)
}

/// The percentages reported before frame `t` of `total`: at every 64th frame, the
/// share of frames before it.
pub open spec fn marks_before(t: int, total: int) -> Seq<int> {
    Seq::new(
        ((t + REPORT_EVERY - 1) / (REPORT_EVERY as int)) as nat,
        |k: int| k * REPORT_EVERY * 100 / total,
    )
}

/// How far a clip comes: to its filterbank, to the encoder, or into the search, where
/// the control is asked at so many of so many encoder frames.
pub enum Reach {
    Filterbank,
    Encoder,
    Search(int, int),
}

impl Reach {
    /// How often the control has been asked whether to stop: before the filterbank,
    /// before the encoder, and at every encoder frame.
    pub open spec fn asks(self) -> int {
        match self {
            Reach::Filterbank => 1,
            Reach::Encoder => 2,
            Reach::Search(asked, _) => 2 + asked,
        }
    }

    /// What has been reported: that nothing is done, and the share of the frames.
    pub open spec fn marks(self) -> Seq<int> {
        match self {
            Reach::Filterbank | Reach::Encoder => seq![0int],
            Reach::Search(asked, total) => seq![0int] + marks_before(asked, total),
        }
    }

    /// What has been reported when the control was last asked, which comes before
    /// what is then reported.
    pub open spec fn marks_when_asked(self) -> Seq<int> {
        match self {
            Reach::Filterbank => Seq::empty(),
            Reach::Encoder => seq![0int],
            Reach::Search(asked, total) => seq![0int] + marks_before(asked - 1, total),
        }
    }
}

impl ZipformerEngine {
    /// `context_size` blanks.
    pub open spec fn blanks(&self) -> Seq<i64> {
        Seq::new(self.context_size as nat, |i: int| BLANK_ID)
    }

    /// The last `context_size` tokens of a hypothesis.
    pub open spec fn context(&self, hyp: Seq<i64>) -> Seq<i64> {
        hyp.skip(hyp.len() - self.context_size)
    }

    /// The token that a row of logits stands for.
    pub open spec fn token(&self, logits: Seq<Single>) -> i64 {
        best_token(logits) as i64
    }

    /// A token that is emitted: neither the blank nor the unknown token.
    pub open spec fn emits(&self, token: i64) -> bool {
        token != BLANK_ID && token != self.unk_id
    }

    /// After `t` encoder frames the hypothesis is `hyp`, from the initial blanks on,
    /// and `out` is the decoder's output for its context.
    pub open spec fn searched<
        D: Fn(&[i64]) -> Result<Vec<Single>, Fault>,
        J: Fn(&[Single], &[Single]) -> Result<Vec<Single>, Fault>,
    >(
        &self,
        decode: D,
        join: J,
        frames: Tensor,
        t: nat,
        hyp: Seq<i64>,
        out: Vec<Single>,
    ) -> bool
        decreases t,
    {
        if t == 0 {
            hyp == self.blanks() && decoded(decode, hyp, Ok(out))
        } else {
            exists|before: Vec<Single>, logits: Vec<Single>|
                {
                    &&& #[trigger] joined(join, frames.row(t - 1), before@, Ok(logits))
                    &&& if self.emits(self.token(logits@)) {
                        &&& hyp.len() > 0
                        &&& hyp.last() == self.token(logits@)
                        &&& self.searched(
                            decode,
                            join,
                            frames,
                            (t - 1) as nat,
                            hyp.drop_last(),
                            before,
                        )
                        &&& decoded(decode, self.context(hyp), Ok(out))
                    } else {
                        &&& out == before
                        &&& self.searched(decode, join, frames, (t - 1) as nat, hyp, before)
                    }
                }
        }
    }

    /// The search over all encoder frames can give the hypothesis `hyp`.
    pub open spec fn search_gives<
        D: Fn(&[i64]) -> Result<Vec<Single>, Fault>,
        J: Fn(&[Single], &[Single]) -> Result<Vec<Single>, Fault>,
    >(&self, decode: D, join: J, frames: Tensor, hyp: Seq<i64>) -> bool {
        exists|out: Vec<Single>| #[trigger]
            self.searched(decode, join, frames, frames.rows() as nat, hyp, out)
    }

    /// The search can fail with `e` once it has come to its `asked`th frame: at its
    /// first decoder run when to none, else when joining that frame or when decoding
    /// what it emitted.
    pub open spec fn search_fails<
        D: Fn(&[i64]) -> Result<Vec<Single>, Fault>,
        J: Fn(&[Single], &[Single]) -> Result<Vec<Single>, Fault>,
    >(&self, decode: D, join: J, frames: Tensor, asked: nat, e: ErrorView) -> bool {
        if asked == 0 {
            exists|fault: Fault| #[trigger]
                decoded(decode, self.blanks(), Err(fault)) && e == fault_error(fault)
        } else {
            &&& asked <= frames.rows()
            &&& {
                ||| exists|hyp: Seq<i64>, out: Vec<Single>, fault: Fault|
                    {
                        &&& #[trigger] self.searched(
                            decode,
                            join,
                            frames,
                            (asked - 1) as nat,
                            hyp,
                            out,
                        )
                        &&& #[trigger] joined(join, frames.row(asked - 1), out@, Err(fault))
                        &&& e == fault_error(fault)
                    }
                ||| exists|hyp: Seq<i64>, out: Vec<Single>, logits: Vec<Single>, fault: Fault|
                    {
                        &&& #[trigger] self.searched(
                            decode,
                            join,
                            frames,
                            (asked - 1) as nat,
                            hyp,
                            out,
                        )
                        &&& #[trigger] joined(join, frames.row(asked - 1), out@, Ok(logits))
                        &&& self.emits(self.token(logits@))
                        &&& #[trigger] decoded(
                            decode,
                            self.context(hyp.push(self.token(logits@))),
                            Err(fault),
                        )
                        &&& e == fault_error(fault)
                    }
            }
        }
    }

    /// The search can be cancelled when it has come to its `asked`th frame.
    pub open spec fn search_stops<
        D: Fn(&[i64]) -> Result<Vec<Single>, Fault>,
        J: Fn(&[Single], &[Single]) -> Result<Vec<Single>, Fault>,
    >(&self, decode: D, join: J, frames: Tensor, asked: nat) -> bool {
        0 < asked <= frames.rows() && exists|hyp: Seq<i64>, out: Vec<Single>| #[trigger]
            self.searched(decode, join, frames, (asked - 1) as nat, hyp, out)
    }

    /// The result of a clip whose hypothesis is `hyp`: the text of what follows the
    /// initial blanks. A transducer exposes no language, and no timing is emitted.
    pub open spec fn hyp_result(&self, hyp: Seq<i64>) -> ResultView {
        ResultView {
            text: detokenized(ints(hyp.skip(self.context_size as int)), views(self.tokens@)),
            detected_language: None,
            segments: Seq::empty(),
        }
    }

    /// The search over encoder frames can end with `r`, having come as far as `reach`.
    pub open spec fn search_ends<
        D: Fn(&[i64]) -> Result<Vec<Single>, Fault>,
        J: Fn(&[Single], &[Single]) -> Result<Vec<Single>, Fault>,
    >(
        &self,
        decode: D,
        join: J,
        frames: Tensor,
        reach: Reach,
        r: Result<ResultView, ErrorView>,
    ) -> bool {
        if frames.shape@.len() != 3 {
            reach == Reach::Encoder && r == Err::<ResultView, _>(
                ErrorView::Transcribe(
                    "zipformer expected rank-3 encoder_out [1, T, C], got shape "@ + bracketed(
                        frames.shape@,
                    ),
                ),
            )
        } else {
            match r {
                Ok(result) => reach == Reach::Search(frames.rows(), frames.rows()) && exists|
                    hyp: Seq<i64>,
                | #[trigger]
                    self.search_gives(decode, join, frames, hyp) && result == self.hyp_result(hyp),
                Err(e) => reach matches Reach::Search(asked, total) && asked >= 0 && total
                    == frames.rows() && self.search_fails(decode, join, frames, asked as nat, e),
            }
        }
    }

    /// A clip can end with `r`, having come as far as `reach`: empty when it holds no
    /// frame, else through the filterbank, the encoder and the search over the encoder
    /// frames.
    pub open spec fn clip_ends<
        B: Fn(&[Single]) -> Result<Rows, Fault>,
        N: Fn(&[Single], usize) -> Result<Tensor, Fault>,
        D: Fn(&[i64]) -> Result<Vec<Single>, Fault>,
        J: Fn(&[Single], &[Single]) -> Result<Vec<Single>, Fault>,
    >(
        &self,
        model: ZipformerModel<B, N, D, J>,
        clip: Seq<Single>,
        reach: Reach,
        r: Result<ResultView, ErrorView>,
    ) -> bool {
        exists|answer: Result<Rows, Fault>| #[trigger]
            filtered(model.fbank, clip, answer) && (match answer {
                Err(fault) => reach == Reach::Filterbank && r == Err::<ResultView, _>(
                    fault_error(fault),
                ),
                Ok(rows) => if !all_rows(rows@) {
                    reach == Reach::Filterbank && r == Err::<ResultView, _>(
                        ErrorView::Transcribe("zipformer: fbank frame vanished mid-read"@),
                    )
                } else if rows@.len() == 0 {
                    reach == Reach::Filterbank && r == Ok::<_, ErrorView>(empty_result())
                } else {
                    exists|answer: Result<Tensor, Fault>| #[trigger]
                        encoded(model.encode, flattened(rows@), rows@.len() as int, answer) && (
                        match answer {
                            Err(fault) => reach == Reach::Encoder && r == Err::<ResultView, _>(
                                fault_error(fault),
                            ),
                            Ok(frames) => self.search_ends(
                                model.decode,
                                model.join,
                                frames,
                                reach,
                                r,
                            ),
                        })
                },
            })
    }

    /// A clip can be cancelled, having come as far as `reach`: before its filterbank,
    /// before the encoder once its features are there, or at an encoder frame.
    pub open spec fn clip_stops<
        B: Fn(&[Single]) -> Result<Rows, Fault>,
        N: Fn(&[Single], usize) -> Result<Tensor, Fault>,
        D: Fn(&[i64]) -> Result<Vec<Single>, Fault>,
        J: Fn(&[Single], &[Single]) -> Result<Vec<Single>, Fault>,
    >(&self, model: ZipformerModel<B, N, D, J>, clip: Seq<Single>, reach: Reach) -> bool {
        reach == Reach::Filterbank || exists|rows: Rows|
            {
                &&& #[trigger] filtered(model.fbank, clip, Ok(rows))
                &&& all_rows(rows@)
                &&& rows@.len() > 0
                &&& reach == Reach::Encoder || exists|frames: Tensor|
                    {
                        &&& #[trigger] encoded(
                            model.encode,
                            flattened(rows@),
                            rows@.len() as int,
                            Ok(frames),
                        )
                        &&& frames.shape@.len() == 3
                        &&& reach matches Reach::Search(asked, total) && asked >= 0 && total
                            == frames.rows() && self.search_stops(
                            model.decode,
                            model.join,
                            frames,
                            asked as nat,
                        )
                    }
            }
    }

    /// The hypothesis always ends in a whole context.
    proof fn lemma_hyp_len<
        D: Fn(&[i64]) -> Result<Vec<Single>, Fault>,
        J: Fn(&[Single], &[Single]) -> Result<Vec<Single>, Fault>,
    >(
        &self,
        decode: D,
        join: J,
        frames: Tensor,
        t: nat,
        hyp: Seq<i64>,
        out: Vec<Single>,
    )
        requires
            self.searched(decode, join, frames, t, hyp, out),
        ensures
            self.context_size <= hyp.len() <= self.context_size + t,
            hyp.take(self.context_size as int) == self.blanks(),
            forall|i: int|
                self.context_size <= i < hyp.len() ==> self.emits(#[trigger] hyp[i]),
        decreases t,
    {
        if t == 0 {
            assert(hyp.take(self.context_size as int) =~= self.blanks());
        } else {
            let (before, logits) = choose|before: Vec<Single>, logits: Vec<Single>|
                {
                    &&& #[trigger] joined(join, frames.row(t - 1), before@, Ok(logits))
                    &&& if self.emits(self.token(logits@)) {
                        &&& hyp.len() > 0
                        &&& hyp.last() == self.token(logits@)
                        &&& self.searched(
                            decode,
                            join,
                            frames,
                            (t - 1) as nat,
                            hyp.drop_last(),
                            before,
                        )
                        &&& decoded(decode, self.context(hyp), Ok(out))
                    } else {
                        &&& out == before
                        &&& self.searched(decode, join, frames, (t - 1) as nat, hyp, before)
                    }
                };
            if self.emits(self.token(logits@)) {
                self.lemma_hyp_len(decode, join, frames, (t - 1) as nat, hyp.drop_last(), before);
                assert(hyp.take(self.context_size as int) =~= hyp.drop_last().take(
                    self.context_size as int,
                ));
                assert forall|i: int| self.context_size <= i < hyp.len() implies self.emits(
                    #[trigger] hyp[i],
                ) by {
                    if i < hyp.len() - 1 {
                        assert(hyp[i] == hyp.drop_last()[i]);
                    }
                }
            } else {
                self.lemma_hyp_len(decode, join, frames, (t - 1) as nat, hyp, before);
            }
        }
    }

    /// Greedy transducer search over the encoder frames. A cancellation is checked
    /// at every frame; progress is coarse.
    fn search<
        D: Fn(&[i64]) -> Result<Vec<Single>, Fault>,
        J: Fn(&[Single], &[Single]) -> Result<Vec<Single>, Fault>,
    >(&self, frames: &Tensor, monitor: &mut Monitor<'_>, decode: &D, join: &J) -> (r: Result<
        Vec<i64>,
        AsrError,
    >)
        requires
            old(monitor).running(*old(monitor), 0),
            frames.shape@.len() == 3,
            frames.holds_rows(),
            forall|c: &[i64]| #[trigger] call_requires(*decode, (c,)),
            forall|e: &[Single], d: &[Single]| #[trigger] call_requires(*join, (e, d)),
        ensures
            final(monitor).caller() == old(monitor).caller(),
            crate::monitor::climbing(final(monitor).reported()),
            crate::monitor::level(final(monitor).reported()) <= 100,
            final(monitor).heeded(),
            final(monitor).asked() >= old(monitor).asked(),
            final(monitor).stopped() <==> (r matches Err(e) && e@ == ErrorView::Cancelled),
            r is Ok ==> final(monitor).followed(
                old(monitor).reported() + marks_before(frames.rows(), frames.rows()),
                old(monitor).asked() + frames.rows(),
            ),
            r matches Ok(hyp) ==> self.search_gives(*decode, *join, *frames, hyp@),
            r matches Err(e) ==> if final(monitor).stopped() {
                exists|asked: nat| #[trigger]
                    self.search_stops(*decode, *join, *frames, asked) && final(monitor).followed(
                        old(monitor).reported() + marks_before(asked - 1, frames.rows()),
                        old(monitor).asked() + asked as int,
                    )
            } else {
                exists|asked: nat| #[trigger]
                    self.search_fails(*decode, *join, *frames, asked, e@)
                        && final(monitor).followed(
                        old(monitor).reported() + marks_before(asked as int, frames.rows()),
                        old(monitor).asked() + asked as int,
                    )
            },
    {
        let total: usize = frames.shape[1] as usize;
        let width: usize = frames.shape[2] as usize;
        let mut hyp: Vec<i64> = Vec::new();
        while hyp.len() < self.context_size
            invariant
                hyp@.len() <= self.context_size,
                forall|i: int| 0 <= i < hyp@.len() ==> #[trigger] hyp@[i] == BLANK_ID,
            decreases self.context_size - hyp@.len(),
        {
            hyp.push(BLANK_ID);
        }
        assert(hyp@ =~= self.blanks());
        let first = decode(hyp.as_slice());
        assert(decoded(*decode, self.blanks(), first));
        let mut out = match first {
            Err(fault) => {
                let e = fault.0.error(fault.1.as_str());
                assert(self.search_fails(*decode, *join, *frames, 0, e@));
                return Err(e);
            },
            Ok(out) => out,
        };
        let ghost was = *monitor;
        let mut t: usize = 0;
        while t < total
            invariant
                was == *old(monitor),
                total == frames.rows(),
                width == frames.width(),
                frames.holds_rows(),
                frames.shape@.len() == 3,
                t <= total,
                total > 0 ==> monitor.running(was, t as int * 100 / (total as int)),
                total == 0 ==> monitor.running(was, 0),
                was.caller() == monitor.caller(),
                monitor.followed(
                    was.reported() + marks_before(t as int, total as int),
                    was.asked() + t,
                ),
                self.searched(*decode, *join, *frames, t as nat, hyp@, out),
                forall|c: &[i64]| #[trigger] call_requires(*decode, (c,)),
                forall|e: &[Single], d: &[Single]| #[trigger] call_requires(*join, (e, d)),
            decreases total - t,
        {
            proof {
                lemma_share(t as int, t + 1, total as int);
                lemma_marks(t as int, total as int);
                self.lemma_hyp_len(*decode, *join, *frames, t as nat, hyp@, out);
            }
            let ghost next: nat = (t + 1) as nat;
            assert((next - 1) as nat == t as nat);
            if monitor.cancelled() {
                assert(self.search_stops(*decode, *join, *frames, next));
                return Err(AsrError::Cancelled);
            }
            if t % REPORT_EVERY == 0 {
                let pct: u8 = (t as u128 * 100 / total as u128) as u8;
                proof {
                    lemma_climbs(monitor.reported(), pct as int);
                }
                monitor.report(pct);
            }
            assert(0 <= t * width && t * width + width <= total * width) by (nonlinear_arith)
                requires
                    t + 1 <= total,
            ;
            let len: usize = frames.data.len();
            assert(total * width <= len);
            let from: usize = t * width;
            let data: &[Single] = frames.data.as_slice();
            let frame: &[Single] = &data[from..from + width];
            assert(frame@ =~= frames.row(t as int));
            let answer = join(frame, out.as_slice());
            assert(joined(*join, frames.row(t as int), out@, answer));
            let logits = match answer {
                Err(fault) => {
                    let e = fault.0.error(fault.1.as_str());
                    assert(joined(*join, frames.row(next - 1), out@, Err(fault)));
                    assert(self.search_fails(*decode, *join, *frames, next, e@));
                    return Err(e);
                },
                Ok(logits) => logits,
            };
            let y: i64 = #[verifier::truncate] (argmax(logits.as_slice()) as i64);
            assert(y == self.token(logits@));
            let ghost held = hyp@;
            let ghost before = out;
            if y != BLANK_ID && y != self.unk_id {
                hyp.push(y);
                assert(hyp@.drop_last() =~= held);
                let n: usize = hyp.len();
                let all: &[i64] = hyp.as_slice();
                let context: &[i64] = &all[n - self.context_size..n];
                assert(context@ =~= self.context(hyp@));
                let answer = decode(context);
                assert(decoded(*decode, self.context(hyp@), answer));
                match answer {
                    Err(fault) => {
                        let e = fault.0.error(fault.1.as_str());
                        proof {
                            assert(hyp@ == held.push(self.token(logits@)));
                            assert(joined(*join, frames.row(next - 1), before@, Ok(logits)));
                            assert(decoded(
                                *decode,
                                self.context(held.push(self.token(logits@))),
                                Err(fault),
                            ));
                            assert(self.search_fails(*decode, *join, *frames, next, e@));
                        }
                        return Err(e);
                    },
                    Ok(new) => {
                        proof {
                            assert(joined(*join, frames.row(next - 1), before@, Ok(logits)));
                            assert(self.searched(*decode, *join, *frames, next, hyp@, new));
                        }
                        out = new;
                    },
                }
            } else {
                proof {
                    assert(joined(*join, frames.row(next - 1), before@, Ok(logits)));
                    assert(self.searched(*decode, *join, *frames, next, hyp@, out));
                }
            }
            t += 1;
        }
        proof {
            if total > 0 {
                lemma_share(0, total as int, total as int);
            }
            assert(self.searched(
                *decode,
                *join,
                *frames,
                frames.rows() as nat,
                hyp@,
                out,
            ));
        }
        Ok(hyp)
    }

    /// Transcribe `audio` under `monitor`, with `model` for the filterbank and the
    /// graphs.
    pub fn transcribe<
        B: Fn(&[Single]) -> Result<Rows, Fault>,
        N: Fn(&[Single], usize) -> Result<Tensor, Fault>,
        D: Fn(&[i64]) -> Result<Vec<Single>, Fault>,
        J: Fn(&[Single], &[Single]) -> Result<Vec<Single>, Fault>,
    >(
        &self,
        audio: &[Single],
        _opts: &TranscribeOptions,
        monitor: &mut Monitor<'_>,
        model: &ZipformerModel<B, N, D, J>,
    ) -> (r: Result<TranscriptionResult, AsrError>)
        requires
            old(monitor).fresh(),
            callable(*model),
        ensures
            final(monitor).ended(*old(monitor), outcome(r)),
            audio@.len() == 0 ==> (r matches Ok(t) && t@ == empty_result())
                && final(monitor).followed(seq![100int], 0),
            audio@.len() > 0 ==> final(monitor).asked() > 0,
            audio@.len() > 0 && !final(monitor).stopped() ==> exists|reach: Reach| #[trigger]
                self.clip_ends(*model, sanitized(audio@), reach, outcome(r))
                    && final(monitor).followed(
                    if r is Ok {
                        reach.marks().push(100)
                    } else {
                        reach.marks()
                    },
                    reach.asks(),
                ),
            final(monitor).stopped() ==> exists|reach: Reach| #[trigger]
                self.clip_stops(*model, sanitized(audio@), reach) && final(monitor).followed(
                    reach.marks_when_asked(),
                    reach.asks(),
                ),
    {
        if audio.len() == 0 {
            proof {
                lemma_climbs(monitor.reported(), 100);
            }
            monitor.report(100);
            return Ok(TranscriptionResult::default());
        }
        if monitor.cancelled() {
            assert(self.clip_stops(*model, sanitized(audio@), Reach::Filterbank));
            return Err(AsrError::Cancelled);
        }
        proof {
            lemma_climbs(monitor.reported(), 0);
        }
        monitor.report(0);
        let fixed = sanitize_audio(audio);
        let clip: &[Single] = samples(&fixed);
        let answer = (model.fbank)(clip);
        assert(filtered(model.fbank, clip@, answer));
        let rows = match answer {
            Err(fault) => {
                let e = fault.0.error(fault.1.as_str());
                assert(self.clip_ends(*model, clip@, Reach::Filterbank, Err(e@)));
                return Err(e);
            },
            Ok(rows) => rows,
        };
        let (feats, frames) = match compute_features(&rows) {
            Err(e) => {
                assert(self.clip_ends(*model, clip@, Reach::Filterbank, Err(e@)));
                return Err(e);
            },
            Ok(out) => out,
        };
        if frames == 0 {
            proof {
                lemma_climbs(monitor.reported(), 100);
            }
            monitor.report(100);
            let nothing = TranscriptionResult::default();
            assert(self.clip_ends(*model, clip@, Reach::Filterbank, Ok(nothing@)));
            return Ok(nothing);
        }
        if monitor.cancelled() {
            assert(filtered(model.fbank, clip@, Ok(rows)));
            assert(self.clip_stops(*model, clip@, Reach::Encoder));
            return Err(AsrError::Cancelled);
        }
        let answer = (model.encode)(feats.as_slice(), frames);
        assert(encoded(model.encode, flattened(rows@), rows@.len() as int, answer));
        let tensor = match answer {
            Err(fault) => {
                let e = fault.0.error(fault.1.as_str());
                assert(self.clip_ends(*model, clip@, Reach::Encoder, Err(e@)));
                return Err(e);
            },
            Ok(tensor) => tensor,
        };
        if tensor.shape.len() != 3 {
            let e = AsrError::Transcribe(
                concat(
                    "zipformer expected rank-3 encoder_out [1, T, C], got shape ",
                    show_list(tensor.shape.as_slice()).as_str(),
                ),
            );
            assert(self.search_ends(
                model.decode,
                model.join,
                tensor,
                Reach::Encoder,
                Err(e@),
            ));
            assert(self.clip_ends(*model, clip@, Reach::Encoder, Err(e@)));
            return Err(e);
        }
        let ghost then = *monitor;
        match self.search(&tensor, monitor, &model.decode, &model.join) {
            Err(e) => {
                proof {
                    let total = tensor.rows();
                    if e@ != ErrorView::Cancelled {
                        let asked = choose|asked: nat| #[trigger]
                            self.search_fails(model.decode, model.join, tensor, asked, e@)
                                && monitor.followed(
                                then.reported() + marks_before(asked as int, total),
                                then.asked() + asked as int,
                            );
                        let reach = Reach::Search(asked as int, total);
                        assert(self.search_ends(
                            model.decode,
                            model.join,
                            tensor,
                            reach,
                            Err(e@),
                        ));
                        assert(self.clip_ends(*model, clip@, reach, Err(e@)));
                    } else {
                        let asked = choose|asked: nat| #[trigger]
                            self.search_stops(model.decode, model.join, tensor, asked)
                                && monitor.followed(
                                then.reported() + marks_before(asked - 1, total),
                                then.asked() + asked as int,
                            );
                        let reach = Reach::Search(asked as int, total);
                        assert(filtered(model.fbank, clip@, Ok(rows)));
                        assert(encoded(
                            model.encode,
                            flattened(rows@),
                            rows@.len() as int,
                            Ok(tensor),
                        ));
                        assert(self.clip_stops(*model, clip@, reach));
                    }
                }
                Err(e)
            },
            Ok(hyp) => {
                proof {
                    let out = choose|out: Vec<Single>| #[trigger]
                        self.searched(
                            model.decode,
                            model.join,
                            tensor,
                            tensor.rows() as nat,
                            hyp@,
                            out,
                        );
                    self.lemma_hyp_len(
                        model.decode,
                        model.join,
                        tensor,
                        tensor.rows() as nat,
                        hyp@,
                        out,
                    );
                    lemma_climbs(monitor.reported(), 100);
                }
                monitor.report(100);
                let n: usize = hyp.len();
                let all: &[i64] = hyp.as_slice();
                let spoken: &[i64] = &all[self.context_size..n];
                assert(spoken@ =~= hyp@.skip(self.context_size as int));
                let segments: Vec<Segment> = Vec::new();
                assert(segment_views(segments@) =~= Seq::<SegmentView>::empty());
                let result = TranscriptionResult {
                    text: tokens_to_text(spoken, &self.tokens),
                    detected_language: None,
                    segments,
                };
                assert(result@ == self.hyp_result(hyp@));
                proof {
                    let reach = Reach::Search(tensor.rows(), tensor.rows());
                    assert(self.search_ends(
                        model.decode,
                        model.join,
                        tensor,
                        reach,
                        Ok(result@),
                    ));
                    assert(self.clip_ends(*model, clip@, reach, Ok(result@)));
                }
                Ok(result)
            },
        }
    }
}

/// A percentage is reported at every 64th frame.
proof fn lemma_marks(t: int, total: int)
    requires
        0 <= t,
    ensures
        marks_before(t + 1, total) == (if t % (REPORT_EVERY as int) == 0 {
            marks_before(t, total).push(t * 100 / total)
        } else {
            marks_before(t, total)
        }),
{
    let next = marks_before(t + 1, total);
    if t % (REPORT_EVERY as int) == 0 {
        assert(next =~= marks_before(t, total).push(t * 100 / total));
    } else {
        assert(next =~= marks_before(t, total));
    }
}

// --- laws -------------------------------------------------------------------------

/// A hypothesis starts with the initial blanks, and what follows them never holds
/// the blank nor the unknown token, nor more tokens than encoder frames.
pub proof fn law_hypothesis<
    D: Fn(&[i64]) -> Result<Vec<Single>, Fault>,
    J: Fn(&[Single], &[Single]) -> Result<Vec<Single>, Fault>,
>(
    engine: ZipformerEngine,
    decode: D,
    join: J,
    frames: Tensor,
    t: nat,
    hyp: Seq<i64>,
    out: Vec<Single>,
)
    requires
        engine.searched(decode, join, frames, t, hyp, out),
    ensures
        engine.context_size <= hyp.len() <= engine.context_size + t,
        hyp.take(engine.context_size as int) == engine.blanks(),
        forall|i: int|
            engine.context_size <= i < hyp.len() ==> #[trigger] hyp[i] != BLANK_ID && hyp[i]
                != engine.unk_id,
{
    engine.lemma_hyp_len(decode, join, frames, t, hyp, out);
    assert forall|i: int| engine.context_size <= i < hyp.len() implies #[trigger] hyp[i]
        != BLANK_ID && hyp[i] != engine.unk_id by {
        assert(engine.emits(hyp[i]));
    }
}

/// `y` is the first of the greatest values; the first of all when none is above
/// negative infinity.
pub open spec fn greatest(values: Seq<Single>, y: int) -> bool {
    let floor = Single { bits: NEG_INFINITY_BITS };
    if exists|j: int| 0 <= j < values.len() && (#[trigger] values[j]).gt(floor) {
        &&& 0 <= y < values.len()
        &&& values[y].gt(floor)
        &&& forall|j: int| 0 <= j < values.len() ==> !(#[trigger] values[j]).gt(values[y])
        &&& forall|j: int| 0 <= j < y ==> !(#[trigger] values[j]).ge(values[y])
    } else {
        y == 0
    }
}

/// The tokens among `best` that are neither the blank nor `unk`.
pub open spec fn spoken_tokens(best: Seq<i64>, unk: i64) -> Seq<i64> {
    best.filter(speaks(unk))
}

/// Whether a token is neither the blank nor `unk`.
pub open spec fn speaks(unk: i64) -> spec_fn(i64) -> bool {
    |y: i64| y != BLANK_ID && y != unk
}

/// `y` can be the best token of frame `t` after the tokens `before`, blanks and all:
/// the decoder answers to the last `context` of them, the joiner to its output and
/// the frame, and `y` is the first of the greatest of the joiner's logits.
pub open spec fn frame_token<
    D: Fn(&[i64]) -> Result<Vec<Single>, Fault>,
    J: Fn(&[Single], &[Single]) -> Result<Vec<Single>, Fault>,
>(
    decode: D,
    join: J,
    frames: Tensor,
    context: int,
    before: Seq<i64>,
    t: int,
    y: i64,
) -> bool {
    exists|c: &[i64], out: Vec<Single>, e: &[Single], d: &[Single], logits: Vec<Single>, at: int|
        {
            &&& c@ == before.skip(before.len() - context)
            &&& #[trigger] call_ensures(decode, (c,), Ok(out))
            &&& d@ == out@
            &&& e@.len() == frames.width()
            &&& forall|j: int|
                0 <= j < frames.width() ==> e@[j] == #[trigger] frames.data@[t * frames.width() + j]
            &&& #[trigger] call_ensures(join, (e, d), Ok(logits))
            &&& #[trigger] greatest(logits@, at)
            &&& y == at as i64
        }
}

/// `best` are best tokens of the frames, each one found after those before it that
/// are neither the blank nor the unknown token, with `context_size` blanks in front.
pub open spec fn frame_tokens<
    D: Fn(&[i64]) -> Result<Vec<Single>, Fault>,
    J: Fn(&[Single], &[Single]) -> Result<Vec<Single>, Fault>,
>(engine: ZipformerEngine, decode: D, join: J, frames: Tensor, best: Seq<i64>) -> bool {
    forall|t: int|
        0 <= t < best.len() ==> frame_token(
            decode,
            join,
            frames,
            engine.context_size as int,
            Seq::new(engine.context_size as nat, |i: int| 0i64) + spoken_tokens(
                best.take(t),
                engine.unk_id,
            ),
            t,
            #[trigger] best[t],
        )
}

/// `frames` can be the encoder's answer to the filterbank of `clip`, its rows put end
/// to end.
pub open spec fn encoder_output<
    B: Fn(&[Single]) -> Result<Rows, Fault>,
    N: Fn(&[Single], usize) -> Result<Tensor, Fault>,
    D: Fn(&[i64]) -> Result<Vec<Single>, Fault>,
    J: Fn(&[Single], &[Single]) -> Result<Vec<Single>, Fault>,
>(model: ZipformerModel<B, N, D, J>, clip: Seq<Single>, frames: Tensor) -> bool {
    exists|a: &[Single], rows: Rows, x: &[Single], n: usize|
        {
            &&& a@ == clip
            &&& #[trigger] call_ensures(model.fbank, (a,), Ok(rows))
            &&& x@ == rows@.map_values(|row: Option<Vec<Single>>| row->0@).flatten()
            &&& n == rows@.len()
            &&& #[trigger] call_ensures(model.encode, (x, n), Ok(frames))
        }
}

proof fn lemma_encoder_output<
    B: Fn(&[Single]) -> Result<Rows, Fault>,
    N: Fn(&[Single], usize) -> Result<Tensor, Fault>,
    D: Fn(&[i64]) -> Result<Vec<Single>, Fault>,
    J: Fn(&[Single], &[Single]) -> Result<Vec<Single>, Fault>,
>(model: ZipformerModel<B, N, D, J>, clip: Seq<Single>, rows: Rows, frames: Tensor)
    requires
        filtered(model.fbank, clip, Ok(rows)),
        all_rows(rows@),
        encoded(model.encode, flattened(rows@), rows@.len() as int, Ok(frames)),
    ensures
        encoder_output(model, clip, frames),
{
    law_features_are_the_rows(rows@);
    let a = choose|a: &[Single]| a@ == clip && #[trigger] call_ensures(model.fbank, (a,), Ok(rows));
    let (x, n) = choose|x: &[Single], n: usize|
        x@ == flattened(rows@) && n == rows@.len() && #[trigger] call_ensures(
            model.encode,
            (x, n),
            Ok(frames),
        );
    assert(call_ensures(model.fbank, (a,), Ok(rows)));
    assert(call_ensures(model.encode, (x, n), Ok(frames)));
}

/// The features are the filterbank's rows put end to end.
pub proof fn law_features_are_the_rows(rows: Seq<Option<Vec<Single>>>)
    requires
        forall|i: int| 0 <= i < rows.len() ==> #[trigger] rows[i] is Some,
    ensures
        flattened(rows) == rows.map_values(|row: Option<Vec<Single>>| row->0@).flatten(),
    decreases rows.len(),
{
    let read = |row: Option<Vec<Single>>| row->0@;
    if rows.len() == 0 {
        assert(rows.map_values(read) =~= Seq::empty());
    } else {
        let rest = rows.drop_last();
        assert forall|i: int| 0 <= i < rest.len() implies #[trigger] rest[i] is Some by {
            assert(rest[i] == rows[i]);
        }
        law_features_are_the_rows(rest);
        assert(rows[rows.len() - 1] is Some);
        assert(rows.map_values(read) =~= rest.map_values(read).push(read(rows.last())));
        rest.map_values(read).lemma_flatten_push(read(rows.last()));
    }
}

/// Every frame speaks: a transcript is the text of the best token of every encoder
/// frame, in order, with nothing left out but the blanks and the unknown tokens. A
/// token that comes twice, side by side or not, is said twice.
pub proof fn law_every_frame_speaks<
    B: Fn(&[Single]) -> Result<Rows, Fault>,
    N: Fn(&[Single], usize) -> Result<Tensor, Fault>,
    D: Fn(&[i64]) -> Result<Vec<Single>, Fault>,
    J: Fn(&[Single], &[Single]) -> Result<Vec<Single>, Fault>,
>(
    engine: ZipformerEngine,
    model: ZipformerModel<B, N, D, J>,
    clip: Seq<Single>,
    asked: int,
    total: int,
    result: ResultView,
)
    requires
        callable(model),
        engine.clip_ends(model, clip, Reach::Search(asked, total), Ok(result)),
    ensures
        asked == total,
        result.detected_language is None,
        result.segments.len() == 0,
        exists|frames: Tensor, best: Seq<i64>|
            {
                &&& encoder_output(model, clip, frames)
                &&& #[trigger] frame_tokens(engine, model.decode, model.join, frames, best)
                &&& best.len() == total == frames.rows()
                &&& result.text == detokenized(
                    ints(spoken_tokens(best, engine.unk_id)),
                    views(engine.tokens@),
                )
            },
{
    let rows = choose|rows: Rows|
        #[trigger] filtered(model.fbank, clip, Ok(rows)) && all_rows(rows@) && rows@.len() > 0
            && exists|frames: Tensor| #[trigger]
            encoded(model.encode, flattened(rows@), rows@.len() as int, Ok(frames))
                && engine.search_ends(
                model.decode,
                model.join,
                frames,
                Reach::Search(asked, total),
                Ok(result),
            );
    let frames = choose|frames: Tensor| #[trigger]
        encoded(model.encode, flattened(rows@), rows@.len() as int, Ok(frames))
            && engine.search_ends(
            model.decode,
            model.join,
            frames,
            Reach::Search(asked, total),
            Ok(result),
        );
    let hyp = choose|hyp: Seq<i64>| #[trigger]
        engine.search_gives(model.decode, model.join, frames, hyp) && result == engine.hyp_result(
            hyp,
        );
    let best = law_search_emits_every_token(engine, model.decode, model.join, frames, hyp);
    lemma_encoder_output(model, clip, rows, frames);
    assert(hyp.skip(engine.context_size as int) =~= spoken_tokens(best, engine.unk_id));
}

/// Zero is reported at the start, then at every 64th of `frames` encoder frames the share
/// of the frames before it, in whole percents, and 100 at the end.
pub open spec fn progress_of_frames(reported: Seq<int>, frames: int) -> bool {
    let n = reported.len() - 2;
    &&& n >= 0
    &&& reported[0] == 0
    &&& reported.last() == 100
    &&& (n - 1) * 64 < frames <= n * 64
    &&& forall|k: int|
        1 <= k <= n ==> 0 <= (k - 1) * 6400 - #[trigger] reported[k] * frames < frames
}

proof fn lemma_frame_progress(total: int)
    requires
        total >= 0,
    ensures
        progress_of_frames((seq![0int] + marks_before(total, total)).push(100), total),
{
    let marks = marks_before(total, total);
    let reported = (seq![0int] + marks).push(100);
    let n = reported.len() - 2;
    assert(n == marks.len());
    assert forall|k: int| 1 <= k <= n implies 0 <= (k - 1) * 6400 - #[trigger] reported[k] * total
        < total by {
        assert(reported[k] == marks[k - 1]);
        let x = (k - 1) * REPORT_EVERY * 100;
        let q = x / total;
        vstd::arithmetic::div_mod::lemma_fundamental_div_mod(x, total);
        vstd::arithmetic::div_mod::lemma_mod_bound(x, total);
        assert(q * total == total * q) by (nonlinear_arith);
    }
}

/// What a call of [`ZipformerEngine::transcribe`] gives is nothing for a clip without
/// a filterbank row, else what [`law_every_frame_speaks`] says of its clean samples. The
/// control is asked twice and then at every encoder frame; what is reported is what
/// [`progress_of_frames`] says.
pub proof fn law_transcribed_frames<
    B: Fn(&[Single]) -> Result<Rows, Fault>,
    N: Fn(&[Single], usize) -> Result<Tensor, Fault>,
    D: Fn(&[i64]) -> Result<Vec<Single>, Fault>,
    J: Fn(&[Single], &[Single]) -> Result<Vec<Single>, Fault>,
>(
    engine: &ZipformerEngine,
    audio: &[Single],
    opts: &TranscribeOptions,
    model: &ZipformerModel<B, N, D, J>,
    reported: Seq<int>,
    asked: nat,
    t: TranscriptionResult,
)
    requires
        audio@.len() > 0,
        callable(*model),
        exists|m: &mut Monitor<'_>| #[trigger]
            call_ensures(
                ZipformerEngine::transcribe::<B, N, D, J>,
                (engine, audio, opts, m, model),
                Ok(t),
            ) && final(m).reported() == reported && final(m).asked() == asked,
    ensures
        t@.segments.len() == 0,
        t@.detected_language is None,
        (t@.text.len() == 0 && exists|a: &[Single], rows: Rows|
            a@ == sanitized(audio@) && rows@.len() == 0 && #[trigger] call_ensures(
                model.fbank,
                (a,),
                Ok(rows),
            )) || exists|frames: Tensor, best: Seq<i64>|
            {
                &&& encoder_output(*model, sanitized(audio@), frames)
                &&& #[trigger] frame_tokens(*engine, model.decode, model.join, frames, best)
                &&& best.len() == frames.rows()
                &&& asked == 2 + best.len()
                &&& progress_of_frames(reported, best.len() as int)
                &&& t@.text == detokenized(
                    ints(spoken_tokens(best, engine.unk_id)),
                    views(engine.tokens@),
                )
            },
{
    let reach = choose|reach: Reach| #[trigger]
        engine.clip_ends(*model, sanitized(audio@), reach, Ok(t@)) && reported
            =~= reach.marks().push(100) && asked == reach.asks();
    if let Reach::Search(searched, total) = reach {
        law_every_frame_speaks(*engine, *model, sanitized(audio@), searched, total, t@);
        let (frames, best) = choose|frames: Tensor, best: Seq<i64>|
            {
                &&& encoder_output(*model, sanitized(audio@), frames)
                &&& #[trigger] frame_tokens(*engine, model.decode, model.join, frames, best)
                &&& best.len() == total == frames.rows()
                &&& t@.text == detokenized(
                    ints(spoken_tokens(best, engine.unk_id)),
                    views(engine.tokens@),
                )
            };
        lemma_frame_progress(total);
    } else {
        let rows = choose|rows: Rows| #[trigger]
            filtered(model.fbank, sanitized(audio@), Ok(rows)) && rows@.len() == 0;
        let a = choose|a: &[Single]|
            a@ == sanitized(audio@) && #[trigger] call_ensures(model.fbank, (a,), Ok(rows));
        assert(call_ensures(model.fbank, (a,), Ok(rows)));
    }
}

/// The hypothesis of a search is the initial blanks, then the best tokens of all
/// encoder frames but the blanks and the unknown tokens among them.
pub proof fn law_search_emits_every_token<
    D: Fn(&[i64]) -> Result<Vec<Single>, Fault>,
    J: Fn(&[Single], &[Single]) -> Result<Vec<Single>, Fault>,
>(engine: ZipformerEngine, decode: D, join: J, frames: Tensor, hyp: Seq<i64>) -> (best: Seq<i64>)
    requires
        engine.search_gives(decode, join, frames, hyp),
        frames.holds_rows(),
        frames.shape@.len() == 3,
    ensures
        frame_tokens(engine, decode, join, frames, best),
        best.len() == frames.rows(),
        hyp == Seq::new(engine.context_size as nat, |i: int| 0i64) + spoken_tokens(
            best,
            engine.unk_id,
        ),
        hyp.skip(engine.context_size as int) == best.filter(
            |y: i64| y != 0 && y != engine.unk_id,
        ),
{
    let out = choose|out: Vec<Single>| #[trigger]
        engine.searched(decode, join, frames, frames.rows() as nat, hyp, out);
    let best = lemma_frame_tokens(
        engine,
        decode,
        join,
        frames,
        frames.rows() as nat,
        hyp,
        out,
    );
    lemma_filter_same(best, speaks(engine.unk_id), |y: i64| y != 0 && y != engine.unk_id);
    assert(hyp.skip(engine.context_size as int) =~= spoken_tokens(best, engine.unk_id));
    best
}

/// Filters that agree keep the same.
proof fn lemma_filter_same(tokens: Seq<i64>, p: spec_fn(i64) -> bool, q: spec_fn(i64) -> bool)
    requires
        forall|y: i64| #[trigger] p(y) == q(y),
    ensures
        tokens.filter(p) == tokens.filter(q),
    decreases tokens.len(),
{
    reveal(Seq::filter);
    if tokens.len() > 0 {
        lemma_filter_same(tokens.drop_last(), p, q);
        assert(p(tokens.last()) == q(tokens.last()));
    }
}

/// One more encoder frame adds its best token at the end, whatever was said before, or
/// nothing when that is the blank or the unknown token.
pub proof fn law_one_more_frame<
    D: Fn(&[i64]) -> Result<Vec<Single>, Fault>,
    J: Fn(&[Single], &[Single]) -> Result<Vec<Single>, Fault>,
>(
    engine: ZipformerEngine,
    decode: D,
    join: J,
    frames: Tensor,
    t: nat,
    hyp: Seq<i64>,
    out: Vec<Single>,
)
    requires
        engine.searched(decode, join, frames, t + 1, hyp, out),
    ensures
        exists|y: i64, known: Seq<i64>, before: Vec<Single>, logits: Vec<Single>|
            {
                &&& #[trigger] engine.searched(decode, join, frames, t, known, before)
                &&& #[trigger] joined(join, frames.row(t as int), before@, Ok(logits))
                &&& y == best_token(logits@) as i64
                &&& hyp == #[trigger] with_token(known, y, engine.unk_id)
            },
{
    let next = t + 1;
    assert((next - 1) as nat == t);
    let (before, logits) = choose|before: Vec<Single>, logits: Vec<Single>|
        {
            &&& #[trigger] joined(join, frames.row(next - 1), before@, Ok(logits))
            &&& if engine.emits(engine.token(logits@)) {
                &&& hyp.len() > 0
                &&& hyp.last() == engine.token(logits@)
                &&& engine.searched(decode, join, frames, t, hyp.drop_last(), before)
                &&& decoded(decode, engine.context(hyp), Ok(out))
            } else {
                &&& out == before
                &&& engine.searched(decode, join, frames, t, hyp, before)
            }
        };
    let y = engine.token(logits@);
    let known = if engine.emits(y) {
        hyp.drop_last()
    } else {
        hyp
    };
    assert(hyp =~= with_token(known, y, engine.unk_id));
    assert(engine.searched(decode, join, frames, t, known, before));
}

/// `known` with the token `y` at its end, unless that is the blank or `unk`.
pub open spec fn with_token(known: Seq<i64>, y: i64, unk: i64) -> Seq<i64> {
    if y != 0 && y != unk {
        known.push(y)
    } else {
        known
    }
}

#[verifier::rlimit(60)]
#[verifier::spinoff_prover]
proof fn lemma_frame_tokens<
    D: Fn(&[i64]) -> Result<Vec<Single>, Fault>,
    J: Fn(&[Single], &[Single]) -> Result<Vec<Single>, Fault>,
>(
    engine: ZipformerEngine,
    decode: D,
    join: J,
    frames: Tensor,
    t: nat,
    hyp: Seq<i64>,
    out: Vec<Single>,
) -> (best: Seq<i64>)
    requires
        engine.searched(decode, join, frames, t, hyp, out),
        t <= frames.rows(),
        frames.holds_rows(),
        frames.shape@.len() == 3,
    ensures
        frame_tokens(engine, decode, join, frames, best),
        best.len() == t,
        hyp == engine.blanks() + spoken_tokens(best, engine.unk_id),
        decoded(decode, hyp.skip(hyp.len() - engine.context_size), Ok(out)),
    decreases t,
{
    reveal(Seq::filter);
    let keep = speaks(engine.unk_id);
    if t == 0 {
        let best: Seq<i64> = Seq::empty();
        assert(engine.blanks() + spoken_tokens(best, engine.unk_id) =~= engine.blanks());
        assert(hyp.skip(hyp.len() - engine.context_size) =~= hyp);
        best
    } else {
        let (before, logits) = choose|before: Vec<Single>, logits: Vec<Single>|
            {
                &&& #[trigger] joined(join, frames.row(t - 1), before@, Ok(logits))
                &&& if engine.emits(engine.token(logits@)) {
                    &&& hyp.len() > 0
                    &&& hyp.last() == engine.token(logits@)
                    &&& engine.searched(
                        decode,
                        join,
                        frames,
                        (t - 1) as nat,
                        hyp.drop_last(),
                        before,
                    )
                    &&& decoded(decode, engine.context(hyp), Ok(out))
                } else {
                    &&& out == before
                    &&& engine.searched(decode, join, frames, (t - 1) as nat, hyp, before)
                }
            };
        let y = engine.token(logits@);
        let held = if engine.emits(y) {
            hyp.drop_last()
        } else {
            hyp
        };
        let known = lemma_frame_tokens(engine, decode, join, frames, (t - 1) as nat, held, before);
        let best = known.push(y);
        assert(best.drop_last() =~= known);
        lemma_one_frame(engine, decode, join, frames, held, before, logits, t - 1);
        assert forall|k: int| 0 <= k < best.len() implies frame_token(
            decode,
            join,
            frames,
            engine.context_size as int,
            Seq::new(engine.context_size as nat, |i: int| 0i64) + spoken_tokens(
                best.take(k),
                engine.unk_id,
            ),
            k,
            #[trigger] best[k],
        ) by {
            assert(Seq::new(engine.context_size as nat, |i: int| 0i64) =~= engine.blanks());
            if k < known.len() {
                assert(best[k] == known[k]);
                assert(best.take(k) =~= known.take(k));
            } else {
                assert(best.take(k) =~= known);
            }
        }
        assert(spoken_tokens(best, engine.unk_id) == if keep(y) {
            spoken_tokens(known, engine.unk_id).push(y)
        } else {
            spoken_tokens(known, engine.unk_id)
        });
        let told = spoken_tokens(known, engine.unk_id);
        if engine.emits(y) {
            assert(hyp =~= held.push(y));
            assert((engine.blanks() + told).push(y) =~= engine.blanks() + told.push(y));
        }
        assert(hyp == engine.blanks() + spoken_tokens(best, engine.unk_id));
        best
    }
}

proof fn lemma_one_frame<
    D: Fn(&[i64]) -> Result<Vec<Single>, Fault>,
    J: Fn(&[Single], &[Single]) -> Result<Vec<Single>, Fault>,
>(
    engine: ZipformerEngine,
    decode: D,
    join: J,
    frames: Tensor,
    held: Seq<i64>,
    before: Vec<Single>,
    logits: Vec<Single>,
    t: int,
)
    requires
        0 <= t < frames.rows(),
        frames.holds_rows(),
        frames.shape@.len() == 3,
        decoded(decode, held.skip(held.len() - engine.context_size), Ok(before)),
        joined(join, frames.row(t), before@, Ok(logits)),
    ensures
        frame_token(
            decode,
            join,
            frames,
            engine.context_size as int,
            held,
            t,
            engine.token(logits@),
        ),
{
    let c = choose|c: &[i64]|
        c@ == held.skip(held.len() - engine.context_size) && #[trigger] call_ensures(
            decode,
            (c,),
            Ok(before),
        );
    let (e, d) = choose|e: &[Single], d: &[Single]|
        e@ == frames.row(t) && d@ == before@ && #[trigger] call_ensures(join, (e, d), Ok(logits));
    let width = frames.width();
    assert(0 <= t * width && t * width + width <= frames.rows() * width) by (nonlinear_arith)
        requires
            0 <= t,
            t + 1 <= frames.rows(),
            0 <= width,
    ;
    law_best_above_is_peak(logits@);
    let at = best_token(logits@);
    assert(greatest(logits@, at));
    assert forall|j: int| 0 <= j < width implies e@[j] == #[trigger] frames.data@[t * width + j] by {
        assert(e@[j] == frames.row(t)[j]);
    }
}

/// The text of a result has no white space at either end.
pub proof fn law_transcript_is_tidy(engine: ZipformerEngine, hyp: Seq<i64>)
    ensures
        tidy(engine.hyp_result(hyp).text),
{
    law_tidy_is_trimmed(
        crate::text::lossy_text(
            crate::tokens::joined_bytes(
                ints(hyp.skip(engine.context_size as int)),
                views(engine.tokens@),
            ),
        ),
    );
}

/// A call of [`ZipformerEngine::transcribe`] answers a requested cancellation with `Cancelled`,
/// and nothing else: on a clip with samples it does when the flag can only be read as
/// raised, and it never does when the flag cannot be, or is not there. An empty clip gives
/// an empty result. On success the caller's sink has received 100.
pub proof fn law_cancellation<
    B: Fn(&[Single]) -> Result<Rows, Fault>,
    N: Fn(&[Single], usize) -> Result<Tensor, Fault>,
    D: Fn(&[i64]) -> Result<Vec<Single>, Fault>,
    J: Fn(&[Single], &[Single]) -> Result<Vec<Single>, Fault>,
>(
    engine: &ZipformerEngine,
    audio: &[Single],
    opts: &TranscribeOptions,
    control: TranscribeControl,
    model: &ZipformerModel<B, N, D, J>,
    r: Result<TranscriptionResult, AsrError>,
)
    requires
        exists|m: &mut Monitor<'_>|
            (*m).fresh() && (*m).caller() == control && #[trigger] call_ensures(
                ZipformerEngine::transcribe::<B, N, D, J>,
                (engine, audio, opts, m, model),
                r,
            ),
    ensures
        audio@.len() == 0 ==> (r matches Ok(t) && t@ == empty_result()),
        audio@.len() > 0 && (control.cancel matches Some(flag) && !flag_reads(&flag, false)) ==> (
        r matches Err(e) && e@ == ErrorView::Cancelled),
        (control.cancel matches Some(flag) ==> !flag_reads(&flag, true)) ==> !(r matches Err(e)
            && e@ == ErrorView::Cancelled),
        r is Ok ==> (control.on_progress matches Some(sink) ==> sink.received(100)),
{
}

/// Success is owed: under a control that cannot say that the caller cancelled, and with
/// a filterbank and graphs that always answer, with every row there and an encoder
/// output of rank three, a call of [`ZipformerEngine::transcribe`] succeeds.
pub proof fn law_success_is_owed<
    B: Fn(&[Single]) -> Result<Rows, Fault>,
    N: Fn(&[Single], usize) -> Result<Tensor, Fault>,
    D: Fn(&[i64]) -> Result<Vec<Single>, Fault>,
    J: Fn(&[Single], &[Single]) -> Result<Vec<Single>, Fault>,
>(
    engine: &ZipformerEngine,
    audio: &[Single],
    opts: &TranscribeOptions,
    control: TranscribeControl,
    model: &ZipformerModel<B, N, D, J>,
    r: Result<TranscriptionResult, AsrError>,
)
    requires
        exists|m: &mut Monitor<'_>|
            (*m).fresh() && (*m).caller() == control && #[trigger] call_ensures(
                ZipformerEngine::transcribe::<B, N, D, J>,
                (engine, audio, opts, m, model),
                r,
            ),
        control.cancel matches Some(flag) ==> !flag_reads(&flag, true),
        forall|a: &[Single], q: Result<Rows, Fault>| #[trigger]
            call_ensures(model.fbank, (a,), q) ==> (q matches Ok(rows) && forall|i: int|
                0 <= i < rows@.len() ==> #[trigger] rows@[i] is Some),
        forall|x: &[Single], n: usize, q: Result<Tensor, Fault>| #[trigger]
            call_ensures(model.encode, (x, n), q) ==> (q matches Ok(out) && out.shape@.len() == 3),
        forall|c: &[i64], q: Result<Vec<Single>, Fault>| #[trigger]
            call_ensures(model.decode, (c,), q) ==> q is Ok,
        forall|e: &[Single], d: &[Single], q: Result<Vec<Single>, Fault>| #[trigger]
            call_ensures(model.join, (e, d), q) ==> q is Ok,
    ensures
        r is Ok,
{
}

/// Some entry of the listing is a candidate for the keyword.
pub open spec fn has_candidate(listing: Listing, keyword: Seq<char>) -> bool {
    listing matches Ok(entries) && exists|i: int|
        0 <= i < entries@.len() && candidate(#[trigger] entries@[i], keyword)
}

/// A call of [`ZipformerEngine::load`] succeeds exactly on a complete export: a directory
/// that can be reached and holds an encoder, a decoder, a joiner and `tokens.txt`, a
/// vocabulary that is not empty, three graphs that open with the inputs of a transducer,
/// and a context that is not empty.
pub proof fn law_complete_export_loads(
    dir: &ModelDir,
    listing: &Listing,
    host: Host,
    tokens: &Result<String, String>,
    graphs: &ZipformerGraphs,
    r: Result<ZipformerEngine, AsrError>,
)
    requires
        call_ensures(ZipformerEngine::load, (dir, listing, host, tokens, graphs), r),
    ensures
        r is Ok <==> {
            let g = *graphs;
            &&& reachable(*dir, host)
            &&& has_candidate(*listing, "encoder"@) && has_candidate(*listing, "decoder"@)
                && has_candidate(*listing, "joiner"@)
            &&& exists|i: int|
                0 <= i < dir.files@.len() && (#[trigger] dir.files@[i])@ == "tokens.txt"@
            &&& tokens matches Ok(text) && token_table(text@).len() > 0
            &&& g.encoder is Open && g.decoder is Open && g.joiner is Open
            &&& g.encoder->inputs@.len() == 2 && g.decoder->inputs@.len() == 1
                && g.joiner->inputs@.len() == 2
            &&& g.decoder_meta matches Ok(meta) && usize_value(meta@, "context_size"@, 2) > 0
        },
        r matches Ok(engine) ==> {
            &&& views(engine.tokens@) == token_table(tokens->Ok_0@)
            &&& engine.unk_id >= 0 ==> engine.tokens@[engine.unk_id as int]@ == "<unk>"@
        },
{
    law_held_models_are_found(*dir, host, "zipformer"@, "encoder"@);
    lemma_candidates(*listing, dir.shown@, "encoder"@);
    lemma_candidates(*listing, dir.shown@, "decoder"@);
    lemma_candidates(*listing, dir.shown@, "joiner"@);
    if let Ok(engine) = r {
        crate::tokens::law_first_place(views(engine.tokens@), "<unk>"@);
        let files = choose|files: ZipformerFiles| #[trigger]
            planned(*dir, *listing, host, Ok(files));
        assert(has_file(*listing, dir.shown@, "encoder"@)) by {
            assert(found(*listing, dir.shown@, "encoder"@, Ok(files.encoder@)));
        }
        assert(has_file(*listing, dir.shown@, "decoder"@)) by {
            assert(found(*listing, dir.shown@, "decoder"@, Ok(files.decoder@)));
        }
        assert(has_file(*listing, dir.shown@, "joiner"@)) by {
            assert(found(*listing, dir.shown@, "joiner"@, Ok(files.joiner@)));
        }
    }
}

proof fn lemma_candidates(listing: Listing, shown: Seq<char>, keyword: Seq<char>)
    ensures
        has_file(listing, shown, keyword) ==> has_candidate(listing, keyword),
        has_candidate(listing, keyword) ==> forall|e: ErrorView|
            !#[trigger] found(listing, shown, keyword, Err(e)),
{
    if has_file(listing, shown, keyword) {
        let name = choose|name: Seq<char>| #[trigger] found(listing, shown, keyword, Ok(name));
        let entries = listing->Ok_0;
        let i = choose|i: int| #[trigger]
            chosen(entries@, keyword, i) && name == entries@[i].name@;
        assert(candidate(entries@[i], keyword));
    }
}

/// A file is looked at by its name alone: any name that ends in `.onnx` and holds the
/// keyword before that, in any case, is that of a candidate, and one with `int8` in it is
/// that of a quantized one.
pub proof fn law_names_of_candidates(
    entry: DirEntry,
    a: Seq<char>,
    word: Seq<char>,
    b: Seq<char>,
    keyword: Seq<char>,
)
    requires
        entry.name@ == a + word + b + seq!['.', 'o', 'n', 'n', 'x'],
        lowercase(word) == keyword,
        keyword.len() > 0,
    ensures
        candidate(entry, keyword),
        keyword == seq!['i', 'n', 't', '8'] ==> quantized(entry),
{
    reveal_strlit(".onnx");
    reveal_strlit("int8");
    let name = entry.name@;
    assert(".onnx"@ =~= seq!['.', 'o', 'n', 'n', 'x']);
    assert("int8"@ =~= seq!['i', 'n', 't', '8']);
    assert(name.skip(name.len() - 5) =~= ".onnx"@);
    let i = a.len() as int;
    assert(word.len() == keyword.len());
    assert(lowercase(name).subrange(i, i + keyword.len()) =~= keyword) by {
        assert forall|k: int| 0 <= k < keyword.len() implies lowercase(name)[i + k] == keyword[k] by {
            assert(name[i + k] == word[k]);
            assert(lowercase(word)[k] == keyword[k]);
        }
    }
    assert(occurs(keyword, lowercase(name)));
}

/// A candidate's name ends in `.onnx` and holds the keyword in lower case.
pub proof fn law_candidates_are_named(entry: DirEntry, keyword: Seq<char>)
    requires
        candidate(entry, keyword),
    ensures
        ({
            let name = entry.name@;
            let n = name.len();
            &&& n > 5
            &&& name[n - 5] == '.' && name[n - 4] == 'o' && name[n - 3] == 'n' && name[n - 2] == 'n'
                && name[n - 1] == 'x'
        }),
        exists|i: int|
            0 <= i <= entry.name@.len() - keyword.len() && #[trigger] lowercase(
                entry.name@,
            ).subrange(i, i + keyword.len()) == keyword,
{
    reveal_strlit(".onnx");
    let name = entry.name@;
    let n = name.len();
    let tail = name.skip(n - 5);
    assert(".onnx"@.len() == 5);
    assert(tail == ".onnx"@);
    assert(tail[0] == name[n - 5] && tail[1] == name[n - 4] && tail[2] == name[n - 3] && tail[3]
        == name[n - 2] && tail[4] == name[n - 1]);
}

} // verus!
