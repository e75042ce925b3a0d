//! What the loaders need to know of the machine, of a model directory and of the
//! graphs in it, as plain values, and the checks that every loader shares.

use crate::error::{AsrError, ErrorView};
use crate::single::Single;
use crate::text::{
    concat, decimal, decimal_usize, parse_i32, parse_usize, same_text, signed_value, trim, trimmed,
    unsigned_value, views,
};
use vstd::prelude::*;
use vstd::string::*;

verus! {

/// Past this many bytes a path risks the ~260 of Windows once a file name is
/// added to it.
pub const LONGEST_PATH: usize = 230;

/// Threads used when the machine does not say how many it can run.
pub const DEFAULT_THREADS: usize = 4;

/// Most threads ever used.
pub const MOST_THREADS: usize = 8;

/// The machine that the engine runs on.
#[derive(Debug, Clone, Copy, PartialEq, Eq, Structural)]
pub struct Host {
    /// Whether paths are limited as on Windows.
    pub windows: bool,
    /// How many threads it runs at once, when it says so.
    pub parallelism: Option<usize>,
}

/// A model directory.
#[derive(Debug, Clone)]
pub struct ModelDir {
    /// The path, as shown in messages.
    pub shown: String,
    /// Whether there is a directory at the path.
    pub exists: bool,
    /// The length of the path in bytes, when it is UTF-8.
    pub utf8_len: Option<usize>,
    /// The names of the files in it.
    pub files: Vec<String>,
}

/// A model file.
#[derive(Debug, Clone)]
pub struct ModelFile {
    /// The path, as shown in messages.
    pub shown: String,
    /// Whether there is anything at the path.
    pub exists: bool,
}

/// A model file opened by the inference runtime, or the reason why it was not.
#[derive(Debug, Clone)]
pub enum Graph {
    /// The runtime refused the session's settings.
    Refused(String),
    /// The runtime could not open the file at `path`.
    Unreadable { path: String, message: String },
    /// The names of the graph's inputs and outputs, in order.
    Open { inputs: Vec<String>, outputs: Vec<String> },
}

/// `n` brought into `low..=high`.
pub open spec fn clamped(n: int, low: int, high: int) -> int {
    if n < low {
        low
    } else if n > high {
        high
    } else {
        n
    }
}

impl Host {
    /// Threads that a session runs on: those of the machine, at least one and at
    /// most [`MOST_THREADS`].
    pub open spec fn spec_threads(self) -> int {
        clamped(
            match self.parallelism {
                Some(n) => n as int,
                None => DEFAULT_THREADS as int,
            },
            1,
            MOST_THREADS as int,
        )
    }

    /// See [`Host::spec_threads`].
    pub fn threads(&self) -> (r: usize)
        ensures
            r == self.spec_threads(),
    {
        let n: usize = match self.parallelism {
            Some(n) => n,
            None => DEFAULT_THREADS,
        };
        if n < 1 {
            1
        } else if n > MOST_THREADS {
            MOST_THREADS
        } else {
            n
        }
    }
}

/// The machine's threads as a native library counts them, in 32 bits.
pub open spec fn native_threads(host: Host) -> int {
    clamped(
        match host.parallelism {
            Some(n) => (n as i32) as int,
            None => DEFAULT_THREADS as int,
        },
        1,
        MOST_THREADS as int,
    )
}

/// See [`native_threads`].
pub fn threads_for_native(host: Host) -> (r: i32)
    ensures
        r == native_threads(host),
{
    let n: i32 = match host.parallelism {
        Some(n) => #[verifier::truncate] (n as i32),
        None => 4,
    };
    if n < 1 {
        1
    } else if n > 8 {
        8
    } else {
        n
    }
}

/// What is wrong with the directory of `backend`, if anything: it is absent, or
/// its path is too long for Windows.
pub open spec fn dir_error(backend: Seq<char>, dir: ModelDir, host: Host) -> Option<ErrorView> {
    if !dir.exists {
        Some(ErrorView::ModelNotFound(backend + " model directory not found: "@ + dir.shown@))
    } else {
        match dir.utf8_len {
            Some(n) => if host.windows && n > LONGEST_PATH {
                Some(
                    ErrorView::Load(
                        backend + " model directory path too long ("@ + decimal(n as nat)
                            + " chars, Windows limit ~260): "@ + dir.shown@,
                    ),
                )
            } else {
                None
            },
            None => None,
        }
    }
}

/// Check the directory of `backend`: see [`dir_error`].
pub fn check_dir(backend: &str, dir: &ModelDir, host: Host) -> (r: Result<(), AsrError>)
    ensures
        r is Ok <==> dir_error(backend@, *dir, host) is None,
        r matches Err(e) ==> dir_error(backend@, *dir, host) == Some(e@),
{
    if !dir.exists {
        let head = concat(backend, " model directory not found: ");
        return Err(AsrError::ModelNotFound(concat(head.as_str(), dir.shown.as_str())));
    }
    if let Some(n) = dir.utf8_len {
        if host.windows && n > LONGEST_PATH {
            let head = concat(backend, " model directory path too long (");
            let count = concat(head.as_str(), decimal_usize(n).as_str());
            let limit = concat(count.as_str(), " chars, Windows limit ~260): ");
            return Err(AsrError::Load(concat(limit.as_str(), dir.shown.as_str())));
        }
    }
    Ok(())
}

/// Whether `name` stands in `names`.
fn has(names: &Vec<String>, name: &str) -> (r: bool)
    ensures
        r == views(names@).contains(name@),
{
    let n: usize = names.len();
    let mut i: usize = 0;
    while i < n
        invariant
            n == names@.len(),
            i <= n,
            forall|j: int| 0 <= j < i ==> #[trigger] names@[j]@ != name@,
        decreases n - i,
    {
        if same_text(names[i].as_str(), name) {
            assert(views(names@)[i as int] == name@);
            return true;
        }
        i += 1;
    }
    proof {
        if views(names@).contains(name@) {
            let k = choose|k: int| 0 <= k < views(names@).len() && views(names@)[k] == name@;
            assert(names@[k]@ == name@);
        }
    }
    false
}

/// Whether the directory holds a file of that name.
pub fn holds(dir: &ModelDir, name: &str) -> (r: bool)
    ensures
        r == views(dir.files@).contains(name@),
{
    has(&dir.files, name)
}

/// The model file of a stem: `<stem>.int8.onnx` when the directory holds it, else
/// `<stem>.onnx`.
pub open spec fn picked(dir: ModelDir, stem: Seq<char>) -> Result<Seq<char>, ErrorView> {
    if views(dir.files@).contains(stem + ".int8.onnx"@) {
        Ok(stem + ".int8.onnx"@)
    } else if views(dir.files@).contains(stem + ".onnx"@) {
        Ok(stem + ".onnx"@)
    } else {
        Err(
            ErrorView::ModelNotFound(
                "no "@ + stem + ".int8.onnx or "@ + stem + ".onnx in "@ + dir.shown@,
            ),
        )
    }
}

/// Find `<stem>.int8.onnx` (preferred) or `<stem>.onnx` in `dir`.
pub fn pick_model(dir: &ModelDir, stem: &str) -> (r: Result<String, AsrError>)
    ensures
        r matches Ok(name) ==> picked(*dir, stem@) == Ok::<_, ErrorView>(name@),
        r matches Err(e) ==> picked(*dir, stem@) == Err::<Seq<char>, _>(e@),
{
    let quantized = concat(stem, ".int8.onnx");
    if holds(dir, quantized.as_str()) {
        return Ok(quantized);
    }
    let full = concat(stem, ".onnx");
    if holds(dir, full.as_str()) {
        return Ok(full);
    }
    let a = concat("no ", stem);
    let b = concat(a.as_str(), ".int8.onnx or ");
    let c = concat(b.as_str(), stem);
    let d = concat(c.as_str(), ".onnx in ");
    Err(AsrError::ModelNotFound(concat(d.as_str(), dir.shown.as_str())))
}

/// What is wrong with the vocabulary file of a directory, if anything: it is
/// absent.
pub open spec fn tokens_file_error(dir: ModelDir) -> Option<ErrorView> {
    if views(dir.files@).contains("tokens.txt"@) {
        None
    } else {
        Some(ErrorView::ModelNotFound("tokens.txt not found in "@ + dir.shown@))
    }
}

/// Check that the directory holds `tokens.txt`.
pub fn check_tokens_file(dir: &ModelDir) -> (r: Result<(), AsrError>)
    ensures
        r is Ok <==> tokens_file_error(*dir) is None,
        r matches Err(e) ==> tokens_file_error(*dir) == Some(e@),
{
    if holds(dir, "tokens.txt") {
        Ok(())
    } else {
        Err(AsrError::ModelNotFound(concat("tokens.txt not found in ", dir.shown.as_str())))
    }
}

/// Why the graph of `backend` is not open, if it is not.
pub open spec fn graph_error(backend: Seq<char>, graph: Graph) -> Option<ErrorView> {
    match graph {
        Graph::Refused(message) => Some(ErrorView::Load(message@)),
        Graph::Unreadable { path, message } => Some(
            ErrorView::Load(backend + " load "@ + path@ + ": "@ + message@),
        ),
        Graph::Open { .. } => None,
    }
}

/// Check that the graph of `backend` is open: see [`graph_error`].
pub fn check_graph(backend: &str, graph: &Graph) -> (r: Result<(), AsrError>)
    ensures
        r is Ok <==> graph_error(backend@, *graph) is None,
        r matches Err(e) ==> graph_error(backend@, *graph) == Some(e@),
{
    match graph {
        Graph::Refused(message) => Err(AsrError::Load(message.clone())),
        Graph::Unreadable { path, message } => {
            let a = concat(backend, " load ");
            let b = concat(a.as_str(), path.as_str());
            let c = concat(b.as_str(), ": ");
            Err(AsrError::Load(concat(c.as_str(), message.as_str())))
        },
        Graph::Open { .. } => Ok(()),
    }
}

/// The input called `wanted`, or the one declared at `pos` when the graph uses
/// another label.
pub open spec fn input_name(names: Seq<Seq<char>>, wanted: Seq<char>, pos: int) -> Seq<char> {
    if names.contains(wanted) {
        wanted
    } else {
        names[pos]
    }
}

/// Resolve an input by name, falling back to the declared order: see
/// [`input_name`].
pub fn resolve_input(names: &Vec<String>, wanted: &str, pos: usize) -> (r: String)
    requires
        pos < names@.len(),
    ensures
        r@ == input_name(views(names@), wanted@, pos as int),
{
    if has(names, wanted) {
        wanted.to_owned()
    } else {
        names[pos].clone()
    }
}

/// Copies a list of strings.
pub(crate) fn clone_names(names: &Vec<String>) -> (r: Vec<String>)
    ensures
        views(r@) == views(names@),
        r@.len() == names@.len(),
{
    let mut out: Vec<String> = Vec::new();
    let n: usize = names.len();
    let mut i: usize = 0;
    while i < n
        invariant
            n == names@.len(),
            i <= n,
            out@.len() == i,
            forall|j: int| 0 <= j < i ==> #[trigger] out@[j]@ == names@[j]@,
        decreases n - i,
    {
        out.push(names[i].clone());
        i += 1;
    }
    assert(views(out@) =~= views(names@));
    out
}

/// The names of a graph's inputs.
pub open spec fn inputs_of(graph: Graph) -> Seq<String> {
    match graph {
        Graph::Open { inputs, .. } => inputs@,
        _ => Seq::empty(),
    }
}

/// The names of a graph's outputs.
pub open spec fn outputs_of(graph: Graph) -> Seq<String> {
    match graph {
        Graph::Open { outputs, .. } => outputs@,
        _ => Seq::empty(),
    }
}

/// The inputs and outputs of an open graph; none of one that is not.
pub(crate) fn ends(graph: &Graph) -> (r: (Vec<String>, Vec<String>))
    ensures
        views(r.0@) == views(inputs_of(*graph)),
        views(r.1@) == views(outputs_of(*graph)),
        r.0@.len() == inputs_of(*graph).len(),
        r.1@.len() == outputs_of(*graph).len(),
{
    match graph {
        Graph::Open { inputs, outputs } => (clone_names(inputs), clone_names(outputs)),
        _ => {
            let a: Vec<String> = Vec::new();
            let b: Vec<String> = Vec::new();
            assert(views(a@) =~= views(inputs_of(*graph)));
            assert(views(b@) =~= views(outputs_of(*graph)));
            (a, b)
        },
    }
}

/// A dimension of a shape, zero when it is absent or negative.
pub open spec fn dim_at(shape: Seq<i64>, idx: int) -> int {
    if 0 <= idx < shape.len() && shape[idx] > 0 {
        shape[idx] as int
    } else {
        0
    }
}

/// Read dimension `idx` of a tensor's shape (0 if out of range).
pub fn shape_dim(shape: &[i64], idx: usize) -> (r: usize)
    requires
        dim_at(shape@, idx as int) <= usize::MAX,
    ensures
        r == dim_at(shape@, idx as int),
{
    if idx < shape.len() && shape[idx] > 0 {
        shape[idx] as usize
    } else {
        0
    }
}

// --- metadata -----------------------------------------------------------------------

/// The custom metadata of a graph: keys and values.
pub type Metadata = Vec<(String, String)>;

/// The value of `key`, the first one when there are several.
pub open spec fn custom_value(meta: Seq<(String, String)>, key: Seq<char>) -> Option<Seq<char>>
    decreases meta.len(),
{
    if meta.len() == 0 {
        None
    } else {
        match custom_value(meta.drop_last(), key) {
            Some(v) => Some(v),
            None => if meta.last().0@ == key {
                Some(meta.last().1@)
            } else {
                None
            },
        }
    }
}

proof fn lemma_custom_stays(meta: Seq<(String, String)>, k: int, key: Seq<char>)
    requires
        0 <= k <= meta.len(),
        custom_value(meta.take(k), key) is Some,
    ensures
        custom_value(meta, key) == custom_value(meta.take(k), key),
    decreases meta.len() - k,
{
    if k < meta.len() {
        assert(meta.take(k + 1).drop_last() =~= meta.take(k));
        lemma_custom_stays(meta, k + 1, key);
    } else {
        assert(meta.take(k) =~= meta);
    }
}

/// Look up `key`: see [`custom_value`].
pub fn custom(meta: &Metadata, key: &str) -> (r: Option<String>)
    ensures
        crate::text::opt_view(r) == custom_value(meta@, key@),
{
    let n: usize = meta.len();
    let mut i: usize = 0;
    assert(meta@.take(0) =~= Seq::empty());
    while i < n
        invariant
            n == meta@.len(),
            i <= n,
            custom_value(meta@.take(i as int), key@) is None,
        decreases n - i,
    {
        assert(meta@.take(i + 1).drop_last() =~= meta@.take(i as int));
        assert(meta@.take(i + 1).last() == meta@[i as int]);
        if same_text(meta[i].0.as_str(), key) {
            proof {
                lemma_custom_stays(meta@, i + 1, key@);
            }
            return Some(meta[i].1.clone());
        }
        i += 1;
    }
    assert(meta@.take(n as int) =~= meta@);
    None
}

/// The unsigned integer that `key` holds, or `default` when it holds none.
pub open spec fn usize_value(meta: Seq<(String, String)>, key: Seq<char>, default: nat) -> nat {
    match custom_value(meta, key) {
        Some(v) => match unsigned_value(trimmed(v), 10, usize::MAX as nat) {
            Some(n) => n,
            None => default,
        },
        None => default,
    }
}

/// The 32-bit integer that `key` holds, or `default` when it holds none.
pub open spec fn i32_value(meta: Seq<(String, String)>, key: Seq<char>, default: int) -> int {
    match custom_value(meta, key) {
        Some(v) => match signed_value(trimmed(v)) {
            Some(n) => n,
            None => default,
        },
        None => default,
    }
}

/// See [`usize_value`].
pub fn meta_usize(meta: &Metadata, key: &str, default: usize) -> (r: usize)
    ensures
        r == usize_value(meta@, key@, default as nat),
{
    match custom(meta, key) {
        Some(v) => {
            let bare = trim(v.as_str());
            match parse_usize(bare.as_str()) {
                Some(n) => n,
                None => default,
            }
        },
        None => default,
    }
}

/// See [`i32_value`].
pub fn meta_i32(meta: &Metadata, key: &str, default: i32) -> (r: i32)
    ensures
        r == i32_value(meta@, key@, default as int),
{
    match custom(meta, key) {
        Some(v) => {
            let bare = trim(v.as_str());
            match parse_i32(bare.as_str()) {
                Some(n) => n,
                None => default,
            }
        },
        None => default,
    }
}

// --- tensors ------------------------------------------------------------------------

/// A tensor of numbers: its shape, and its values in row-major order.
#[derive(Debug, Clone)]
pub struct Tensor {
    pub shape: Vec<i64>,
    pub data: Vec<Single>,
}

impl Tensor {
    /// The rows of a rank-3 tensor: its second dimension.
    pub open spec fn rows(&self) -> int {
        self.shape@[1] as int
    }

    /// The values of one row of a rank-3 tensor: its third dimension.
    pub open spec fn width(&self) -> int {
        self.shape@[2] as int
    }

    /// A rank-3 tensor has the values of all rows of its first plane; one of
    /// another rank says nothing.
    pub open spec fn holds_rows(&self) -> bool {
        self.shape@.len() == 3 ==> {
            &&& 0 <= self.rows()
            &&& 0 <= self.width() <= usize::MAX
            &&& self.rows() * self.width() <= self.data@.len()
            &&& self.rows() <= usize::MAX
        }
    }

    /// Row `t` of a rank-3 tensor.
    pub open spec fn row(&self, t: int) -> Seq<Single> {
        self.data@.subrange(t * self.width(), t * self.width() + self.width())
    }
}

// --- laws ---------------------------------------------------------------------------

/// What a call of [`pick_model`] gives: a file that the directory holds, the quantized
/// one whenever it does, and an error only when it holds neither.
pub proof fn law_picked_file(dir: &ModelDir, stem: &str, r: Result<String, AsrError>)
    requires
        call_ensures(pick_model, (dir, stem), r),
    ensures
        views(dir.files@).contains(stem@ + ".int8.onnx"@) ==> (r matches Ok(name) && name@ == stem@
            + ".int8.onnx"@),
        !views(dir.files@).contains(stem@ + ".int8.onnx"@) && views(dir.files@).contains(
            stem@ + ".onnx"@,
        ) ==> (r matches Ok(name) && name@ == stem@ + ".onnx"@),
        r matches Ok(name) ==> views(dir.files@).contains(name@),
        r matches Err(e) ==> e@ is ModelNotFound,
{
}

/// A directory is refused only when it is absent, or when its path is over the limit on
/// a machine that has one.
pub proof fn law_refused_directory(
    backend: &str,
    dir: &ModelDir,
    host: Host,
    r: Result<(), AsrError>,
)
    requires
        call_ensures(check_dir, (backend, dir, host), r),
    ensures
        r is Ok <==> dir.exists && (host.windows ==> (dir.utf8_len matches Some(n) ==> n <= 230)),
        r matches Err(e) ==> (e@ is ModelNotFound <==> !dir.exists),
{
}

/// As many threads are used as the machine runs, from one to eight, and four when it does
/// not say.
pub proof fn law_thread_count(host: Host, r: usize, native: i32)
    requires
        call_ensures(Host::threads, (&host,), r),
        call_ensures(threads_for_native, (host,), native),
    ensures
        1 <= r <= 8,
        host.parallelism is None ==> r == 4,
        host.parallelism matches Some(n) ==> (1 <= n <= 8 ==> r == n) && (n > 8 ==> r == 8),
        host.parallelism matches Some(n) ==> (n <= i32::MAX ==> native == r),
        host.parallelism is None ==> native == r,
        1 <= native <= 8,
{
}

/// Entry `k` is the first with that key.
pub open spec fn first_with(meta: Seq<(String, String)>, key: Seq<char>, k: int) -> bool {
    &&& 0 <= k < meta.len()
    &&& meta[k].0@ == key
    &&& forall|i: int| 0 <= i < k ==> (#[trigger] meta[i]).0@ != key
}

/// What a call of [`custom`] gives: the value of the first entry with that key, and
/// nothing when no entry has it.
pub proof fn law_first_entry_wins(meta: &Metadata, key: &str, k: int, r: Option<String>)
    requires
        call_ensures(custom, (meta, key), r),
    ensures
        first_with(meta@, key@, k) ==> (r matches Some(v) && v@ == meta@[k].1@),
        (forall|i: int| 0 <= i < meta@.len() ==> (#[trigger] meta@[i]).0@ != key@) ==> r is None,
{
    if first_with(meta@, key@, k) {
        lemma_first_entry(meta@, key@, k);
    }
    if forall|i: int| 0 <= i < meta@.len() ==> (#[trigger] meta@[i]).0@ != key@ {
        lemma_no_entry(meta@, key@);
    }
}

proof fn lemma_first_entry(meta: Seq<(String, String)>, key: Seq<char>, k: int)
    requires
        first_with(meta, key, k),
    ensures
        custom_value(meta, key) == Some(meta[k].1@),
    decreases meta.len(),
{
    let rest = meta.drop_last();
    assert forall|i: int| 0 <= i < k implies (#[trigger] rest[i]).0@ != key by {
        assert(meta[i].0@ != key);
    }
    if k < meta.len() - 1 {
        lemma_first_entry(rest, key, k);
    } else {
        lemma_no_entry(rest, key);
    }
}

proof fn lemma_no_entry(meta: Seq<(String, String)>, key: Seq<char>)
    requires
        forall|i: int| 0 <= i < meta.len() ==> (#[trigger] meta[i]).0@ != key,
    ensures
        custom_value(meta, key) is None,
    decreases meta.len(),
{
    if meta.len() > 0 {
        let rest = meta.drop_last();
        assert forall|i: int| 0 <= i < rest.len() implies (#[trigger] rest[i]).0@ != key by {
            assert(meta[i].0@ != key);
        }
        lemma_no_entry(rest, key);
        assert(meta[meta.len() - 1].0@ != key);
    }
}

/// A number in the metadata is read as it is written, and a default stands for one that
/// is not there.
pub proof fn law_metadata_numbers(
    meta: &Metadata,
    key: &str,
    default: usize,
    n: nat,
    r: usize,
)
    requires
        call_ensures(meta_usize, (meta, key, default), r),
        n <= usize::MAX,
    ensures
        custom_value(meta@, key@) == Some(decimal(n)) ==> r == n,
        custom_value(meta@, key@) is None ==> r == default,
{
    crate::text::law_written_numbers_are_read_back(n);
}

/// What a call of [`resolve_input`] gives: the name asked for when the graph has an input
/// of that name, else the one declared at the place given.
pub proof fn law_resolved_input(names: &Vec<String>, wanted: &str, pos: usize, r: String)
    requires
        pos < names@.len(),
        call_ensures(resolve_input, (names, wanted, pos), r),
    ensures
        (exists|i: int| 0 <= i < names@.len() && (#[trigger] names@[i])@ == wanted@) ==> r@ == wanted@,
        (forall|i: int| 0 <= i < names@.len() ==> (#[trigger] names@[i])@ != wanted@) ==> r@
            == names@[pos as int]@,
{
    let all = views(names@);
    if exists|i: int| 0 <= i < names@.len() && (#[trigger] names@[i])@ == wanted@ {
        let i = choose|i: int| 0 <= i < names@.len() && (#[trigger] names@[i])@ == wanted@;
        assert(all[i] == wanted@);
        assert(all.contains(wanted@));
    } else {
        if all.contains(wanted@) {
            let i = choose|i: int| 0 <= i < all.len() && all[i] == wanted@;
            assert(names@[i]@ == wanted@);
        }
    }
}

/// The directory is there, and its path is short enough for the machine.
pub open spec fn reachable(dir: ModelDir, host: Host) -> bool {
    dir.exists && (host.windows ==> (dir.utf8_len matches Some(n) ==> n <= 230))
}

/// The directory holds a model of that stem, quantized or not.
pub open spec fn has_model(dir: ModelDir, stem: Seq<char>) -> bool {
    exists|i: int|
        0 <= i < dir.files@.len() && ((#[trigger] dir.files@[i])@ == stem + ".int8.onnx"@
            || dir.files@[i]@ == stem + ".onnx"@)
}

/// A model is found exactly when the directory holds one.
pub proof fn law_held_models_are_found(dir: ModelDir, host: Host, backend: Seq<char>, stem: Seq<char>)
    ensures
        picked(dir, stem) is Ok <==> has_model(dir, stem),
        dir_error(backend, dir, host) is None <==> reachable(dir, host),
        tokens_file_error(dir) is None <==> exists|i: int|
            0 <= i < dir.files@.len() && (#[trigger] dir.files@[i])@ == "tokens.txt"@,
{
    let names = views(dir.files@);
    assert(forall|i: int| 0 <= i < names.len() ==> #[trigger] names[i] == dir.files@[i]@);
    if picked(dir, stem) is Ok {
        let name = picked(dir, stem)->Ok_0;
        let i = choose|i: int| 0 <= i < names.len() && names[i] == name;
        assert(dir.files@[i]@ == name);
    }
    if has_model(dir, stem) {
        let i = choose|i: int|
            0 <= i < dir.files@.len() && ((#[trigger] dir.files@[i])@ == stem + ".int8.onnx"@
                || dir.files@[i]@ == stem + ".onnx"@);
        assert(names.contains(names[i]));
    }
    if names.contains("tokens.txt"@) {
        let i = choose|i: int| 0 <= i < names.len() && names[i] == "tokens.txt"@;
        assert(dir.files@[i]@ == "tokens.txt"@);
    }
    if exists|i: int| 0 <= i < dir.files@.len() && (#[trigger] dir.files@[i])@ == "tokens.txt"@ {
        let i = choose|i: int|
            0 <= i < dir.files@.len() && (#[trigger] dir.files@[i])@ == "tokens.txt"@;
        assert(names[i] == "tokens.txt"@);
    }
}

} // verus!
