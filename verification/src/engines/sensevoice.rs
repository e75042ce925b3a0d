//! SenseVoice backend (ONNX models).
//!
//! Runs the **SenseVoiceSmall** multilingual CTC model exported by sherpa-onnx
//! (Chinese, English, Japanese, Korean, Cantonese).
//!
//! The model expects a FunASR front-end: **kaldi fbank (80 mel) -> LFR stacking ->
//! CMVN** (see [`crate::engines::features`]). Its CMVN statistics, LFR window and
//! language ids are read from the model's metadata, so nothing is hard-coded to one
//! model.
//!
//! Like the other backends, it has no beam search, no decoding prompt, no
//! translation and no internal VAD.
//!
//! # Model
//!
//! The **directory** of a sherpa-onnx SenseVoice export, containing
//! `model.int8.onnx` (or `model.onnx`) and `tokens.txt`.

use crate::engines::features::{
    apply_cmvn, apply_lfr, compute_fbank, fbanked, frame_count, law_columns_are_normalized,
    law_stacked_count, law_stacked_len, lemma_mel_of_all, lemma_rows_of_frames, mel_of_all,
    mel_rows, normalized, rows_of_frames, stacked, stacked_count, NUM_MEL,
};
use crate::engines::windows::{
    cut_from, law_marks_are_shares, law_progress, law_windows_tile, measures_blocks, progress_at,
    tiles, window, window_cut, window_marks, windows_of, Walk, SINGLE_WINDOW_MAX_SAMPLES,
};
use crate::engines::{samples, sanitize_audio, sanitized};
use crate::error::{AsrError, ErrorView};
use crate::model::{
    check_dir, check_tokens_file, custom_value, dir_error, has_model, i32_value, input_name,
    law_held_models_are_found, reachable,
    meta_i32, meta_usize, pick_model, picked, resolve_input, tokens_file_error, usize_value, Graph,
    Host, Metadata, ModelDir, Tensor,
};
use crate::monitor::{climbing, lemma_climbs, lemma_share, level, Monitor};
use crate::single::{best_of, first_peak, law_best_is_peak, Single, ONE_BITS};
use crate::stitch::{
    in_line, law_stitched_in_line, law_stitched_text_is_tidy, law_tidy_is_trimmed, stitched, tidy,
};
use crate::text::{
    bracketed, clone_opt, concat, debug_names, debug_text, decimal, decimal_usize, from_chars,
    lower, lower_chars, lowercase, opt_as_str, opt_str_view, opt_view, pieces, same_text,
    show_list, split, to_chars, trim, trimmed, views, Separator,
};
use crate::tokens::{
    ids_fit, joined_text, known_ids, law_every_symbol_is_joined, load_tokens, loaded_tokens,
    read_view, space_out, spaced, symbol, token_table,
};
use crate::types::{
    empty_result, flag_reads, outcome, segment_views, EngineCapabilities, EngineConfig,
    LanguageSupport, LanguagesView, ResultView, Segment, SegmentView, TranscribeControl,
    TranscribeOptions, TranscriptionResult,
};
use vstd::prelude::*;
use vstd::string::*;

verus! {

// --- metadata -----------------------------------------------------------------------

/// What is wrong with stacking parameters, if anything: one of them is zero.
pub open spec fn lfr_error(m: nat, n: nat) -> Option<Seq<char>> {
    if m == 0 || n == 0 {
        Some(
            "sensevoice invalid LFR metadata: window_size="@ + decimal(m) + ", window_shift="@
                + decimal(n) + " (both must be >= 1)"@,
        )
    } else {
        None
    }
}

/// Reject non-positive LFR parameters read from model metadata.
pub fn validate_lfr(m: usize, n: usize) -> (r: Result<(), String>)
    ensures
        r is Ok <==> m > 0 && n > 0,
        r matches Err(e) ==> lfr_error(m as nat, n as nat) == Some(e@),
{
    if m == 0 || n == 0 {
        let a = concat(
            "sensevoice invalid LFR metadata: window_size=",
            decimal_usize(m).as_str(),
        );
        let b = concat(a.as_str(), ", window_shift=");
        let c = concat(b.as_str(), decimal_usize(n).as_str());
        return Err(concat(c.as_str(), " (both must be >= 1)"));
    }
    Ok(())
}

/// The pieces that are not empty, in order.
pub open spec fn nonempty(parts: Seq<Seq<char>>) -> Seq<Seq<char>>
    decreases parts.len(),
{
    if parts.len() == 0 {
        Seq::empty()
    } else {
        let before = nonempty(parts.drop_last());
        if parts.last().len() == 0 {
            before
        } else {
            before.push(parts.last())
        }
    }
}

/// The fields of a list separated by commas or white space.
pub open spec fn fields(text: Seq<char>) -> Seq<Seq<char>> {
    nonempty(pieces(text, Separator::CommaOrSpace))
}

/// Splits a list into its fields: see [`fields`].
pub fn split_fields(text: &str) -> (r: Vec<String>)
    ensures
        views(r@) == fields(text@),
{
    let chars = to_chars(text);
    let parts = split(chars.as_slice(), Separator::CommaOrSpace);
    let ghost all = pieces(text@, Separator::CommaOrSpace);
    let mut out: Vec<String> = Vec::new();
    let n: usize = parts.len();
    let mut i: usize = 0;
    assert(all.take(0) =~= Seq::empty());
    assert(views(out@) =~= nonempty(all.take(0)));
    while i < n
        invariant
            n == parts@.len(),
            i <= n,
            crate::text::char_views(parts@) == all,
            views(out@) == nonempty(all.take(i as int)),
        decreases n - i,
    {
        assert(all.take(i + 1).drop_last() =~= all.take(i as int));
        assert(all.take(i + 1).last() == parts@[i as int]@);
        let ghost before = views(out@);
        if parts[i].len() > 0 {
            let field = from_chars(parts[i].as_slice());
            let ghost view = field@;
            out.push(field);
            assert(views(out@) =~= before.push(view));
        }
        i += 1;
    }
    assert(all.take(n as int) =~= all);
    out
}

/// The function `parse` can give `r` for a field.
pub open spec fn parsed<P: Fn(&str) -> Result<Single, String>>(
    parse: P,
    field: Seq<char>,
    r: Result<Single, String>,
) -> bool {
    exists|s: &str| s@ == field && #[trigger] call_ensures(parse, (s,), r)
}

/// What is said of a field that is no number.
pub open spec fn bad_value(key: Seq<char>, field: Seq<char>, message: Seq<char>) -> ErrorView {
    ErrorView::Load("sensevoice bad '"@ + key + "' value '"@ + field + "': "@ + message)
}

/// How reading a float vector from metadata can end: with an error when there is
/// none, with the numbers of its fields, or with an error for the first field that
/// is no number.
pub open spec fn floats_read<P: Fn(&str) -> Result<Single, String>>(
    parse: P,
    value: Option<Seq<char>>,
    key: Seq<char>,
    r: Result<Seq<Single>, ErrorView>,
) -> bool {
    match value {
        None => r == Err::<Seq<Single>, _>(
            ErrorView::Load(
                "sensevoice metadata missing '"@ + key
                    + "' (not a sherpa-onnx SenseVoice export?)"@,
            ),
        ),
        Some(text) => match r {
            Ok(numbers) => {
                &&& numbers.len() == fields(text).len()
                &&& forall|i: int|
                    0 <= i < numbers.len() ==> parsed(
                        parse,
                        fields(text)[i],
                        Ok(#[trigger] numbers[i]),
                    )
            },
            Err(e) => exists|before: Seq<Single>, message: String|
                {
                    &&& before.len() < fields(text).len()
                    &&& #[trigger] numbers_before(parse, fields(text), before)
                    &&& #[trigger] parsed(parse, fields(text)[before.len() as int], Err(message))
                    &&& e == bad_value(key, fields(text)[before.len() as int], message@)
                },
        },
    }
}

/// `numbers` are numbers of the first fields.
pub open spec fn numbers_before<P: Fn(&str) -> Result<Single, String>>(
    parse: P,
    all: Seq<Seq<char>>,
    numbers: Seq<Single>,
) -> bool {
    forall|i: int| 0 <= i < numbers.len() ==> parsed(parse, all[i], Ok(#[trigger] numbers[i]))
}

/// The outcome of reading a float vector over sequences.
pub open spec fn floats_view(r: Result<Vec<Single>, AsrError>) -> Result<Seq<Single>, ErrorView> {
    match r {
        Ok(v) => Ok(v@),
        Err(e) => Err(e@),
    }
}

/// Parse a float vector stored in model metadata, with `parse` for one number.
/// sherpa-onnx SenseVoice writes the CMVN vectors comma-separated; other exports
/// may use white space. Accepts either, ignoring empty fields (so a trailing
/// separator does not produce a spurious error).
pub fn parse_float_vec<P: Fn(&str) -> Result<Single, String>>(
    value: Option<String>,
    key: &str,
    parse: &P,
) -> (r: Result<Vec<Single>, AsrError>)
    requires
        forall|s: &str| #[trigger] call_requires(*parse, (s,)),
    ensures
        floats_read(*parse, opt_view(value), key@, floats_view(r)),
{
    match value {
        None => {
            let head = concat("sensevoice metadata missing '", key);
            Err(
                AsrError::Load(
                    concat(head.as_str(), "' (not a sherpa-onnx SenseVoice export?)"),
                ),
            )
        },
        Some(text) => {
            let parts = split_fields(text.as_str());
            let ghost all = fields(text@);
            let mut out: Vec<Single> = Vec::new();
            let n: usize = parts.len();
            let mut i: usize = 0;
            while i < n
                invariant
                    n == parts@.len(),
                    i <= n,
                    views(parts@) == all,
                    all == fields(text@),
                    value == Some(text),
                    out@.len() == i,
                    numbers_before(*parse, all, out@),
                    forall|s: &str| #[trigger] call_requires(*parse, (s,)),
                decreases n - i,
            {
                assert(all[i as int] == parts@[i as int]@);
                let answer = parse(parts[i].as_str());
                assert(parsed(*parse, all[i as int], answer));
                match answer {
                    Ok(number) => {
                        out.push(number);
                    },
                    Err(message) => {
                        let a = concat("sensevoice bad '", key);
                        let b = concat(a.as_str(), "' value '");
                        let c = concat(b.as_str(), parts[i].as_str());
                        let d = concat(c.as_str(), "': ");
                        let e = AsrError::Load(concat(d.as_str(), message.as_str()));
                        assert(e@ == bad_value(key@, all[i as int], message@));
                        return Err(e);
                    },
                }
                i += 1;
            }
            Ok(out)
        },
    }
}

/// What a SenseVoice export says of itself.
pub struct SenseVoiceSettings {
    /// LFR stacking window.
    pub lfr_m: usize,
    /// LFR stacking shift.
    pub lfr_n: usize,
    /// CMVN, applied as `(feat + neg_mean) * inv_stddev` per stacked frame.
    pub neg_mean: Vec<Single>,
    pub inv_stddev: Vec<Single>,
    /// Whether the model wants samples in `[-1, 1]`. When false (the SenseVoice
    /// default) the waveform is scaled back to i16 range.
    pub normalize_samples: bool,
    /// CTC blank id.
    pub blank_id: usize,
    /// Language ids.
    pub lang_auto: i32,
    pub lang_zh: i32,
    pub lang_en: i32,
    pub lang_ja: i32,
    pub lang_ko: i32,
    pub lang_yue: i32,
    /// Text-normalization id (with inverse text normalization on).
    pub with_itn: i32,
}

impl SenseVoiceSettings {
    /// The stacking parameters are positive, and the statistics have one value per
    /// stacked feature.
    pub open spec fn wf(&self) -> bool {
        &&& self.lfr_m > 0
        &&& self.lfr_n > 0
        &&& self.neg_mean@.len() == NUM_MEL * self.lfr_m
        &&& self.inv_stddev@.len() == NUM_MEL * self.lfr_m
    }

    /// The settings are those of the metadata, with these statistics.
    pub open spec fn of(
        &self,
        meta: Seq<(String, String)>,
        neg_mean: Seq<Single>,
        inv_stddev: Seq<Single>,
    ) -> bool {
        &&& self.lfr_m == usize_value(meta, "lfr_window_size"@, 7)
        &&& self.lfr_n == usize_value(meta, "lfr_window_shift"@, 6)
        &&& self.neg_mean@ == neg_mean
        &&& self.inv_stddev@ == inv_stddev
        &&& self.normalize_samples == (match custom_value(meta, "normalize_samples"@) {
            Some(v) => trimmed(v) == "1"@,
            None => false,
        })
        &&& self.blank_id == usize_value(meta, "blank_id"@, 0)
        &&& self.lang_auto == i32_value(meta, "lang_auto"@, 0)
        &&& self.lang_zh == i32_value(meta, "lang_zh"@, 3)
        &&& self.lang_en == i32_value(meta, "lang_en"@, 4)
        &&& self.lang_ja == i32_value(meta, "lang_ja"@, 11)
        &&& self.lang_ko == i32_value(meta, "lang_ko"@, 12)
        &&& self.lang_yue == i32_value(meta, "lang_yue"@, 13)
        &&& self.with_itn == i32_value(meta, "with_itn"@, 14)
    }
}

/// What is said of statistics of the wrong size.
pub open spec fn cmvn_mismatch(expected: nat, neg_mean: nat, inv_stddev: nat) -> ErrorView {
    ErrorView::Load(
        "sensevoice CMVN size mismatch: expected "@ + decimal(expected) + ", got neg_mean="@
            + decimal(neg_mean) + " inv_stddev="@ + decimal(inv_stddev),
    )
}

/// How reading the settings can fail, or the statistics that it can read.
pub open spec fn settings_read<P: Fn(&str) -> Result<Single, String>>(
    parse: P,
    meta: Seq<(String, String)>,
    r: Result<(Seq<Single>, Seq<Single>), ErrorView>,
) -> bool {
    let m = usize_value(meta, "lfr_window_size"@, 7);
    let n = usize_value(meta, "lfr_window_shift"@, 6);
    match lfr_error(m, n) {
        Some(message) => r == Err::<(Seq<Single>, Seq<Single>), _>(ErrorView::Load(message)),
        None => exists|a: Result<Seq<Single>, ErrorView>| #[trigger]
            floats_read(parse, custom_value(meta, "neg_mean"@), "neg_mean"@, a) && (match a {
                Err(e) => r == Err::<(Seq<Single>, Seq<Single>), _>(e),
                Ok(neg_mean) => exists|b: Result<Seq<Single>, ErrorView>| #[trigger]
                    floats_read(parse, custom_value(meta, "inv_stddev"@), "inv_stddev"@, b) && (
                    match b {
                        Err(e) => r == Err::<(Seq<Single>, Seq<Single>), _>(e),
                        Ok(inv_stddev) => if neg_mean.len() != NUM_MEL * m || inv_stddev.len()
                            != NUM_MEL * m {
                            r == Err::<(Seq<Single>, Seq<Single>), _>(
                                cmvn_mismatch(
                                    (NUM_MEL * m) as nat,
                                    neg_mean.len(),
                                    inv_stddev.len(),
                                ),
                            )
                        } else {
                            r == Ok::<_, ErrorView>((neg_mean, inv_stddev))
                        },
                    }),
            }),
    }
}

/// Read the settings out of the metadata, with `parse` for one number.
pub fn read_settings<P: Fn(&str) -> Result<Single, String>>(meta: &Metadata, parse: &P) -> (r:
    Result<SenseVoiceSettings, AsrError>)
    requires
        forall|s: &str| #[trigger] call_requires(*parse, (s,)),
    ensures
        r matches Ok(settings) ==> settings.wf() && settings_read(
            *parse,
            meta@,
            Ok((settings.neg_mean@, settings.inv_stddev@)),
        ) && settings.of(meta@, settings.neg_mean@, settings.inv_stddev@),
        r matches Err(e) ==> settings_read(*parse, meta@, Err(e@)),
{
    let lfr_m: usize = meta_usize(meta, "lfr_window_size", 7);
    let lfr_n: usize = meta_usize(meta, "lfr_window_shift", 6);
    if let Err(message) = validate_lfr(lfr_m, lfr_n) {
        return Err(AsrError::Load(message));
    }
    let feat_dim: u128 = NUM_MEL as u128 * lfr_m as u128;
    let neg_mean = match parse_float_vec(crate::model::custom(meta, "neg_mean"), "neg_mean", parse) {
        Ok(v) => {
            assert(floats_read(
                *parse,
                custom_value(meta@, "neg_mean"@),
                "neg_mean"@,
                Ok(v@),
            ));
            v
        },
        Err(e) => {
            assert(floats_read(
                *parse,
                custom_value(meta@, "neg_mean"@),
                "neg_mean"@,
                Err(e@),
            ));
            return Err(e);
        },
    };
    let inv_stddev = match parse_float_vec(
        crate::model::custom(meta, "inv_stddev"),
        "inv_stddev",
        parse,
    ) {
        Ok(v) => {
            assert(floats_read(
                *parse,
                custom_value(meta@, "inv_stddev"@),
                "inv_stddev"@,
                Ok(v@),
            ));
            v
        },
        Err(e) => {
            assert(floats_read(
                *parse,
                custom_value(meta@, "inv_stddev"@),
                "inv_stddev"@,
                Err(e@),
            ));
            return Err(e);
        },
    };
    if neg_mean.len() as u128 != feat_dim || inv_stddev.len() as u128 != feat_dim {
        let a = concat(
            "sensevoice CMVN size mismatch: expected ",
            crate::text::decimal_u128(feat_dim).as_str(),
        );
        let b = concat(a.as_str(), ", got neg_mean=");
        let c = concat(b.as_str(), decimal_usize(neg_mean.len()).as_str());
        let d = concat(c.as_str(), " inv_stddev=");
        return Err(AsrError::Load(concat(d.as_str(), decimal_usize(inv_stddev.len()).as_str())));
    }
    let normalize_samples: bool = match crate::model::custom(meta, "normalize_samples") {
        Some(v) => same_text(trim(v.as_str()).as_str(), "1"),
        None => false,
    };
    Ok(
        SenseVoiceSettings {
            lfr_m,
            lfr_n,
            neg_mean,
            inv_stddev,
            normalize_samples,
            blank_id: meta_usize(meta, "blank_id", 0),
            lang_auto: meta_i32(meta, "lang_auto", 0),
            lang_zh: meta_i32(meta, "lang_zh", 3),
            lang_en: meta_i32(meta, "lang_en", 4),
            lang_ja: meta_i32(meta, "lang_ja", 11),
            lang_ko: meta_i32(meta, "lang_ko", 12),
            lang_yue: meta_i32(meta, "lang_yue", 13),
            with_itn: meta_i32(meta, "with_itn", 14),
        },
    )
}

// --- decoding -----------------------------------------------------------------------

/// The best token of each of the first `frames` rows.
pub open spec fn best_path(logits: Seq<Single>, frames: nat, vocab: int) -> Seq<int> {
    Seq::new(
        frames,
        |t: int| best_of(logits.subrange(t * vocab, t * vocab + vocab)),
    )
}

/// A path of best tokens with the blank dropped and consecutive duplicates
/// collapsed.
pub open spec fn collapsed(path: Seq<int>, blank: int) -> Seq<int>
    decreases path.len(),
{
    if path.len() == 0 {
        Seq::empty()
    } else {
        let before = collapsed(path.drop_last(), blank);
        let best = path.last();
        if best != blank && (path.len() == 1 || path[path.len() - 2] != best) {
            before.push(best)
        } else {
            before
        }
    }
}

/// Token ids as integers.
pub open spec fn ints(ids: Seq<usize>) -> Seq<int> {
    ids.map_values(|id: usize| id as int)
}

/// CTC greedy decoding: per-frame argmax, drop the blank id, collapse consecutive
/// duplicates. A row whose first value is a NaN counts as its first token.
pub fn greedy_ctc(logits: &[Single], frames: usize, vocab: usize, blank: usize) -> (r: Vec<usize>)
    requires
        frames > 0 ==> vocab > 0,
        frames * vocab <= logits@.len(),
    ensures
        ints(r@) == collapsed(
            best_path(logits@, frames as nat, vocab as int),
            blank as int,
        ),
{
    let ghost path = best_path(logits@, frames as nat, vocab as int);
    let len: usize = logits.len();
    let mut out: Vec<usize> = Vec::new();
    let mut prev: Option<usize> = None;
    let mut t: usize = 0;
    assert(path.take(0) =~= Seq::empty());
    assert(ints(out@) =~= collapsed(path.take(0), blank as int));
    while t < frames
        invariant
            len == logits@.len(),
            frames > 0 ==> vocab > 0,
            frames * vocab <= len,
            t <= frames,
            path == best_path(logits@, frames as nat, vocab as int),
            ints(out@) == collapsed(path.take(t as int), blank as int),
            t == 0 ==> prev is None,
            t > 0 ==> (prev matches Some(p) && p == path[t - 1]),
        decreases frames - t,
    {
        assert(0 <= t * vocab && t * vocab + vocab <= frames * vocab) by (nonlinear_arith)
            requires
                t + 1 <= frames,
        ;
        let from: usize = t * vocab;
        let row: &[Single] = &logits[from..from + vocab];
        assert(row@ =~= logits@.subrange(t * vocab, t * vocab + vocab));
        let best: usize = first_peak(row);
        assert(path[t as int] == best);
        assert(path.take(t + 1).drop_last() =~= path.take(t as int));
        let ghost before = ints(out@);
        let repeated: bool = match prev {
            Some(p) => p == best,
            None => false,
        };
        if best != blank && !repeated {
            out.push(best);
            assert(ints(out@) =~= before.push(best as int));
        }
        prev = Some(best);
        t += 1;
    }
    assert(path.take(frames as int) =~= path);
    out
}

/// `ids` without the first `skip`.
pub open spec fn after(ids: Seq<int>, skip: int) -> Seq<int> {
    if ids.len() <= skip {
        Seq::empty()
    } else {
        ids.skip(skip)
    }
}

/// Join decoded token ids into text, skipping the first `skip` (SenseVoice's meta
/// tokens) and turning the word-start marker into a space.
pub fn tokens_to_text(ids: &[usize], tokens: &Vec<String>, skip: usize) -> (r: String)
    ensures
        r@ == trimmed(spaced(joined_text(after(ints(ids@), skip as int), views(tokens@)))),
{
    let ghost all = after(ints(ids@), skip as int);
    let ghost table = views(tokens@);
    let mut text = String::new();
    let n: usize = ids.len();
    let first: usize = if skip < n {
        skip
    } else {
        n
    };
    let mut i: usize = first;
    assert(all.take(0) =~= Seq::empty());
    while i < n
        invariant
            n == ids@.len(),
            first <= i <= n,
            first == if skip < n {
                skip
            } else {
                n
            },
            all == after(ints(ids@), skip as int),
            table == views(tokens@),
            text@ == joined_text(all.take(i - first), table),
        decreases n - i,
    {
        assert(all.take(i - first + 1).drop_last() =~= all.take(i - first));
        assert(all.take(i - first + 1).last() == ids@[i as int]);
        let id: usize = ids[i];
        if id < tokens.len() {
            assert(table[id as int] == tokens@[id as int]@);
            text.append(tokens[id].as_str());
        }
        i += 1;
    }
    assert(all.take(n - first) =~= all);
    let shown = space_out(text.as_str());
    trim(shown.as_str())
}

// --- languages ----------------------------------------------------------------------

/// The language of a tag token: one of `<|zh|>`, `<|en|>`, `<|ja|>`, `<|ko|>` and
/// `<|yue|>`.
pub open spec fn tag_language(tag: Seq<char>) -> Option<Seq<char>> {
    if tag == "<|zh|>"@ {
        Some("chinese"@)
    } else if tag == "<|en|>"@ {
        Some("english"@)
    } else if tag == "<|ja|>"@ {
        Some("japanese"@)
    } else if tag == "<|ko|>"@ {
        Some("korean"@)
    } else if tag == "<|yue|>"@ {
        Some("cantonese"@)
    } else {
        None
    }
}

/// Turn a SenseVoice language tag token (`<|en|>`) into an English language name,
/// or `None` if it is not a recognized tag.
pub fn lang_name_from_tag(tag: &str) -> (r: Option<String>)
    ensures
        opt_view(r) == tag_language(tag@),
{
    if same_text(tag, "<|zh|>") {
        Some("chinese".to_owned())
    } else if same_text(tag, "<|en|>") {
        Some("english".to_owned())
    } else if same_text(tag, "<|ja|>") {
        Some("japanese".to_owned())
    } else if same_text(tag, "<|ko|>") {
        Some("korean".to_owned())
    } else if same_text(tag, "<|yue|>") {
        Some("cantonese".to_owned())
    } else {
        None
    }
}

impl SenseVoiceSettings {
    /// The id of a language, by name or code in any case; detection for one that is
    /// absent or unknown.
    pub open spec fn language_id(&self, name: Option<Seq<char>>) -> i32 {
        match name {
            None => self.lang_auto,
            Some(given) => {
                let n = lowercase(given);
                if n == "zh"@ || n == "chinese"@ || n == "mandarin"@ {
                    self.lang_zh
                } else if n == "en"@ || n == "english"@ {
                    self.lang_en
                } else if n == "ja"@ || n == "japanese"@ {
                    self.lang_ja
                } else if n == "ko"@ || n == "korean"@ {
                    self.lang_ko
                } else if n == "yue"@ || n == "cantonese"@ {
                    self.lang_yue
                } else {
                    self.lang_auto
                }
            },
        }
    }

    /// See [`SenseVoiceSettings::language_id`].
    pub fn id_of(&self, name: Option<&str>) -> (r: i32)
        ensures
            r == self.language_id(opt_str_view(name)),
    {
        match name {
            None => self.lang_auto,
            Some(given) => {
                let chars = lower_chars(given);
                let n = from_chars(chars.as_slice());
                let n = n.as_str();
                if same_text(n, "zh") || same_text(n, "chinese") || same_text(n, "mandarin") {
                    self.lang_zh
                } else if same_text(n, "en") || same_text(n, "english") {
                    self.lang_en
                } else if same_text(n, "ja") || same_text(n, "japanese") {
                    self.lang_ja
                } else if same_text(n, "ko") || same_text(n, "korean") {
                    self.lang_ko
                } else if same_text(n, "yue") || same_text(n, "cantonese") {
                    self.lang_yue
                } else {
                    self.lang_auto
                }
            },
        }
    }
}

// --- the engine ---------------------------------------------------------------------

/// SenseVoice's meta tokens (language, emotion, event, text normalization) stand
/// before the transcript.
pub const META_TOKENS: usize = 4;

/// The bit pattern of `32768.0`, which brings samples back to i16 range.
pub const I16_SCALE_BITS: u32 = 0x4700_0000;

/// What a graph takes for one window.
pub struct SenseVoiceInput {
    /// Stacked and normalized features, row-major.
    pub x: Vec<Single>,
    /// Rows of `x`.
    pub frames: usize,
    /// Values per row of `x`.
    pub dim: usize,
    /// Language id.
    pub language: i32,
    /// Text-normalization id.
    pub text_norm: i32,
}

/// Where an inference went wrong.
#[derive(Debug, Clone, Copy, PartialEq, Eq, Structural)]
pub enum SenseVoiceStage {
    /// Building the feature tensor.
    X,
    /// Building the length tensor.
    XLength,
    /// Building the language tensor.
    Language,
    /// Building the text-normalization tensor.
    TextNorm,
    /// Running the graph.
    Inference,
    /// Reading the logits.
    Logits,
}

impl SenseVoiceStage {
    /// What an error of this stage is introduced by.
    pub open spec fn spec_label(self) -> Seq<char> {
        match self {
            SenseVoiceStage::X => "sensevoice x tensor: "@,
            SenseVoiceStage::XLength => "sensevoice x_length tensor: "@,
            SenseVoiceStage::Language => "sensevoice language tensor: "@,
            SenseVoiceStage::TextNorm => "sensevoice text_norm tensor: "@,
            SenseVoiceStage::Inference => "sensevoice inference: "@,
            SenseVoiceStage::Logits => "sensevoice logits: "@,
        }
    }

    /// The error of this stage with the runtime's own words.
    pub fn error(self, message: &str) -> (r: AsrError)
        ensures
            r@ == ErrorView::Transcribe(self.spec_label() + message@),
    {
        let label = match self {
            SenseVoiceStage::X => "sensevoice x tensor: ",
            SenseVoiceStage::XLength => "sensevoice x_length tensor: ",
            SenseVoiceStage::Language => "sensevoice language tensor: ",
            SenseVoiceStage::TextNorm => "sensevoice text_norm tensor: ",
            SenseVoiceStage::Inference => "sensevoice inference: ",
            SenseVoiceStage::Logits => "sensevoice logits: ",
        };
        AsrError::Transcribe(concat(label, message))
    }
}

/// What one inference gives: the logits, or the stage at which it failed and the
/// runtime's own words.
pub type Logits = Result<Tensor, (SenseVoiceStage, String)>;

/// SenseVoice CTC backend.
pub struct SenseVoiceEngine {
    /// What the export says of itself.
    pub settings: SenseVoiceSettings,
    /// Token id -> symbol.
    pub tokens: Vec<String>,
    /// The graph's inputs.
    pub x_name: String,
    pub xlen_name: String,
    pub lang_name: String,
    pub tnorm_name: String,
    /// Default language when a call does not force one (`None` = auto).
    pub default_language: Option<String>,
    /// What the backend can do.
    pub caps: EngineCapabilities,
}

/// The languages that SenseVoice covers.
pub open spec fn sensevoice_languages() -> Seq<Seq<char>> {
    seq!["chinese"@, "english"@, "japanese"@, "korean"@, "cantonese"@]
}

/// Why the model directory cannot be loaded from, if it cannot: see [`dir_error`],
/// [`picked`] and [`tokens_file_error`], in that order.
pub open spec fn plan_error(dir: ModelDir, host: Host) -> Option<ErrorView> {
    match dir_error("sensevoice"@, dir, host) {
        Some(e) => Some(e),
        None => match picked(dir, "model"@) {
            Err(e) => Some(e),
            Ok(_) => tokens_file_error(dir),
        },
    }
}

/// Why the graph of the model is not open, if it is not.
pub open spec fn session_error(graph: Graph) -> Option<ErrorView> {
    match graph {
        Graph::Refused(message) => Some(ErrorView::Load(message@)),
        Graph::Unreadable { message, .. } => Some(
            ErrorView::Load("sensevoice load: "@ + message@),
        ),
        Graph::Open { .. } => None,
    }
}

/// What is said of a graph that has not the four inputs of a SenseVoice export.
pub open spec fn inputs_error(inputs: Seq<String>) -> ErrorView {
    ErrorView::Load(
        "expected a SenseVoice model with 4 inputs (x, x_length, language, text_norm), got "@
            + decimal(inputs.len()) + ": "@ + debug_text(views(inputs)),
    )
}

/// What loading can fail with. The checks go in order: the directory, the
/// vocabulary, the graph, its metadata, the settings in it, the graph's inputs.
pub open spec fn load_fails<P: Fn(&str) -> Result<Single, String>>(
    parse: P,
    dir: ModelDir,
    host: Host,
    tokens: Result<String, String>,
    graph: Graph,
    meta: Result<Metadata, String>,
    e: ErrorView,
) -> bool {
    match plan_error(dir, host) {
        Some(first) => e == first,
        None => match loaded_tokens("sensevoice"@, read_view(tokens)) {
            Err(second) => e == second,
            Ok(_) => match session_error(graph) {
                Some(third) => e == third,
                None => match meta {
                    Err(message) => e == ErrorView::Load("sensevoice metadata: "@ + message@),
                    Ok(pairs) => {
                        ||| settings_read(parse, pairs@, Err(e))
                        ||| (graph matches Graph::Open { inputs, .. } && inputs@.len() != 4 && e
                            == inputs_error(inputs@) && exists|a: Seq<Single>, b: Seq<Single>|
                            #[trigger]
                            settings_read(parse, pairs@, Ok((a, b))))
                    },
                },
            },
        },
    }
}

impl SenseVoiceEngine {
    /// The engine can transcribe: its settings are sound, and the features of the
    /// longest window fit in memory's index range.
    pub open spec fn wf(&self) -> bool {
        &&& self.settings.wf()
        &&& frame_count(SINGLE_WINDOW_MAX_SAMPLES as int) * self.settings.lfr_m <= usize::MAX
        &&& frame_count(SINGLE_WINDOW_MAX_SAMPLES as int) + self.settings.lfr_m <= usize::MAX
    }

    /// Whether the features of the longest window fit in memory's index range.
    pub fn features_fit(&self) -> (r: bool)
        requires
            self.settings.wf(),
        ensures
            r == self.wf(),
    {
        let m: u128 = self.settings.lfr_m as u128;
        assert(frame_count(SINGLE_WINDOW_MAX_SAMPLES as int) == 3_198);
        3_198 * m <= usize::MAX as u128 && 3_198 + m <= usize::MAX as u128
    }

    /// Check the model directory and say which model file to open.
    pub fn plan(dir: &ModelDir, host: Host) -> (r: Result<String, AsrError>)
        ensures
            r is Ok <==> plan_error(*dir, host) is None,
            r matches Err(e) ==> plan_error(*dir, host) == Some(e@),
            r matches Ok(name) ==> picked(*dir, "model"@) == Ok::<_, ErrorView>(name@),
    {
        match check_dir("sensevoice", dir, host) {
            Err(e) => Err(e),
            Ok(()) => match pick_model(dir, "model") {
                Err(e) => Err(e),
                Ok(name) => match check_tokens_file(dir) {
                    Err(e) => Err(e),
                    Ok(()) => Ok(name),
                },
            },
        }
    }

    /// Load a sherpa-onnx SenseVoice export from its **directory**, given what
    /// reading `tokens.txt`, opening the model file and reading its metadata gave,
    /// and `parse` for one number.
    ///
    /// Fails with [`AsrError::ModelNotFound`] when the directory, the model file or
    /// `tokens.txt` is absent, and [`AsrError::Load`] when the graph is not a
    /// recognizable SenseVoice export (missing CMVN metadata or wrong input set).
    /// The graph's inputs are found by their names, or in the declared order when
    /// it uses other labels.
    pub fn load<P: Fn(&str) -> Result<Single, String>>(
        config: &EngineConfig,
        dir: &ModelDir,
        host: Host,
        tokens: &Result<String, String>,
        graph: &Graph,
        meta: &Result<Metadata, String>,
        parse: &P,
    ) -> (r: Result<Self, AsrError>)
        requires
            tokens matches Ok(text) ==> ids_fit(text@),
            forall|s: &str| #[trigger] call_requires(*parse, (s,)),
        ensures
            r matches Err(e) ==> load_fails(*parse, *dir, host, *tokens, *graph, *meta, e@),
            r matches Ok(engine) ==> {
                &&& plan_error(*dir, host) is None
                &&& loaded_tokens("sensevoice"@, read_view(*tokens)) == Ok::<_, ErrorView>(
                    views(engine.tokens@),
                )
                &&& graph matches Graph::Open { inputs, .. }
                &&& inputs@.len() == 4
                &&& engine.x_name@ == input_name(views(inputs@), "x"@, 0)
                &&& engine.xlen_name@ == input_name(views(inputs@), "x_length"@, 1)
                &&& engine.lang_name@ == input_name(views(inputs@), "language"@, 2)
                &&& engine.tnorm_name@ == input_name(views(inputs@), "text_norm"@, 3)
                &&& meta matches Ok(pairs)
                &&& engine.settings.wf()
                &&& settings_read(
                    *parse,
                    pairs@,
                    Ok((engine.settings.neg_mean@, engine.settings.inv_stddev@)),
                )
                &&& engine.settings.of(
                    pairs@,
                    engine.settings.neg_mean@,
                    engine.settings.inv_stddev@,
                )
                &&& engine.default_language == config.default_language
                &&& engine.caps.plain(
                    "sensevoice"@,
                    LanguagesView::Only(sensevoice_languages()),
                )
            },
    {
        if let Err(e) = SenseVoiceEngine::plan(dir, host) {
            return Err(e);
        }
        let table = match load_tokens("sensevoice", tokens) {
            Err(e) => {
                return Err(e);
            },
            Ok(table) => table,
        };
        let inputs = match graph {
            Graph::Refused(message) => {
                return Err(AsrError::Load(message.clone()));
            },
            Graph::Unreadable { message, .. } => {
                return Err(AsrError::Load(concat("sensevoice load: ", message.as_str())));
            },
            Graph::Open { inputs, .. } => inputs,
        };
        let pairs = match meta {
            Err(message) => {
                return Err(AsrError::Load(concat("sensevoice metadata: ", message.as_str())));
            },
            Ok(pairs) => pairs,
        };
        let settings = match read_settings(pairs, parse) {
            Err(e) => {
                return Err(e);
            },
            Ok(settings) => settings,
        };
        if inputs.len() != 4 {
            let a = concat(
                "expected a SenseVoice model with 4 inputs (x, x_length, language, text_norm), got ",
                decimal_usize(inputs.len()).as_str(),
            );
            let b = concat(a.as_str(), ": ");
            return Err(AsrError::Load(concat(b.as_str(), debug_names(inputs).as_str())));
        }
        Ok(
            SenseVoiceEngine {
                settings,
                tokens: table,
                x_name: resolve_input(inputs, "x", 0),
                xlen_name: resolve_input(inputs, "x_length", 1),
                lang_name: resolve_input(inputs, "language", 2),
                tnorm_name: resolve_input(inputs, "text_norm", 3),
                default_language: clone_opt(&config.default_language),
                caps: SenseVoiceEngine::capabilities_static(),
            },
        )
    }

    /// What every SenseVoice engine can do.
    pub fn capabilities_static() -> (r: EngineCapabilities)
        ensures
            r.plain("sensevoice"@, LanguagesView::Only(sensevoice_languages())),
    {
        let names: Vec<String> = vec![
            "chinese".to_owned(),
            "english".to_owned(),
            "japanese".to_owned(),
            "korean".to_owned(),
            "cantonese".to_owned(),
        ];
        assert(views(names@) =~= sensevoice_languages());
        EngineCapabilities {
            name: "sensevoice",
            supports_prompt: false,
            supports_beam: false,
            supports_translate: false,
            supports_internal_vad: false,
            languages: LanguageSupport::Only(names),
        }
    }

    /// What the backend can do.
    pub fn capabilities(&self) -> (r: &EngineCapabilities)
        ensures
            *r == self.caps,
    {
        &self.caps
    }

    /// The id of the language that a call asks for: its own choice, else the
    /// engine's default.
    pub open spec fn call_language(&self, requested: Option<Seq<char>>) -> i32 {
        self.settings.language_id(
            match requested {
                Some(_) => requested,
                None => opt_view(self.default_language),
            },
        )
    }

    /// Map a requested language (or the default) to the model's integer id.
    /// Unknown or absent languages fall back to auto-detection.
    pub fn lang_id_for(&self, requested: Option<&str>) -> (r: i32)
        ensures
            r == self.call_language(opt_str_view(requested)),
    {
        match requested {
            Some(name) => self.settings.id_of(Some(name)),
            None => self.settings.id_of(opt_as_str(&self.default_language)),
        }
    }

    /// What samples are multiplied by before the filterbank.
    pub open spec fn scale(&self) -> Single {
        Single {
            bits: if self.settings.normalize_samples {
                ONE_BITS
            } else {
                I16_SCALE_BITS
            },
        }
    }

    /// The result of a window whose decoded token ids are `ids`. The first one is
    /// the language tag, and no timing is emitted.
    pub open spec fn ids_result(&self, ids: Seq<int>) -> ResultView {
        ResultView {
            text: trimmed(
                spaced(joined_text(after(ids, META_TOKENS as int), views(self.tokens@))),
            ),
            detected_language: if ids.len() == 0 {
                None
            } else {
                match symbol(ids[0], views(self.tokens@)) {
                    Some(tag) => tag_language(tag),
                    None => None,
                }
            },
            segments: Seq::empty(),
        }
    }

    /// The result of a window, given its logits: an error when they are not
    /// `[1, T, vocab]`.
    pub open spec fn logits_result(&self, logits: Tensor) -> Result<ResultView, ErrorView> {
        if logits.shape@.len() != 3 {
            Err(
                ErrorView::Transcribe(
                    "sensevoice expected rank-3 logits [1, T, vocab], got shape "@ + bracketed(
                        logits.shape@,
                    ),
                ),
            )
        } else {
            Ok(
                self.ids_result(
                    collapsed(
                        best_path(logits.data@, logits.rows() as nat, logits.width()),
                        self.settings.blank_id as int,
                    ),
                ),
            )
        }
    }

    /// Read the logits of a window: see [`SenseVoiceEngine::logits_result`].
    pub fn read_logits(&self, logits: &Tensor) -> (r: Result<TranscriptionResult, AsrError>)
        requires
            readable(*logits),
        ensures
            outcome(r) == self.logits_result(*logits),
    {
        if logits.shape.len() != 3 {
            return Err(
                AsrError::Transcribe(
                    concat(
                        "sensevoice expected rank-3 logits [1, T, vocab], got shape ",
                        show_list(logits.shape.as_slice()).as_str(),
                    ),
                ),
            );
        }
        let frames: usize = logits.shape[1] as usize;
        let vocab: usize = logits.shape[2] as usize;
        let ids = greedy_ctc(logits.data.as_slice(), frames, vocab, self.settings.blank_id);
        let ghost all = ints(ids@);
        let detected_language = if ids.len() > 0 && ids[0] < self.tokens.len() {
            assert(views(self.tokens@)[ids@[0] as int] == self.tokens@[ids@[0] as int]@);
            lang_name_from_tag(self.tokens[ids[0]].as_str())
        } else {
            None
        };
        assert(ids@.len() > 0 ==> all[0] == ids@[0]);
        let segments: Vec<Segment> = Vec::new();
        assert(segment_views(segments@) =~= Seq::<SegmentView>::empty());
        Ok(
            TranscriptionResult {
                text: tokens_to_text(ids.as_slice(), &self.tokens, META_TOKENS),
                detected_language,
                segments,
            },
        )
    }
}

/// Logits that can be read: every row of a rank-3 tensor is there, and none is
/// empty.
pub open spec fn readable(logits: Tensor) -> bool {
    &&& logits.holds_rows()
    &&& logits.shape@.len() == 3 && logits.rows() > 0 ==> logits.width() > 0
}

// --- transcription --------------------------------------------------------------------

/// The function `run` can answer `logits` to these features and ids.
pub open spec fn ran<R: Fn(&SenseVoiceInput) -> Logits>(
    run: R,
    x: Seq<Single>,
    frames: int,
    dim: int,
    language: i32,
    text_norm: i32,
    logits: Logits,
) -> bool {
    exists|i: &SenseVoiceInput|
        {
            &&& i.x@ == x
            &&& i.frames == frames
            &&& i.dim == dim
            &&& i.language == language
            &&& i.text_norm == text_norm
            &&& #[trigger] call_ensures(run, (i,), logits)
        }
}

impl SenseVoiceEngine {
    /// Values per stacked frame.
    pub open spec fn feat_dim(&self) -> int {
        NUM_MEL * self.settings.lfr_m
    }

    /// Stacked frames of a window of `len` samples.
    pub open spec fn stacked_frames(&self, len: int) -> int {
        stacked_count(frame_count(len), self.settings.lfr_n as int)
    }

    /// `x` are features of a window: its filterbank, stacked and normalized.
    pub open spec fn features<
        M: Fn(&[Single], Single) -> Vec<Single>,
        N: Fn(Single, Single, Single) -> Single,
    >(&self, mel: M, norm: N, clip: Seq<Single>, x: Seq<Single>) -> bool {
        let frames = frame_count(clip.len() as int);
        let rows = self.stacked_frames(clip.len() as int);
        exists|fbank: Seq<Single>| #[trigger]
            fbanked(mel, clip, self.scale(), frames as nat, fbank) && normalized(
                norm,
                stacked(
                    fbank,
                    frames,
                    NUM_MEL as int,
                    self.settings.lfr_m as int,
                    self.settings.lfr_n as int,
                    (rows * self.settings.lfr_m) as nat,
                ),
                rows * self.feat_dim(),
                self.feat_dim(),
                self.settings.neg_mean@,
                self.settings.inv_stddev@,
                x,
            )
    }

    /// `input` holds the features of one window, so of 32 s at most.
    pub open spec fn window_input<
        M: Fn(&[Single], Single) -> Vec<Single>,
        N: Fn(Single, Single, Single) -> Single,
    >(&self, mel: M, norm: N, input: SenseVoiceInput) -> bool {
        exists|clip: Seq<Single>|
            {
                &&& #[trigger] self.features(mel, norm, clip, input.x@)
                &&& 0 < clip.len() <= SINGLE_WINDOW_MAX_SAMPLES
                &&& input.frames == self.stacked_frames(clip.len() as int)
                &&& input.dim == self.feat_dim()
            }
    }

    /// The function `run` can be called on the features of one window, and on no
    /// more is it asked to; what it gives are logits that can be read.
    pub open spec fn gives_logits<
        M: Fn(&[Single], Single) -> Vec<Single>,
        N: Fn(Single, Single, Single) -> Single,
        R: Fn(&SenseVoiceInput) -> Logits,
    >(&self, mel: M, norm: N, run: R) -> bool {
        &&& forall|i: &SenseVoiceInput|
            self.window_input(mel, norm, *i) ==> #[trigger] call_requires(run, (i,))
        &&& forall|i: &SenseVoiceInput, t: Tensor| #[trigger]
            call_ensures(run, (i,), Ok(t)) ==> readable(t)
    }

    /// How a window ends, given what the graph answered.
    pub open spec fn answer_result(&self, logits: Logits) -> Result<ResultView, ErrorView> {
        match logits {
            Err((stage, message)) => Err(ErrorView::Transcribe(stage.spec_label() + message@)),
            Ok(tensor) => self.logits_result(tensor),
        }
    }

    /// How often a window of `len` samples asks whether to stop: before it, and, when
    /// it holds a frame, before and after the inference.
    pub open spec fn window_asks(len: int) -> int {
        if frame_count(len) == 0 {
            1
        } else {
            3
        }
    }

    /// How often the windows ask whether to stop.
    pub open spec fn asks(bounds: Seq<int>) -> int
        decreases bounds.len(),
    {
        if bounds.len() <= 1 {
            0
        } else {
            SenseVoiceEngine::asks(bounds.drop_last()) + SenseVoiceEngine::window_asks(
                bounds.last() - bounds[bounds.len() - 2],
            )
        }
    }

    /// A window can end with `r`: empty when it holds no frame, else as the graph
    /// answers its features.
    pub open spec fn window_ends<
        M: Fn(&[Single], Single) -> Vec<Single>,
        N: Fn(Single, Single, Single) -> Single,
        R: Fn(&SenseVoiceInput) -> Logits,
    >(
        &self,
        mel: M,
        norm: N,
        run: R,
        language: i32,
        clip: Seq<Single>,
        r: Result<ResultView, ErrorView>,
    ) -> bool {
        if frame_count(clip.len() as int) == 0 {
            r == Ok::<_, ErrorView>(empty_result())
        } else {
            exists|x: Seq<Single>, logits: Logits|
                {
                    &&& #[trigger] ran(
                        run,
                        x,
                        self.stacked_frames(clip.len() as int),
                        self.feat_dim(),
                        language,
                        self.settings.with_itn,
                        logits,
                    )
                    &&& self.features(mel, norm, clip, x)
                    &&& r == self.answer_result(logits)
                }
        }
    }

    /// `parts` are results of the windows of `audio` that `bounds` gives.
    pub open spec fn windows_end<
        M: Fn(&[Single], Single) -> Vec<Single>,
        N: Fn(Single, Single, Single) -> Single,
        R: Fn(&SenseVoiceInput) -> Logits,
    >(
        &self,
        mel: M,
        norm: N,
        run: R,
        language: i32,
        audio: Seq<Single>,
        bounds: Seq<int>,
        parts: Seq<ResultView>,
    ) -> bool {
        &&& parts.len() == bounds.len() - 1
        &&& forall|i: int|
            0 <= i < parts.len() ==> self.window_ends(
                mel,
                norm,
                run,
                language,
                window(audio, bounds, i),
                Ok(#[trigger] parts[i]),
            )
    }

    /// A window can be cancelled the `k`th time that it asks: before it, before the
    /// inference, or after the inference gave a result.
    pub open spec fn window_stops<
        M: Fn(&[Single], Single) -> Vec<Single>,
        N: Fn(Single, Single, Single) -> Single,
        R: Fn(&SenseVoiceInput) -> Logits,
    >(&self, mel: M, norm: N, run: R, language: i32, clip: Seq<Single>, k: int) -> bool {
        &&& 1 <= k <= SenseVoiceEngine::window_asks(clip.len() as int)
        &&& k == 3 ==> exists|part: ResultView| #[trigger]
            self.window_ends(mel, norm, run, language, clip, Ok(part))
    }

    /// What is reported once the window of `len` samples behind those that `bounds`
    /// gives has asked `k` times.
    pub open spec fn marks_at(bounds: Seq<int>, len: int, total: int, k: int) -> Seq<int> {
        if k <= 1 {
            window_marks(bounds, total)
        } else {
            window_marks(bounds.push(bounds.last() + len), total)
        }
    }

    /// A transcription was cancelled in some window of `audio` after those before it
    /// succeeded, which is how far `monitor` followed it.
    pub open spec fn window_cancelled<
        L: Fn(&[Single]) -> Single,
        M: Fn(&[Single], Single) -> Vec<Single>,
        N: Fn(Single, Single, Single) -> Single,
        R: Fn(&SenseVoiceInput) -> Logits,
    >(
        &self,
        rms: L,
        mel: M,
        norm: N,
        run: R,
        language: i32,
        audio: Seq<Single>,
        monitor: Monitor<'_>,
    ) -> bool {
        exists|bounds: Seq<int>, parts: Seq<ResultView>, len: int, k: int|
            {
                &&& cut_from(rms, audio, bounds)
                &&& bounds.last() < audio.len()
                &&& #[trigger] self.windows_end(mel, norm, run, language, audio, bounds, parts)
                &&& #[trigger] window_cut(rms, audio.skip(bounds.last()), len)
                &&& #[trigger] self.window_stops(
                    mel,
                    norm,
                    run,
                    language,
                    audio.subrange(bounds.last(), bounds.last() + len),
                    k,
                )
                &&& monitor.followed(
                    SenseVoiceEngine::marks_at(bounds, len, audio.len() as int, k),
                    SenseVoiceEngine::asks(bounds) + k,
                )
            }
    }

    /// Some window of `audio` can end with the error `e` after those before it
    /// succeeded, which is how far `monitor` followed it: a window fails at its
    /// inference, after it has asked twice.
    pub open spec fn window_fails<
        L: Fn(&[Single]) -> Single,
        M: Fn(&[Single], Single) -> Vec<Single>,
        N: Fn(Single, Single, Single) -> Single,
        R: Fn(&SenseVoiceInput) -> Logits,
    >(
        &self,
        rms: L,
        mel: M,
        norm: N,
        run: R,
        language: i32,
        audio: Seq<Single>,
        monitor: Monitor<'_>,
        e: ErrorView,
    ) -> bool {
        exists|bounds: Seq<int>, parts: Seq<ResultView>, len: int|
            {
                &&& cut_from(rms, audio, bounds)
                &&& #[trigger] self.windows_end(mel, norm, run, language, audio, bounds, parts)
                &&& #[trigger] window_cut(rms, audio.skip(bounds.last()), len)
                &&& self.window_ends(
                    mel,
                    norm,
                    run,
                    language,
                    audio.subrange(bounds.last(), bounds.last() + len),
                    Err(e),
                )
                &&& monitor.followed(
                    SenseVoiceEngine::marks_at(bounds, len, audio.len() as int, 2),
                    SenseVoiceEngine::asks(bounds) + 2,
                )
            }
    }

    proof fn lemma_window_added<
        M: Fn(&[Single], Single) -> Vec<Single>,
        N: Fn(Single, Single, Single) -> Single,
        R: Fn(&SenseVoiceInput) -> Logits,
    >(
        &self,
        mel: M,
        norm: N,
        run: R,
        language: i32,
        audio: Seq<Single>,
        bounds: Seq<int>,
        parts: Seq<ResultView>,
        end: int,
        part: ResultView,
    )
        requires
            bounds.len() >= 1,
            self.windows_end(mel, norm, run, language, audio, bounds, parts),
            self.window_ends(
                mel,
                norm,
                run,
                language,
                audio.subrange(bounds.last(), end),
                Ok(part),
            ),
        ensures
            self.windows_end(
                mel,
                norm,
                run,
                language,
                audio,
                bounds.push(end),
                parts.push(part),
            ),
    {
        let next = bounds.push(end);
        let more = parts.push(part);
        assert forall|i: int| 0 <= i < more.len() implies self.window_ends(
            mel,
            norm,
            run,
            language,
            window(audio, next, i),
            Ok(#[trigger] more[i]),
        ) by {
            if i < parts.len() {
                assert(more[i] == parts[i]);
                assert(window(audio, next, i) == window(audio, bounds, i));
            } else {
                assert(window(audio, next, i) == audio.subrange(bounds.last(), end));
            }
        }
    }

    /// Compute the features of a window: see [`SenseVoiceEngine::features`].
    fn compute_features<
        M: Fn(&[Single], Single) -> Vec<Single>,
        N: Fn(Single, Single, Single) -> Single,
    >(&self, clip: &[Single], mel: &M, norm: &N) -> (r: Option<(Vec<Single>, usize)>)
        requires
            self.wf(),
            clip@.len() <= SINGLE_WINDOW_MAX_SAMPLES,
            mel_rows(*mel),
            forall|x: Single, a: Single, b: Single| #[trigger] call_requires(*norm, (x, a, b)),
        ensures
            r is None <==> frame_count(clip@.len() as int) == 0,
            r matches Some((x, rows)) ==> self.features(*mel, *norm, clip@, x@) && rows
                == self.stacked_frames(clip@.len() as int),
    {
        let scale = Single {
            bits: if self.settings.normalize_samples {
                ONE_BITS
            } else {
                I16_SCALE_BITS
            },
        };
        let (fbank, frames) = compute_fbank(clip, scale, mel);
        if frames == 0 {
            return None;
        }
        let m: usize = self.settings.lfr_m;
        let n: usize = self.settings.lfr_n;
        proof {
            law_stacked_count(frames as int, n as int);
            let most = frame_count(SINGLE_WINDOW_MAX_SAMPLES as int);
            assert(frames <= most);
            let rows = stacked_count(frames as int, n as int);
            assert(rows * m <= most * m) by (nonlinear_arith)
                requires
                    rows <= most,
                    0 <= m,
            ;
        }
        let (x, rows) = apply_lfr(fbank.as_slice(), frames, NUM_MEL, m, n);
        let mut x = x;
        let dim: usize = self.settings.neg_mean.len();
        proof {
            law_stacked_len(
                fbank@,
                frames as int,
                NUM_MEL as int,
                m as int,
                n as int,
                (rows * m) as nat,
            );
            assert(rows * (NUM_MEL * m) == (rows * m) * NUM_MEL) by (nonlinear_arith);
        }
        apply_cmvn(
            &mut x,
            rows,
            dim,
            self.settings.neg_mean.as_slice(),
            self.settings.inv_stddev.as_slice(),
            norm,
        );
        proof {
            let flat = stacked(
                fbank@,
                frames as int,
                NUM_MEL as int,
                m as int,
                n as int,
                (rows * m) as nat,
            );
            assert(dim == self.feat_dim());
            assert(normalized(
                *norm,
                flat,
                rows * dim,
                dim as int,
                self.settings.neg_mean@,
                self.settings.inv_stddev@,
                x@,
            ));
            let count = frame_count(clip@.len() as int) as nat;
            assert(fbanked(*mel, clip@, self.scale(), count, fbank@));
        }
        Some((x, rows))
    }

    /// Transcribe one window of at most 32 s, which starts at sample `start` of a
    /// clip of `total`.
    fn transcribe_window<
        M: Fn(&[Single], Single) -> Vec<Single>,
        N: Fn(Single, Single, Single) -> Single,
        R: Fn(&SenseVoiceInput) -> Logits,
    >(
        &self,
        clip: &[Single],
        language: i32,
        start: usize,
        total: usize,
        monitor: &mut Monitor<'_>,
        mel: &M,
        norm: &N,
        run: &R,
    ) -> (r: Result<TranscriptionResult, AsrError>)
        requires
            self.wf(),
            clip@.len() <= SINGLE_WINDOW_MAX_SAMPLES,
            start + clip@.len() <= total,
            total > 0,
            old(monitor).running(*old(monitor), start as int * 100 / (total as int)),
            mel_rows(*mel),
            forall|x: Single, a: Single, b: Single| #[trigger] call_requires(*norm, (x, a, b)),
            self.gives_logits(*mel, *norm, *run),
        ensures
            final(monitor).caller() == old(monitor).caller(),
            climbing(final(monitor).reported()),
            level(final(monitor).reported()) <= start as int * 100 / (total as int),
            final(monitor).stopped() <==> outcome(r) == Err::<ResultView, _>(ErrorView::Cancelled),
            final(monitor).heeded(),
            final(monitor).asked() > old(monitor).asked(),
            !final(monitor).stopped() ==> final(monitor).followed(
                old(monitor).reported().push(start as int * 100 / (total as int)),
                old(monitor).asked() + (if r is Ok {
                    SenseVoiceEngine::window_asks(clip@.len() as int)
                } else {
                    2
                }),
            ),
            final(monitor).stopped() ==> exists|k: int| #[trigger]
                self.window_stops(*mel, *norm, *run, language, clip@, k)
                    && final(monitor).followed(
                    if k == 1 {
                        old(monitor).reported()
                    } else {
                        old(monitor).reported().push(start as int * 100 / (total as int))
                    },
                    old(monitor).asked() + k,
                ),
            !final(monitor).stopped() ==> self.window_ends(
                *mel,
                *norm,
                *run,
                language,
                clip@,
                outcome(r),
            ),
    {
        if monitor.cancelled() {
            assert(self.window_stops(*mel, *norm, *run, language, clip@, 1));
            return Err(AsrError::Cancelled);
        }
        let pct: u8 = progress_at(start, clip.len(), 0, total);
        proof {
            law_progress(start as int, clip@.len() as int, 0, total as int);
            lemma_climbs(monitor.reported(), pct as int);
        }
        monitor.report(pct);
        match self.compute_features(clip, mel, norm) {
            None => Ok(TranscriptionResult::default()),
            Some((x, rows)) => {
                if monitor.cancelled() {
                    assert(self.window_stops(*mel, *norm, *run, language, clip@, 2));
                    return Err(AsrError::Cancelled);
                }
                let input = SenseVoiceInput {
                    x,
                    frames: rows,
                    dim: self.settings.neg_mean.len(),
                    language,
                    text_norm: self.settings.with_itn,
                };
                assert(self.features(*mel, *norm, clip@, input.x@));
                assert(self.window_input(*mel, *norm, input));
                let logits = run(&input);
                let ghost given = logits;
                assert(ran(
                    *run,
                    input.x@,
                    rows as int,
                    self.feat_dim(),
                    language,
                    self.settings.with_itn,
                    given,
                ));
                let result = match logits {
                    Err((stage, message)) => Err(stage.error(message.as_str())),
                    Ok(tensor) => self.read_logits(&tensor),
                };
                assert(outcome(result) == self.answer_result(given));
                match result {
                    Err(e) => Err(e),
                    Ok(part) => {
                        // The inference is a single run that cannot be stopped: a
                        // cancellation that came while it ran is honoured here.
                        if monitor.cancelled() {
                            proof {
                                assert(self.window_ends(
                                    *mel,
                                    *norm,
                                    *run,
                                    language,
                                    clip@,
                                    Ok(part@),
                                ));
                                assert(self.window_stops(*mel, *norm, *run, language, clip@, 3));
                            }
                            return Err(AsrError::Cancelled);
                        }
                        Ok(part)
                    },
                }
            },
        }
    }

    /// Transcribe `audio` under `monitor`, with `run` for the graph, `rms` for the
    /// level of a block, `mel` for the filterbank of one frame and `norm` for the
    /// normalization of one feature.
    ///
    /// A long clip is split into windows of 32 s at most, cut on the least-bad
    /// energy dip; each is transcribed on its own and the texts are joined.
    pub fn transcribe<
        L: Fn(&[Single]) -> Single,
        M: Fn(&[Single], Single) -> Vec<Single>,
        N: Fn(Single, Single, Single) -> Single,
        R: Fn(&SenseVoiceInput) -> Logits,
    >(
        &self,
        audio: &[Single],
        opts: &TranscribeOptions,
        monitor: &mut Monitor<'_>,
        rms: &L,
        mel: &M,
        norm: &N,
        run: &R,
    ) -> (r: Result<TranscriptionResult, AsrError>)
        requires
            self.wf(),
            old(monitor).fresh(),
            measures_blocks(*rms),
            mel_rows(*mel),
            forall|x: Single, a: Single, b: Single| #[trigger] call_requires(*norm, (x, a, b)),
            self.gives_logits(*mel, *norm, *run),
        ensures
            final(monitor).ended(*old(monitor), outcome(r)),
            audio@.len() == 0 ==> (r matches Ok(t) && t@ == empty_result())
                && final(monitor).followed(seq![100int], 0),
            audio@.len() > 0 ==> final(monitor).asked() > 0,
            audio@.len() > 0 ==> (r matches Ok(t) ==> exists|
                bounds: Seq<int>,
                parts: Seq<ResultView>,
            |
                {
                    &&& windows_of(*rms, sanitized(audio@), bounds)
                    &&& #[trigger] self.windows_end(
                        *mel,
                        *norm,
                        *run,
                        self.call_language(opt_view(opts.language)),
                        sanitized(audio@),
                        bounds,
                        parts,
                    )
                    &&& t@ == stitched(parts, bounds.drop_last())
                    &&& final(monitor).followed(
                        window_marks(bounds, audio@.len() as int).push(100),
                        SenseVoiceEngine::asks(bounds),
                    )
                }),
            r matches Err(e) ==> if final(monitor).stopped() {
                e@ == ErrorView::Cancelled && self.window_cancelled(
                    *rms,
                    *mel,
                    *norm,
                    *run,
                    self.call_language(opt_view(opts.language)),
                    sanitized(audio@),
                    *final(monitor),
                )
            } else {
                self.window_fails(
                    *rms,
                    *mel,
                    *norm,
                    *run,
                    self.call_language(opt_view(opts.language)),
                    sanitized(audio@),
                    *final(monitor),
                    e@,
                )
            },
    {
        if audio.len() == 0 {
            proof {
                lemma_climbs(monitor.reported(), 100);
            }
            monitor.report(100);
            return Ok(TranscriptionResult::default());
        }
        let language: i32 = self.lang_id_for(opt_as_str(&opts.language));
        let fixed = sanitize_audio(audio);
        self.transcribe_clean(samples(&fixed), language, monitor, rms, mel, norm, run)
    }

    /// Transcribe clean audio, window by window.
    fn transcribe_clean<
        L: Fn(&[Single]) -> Single,
        M: Fn(&[Single], Single) -> Vec<Single>,
        N: Fn(Single, Single, Single) -> Single,
        R: Fn(&SenseVoiceInput) -> Logits,
    >(
        &self,
        audio: &[Single],
        language: i32,
        monitor: &mut Monitor<'_>,
        rms: &L,
        mel: &M,
        norm: &N,
        run: &R,
    ) -> (r: Result<TranscriptionResult, AsrError>)
        requires
            self.wf(),
            audio@.len() > 0,
            old(monitor).fresh(),
            measures_blocks(*rms),
            mel_rows(*mel),
            forall|x: Single, a: Single, b: Single| #[trigger] call_requires(*norm, (x, a, b)),
            self.gives_logits(*mel, *norm, *run),
        ensures
            final(monitor).ended(*old(monitor), outcome(r)),
            final(monitor).asked() > 0,
            r matches Ok(t) ==> exists|bounds: Seq<int>, parts: Seq<ResultView>|
                {
                    &&& windows_of(*rms, audio@, bounds)
                    &&& #[trigger] self.windows_end(
                        *mel,
                        *norm,
                        *run,
                        language,
                        audio@,
                        bounds,
                        parts,
                    )
                    &&& t@ == stitched(parts, bounds.drop_last())
                    &&& final(monitor).followed(
                        window_marks(bounds, audio@.len() as int).push(100),
                        SenseVoiceEngine::asks(bounds),
                    )
                },
            r matches Err(e) ==> if final(monitor).stopped() {
                e@ == ErrorView::Cancelled && self.window_cancelled(
                    *rms,
                    *mel,
                    *norm,
                    *run,
                    language,
                    audio@,
                    *final(monitor),
                )
            } else {
                self.window_fails(
                    *rms,
                    *mel,
                    *norm,
                    *run,
                    language,
                    audio@,
                    *final(monitor),
                    e@,
                )
            },
    {
        let total: usize = audio.len();
        let ghost before = *monitor;
        let mut walk = Walk::new(audio, rms);
        proof {
            lemma_share(0, 0, total as int);
        }
        while walk.start < total
            invariant
                self.wf(),
                total == audio@.len(),
                total > 0,
                before == *old(monitor),
                walk.inv(*rms, audio@),
                self.windows_end(
                    *mel,
                    *norm,
                    *run,
                    language,
                    audio@,
                    walk.bounds@,
                    walk.parts@,
                ),
                monitor.running(before, walk.start as int * 100 / (total as int)),
                walk.start > 0 ==> monitor.asked() > 0,
                monitor.followed(
                    window_marks(walk.bounds@, total as int),
                    SenseVoiceEngine::asks(walk.bounds@),
                ),
                measures_blocks(*rms),
                mel_rows(*mel),
                forall|x: Single, a: Single, b: Single| #[trigger] call_requires(*norm, (x, a, b)),
                self.gives_logits(*mel, *norm, *run),
            decreases total - walk.start,
        {
            let len: usize = walk.next_len(audio, rms);
            let start: usize = walk.start;
            let clip: &[Single] = &audio[start..start + len];
            let ghost bounds = walk.bounds@;
            let ghost parts = walk.parts@;
            let ghost then = *monitor;
            assert(clip@ =~= audio@.subrange(bounds.last(), start + len));
            assert(window_marks(bounds.push(bounds.last() + len), total as int)
                =~= window_marks(bounds, total as int).push(start as int * 100 / (total as int)));
            assert(len <= SINGLE_WINDOW_MAX_SAMPLES) by {
                crate::engines::windows::lemma_window_bound(
                    *rms,
                    audio@.skip(start as int),
                    len as int,
                );
            }
            match self.transcribe_window(clip, language, start, total, monitor, mel, norm, run) {
                Err(e) => {
                    proof {
                        if e@ != ErrorView::Cancelled {
                            assert(self.window_ends(
                                *mel,
                                *norm,
                                *run,
                                language,
                                audio@.subrange(bounds.last(), bounds.last() + len),
                                Err(e@),
                            ));
                            assert(self.window_fails(
                                *rms,
                                *mel,
                                *norm,
                                *run,
                                language,
                                audio@,
                                *monitor,
                                e@,
                            ));
                        } else {
                            let k = choose|k: int| #[trigger]
                                self.window_stops(*mel, *norm, *run, language, clip@, k)
                                    && monitor.followed(
                                    if k == 1 {
                                        then.reported()
                                    } else {
                                        then.reported().push(start as int * 100 / (total as int))
                                    },
                                    then.asked() + k,
                                );
                            assert(self.window_stops(
                                *mel,
                                *norm,
                                *run,
                                language,
                                audio@.subrange(bounds.last(), bounds.last() + len),
                                k,
                            ));
                        }
                    }
                    return Err(e);
                },
                Ok(part) => {
                    proof {
                        self.lemma_window_added(
                            *mel,
                            *norm,
                            *run,
                            language,
                            audio@,
                            bounds,
                            parts,
                            start + len,
                            part@,
                        );
                        law_progress(start as int, len as int, 0, total as int);
                        assert(bounds.push(start + len).drop_last() =~= bounds);
                    }
                    walk.add_part(part, len, audio, rms);
                },
            }
        }
        proof {
            lemma_share(0, total as int, total as int);
            lemma_climbs(monitor.reported(), 100);
        }
        monitor.report(100);
        Ok(walk.whole)
    }
}

// --- laws -------------------------------------------------------------------------

/// Decoding never emits the blank.
pub proof fn law_no_blank(path: Seq<int>, blank: int)
    ensures
        forall|i: int|
            0 <= i < collapsed(path, blank).len() ==> #[trigger] collapsed(path, blank)[i] != blank,
        collapsed(path, blank).len() <= path.len(),
    decreases path.len(),
{
    if path.len() > 0 {
        law_no_blank(path.drop_last(), blank);
    }
}

/// A path with no blank and no two equal neighbours is emitted as it is.
pub proof fn law_distinct_path_is_kept(path: Seq<int>, blank: int)
    requires
        forall|i: int| 0 <= i < path.len() ==> #[trigger] path[i] != blank,
        forall|i: int, j: int|
            0 <= i < path.len() && j == i + 1 && j < path.len() ==> #[trigger] path[i]
                != #[trigger] path[j],
    ensures
        collapsed(path, blank) == path,
    decreases path.len(),
{
    if path.len() > 0 {
        let rest = path.drop_last();
        assert forall|i: int| 0 <= i < rest.len() implies #[trigger] rest[i] != blank by {
            assert(rest[i] == path[i]);
        }
        assert forall|i: int, j: int|
            0 <= i < rest.len() && j == i + 1 && j < rest.len() implies #[trigger] rest[i]
            != #[trigger] rest[j] by {
            assert(rest[i] == path[i] && rest[j] == path[j]);
        }
        law_distinct_path_is_kept(rest, blank);
        assert(path[path.len() - 1] != blank);
        if path.len() > 1 {
            assert(path[path.len() - 2] != path[path.len() - 1]);
        }
        assert(rest.push(path.last()) =~= path);
    }
}

/// Repeating the last token of a path, or adding a blank, emits nothing more.
pub proof fn law_repeats_collapse(path: Seq<int>, blank: int)
    requires
        path.len() > 0,
    ensures
        collapsed(path.push(path.last()), blank) == collapsed(path, blank),
        collapsed(path.push(blank), blank) == collapsed(path, blank),
{
    assert(path.push(path.last()).drop_last() =~= path);
    assert(path.push(blank).drop_last() =~= path);
}

/// A token that is neither the blank nor a repetition of the frame before it is
/// emitted, whatever came before.
pub proof fn law_new_token_is_emitted(path: Seq<int>, x: int, blank: int)
    requires
        x != blank,
        path.len() > 0 ==> path.last() != x,
    ensures
        collapsed(path.push(x), blank) == collapsed(path, blank).push(x),
{
    assert(path.push(x).drop_last() =~= path);
}

/// A blank splits a path: what follows it is emitted as if nothing came before, so
/// one token on both sides of it is emitted twice, and more blanks beside it change
/// nothing.
pub proof fn law_blank_splits(a: Seq<int>, b: Seq<int>, blank: int)
    ensures
        collapsed(a.push(blank) + b, blank) == collapsed(a, blank) + collapsed(b, blank),
        collapsed(a.push(blank).push(blank) + b, blank) == collapsed(a.push(blank) + b, blank),
    decreases b.len(), 1int,
{
    lemma_split(a, b, blank);
    lemma_split(a.push(blank), b, blank);
    assert(a.push(blank).drop_last() =~= a);
}

proof fn lemma_split(a: Seq<int>, b: Seq<int>, blank: int)
    ensures
        collapsed(a.push(blank) + b, blank) == collapsed(a, blank) + collapsed(b, blank),
    decreases b.len(),
{
    let whole = a.push(blank) + b;
    if b.len() == 0 {
        assert(whole =~= a.push(blank));
        assert(a.push(blank).drop_last() =~= a);
        assert(collapsed(a, blank) + collapsed(b, blank) =~= collapsed(a, blank));
    } else {
        let rest = b.drop_last();
        lemma_split(a, rest, blank);
        assert(whole.drop_last() =~= a.push(blank) + rest);
        assert(whole.last() == b.last());
        if b.len() > 1 {
            assert(whole[whole.len() - 2] == b[b.len() - 2]);
        } else {
            assert(whole[whole.len() - 2] == blank);
        }
        assert(collapsed(whole, blank) =~= collapsed(a, blank) + collapsed(b, blank));
    }
}

/// Saying a token over several frames in a row says it once, wherever it stands.
pub proof fn law_held_token_is_said_once(a: Seq<int>, x: int, b: Seq<int>, blank: int)
    ensures
        collapsed(a.push(x).push(x) + b, blank) == collapsed(a.push(x) + b, blank),
    decreases b.len(),
{
    let long = a.push(x).push(x) + b;
    let short = a.push(x) + b;
    if b.len() == 0 {
        assert(long =~= a.push(x).push(x));
        assert(short =~= a.push(x));
        assert(long.drop_last() =~= a.push(x));
    } else {
        law_held_token_is_said_once(a, x, b.drop_last(), blank);
        assert(long.drop_last() =~= a.push(x).push(x) + b.drop_last());
        assert(short.drop_last() =~= a.push(x) + b.drop_last());
        assert(long[long.len() - 2] == short[short.len() - 2]);
    }
}

/// Greedy decoding of logits: each frame counts as the first of its greatest tokens,
/// and the tokens emitted are those of the frames that hold neither the blank nor
/// the token of the frame before, in order.
pub proof fn law_greedy_decoding(
    logits: &[Single],
    frames: usize,
    vocab: usize,
    blank: usize,
    r: Vec<usize>,
)
    requires
        frames > 0 ==> vocab > 0,
        frames * vocab <= logits@.len(),
        call_ensures(greedy_ctc, (logits, frames, vocab, blank), r),
    ensures
        exists|best: Seq<int>| #[trigger]
            frame_bests(logits@, frames as nat, vocab as int, best) && ints(r@) == new_tokens(
                best,
                blank as int,
            ),
{
    let best = best_path(logits@, frames as nat, vocab as int);
    lemma_frame_bests(logits@, frames as nat, vocab as int);
    assert(frame_bests(logits@, frames as nat, vocab as int, best));
    lemma_kept_frames(best, blank as int, frames as nat);
    assert(best.take(frames as int) =~= best);
}

/// The tokens of the frames that hold neither the blank nor the token of the frame
/// before, in order.
pub open spec fn new_tokens(best: Seq<int>, blank: int) -> Seq<int> {
    first_numbers(best.len()).filter(holds_new(best, blank)).map_values(token_at(best))
}

/// Whether a frame holds neither the blank nor the token of the frame before.
pub open spec fn holds_new(best: Seq<int>, blank: int) -> spec_fn(int) -> bool {
    |t: int| best[t] != blank && (t > 0 ==> best[t - 1] != best[t])
}

/// The token of a frame.
pub open spec fn token_at(best: Seq<int>) -> spec_fn(int) -> int {
    |t: int| best[t]
}

/// The numbers from 0 up to `n`.
pub open spec fn first_numbers(n: nat) -> Seq<int> {
    Seq::new(n, |t: int| t)
}

/// `id` is the first of the greatest tokens of frame `t`; a frame that opens with a
/// NaN counts as its first token.
pub open spec fn frame_best(logits: Seq<Single>, vocab: int, t: int, id: int) -> bool {
    &&& 0 <= id < vocab
    &&& logits[t * vocab + 0].nan() ==> id == 0
    &&& !logits[t * vocab + 0].nan() ==> forall|j: int|
        0 <= j < vocab ==> {
            let other = #[trigger] logits[t * vocab + j];
            !other.gt(logits[t * vocab + id]) && (j < id ==> !other.ge(logits[t * vocab + id]))
        }
}

/// `best` are the best tokens of the frames.
pub open spec fn frame_bests(
    logits: Seq<Single>,
    frames: nat,
    vocab: int,
    best: Seq<int>,
) -> bool {
    best.len() == frames && forall|t: int|
        0 <= t < frames ==> frame_best(logits, vocab, t, #[trigger] best[t])
}

proof fn lemma_kept_frames(path: Seq<int>, blank: int, n: nat)
    requires
        n <= path.len(),
    ensures
        collapsed(path.take(n as int), blank) == first_numbers(n).filter(
            holds_new(path, blank),
        ).map_values(token_at(path)),
        n == path.len() ==> collapsed(path, blank) == new_tokens(path, blank),
    decreases n,
{
    let kept = holds_new(path, blank);
    let said = token_at(path);
    let all = first_numbers(n);
    reveal(Seq::filter);
    if n > 0 {
        let m = (n - 1) as nat;
        lemma_kept_frames(path, blank, m);
        let head = path.take(n as int);
        assert(head.drop_last() =~= path.take(m as int));
        assert(all.drop_last() =~= first_numbers(m));
        assert(all.last() == m);
        let before = first_numbers(m).filter(kept);
        assert(before.push(m as int).map_values(said) =~= before.map_values(said).push(
            path[m as int],
        ));
        if n > 1 {
            assert(head[n - 2] == path[n - 2]);
        }
    } else {
        assert(all.filter(kept).map_values(said) =~= Seq::empty());
        assert(path.take(0) =~= Seq::empty());
    }
    if n == path.len() {
        assert(path.take(n as int) =~= path);
    }
}

/// The text of a transcript has no white space at either end.
pub proof fn law_transcript_is_tidy<
    M: Fn(&[Single], Single) -> Vec<Single>,
    N: Fn(Single, Single, Single) -> Single,
    R: Fn(&SenseVoiceInput) -> Logits,
>(
    engine: SenseVoiceEngine,
    mel: M,
    norm: N,
    run: R,
    language: i32,
    audio: Seq<Single>,
    bounds: Seq<int>,
    parts: Seq<ResultView>,
)
    requires
        engine.windows_end(mel, norm, run, language, audio, bounds, parts),
    ensures
        tidy(stitched(parts, bounds.drop_last()).text),
{
    assert forall|i: int| 0 <= i < parts.len() implies tidy((#[trigger] parts[i]).text) by {
        let clip = window(audio, bounds, i);
        assert(engine.window_ends(mel, norm, run, language, clip, Ok(parts[i])));
        if frame_count(clip.len() as int) != 0 {
            let (x, logits) = choose|x: Seq<Single>, logits: Logits|
                {
                    &&& #[trigger] ran(
                        run,
                        x,
                        engine.stacked_frames(clip.len() as int),
                        engine.feat_dim(),
                        language,
                        engine.settings.with_itn,
                        logits,
                    )
                    &&& engine.features(mel, norm, clip, x)
                    &&& Ok::<_, ErrorView>(parts[i]) == engine.answer_result(logits)
                };
            let tensor = logits->Ok_0;
            let ids = collapsed(
                best_path(tensor.data@, tensor.rows() as nat, tensor.width()),
                engine.settings.blank_id as int,
            );
            law_tidy_is_trimmed(
                spaced(joined_text(after(ids, META_TOKENS as int), views(engine.tokens@))),
            );
        }
    }
    law_stitched_text_is_tidy(parts, bounds.drop_last());
}

/// 1.0 for a model that takes samples in `[-1, 1]`, 32768.0 for one that takes them in
/// the range of 16-bit integers.
pub open spec fn sample_scale(settings: SenseVoiceSettings) -> Single {
    Single {
        bits: if settings.normalize_samples {
            0x3f80_0000
        } else {
            0x4700_0000
        },
    }
}

/// `x` are features of `clip`: the mel rows of its frames, `lfr_m` of them stacked at
/// every `lfr_n`th, and each value normalized with the statistics of its column.
pub open spec fn features_of<
    M: Fn(&[Single], Single) -> Vec<Single>,
    N: Fn(Single, Single, Single) -> Single,
>(
    settings: SenseVoiceSettings,
    mel: M,
    norm: N,
    clip: Seq<Single>,
    x: Seq<Single>,
    rows: int,
) -> bool {
    let m = settings.lfr_m as int;
    let dim = 80 * m;
    exists|fbank: Seq<Single>, frames: int, flat: Seq<Single>|
        {
            &&& #[trigger] mel_of_all(mel, clip, sample_scale(settings), frames, fbank)
            &&& #[trigger] rows_of_frames(
                fbank,
                frames,
                80,
                m,
                settings.lfr_n as int,
                flat,
                rows,
            )
            &&& x.len() == flat.len()
            &&& forall|r: int, c: int|
                0 <= r < rows && 0 <= c < dim ==> call_ensures(
                    norm,
                    (flat[r * dim + c], settings.neg_mean@[c], settings.inv_stddev@[c]),
                    #[trigger] x[r * dim + c],
                )
        }
}

/// `ids` are what the logits say: the tokens of the frames that hold neither the blank
/// nor the token of the frame before.
pub open spec fn ids_of(logits: Tensor, blank: int, ids: Seq<int>) -> bool {
    exists|best: Seq<int>| #[trigger]
        frame_bests(logits.data@, best.len(), logits.shape@[2] as int, best) && best.len()
            == logits.shape@[1] && ids == new_tokens(best, blank)
}

/// `part` is what the tokens `ids` say: the symbols after the first four, end to end,
/// with a space for each word start, trimmed; and the language that the first names.
pub open spec fn said_by(table: Seq<Seq<char>>, ids: Seq<int>, part: ResultView) -> bool {
    let words = if ids.len() <= 4 {
        Seq::empty()
    } else {
        ids.skip(4)
    };
    &&& part.text == trimmed(
        known_ids(words, table.len()).map_values(|id: int| table[id]).flatten().map_values(
            |c: char|
                if c == '\u{2581}' {
                    ' '
                } else {
                    c
                },
        ),
    )
    &&& part.detected_language == if ids.len() > 0 && 0 <= ids[0] < table.len() {
        tag_language(table[ids[0]])
    } else {
        None
    }
    &&& part.segments.len() == 0
}

/// `part` is what the model says of a window: nothing when it is shorter than a frame,
/// else what its answer to the features of the window says.
pub open spec fn said_of<
    M: Fn(&[Single], Single) -> Vec<Single>,
    N: Fn(Single, Single, Single) -> Single,
    R: Fn(&SenseVoiceInput) -> Logits,
>(
    engine: SenseVoiceEngine,
    mel: M,
    norm: N,
    run: R,
    language: i32,
    clip: Seq<Single>,
    part: ResultView,
) -> bool {
    if clip.len() < 400 {
        part == empty_result()
    } else {
        exists|input: &SenseVoiceInput, logits: Tensor, ids: Seq<int>|
            {
                &&& #[trigger] call_ensures(run, (input,), Ok(logits))
                &&& features_of(
                    engine.settings,
                    mel,
                    norm,
                    clip,
                    input.x@,
                    input.frames as int,
                )
                &&& input.dim == 80 * engine.settings.lfr_m
                &&& input.language == language
                &&& input.text_norm == engine.settings.with_itn
                &&& #[trigger] ids_of(logits, engine.settings.blank_id as int, ids)
                &&& said_by(views(engine.tokens@), ids, part)
            }
    }
}

/// What a call of [`SenseVoiceEngine::transcribe`] gives: windows tile the clean samples,
/// the model is handed the features of each and the language asked for, and what it says
/// of them is put in line. The control is asked one to three times for each window, and
/// before each the share of the samples that is done is reported, in whole percents; 100
/// comes last.
pub proof fn law_transcribed_windows<
    L: Fn(&[Single]) -> Single,
    M: Fn(&[Single], Single) -> Vec<Single>,
    N: Fn(Single, Single, Single) -> Single,
    R: Fn(&SenseVoiceInput) -> Logits,
>(
    engine: &SenseVoiceEngine,
    audio: &[Single],
    opts: &TranscribeOptions,
    rms: &L,
    mel: &M,
    norm: &N,
    run: &R,
    reported: Seq<int>,
    asked: nat,
    t: TranscriptionResult,
)
    requires
        audio@.len() > 0,
        engine.wf(),
        mel_rows(*mel),
        engine.gives_logits(*mel, *norm, *run),
        exists|m: &mut Monitor<'_>| #[trigger]
            call_ensures(
                SenseVoiceEngine::transcribe::<L, M, N, R>,
                (engine, audio, opts, m, rms, mel, norm, run),
                Ok(t),
            ) && final(m).reported() == reported && final(m).asked() == asked,
    ensures
        exists|bounds: Seq<int>, parts: Seq<ResultView>|
            {
                &&& #[trigger] tiles(*rms, sanitized(audio@), bounds)
                &&& parts.len() == bounds.len() - 1
                &&& forall|i: int|
                    0 <= i < parts.len() ==> said_of(
                        *engine,
                        *mel,
                        *norm,
                        *run,
                        engine.settings.language_id(
                            if opts.language is Some {
                                opt_view(opts.language)
                            } else {
                                opt_view(engine.default_language)
                            },
                        ),
                        sanitized(audio@).subrange(bounds[i], bounds[i + 1]),
                        #[trigger] parts[i],
                    )
                &&& #[trigger] in_line(parts, bounds.drop_last(), t@)
                &&& parts.len() <= asked <= 3 * parts.len()
                &&& reported.len() == parts.len() + 1 && reported.last() == 100
                &&& forall|i: int|
                    0 <= i < parts.len() ==> 0 <= bounds[i] * 100 - #[trigger] reported[i]
                        * audio@.len() < audio@.len()
            },
{
    let clean = sanitized(audio@);
    let language = engine.call_language(opt_view(opts.language));
    let (bounds, parts) = choose|bounds: Seq<int>, parts: Seq<ResultView>|
        {
            &&& windows_of(*rms, clean, bounds)
            &&& #[trigger] engine.windows_end(*mel, *norm, *run, language, clean, bounds, parts)
            &&& t@ == stitched(parts, bounds.drop_last())
            &&& reported == window_marks(bounds, audio@.len() as int).push(100)
            &&& asked == SenseVoiceEngine::asks(bounds)
        };
    law_windows_tile(*rms, clean, bounds);
    law_stitched_in_line(parts, bounds.drop_last());
    law_marks_are_shares(bounds, audio@.len() as int);
    lemma_asks(bounds);
    assert forall|i: int| 0 <= i < parts.len() implies 0 <= bounds[i] * 100 - #[trigger] reported[i]
        * audio@.len() < audio@.len() by {
        assert(reported[i] == window_marks(bounds, audio@.len() as int)[i]);
    }
    assert forall|i: int| 0 <= i < parts.len() implies said_of(
        *engine,
        *mel,
        *norm,
        *run,
        language,
        clean.subrange(bounds[i], bounds[i + 1]),
        #[trigger] parts[i],
    ) by {
        assert(bounds[i] < bounds[i + 1]);
        lemma_said_of(
            *engine,
            *mel,
            *norm,
            *run,
            language,
            window(clean, bounds, i),
            parts[i],
        );
    }
}

/// Every window asks once at least, and three times at most.
proof fn lemma_asks(bounds: Seq<int>)
    requires
        bounds.len() >= 1,
    ensures
        bounds.len() - 1 <= SenseVoiceEngine::asks(bounds) <= 3 * (bounds.len() - 1),
    decreases bounds.len(),
{
    if bounds.len() > 1 {
        lemma_asks(bounds.drop_last());
    }
}

proof fn lemma_said_of<
    M: Fn(&[Single], Single) -> Vec<Single>,
    N: Fn(Single, Single, Single) -> Single,
    R: Fn(&SenseVoiceInput) -> Logits,
>(
    engine: SenseVoiceEngine,
    mel: M,
    norm: N,
    run: R,
    language: i32,
    clip: Seq<Single>,
    part: ResultView,
)
    requires
        engine.wf(),
        mel_rows(mel),
        engine.gives_logits(mel, norm, run),
        engine.window_ends(mel, norm, run, language, clip, Ok(part)),
    ensures
        said_of(engine, mel, norm, run, language, clip, part),
{
    if clip.len() >= 400 {
        let rows = engine.stacked_frames(clip.len() as int);
        let (x, answer) = choose|x: Seq<Single>, logits: Logits|
            {
                &&& #[trigger] ran(
                    run,
                    x,
                    rows,
                    engine.feat_dim(),
                    language,
                    engine.settings.with_itn,
                    logits,
                )
                &&& engine.features(mel, norm, clip, x)
                &&& Ok::<ResultView, ErrorView>(part) == engine.answer_result(logits)
            };
        let input = choose|i: &SenseVoiceInput|
            {
                &&& i.x@ == x
                &&& i.frames == rows
                &&& i.dim == engine.feat_dim()
                &&& i.language == language
                &&& i.text_norm == engine.settings.with_itn
                &&& #[trigger] call_ensures(run, (i,), answer)
            };
        let logits = answer->Ok_0;
        assert(call_ensures(run, (input,), Ok(logits)));
        assert(readable(logits));
        lemma_features_of(engine, mel, norm, clip, x);
        let blank = engine.settings.blank_id as int;
        let best = best_path(logits.data@, logits.rows() as nat, logits.width());
        let ids = collapsed(best, blank);
        lemma_frame_bests(logits.data@, logits.rows() as nat, logits.width());
        lemma_kept_frames(best, blank, logits.rows() as nat);
        assert(best.take(logits.rows()) =~= best);
        assert(best.len() == logits.rows());
        assert(frame_bests(logits.data@, best.len(), logits.shape@[2] as int, best));
        assert(ids == new_tokens(best, blank));
        assert(ids_of(logits, blank, ids));
        lemma_said_by(engine, ids);
    }
}

proof fn lemma_frame_bests(logits: Seq<Single>, frames: nat, vocab: int)
    requires
        frames > 0 ==> vocab > 0,
        frames * vocab <= logits.len(),
    ensures
        frame_bests(logits, frames, vocab, best_path(logits, frames, vocab)),
{
    let best = best_path(logits, frames, vocab);
    assert forall|t: int| 0 <= t < frames implies frame_best(
        logits,
        vocab,
        t,
        #[trigger] best[t],
    ) by {
        assert(0 <= t * vocab && t * vocab + vocab <= frames * vocab) by (nonlinear_arith)
            requires
                0 <= t,
                t + 1 <= frames,
                0 < vocab,
        ;
        let row = logits.subrange(t * vocab, t * vocab + vocab);
        law_best_is_peak(row);
        let id = best[t];
        assert(row[0] == logits[t * vocab + 0]);
        assert(row[id] == logits[t * vocab + id]);
        if !row[0].nan() {
            assert forall|j: int| 0 <= j < vocab implies {
                let other = #[trigger] logits[t * vocab + j];
                !other.gt(logits[t * vocab + id]) && (j < id ==> !other.ge(
                    logits[t * vocab + id],
                ))
            } by {
                assert(row[j] == logits[t * vocab + j]);
                assert(!row[j].gt(row[id]));
            }
        }
    }
}

proof fn lemma_said_by(engine: SenseVoiceEngine, ids: Seq<int>)
    ensures
        said_by(views(engine.tokens@), ids, engine.ids_result(ids)),
{
    let table = views(engine.tokens@);
    let words = if ids.len() <= 4 {
        Seq::empty()
    } else {
        ids.skip(4)
    };
    law_every_symbol_is_joined(words, table);
    let text = joined_text(words, table);
    assert(spaced(text) =~= text.map_values(
        |c: char|
            if c == '\u{2581}' {
                ' '
            } else {
                c
            },
    ));
}

proof fn lemma_features_of<
    M: Fn(&[Single], Single) -> Vec<Single>,
    N: Fn(Single, Single, Single) -> Single,
>(engine: SenseVoiceEngine, mel: M, norm: N, clip: Seq<Single>, x: Seq<Single>)
    requires
        engine.wf(),
        mel_rows(mel),
        clip.len() >= 400,
        engine.features(mel, norm, clip, x),
    ensures
        features_of(
            engine.settings,
            mel,
            norm,
            clip,
            x,
            engine.stacked_frames(clip.len() as int),
        ),
{
    let settings = engine.settings;
    let m = settings.lfr_m as int;
    let n = settings.lfr_n as int;
    let dim = 80 * m;
    let frames = frame_count(clip.len() as int);
    let rows = engine.stacked_frames(clip.len() as int);
    let fbank = choose|fbank: Seq<Single>| #[trigger]
        fbanked(mel, clip, engine.scale(), frames as nat, fbank) && normalized(
            norm,
            stacked(fbank, frames, NUM_MEL as int, m, n, (rows * m) as nat),
            rows * engine.feat_dim(),
            engine.feat_dim(),
            settings.neg_mean@,
            settings.inv_stddev@,
            x,
        );
    let scale = sample_scale(settings);
    assert(scale == engine.scale());
    lemma_mel_of_all(mel, clip, scale, fbank);
    assert(fbank.len() == frames * 80);
    lemma_rows_of_frames(fbank, frames, 80, m, n);
    let flat = stacked(fbank, frames, 80, m, n, (rows * m) as nat);
    assert(rows_of_frames(fbank, frames, 80, m, n, flat, rows));
    assert(dim == engine.feat_dim());
    assert(normalized(
        norm,
        flat,
        rows * dim,
        dim,
        settings.neg_mean@,
        settings.inv_stddev@,
        x,
    ));
    assert forall|r: int, c: int| 0 <= r < rows && 0 <= c < dim implies call_ensures(
        norm,
        (flat[r * dim + c], settings.neg_mean@[c], settings.inv_stddev@[c]),
        #[trigger] x[r * dim + c],
    ) by {
        law_columns_are_normalized(
            norm,
            flat,
            rows,
            dim,
            settings.neg_mean@,
            settings.inv_stddev@,
            x,
            r,
            c,
        );
    }
}

/// A language is the same by any case of its name or code.
pub proof fn law_languages_in_any_case(
    settings: SenseVoiceSettings,
    a: Seq<char>,
    b: Seq<char>,
)
    requires
        a.len() == b.len(),
        forall|i: int| 0 <= i < a.len() ==> lower(#[trigger] a[i]) == lower(b[i]),
    ensures
        settings.language_id(Some(a)) == settings.language_id(Some(b)),
{
    assert(lowercase(a) =~= lowercase(b));
}

/// What is detected can be asked for: the name that a tag is read as stands for the same
/// language as the code in the tag, and no two tags are read as one language.
pub proof fn law_tags_and_names_agree(
    settings: SenseVoiceSettings,
    code: Seq<char>,
    other: Seq<char>,
)
    requires
        tag_language(seq!['<', '|'] + code + seq!['|', '>']) is Some,
    ensures
        settings.language_id(tag_language(seq!['<', '|'] + code + seq!['|', '>']))
            == settings.language_id(Some(code)),
        tag_language(other) == tag_language(seq!['<', '|'] + code + seq!['|', '>']) ==> other == seq![
            '<',
            '|',
        ] + code + seq!['|', '>'],
{
    reveal_strlit("<|zh|>");
    reveal_strlit("<|en|>");
    reveal_strlit("<|ja|>");
    reveal_strlit("<|ko|>");
    reveal_strlit("<|yue|>");
    reveal_strlit("zh");
    reveal_strlit("en");
    reveal_strlit("ja");
    reveal_strlit("ko");
    reveal_strlit("yue");
    reveal_strlit("chinese");
    reveal_strlit("english");
    reveal_strlit("japanese");
    reveal_strlit("korean");
    reveal_strlit("cantonese");
    reveal_strlit("mandarin");
    let tag = seq!['<', '|'] + code + seq!['|', '>'];
    assert(tag.len() == code.len() + 4);
    assert(forall|i: int| 0 <= i < code.len() ==> #[trigger] code[i] == tag[i + 2]);
    assert("chinese"@[0] == 'c' && "cantonese"@[0] == 'c' && "chinese"@[1] == 'h'
        && "cantonese"@[1] == 'a');
    assert("english"@[0] == 'e' && "japanese"@[0] == 'j' && "korean"@[0] == 'k' && "mandarin"@[0]
        == 'm');
    assert("zh"@[0] == 'z' && "en"@[0] == 'e' && "ja"@[0] == 'j' && "ko"@[0] == 'k');
    assert("zh"@.len() == 2 && "en"@.len() == 2 && "ja"@.len() == 2 && "ko"@.len() == 2
        && "yue"@.len() == 3);
    assert("chinese"@.len() == 7 && "english"@.len() == 7 && "japanese"@.len() == 8
        && "mandarin"@.len() == 8 && "korean"@.len() == 6 && "cantonese"@.len() == 9);
    if tag == "<|zh|>"@ {
        assert(code =~= "zh"@);
        assert(lowercase("chinese"@) =~= "chinese"@);
        assert(lowercase("zh"@) =~= "zh"@);
    } else if tag == "<|en|>"@ {
        assert(code =~= "en"@);
        assert(lowercase("english"@) =~= "english"@);
        assert(lowercase("en"@) =~= "en"@);
    } else if tag == "<|ja|>"@ {
        assert(code =~= "ja"@);
        assert(lowercase("japanese"@) =~= "japanese"@);
        assert(lowercase("ja"@) =~= "ja"@);
    } else if tag == "<|ko|>"@ {
        assert(code =~= "ko"@);
        assert(lowercase("korean"@) =~= "korean"@);
        assert(lowercase("ko"@) =~= "ko"@);
    } else {
        assert(code =~= "yue"@);
        assert(lowercase("cantonese"@) =~= "cantonese"@);
        assert(lowercase("yue"@) =~= "yue"@);
    }
}

/// A call of [`SenseVoiceEngine::transcribe`] answers a requested cancellation with `Cancelled`,
/// and nothing else: on a clip with samples it does when the flag can only be read as
/// raised, and it never does when the flag cannot be, or is not there. An empty clip gives
/// an empty result. On success the caller's sink has received 100.
pub proof fn law_cancellation<
    L: Fn(&[Single]) -> Single,
    M: Fn(&[Single], Single) -> Vec<Single>,
    N: Fn(Single, Single, Single) -> Single,
    R: Fn(&SenseVoiceInput) -> Logits,
>(
    engine: &SenseVoiceEngine,
    audio: &[Single],
    opts: &TranscribeOptions,
    control: TranscribeControl,
    rms: &L,
    mel: &M,
    norm: &N,
    run: &R,
    r: Result<TranscriptionResult, AsrError>,
)
    requires
        exists|m: &mut Monitor<'_>|
            (*m).fresh() && (*m).caller() == control && #[trigger] call_ensures(
                SenseVoiceEngine::transcribe::<L, M, N, R>,
                (engine, audio, opts, m, rms, mel, norm, run),
                r,
            ),
    ensures
        audio@.len() == 0 ==> (r matches Ok(t) && t@ == empty_result()),
        audio@.len() > 0 && (control.cancel matches Some(flag) && !flag_reads(&flag, false)) ==> (
        r matches Err(e) && e@ == ErrorView::Cancelled),
        (control.cancel matches Some(flag) ==> !flag_reads(&flag, true)) ==> !(r matches Err(e)
            && e@ == ErrorView::Cancelled),
        r is Ok ==> (control.on_progress matches Some(sink) ==> sink.received(100)),
{
}

/// Success is owed: under a control that cannot say that the caller cancelled, and with
/// a model whose answers are always logits of rank three, a call of
/// [`SenseVoiceEngine::transcribe`] succeeds.
pub proof fn law_success_is_owed<
    L: Fn(&[Single]) -> Single,
    M: Fn(&[Single], Single) -> Vec<Single>,
    N: Fn(Single, Single, Single) -> Single,
    R: Fn(&SenseVoiceInput) -> Logits,
>(
    engine: &SenseVoiceEngine,
    audio: &[Single],
    opts: &TranscribeOptions,
    control: TranscribeControl,
    rms: &L,
    mel: &M,
    norm: &N,
    run: &R,
    r: Result<TranscriptionResult, AsrError>,
)
    requires
        exists|m: &mut Monitor<'_>|
            (*m).fresh() && (*m).caller() == control && #[trigger] call_ensures(
                SenseVoiceEngine::transcribe::<L, M, N, R>,
                (engine, audio, opts, m, rms, mel, norm, run),
                r,
            ),
        control.cancel matches Some(flag) ==> !flag_reads(&flag, true),
        forall|i: &SenseVoiceInput, q: Logits| #[trigger]
            call_ensures(*run, (i,), q) ==> (q matches Ok(logits) && logits.shape@.len() == 3),
    ensures
        r is Ok,
{
}

/// What a call of [`SenseVoiceEngine::load`] fails with is that something was not found
/// exactly when the directory is absent, or can be reached and lacks its model or
/// `tokens.txt`; and it succeeds only on a complete export.
pub proof fn law_incomplete_export_is_refused<P: Fn(&str) -> Result<Single, String>>(
    config: &EngineConfig,
    dir: &ModelDir,
    host: Host,
    tokens: &Result<String, String>,
    graph: &Graph,
    meta: &Result<Metadata, String>,
    parse: &P,
    r: Result<SenseVoiceEngine, AsrError>,
)
    requires
        call_ensures(
            SenseVoiceEngine::load::<P>,
            (config, dir, host, tokens, graph, meta, parse),
            r,
        ),
    ensures
        !dir.exists ==> (r matches Err(e) && e@ is ModelNotFound),
        reachable(*dir, host) && !(has_model(*dir, "model"@) && exists|i: int|
            0 <= i < dir.files@.len() && (#[trigger] dir.files@[i])@ == "tokens.txt"@) ==> (
        r matches Err(e) && e@ is ModelNotFound),
        r matches Ok(engine) ==> {
            &&& reachable(*dir, host)
            &&& has_model(*dir, "model"@)
            &&& tokens matches Ok(text) && token_table(text@).len() > 0 && views(engine.tokens@)
                == token_table(text@)
            &&& graph matches Graph::Open { inputs, .. } && inputs@.len() == 4
            &&& meta is Ok
            &&& engine.default_language == config.default_language
        },
{
    law_held_models_are_found(*dir, host, "sensevoice"@, "model"@);
}

/// A list with a comma after each field.
pub open spec fn list_text(list: Seq<Seq<char>>) -> Seq<char>
    decreases list.len(),
{
    if list.len() == 0 {
        Seq::empty()
    } else {
        (list_text(list.drop_last()) + list.last()).push(',')
    }
}

/// A list that is written is read back, field by field.
pub proof fn law_lists_are_read_back(list: Seq<Seq<char>>)
    requires
        forall|i: int| 0 <= i < list.len() ==> (#[trigger] list[i]).len() > 0,
        forall|i: int, j: int|
            0 <= i < list.len() && 0 <= j < list[i].len() ==> {
                let c = #[trigger] list[i][j];
                c != ',' && !crate::text::white_space(c)
            },
    ensures
        fields(list_text(list)) == list,
{
    lemma_list(list);
    let parts = pieces(list_text(list), Separator::CommaOrSpace);
    assert(nonempty(parts) == nonempty(parts.drop_last()));
}

proof fn lemma_list(list: Seq<Seq<char>>)
    requires
        forall|i: int| 0 <= i < list.len() ==> (#[trigger] list[i]).len() > 0,
        forall|i: int, j: int|
            0 <= i < list.len() && 0 <= j < list[i].len() ==> {
                let c = #[trigger] list[i][j];
                c != ',' && !crate::text::white_space(c)
            },
    ensures
        pieces(list_text(list), Separator::CommaOrSpace).len() > 0,
        pieces(list_text(list), Separator::CommaOrSpace).last() == Seq::<char>::empty(),
        nonempty(pieces(list_text(list), Separator::CommaOrSpace).drop_last()) == list,
    decreases list.len(),
{
    let sep = Separator::CommaOrSpace;
    if list.len() == 0 {
        assert(pieces(list_text(list), sep).drop_last() =~= Seq::empty());
        assert(nonempty(Seq::<Seq<char>>::empty()) =~= list);
    } else {
        let rest = list.drop_last();
        let field = list.last();
        assert forall|i: int| 0 <= i < rest.len() implies (#[trigger] rest[i]).len() > 0 by {
            assert(list[i].len() > 0);
        }
        assert forall|i: int, j: int| 0 <= i < rest.len() && 0 <= j < rest[i].len() implies {
            let c = #[trigger] rest[i][j];
            c != ',' && !crate::text::white_space(c)
        } by {
            assert(list[i][j] != ',');
        }
        lemma_list(rest);
        assert forall|j: int| 0 <= j < field.len() implies !sep.splits(#[trigger] field[j]) by {
            assert(list[list.len() - 1][j] != ',');
        }
        crate::text::law_lines_are_split(list_text(rest), field, ',', sep);
        let before = pieces(list_text(rest), sep);
        assert(before.last() + field =~= field);
        let parts = pieces(list_text(list), sep);
        assert(parts.drop_last() =~= before.drop_last().push(field));
        assert(parts.drop_last().drop_last() =~= before.drop_last());
        assert(list[list.len() - 1].len() > 0);
        assert(rest.push(field) =~= list);
    }
}

/// `value` is what the metadata says of `key`: the number written there, `default` when
/// there is none.
pub open spec fn setting_of(
    meta: Seq<(String, String)>,
    key: Seq<char>,
    default: int,
    value: int,
    n: nat,
) -> bool {
    &&& custom_value(meta, key) is None ==> value == default
    &&& custom_value(meta, key) == Some(decimal(n)) ==> value == n
}

/// What a call of [`read_settings`] reads: every setting from its own key, as it is
/// written there, and its default when the key is absent.
pub proof fn law_settings_are_read<P: Fn(&str) -> Result<Single, String>>(
    meta: &Metadata,
    parse: &P,
    settings: SenseVoiceSettings,
    n: nat,
)
    requires
        call_ensures(read_settings::<P>, (meta, parse), Ok(settings)),
        n <= i32::MAX,
    ensures
        setting_of(meta@, "lfr_window_size"@, 7, settings.lfr_m as int, n),
        setting_of(meta@, "lfr_window_shift"@, 6, settings.lfr_n as int, n),
        setting_of(meta@, "blank_id"@, 0, settings.blank_id as int, n),
        setting_of(meta@, "lang_auto"@, 0, settings.lang_auto as int, n),
        setting_of(meta@, "lang_zh"@, 3, settings.lang_zh as int, n),
        setting_of(meta@, "lang_en"@, 4, settings.lang_en as int, n),
        setting_of(meta@, "lang_ja"@, 11, settings.lang_ja as int, n),
        setting_of(meta@, "lang_ko"@, 12, settings.lang_ko as int, n),
        setting_of(meta@, "lang_yue"@, 13, settings.lang_yue as int, n),
        setting_of(meta@, "with_itn"@, 14, settings.with_itn as int, n),
        settings.lfr_m > 0 && settings.lfr_n > 0,
        settings.neg_mean@.len() == 80 * settings.lfr_m,
        settings.inv_stddev@.len() == 80 * settings.lfr_m,
        custom_value(meta@, "neg_mean"@) matches Some(text) && fields(text).len() == 80
            * settings.lfr_m && forall|i: int|
            0 <= i < 80 * settings.lfr_m ==> parsed(
                *parse,
                fields(text)[i],
                Ok(#[trigger] settings.neg_mean@[i]),
            ),
        custom_value(meta@, "inv_stddev"@) matches Some(text) && fields(text).len() == 80
            * settings.lfr_m && forall|i: int|
            0 <= i < 80 * settings.lfr_m ==> parsed(
                *parse,
                fields(text)[i],
                Ok(#[trigger] settings.inv_stddev@[i]),
            ),
{
    crate::text::law_written_numbers_are_read_back(n);
    let first = decimal(n)[0];
    assert('0' <= first && first <= '9');
    assert(crate::text::unsigned_value(decimal(n), 10, 0x7fff_ffff) == Some(n));
    assert(crate::text::unsigned_value(decimal(n), 10, usize::MAX as nat) == Some(n));
    assert(crate::text::signed_value(decimal(n)) == Some(n as int));
}

/// What a call of [`SenseVoiceSettings::id_of`] gives: the id of the language that the name
/// or code stands for, in any case, and that of detection for any other and for none.
pub proof fn law_each_language_has_its_id(
    settings: &SenseVoiceSettings,
    name: Option<&str>,
    r: i32,
)
    requires
        call_ensures(SenseVoiceSettings::id_of, (settings, name), r),
    ensures
        name is None ==> r == settings.lang_auto,
        name matches Some(s) ==> {
            let n = lowercase(s@);
            let zh = n == "zh"@ || n == "chinese"@ || n == "mandarin"@;
            let en = n == "en"@ || n == "english"@;
            let ja = n == "ja"@ || n == "japanese"@;
            let ko = n == "ko"@ || n == "korean"@;
            let yue = n == "yue"@ || n == "cantonese"@;
            &&& zh ==> r == settings.lang_zh
            &&& en && !zh ==> r == settings.lang_en
            &&& ja && !zh && !en ==> r == settings.lang_ja
            &&& ko && !zh && !en && !ja ==> r == settings.lang_ko
            &&& yue && !zh && !en && !ja && !ko ==> r == settings.lang_yue
            &&& !zh && !en && !ja && !ko && !yue ==> r == settings.lang_auto
        },
{
}

} // verus!
