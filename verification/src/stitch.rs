//! Putting the results of consecutive pieces of a clip back together.

use crate::text::{trimmed, white_space};
use crate::types::{
    as_time, empty_result, segment_views, shift_time, ResultView, Segment, SegmentView,
    TranscriptionResult,
};
use vstd::prelude::*;
use vstd::string::*;

verus! {

/// `text` followed by `piece`, with one space between them; an empty one adds
/// nothing.
pub open spec fn spoken(text: Seq<char>, piece: Seq<char>) -> Seq<char> {
    if piece.len() == 0 {
        text
    } else if text.len() == 0 {
        piece
    } else {
        text.push(' ') + piece
    }
}

/// The language already known, else the one of the next piece.
pub open spec fn first_language(
    known: Option<Seq<char>>,
    next: Option<Seq<char>>,
) -> Option<Seq<char>> {
    match known {
        Some(_) => known,
        None => next,
    }
}

/// The segment `by` samples later.
pub open spec fn later(segment: SegmentView, by: int) -> SegmentView {
    SegmentView {
        text: segment.text,
        start: as_time(segment.start + by),
        end: as_time(segment.end + by),
    }
}

/// The segments `by` samples later.
pub open spec fn shifted(segments: Seq<SegmentView>, by: int) -> Seq<SegmentView> {
    segments.map_values(|s: SegmentView| later(s, by))
}

/// `whole` with the result `part` of the piece that starts at sample `at` added
/// at its end.
pub open spec fn appended(whole: ResultView, part: ResultView, at: int) -> ResultView {
    ResultView {
        text: spoken(whole.text, part.text),
        detected_language: first_language(whole.detected_language, part.detected_language),
        segments: whole.segments + shifted(part.segments, at),
    }
}

/// The results `parts` of pieces that start at the samples `starts`, put together
/// in order.
pub open spec fn stitched(parts: Seq<ResultView>, starts: Seq<int>) -> ResultView
    decreases parts.len(),
{
    if parts.len() == 0 {
        empty_result()
    } else {
        appended(
            stitched(parts.drop_last(), starts.drop_last()),
            parts.last(),
            starts.last(),
        )
    }
}

/// Append a piece of text, separated by one space: see [`spoken`].
pub fn append_text(text: &mut String, piece: &str)
    ensures
        final(text)@ == spoken(old(text)@, piece@),
{
    let none = String::new();
    if *text == none {
        text.append(piece);
        assert(text@ =~= spoken(old(text)@, piece@));
    } else if piece.to_owned() == none {
        assert(piece@ =~= Seq::empty());
    } else {
        assert(text@.len() > 0) by {
            if text@.len() == 0 {
                assert(text@ =~= none@);
            }
        }
        assert(piece@.len() > 0) by {
            if piece@.len() == 0 {
                assert(piece@ =~= none@);
            }
        }
        text.push(' ');
        text.append(piece);
    }
}

/// Append segments, `by` samples later: see [`shifted`].
pub fn append_segments(segments: &mut Vec<Segment>, more: Vec<Segment>, by: usize)
    ensures
        segment_views(final(segments)@) == segment_views(old(segments)@) + shifted(
            segment_views(more@),
            by as int,
        ),
{
    let ghost before = segment_views(segments@);
    let ghost added = shifted(segment_views(more@), by as int);
    let n: usize = more.len();
    let mut i: usize = 0;
    assert(before + added.take(0) =~= before);
    while i < n
        invariant
            n == more@.len(),
            i <= n,
            added == shifted(segment_views(more@), by as int),
            segment_views(segments@) == before + added.take(i as int),
        decreases n - i,
    {
        let ghost held = segment_views(segments@);
        let next: &Segment = &more[i];
        let placed = Segment {
            text: next.text.clone(),
            start: shift_time(next.start, by),
            end: shift_time(next.end, by),
        };
        let ghost view = placed@;
        segments.push(placed);
        assert(segment_views(segments@) =~= held.push(view));
        assert(added[i as int] == view);
        assert(before + added.take(i + 1) =~= (before + added.take(i as int)).push(view));
        i += 1;
    }
    assert(added.take(n as int) =~= added);
}

/// Add the result of the piece that starts at sample `at`: see [`appended`].
pub fn append_part(whole: &mut TranscriptionResult, part: TranscriptionResult, at: usize)
    ensures
        final(whole)@ == appended(old(whole)@, part@, at as int),
{
    append_text(&mut whole.text, part.text.as_str());
    if whole.detected_language.is_none() {
        whole.detected_language = part.detected_language;
    }
    append_segments(&mut whole.segments, part.segments, at);
}

// --- laws -------------------------------------------------------------------------

/// Text with no white space at either end.
pub open spec fn tidy(text: Seq<char>) -> bool {
    text.len() > 0 ==> !white_space(text[0]) && !white_space(text.last())
}

/// Tidy text is what trimming leaves alone.
pub proof fn law_tidy_is_trimmed(text: Seq<char>)
    ensures
        tidy(text) ==> trimmed(text) == text,
        tidy(trimmed(text)),
{
    crate::text::law_trimmed(text);
    if tidy(text) && text.len() > 0 {
        assert(crate::text::trimmed_start(text) == text);
        assert(crate::text::trimmed_end(text) == text);
    }
}

/// The text of a whole whose parts are tidy is tidy.
pub proof fn law_stitched_text_is_tidy(parts: Seq<ResultView>, starts: Seq<int>)
    requires
        forall|i: int| 0 <= i < parts.len() ==> tidy((#[trigger] parts[i]).text),
    ensures
        tidy(stitched(parts, starts).text),
    decreases parts.len(),
{
    if parts.len() > 0 {
        let rest = parts.drop_last();
        assert forall|i: int| 0 <= i < rest.len() implies tidy((#[trigger] rest[i]).text) by {
            assert(rest[i] == parts[i]);
        }
        law_stitched_text_is_tidy(rest, starts.drop_last());
        assert(tidy(parts[parts.len() - 1].text));
        let a = stitched(rest, starts.drop_last()).text;
        let b = parts.last().text;
        if a.len() > 0 && b.len() > 0 {
            let c = spoken(a, b);
            assert(c[0] == a[0]);
            assert(c.last() == b.last());
        }
    }
}

/// The texts that are not empty, in order, with a space before each.
pub open spec fn spaced_texts(parts: Seq<ResultView>) -> Seq<char> {
    parts.filter(|p: ResultView| p.text.len() > 0).map_values(
        |p: ResultView| seq![' '] + p.text,
    ).flatten()
}

/// No word is lost, added or moved: the text of the whole is the texts of the parts
/// that have one, in order, with one space between one and the next.
pub proof fn law_every_text_is_there(parts: Seq<ResultView>, starts: Seq<int>)
    ensures
        stitched(parts, starts).text.len() == 0 ==> spaced_texts(parts).len() == 0,
        stitched(parts, starts).text.len() > 0 ==> spaced_texts(parts) == seq![' '] + stitched(
            parts,
            starts,
        ).text,
        (forall|i: int| 0 <= i < parts.len() ==> (#[trigger] parts[i]).text.len() == 0) ==> stitched(
            parts,
            starts,
        ).text.len() == 0,
    decreases parts.len(),
{
    reveal(Seq::filter);
    let has = |p: ResultView| p.text.len() > 0;
    let led = |p: ResultView| seq![' '] + p.text;
    if parts.len() == 0 {
        assert(parts.filter(has).map_values(led) =~= Seq::empty());
        assert(parts.filter(has).map_values(led).flatten() =~= Seq::empty());
    } else {
        let rest = parts.drop_last();
        let before = stitched(rest, starts.drop_last()).text;
        law_every_text_is_there(rest, starts.drop_last());
        let last = parts.last();
        let told = rest.filter(has);
        assert(parts[parts.len() - 1] == last);
        assert(forall|i: int| 0 <= i < rest.len() ==> #[trigger] rest[i] == parts[i]);
        if last.text.len() > 0 {
            assert(parts.filter(has) == told.push(last));
            assert(told.push(last).map_values(led) =~= told.map_values(led).push(led(last)));
            told.map_values(led).lemma_flatten_push(led(last));
            assert(spaced_texts(parts) == spaced_texts(rest) + (seq![' '] + last.text));
            if before.len() == 0 {
                assert(spaced_texts(rest) =~= Seq::empty());
                assert(spaced_texts(parts) =~= seq![' '] + last.text);
            } else {
                assert(spaced_texts(parts) =~= seq![' '] + (before.push(' ') + last.text));
            }
        }
    }
}

/// Every segment of every part is there, in order, at its own time plus the start of
/// its part.
pub proof fn law_every_segment_is_there(parts: Seq<ResultView>, starts: Seq<int>)
    requires
        parts.len() == starts.len(),
    ensures
        stitched(parts, starts).segments == Seq::new(
            parts.len(),
            |i: int|
                parts[i].segments.map_values(
                    |s: SegmentView|
                        SegmentView {
                            text: s.text,
                            start: as_time(s.start + starts[i]),
                            end: as_time(s.end + starts[i]),
                        },
                ),
        ).flatten(),
    decreases parts.len(),
{
    let moved = |i: int|
        parts[i].segments.map_values(
            |s: SegmentView|
                SegmentView {
                    text: s.text,
                    start: as_time(s.start + starts[i]),
                    end: as_time(s.end + starts[i]),
                },
        );
    let all = Seq::new(parts.len(), moved);
    if parts.len() == 0 {
        assert(all =~= Seq::empty());
        assert(all.flatten() =~= Seq::empty());
    } else {
        let n = parts.len() - 1;
        let prest = parts.drop_last();
        let srest = starts.drop_last();
        law_every_segment_is_there(prest, srest);
        let before = Seq::new(
            prest.len(),
            |i: int|
                prest[i].segments.map_values(
                    |s: SegmentView|
                        SegmentView {
                            text: s.text,
                            start: as_time(s.start + srest[i]),
                            end: as_time(s.end + srest[i]),
                        },
                ),
        );
        assert forall|i: int| 0 <= i < n implies #[trigger] all[i] == before[i] by {
            assert(all[i] =~= before[i]);
        }
        assert(all =~= before.push(all[n]));
        before.lemma_flatten_push(all[n]);
        assert(all[n] =~= shifted(parts[n].segments, starts[n]));
    }
}

/// A time that a segment can hold is held as it is.
pub proof fn law_times_are_exact(n: int)
    requires
        i64::MIN <= n <= i64::MAX,
    ensures
        as_time(n) == n,
{
}

/// The language of the whole is that of the first part that has one.
pub proof fn law_first_language_wins(parts: Seq<ResultView>, starts: Seq<int>, k: int)
    requires
        0 <= k < parts.len(),
        parts[k].detected_language is Some,
        forall|i: int| 0 <= i < k ==> (#[trigger] parts[i]).detected_language is None,
    ensures
        stitched(parts, starts).detected_language == parts[k].detected_language,
    decreases parts.len(),
{
    let rest = parts.drop_last();
    if k < parts.len() - 1 {
        assert(rest[k] == parts[k]);
        assert forall|i: int| 0 <= i < k implies (#[trigger] rest[i]).detected_language is None by {
            assert(rest[i] == parts[i]);
        }
        law_first_language_wins(rest, starts.drop_last(), k);
    } else {
        assert forall|i: int| 0 <= i < rest.len() implies (
        #[trigger] rest[i]).detected_language is None by {
            assert(rest[i] == parts[i]);
        }
        law_no_language(rest, starts.drop_last());
    }
}

/// A whole none of whose parts has a language has none.
pub proof fn law_no_language(parts: Seq<ResultView>, starts: Seq<int>)
    requires
        forall|i: int| 0 <= i < parts.len() ==> (#[trigger] parts[i]).detected_language is None,
    ensures
        stitched(parts, starts).detected_language is None,
    decreases parts.len(),
{
    if parts.len() > 0 {
        let rest = parts.drop_last();
        assert forall|i: int| 0 <= i < rest.len() implies (
        #[trigger] rest[i]).detected_language is None by {
            assert(rest[i] == parts[i]);
        }
        law_no_language(rest, starts.drop_last());
        assert(parts[parts.len() - 1].detected_language is None);
    }
}

/// The segments run forward in time, between samples `low` and `high`.
pub open spec fn timeline(segments: Seq<SegmentView>, low: int, high: int) -> bool {
    &&& forall|i: int|
        0 <= i < segments.len() ==> low <= (#[trigger] segments[i]).start <= segments[i].end
            <= high
    &&& forall|i: int, j: int|
        0 <= i < j < segments.len() ==> (#[trigger] segments[i]).end <= (
        #[trigger] segments[j]).start
}

/// Where the segments of each part run forward inside its piece, and the pieces
/// stand in order, the segments of the whole run forward over all of it.
pub proof fn law_timeline(parts: Seq<ResultView>, starts: Seq<int>, ends: Seq<int>)
    requires
        parts.len() == starts.len() == ends.len(),
        forall|i: int|
            0 <= i < parts.len() ==> 0 <= (#[trigger] starts[i]) <= ends[i] <= i64::MAX
                && timeline(parts[i].segments, 0, ends[i] - starts[i]),
        forall|i: int, j: int|
            0 <= i < j < parts.len() ==> #[trigger] ends[i] <= #[trigger] starts[j],
    ensures
        timeline(
            stitched(parts, starts).segments,
            0,
            if parts.len() == 0 {
                0
            } else {
                ends.last()
            },
        ),
    decreases parts.len(),
{
    if parts.len() > 0 {
        let n = parts.len() - 1;
        let prest = parts.drop_last();
        let srest = starts.drop_last();
        let erest = ends.drop_last();
        assert forall|i: int| 0 <= i < prest.len() implies 0 <= (#[trigger] srest[i]) <= erest[i]
            <= i64::MAX && timeline(prest[i].segments, 0, erest[i] - srest[i]) by {
            assert(srest[i] == starts[i]);
        }
        assert forall|i: int, j: int| 0 <= i < j < prest.len() implies #[trigger] erest[i]
            <= #[trigger] srest[j] by {
            assert(erest[i] == ends[i] && srest[j] == starts[j]);
        }
        law_timeline(prest, srest, erest);
        let before = stitched(prest, srest).segments;
        let own = parts[n].segments;
        let placed = shifted(own, starts[n]);
        let all = before + placed;
        if n > 0 {
            assert(ends[n - 1] <= starts[n]);
            assert(erest.last() == ends[n - 1]);
        }
        assert(starts[n] <= ends[n]);
        assert(timeline(own, 0, ends[n] - starts[n]));
        assert forall|i: int| 0 <= i < placed.len() implies starts[n] <= (
        #[trigger] placed[i]).start <= placed[i].end <= ends[n] by {
            assert(own[i].start <= own[i].end);
        }
        assert forall|i: int| 0 <= i < all.len() implies 0 <= (#[trigger] all[i]).start
            <= all[i].end <= ends[n] by {
            if i < before.len() {
                assert(all[i] == before[i]);
            } else {
                assert(all[i] == placed[i - before.len()]);
            }
        }
        assert forall|i: int, j: int| 0 <= i < j < all.len() implies (#[trigger] all[i]).end <= (
        #[trigger] all[j]).start by {
            if j < before.len() {
                assert(all[i] == before[i] && all[j] == before[j]);
            } else if i < before.len() {
                assert(all[i] == before[i]);
                assert(all[j] == placed[j - before.len()]);
            } else {
                let a = i - before.len();
                let b = j - before.len();
                assert(all[i] == placed[a] && all[j] == placed[b]);
                assert(own[a].end <= own[b].start);
                assert(own[a].start <= own[a].end && own[b].start <= own[b].end);
            }
        }
    }
}

/// `whole` is the results `parts` put in line: their texts in order, one space apart;
/// their segments in order, each moved by the start of its part; and the language of
/// the first of them that has one.
pub open spec fn in_line(parts: Seq<ResultView>, starts: Seq<int>, whole: ResultView) -> bool {
    &&& whole.text.len() == 0 ==> spaced_texts(parts).len() == 0
    &&& whole.text.len() > 0 ==> spaced_texts(parts) == seq![' '] + whole.text
    &&& whole.segments == Seq::new(
        parts.len(),
        |i: int|
            parts[i].segments.map_values(
                |s: SegmentView|
                    SegmentView {
                        text: s.text,
                        start: as_time(s.start + starts[i]),
                        end: as_time(s.end + starts[i]),
                    },
            ),
    ).flatten()
    &&& forall|k: int|
        0 <= k < parts.len() && (#[trigger] parts[k]).detected_language is Some && (forall|i: int|
            0 <= i < k ==> (#[trigger] parts[i]).detected_language is None)
            ==> whole.detected_language == parts[k].detected_language
    &&& (forall|k: int| 0 <= k < parts.len() ==> (#[trigger] parts[k]).detected_language is None)
        ==> whole.detected_language is None
}

/// Stitching puts the parts in line: see [`in_line`].
pub proof fn law_stitched_in_line(parts: Seq<ResultView>, starts: Seq<int>)
    requires
        parts.len() == starts.len(),
    ensures
        in_line(parts, starts, stitched(parts, starts)),
{
    law_every_text_is_there(parts, starts);
    law_every_segment_is_there(parts, starts);
    assert forall|k: int|
        0 <= k < parts.len() && (#[trigger] parts[k]).detected_language is Some && (forall|i: int|
            0 <= i < k ==> (#[trigger] parts[i]).detected_language is None) implies stitched(
        parts,
        starts,
    ).detected_language == parts[k].detected_language by {
        law_first_language_wins(parts, starts, k);
    }
    if forall|k: int| 0 <= k < parts.len() ==> (#[trigger] parts[k]).detected_language is None {
        law_no_language(parts, starts);
    }
}

/// One more part adds its text at the end, one space after what was there, and its
/// segments at the end, moved by its start; and takes nothing away.
pub proof fn law_one_more_part(parts: Seq<ResultView>, starts: Seq<int>, part: ResultView, at: int)
    requires
        parts.len() == starts.len(),
    ensures
        ({
            let before = stitched(parts, starts);
            let after = stitched(parts.push(part), starts.push(at));
            &&& part.text.len() == 0 ==> after.text == before.text
            &&& before.text.len() == 0 ==> after.text == part.text
            &&& before.text.len() > 0 && part.text.len() > 0 ==> after.text == before.text + seq![
                ' ',
            ] + part.text
            &&& after.segments.len() == before.segments.len() + part.segments.len()
            &&& forall|i: int|
                0 <= i < before.segments.len() ==> #[trigger] after.segments[i]
                    == before.segments[i]
            &&& forall|i: int|
                0 <= i < part.segments.len() ==> {
                    let s = #[trigger] after.segments[before.segments.len() + i];
                    &&& s.text == part.segments[i].text
                    &&& s.start == as_time(part.segments[i].start + at)
                    &&& s.end == as_time(part.segments[i].end + at)
                }
            &&& before.detected_language is Some ==> after.detected_language
                == before.detected_language
            &&& before.detected_language is None ==> after.detected_language
                == part.detected_language
        }),
{
    let before = stitched(parts, starts);
    assert(parts.push(part).drop_last() =~= parts);
    assert(starts.push(at).drop_last() =~= starts);
    assert(before.text.push(' ') + part.text =~= before.text + seq![' '] + part.text);
}

} // verus!
