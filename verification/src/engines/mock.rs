//! In-memory, model-free engine: the trait's test double and reference
//! implementation.

use crate::engines::AsrEngine;
use crate::error::{AsrError, ErrorView};
use crate::monitor::{law_progress_is_delivered, lemma_climbs, Monitor};
use crate::single::Single;
use crate::text::{clone_opt, opt_view};
use crate::types::{
    as_time, empty_result, flag_reads, outcome, segment_views, time_at, EngineCapabilities,
    LanguageSupport, LanguagesView, ResultView, Segment, SegmentView, TranscribeControl,
    TranscribeOptions, TranscriptionResult,
};
use vstd::prelude::*;
use vstd::string::*;

verus! {

/// Returns a canned text for any non-empty audio.
///
/// Lets the caller wire up and test their integration (one-shot, streaming,
/// dispatch) without loading a real model or depending on a native backend.
pub struct MockEngine {
    canned: String,
    caps: EngineCapabilities,
}

/// What the mock returns for `samples` samples: nothing for none, else the canned
/// text as one segment over the whole clip, in the language requested or in
/// English.
pub open spec fn canned_result(
    canned: Seq<char>,
    samples: int,
    language: Option<Seq<char>>,
) -> ResultView {
    if samples == 0 {
        empty_result()
    } else {
        ResultView {
            text: canned,
            detected_language: match language {
                Some(l) => Some(l),
                None => Some("english"@),
            },
            segments: seq![SegmentView { text: canned, start: 0, end: as_time(samples) }],
        }
    }
}

impl MockEngine {
    /// The text that it returns.
    pub closed spec fn text(&self) -> Seq<char> {
        self.canned@
    }

    /// What it says it can do.
    pub closed spec fn declared(&self) -> EngineCapabilities {
        self.caps
    }

    /// Creates a mock that returns `canned` for any non-empty clip.
    pub fn new<S: Into<String>>(canned: S) -> (r: Self)
        ensures
            exists|s: String| #[trigger] call_ensures(S::into, (canned,), s) && r.text() == s@,
            r.declared().name@ == "mock"@,
            r.declared().supports_prompt,
            !r.declared().supports_beam,
            !r.declared().supports_translate,
            !r.declared().supports_internal_vad,
            r.declared().languages@ == LanguagesView::Any,
    {
        MockEngine {
            canned: canned.into(),
            caps: EngineCapabilities {
                name: "mock",
                supports_prompt: true,
                supports_beam: false,
                supports_translate: false,
                supports_internal_vad: false,
                languages: LanguageSupport::Any,
            },
        }
    }

    /// Transcribe `audio` under `monitor`: see [`canned_result`]. A cancellation
    /// comes first, before even an empty clip.
    pub fn transcribe_monitored(
        &self,
        audio: &[Single],
        opts: &TranscribeOptions,
        monitor: &mut Monitor<'_>,
    ) -> (r: Result<TranscriptionResult, AsrError>)
        requires
            old(monitor).fresh(),
        ensures
            final(monitor).ended(*old(monitor), outcome(r)),
            final(monitor).followed(
                if r is Ok {
                    seq![100int]
                } else {
                    Seq::empty()
                },
                1,
            ),
            r matches Ok(t) ==> t@ == canned_result(
                self.text(),
                audio@.len() as int,
                opt_view(opts.language),
            ),
            r matches Err(e) ==> e@ == ErrorView::Cancelled,
    {
        if monitor.cancelled() {
            return Err(AsrError::Cancelled);
        }
        monitor.report(100);
        proof {
            lemma_climbs(Seq::empty(), 100);
        }
        if audio.len() == 0 {
            return Ok(TranscriptionResult::default());
        }
        let detected_language = match clone_opt(&opts.language) {
            Some(language) => Some(language),
            None => Some(String::from("english")),
        };
        let mut segments: Vec<Segment> = Vec::new();
        segments.push(
            Segment { text: self.canned.clone(), start: 0, end: time_at(audio.len()) },
        );
        let result = TranscriptionResult {
            text: self.canned.clone(),
            detected_language,
            segments,
        };
        assert(segment_views(result.segments@) =~= seq![
            SegmentView { text: self.text(), start: 0, end: as_time(audio@.len() as int) },
        ]);
        Ok(result)
    }
}

impl AsrEngine for MockEngine {
    fn transcribe(
        &mut self,
        audio: &[Single],
        opts: &TranscribeOptions,
        control: &TranscribeControl,
    ) -> (r: Result<TranscriptionResult, AsrError>)
        ensures
            *final(self) == *old(self),
            r matches Ok(t) ==> t@ == canned_result(
                old(self).text(),
                audio@.len() as int,
                opt_view(opts.language),
            ),
            r matches Err(e) ==> e@ == ErrorView::Cancelled,
            match control.cancel {
                Some(flag) => flag_reads(&flag, r is Err),
                None => r is Ok,
            },
            r is Ok ==> control.sent(100),
    {
        let mut monitor = Monitor::new(control);
        let ghost before = monitor;
        let r = self.transcribe_monitored(audio, opts, &mut monitor);
        proof {
            if r is Ok {
                law_progress_is_delivered(monitor, before, outcome(r));
            }
        }
        r
    }

    fn capabilities(&self) -> (r: &EngineCapabilities)
        ensures
            *r == self.declared(),
    {
        &self.caps
    }
}

/// What a call of the mock gives: nothing for an empty clip, else its text, in the language
/// asked for or in English, as one segment over the whole clip.
pub proof fn law_mock_says_its_text(
    canned: Seq<char>,
    audio: &[Single],
    opts: &TranscribeOptions,
    control: &TranscribeControl,
    t: TranscriptionResult,
)
    requires
        audio@.len() <= i64::MAX,
        exists|e: &mut MockEngine|
            (*e).text() == canned && #[trigger] call_ensures(
                <MockEngine as AsrEngine>::transcribe,
                (e, audio, opts, control),
                Ok(t),
            ),
    ensures
        audio@.len() == 0 ==> t@.text.len() == 0 && t@.segments.len() == 0
            && t@.detected_language is None,
        audio@.len() > 0 ==> {
            &&& t@.text == canned
            &&& t@.segments.len() == 1
            &&& t@.segments[0].text == canned
            &&& t@.segments[0].start == 0
            &&& t@.segments[0].end == audio@.len()
            &&& opts.language matches Some(l) ==> t@.detected_language == Some(l@)
            &&& opts.language is None ==> t@.detected_language == Some("english"@)
        },
{
}

} // verus!
