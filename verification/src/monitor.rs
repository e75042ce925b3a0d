//! One transcription's side of its [`TranscribeControl`]: where it asks whether
//! to stop, and where its progress goes.

use crate::error::ErrorView;
use crate::types::{at_most_100, ResultView, TranscribeControl};
use vstd::prelude::*;

verus! {

/// Follows one transcription for its [`TranscribeControl`], and keeps, for the
/// contracts alone, what it was told and what it passed on.
pub struct Monitor<'a> {
    control: &'a TranscribeControl,
    reported: Ghost<Seq<int>>,
    asked: Ghost<nat>,
    stopped: Ghost<bool>,
}

/// The percentages never fall and stay in `0..=100`.
pub open spec fn climbing(reported: Seq<int>) -> bool {
    &&& forall|i: int| 0 <= i < reported.len() ==> 0 <= #[trigger] reported[i] <= 100
    &&& forall|i: int, j: int|
        0 <= i <= j < reported.len() ==> #[trigger] reported[i] <= #[trigger] reported[j]
}

/// The last percentage reported, or zero.
pub open spec fn level(reported: Seq<int>) -> int {
    if reported.len() == 0 {
        0
    } else {
        reported.last()
    }
}

impl<'a> Monitor<'a> {
    /// The caller's control.
    pub closed spec fn caller(&self) -> TranscribeControl {
        *self.control
    }

    /// The percentages reported, in order.
    pub closed spec fn reported(&self) -> Seq<int> {
        self.reported@
    }

    /// How often the control was asked whether the caller cancelled.
    pub closed spec fn asked(&self) -> nat {
        self.asked@
    }

    /// Whether the control has answered that the caller cancelled.
    pub closed spec fn stopped(&self) -> bool {
        self.stopped@
    }

    /// Nothing reported, not asked, not stopped.
    pub open spec fn fresh(&self) -> bool {
        self.reported().len() == 0 && self.asked() == 0 && !self.stopped()
    }

    /// Exactly these percentages were reported, in this order, and the control was
    /// asked so often.
    pub open spec fn followed(&self, reported: Seq<int>, asked: int) -> bool {
        self.reported() =~= reported && self.asked() == asked
    }

    /// What is kept is what happened, up to the first time that the control said
    /// that the caller cancelled: it is held to have said so only where asking it
    /// gave `true`, and to have been asked without saying so only where that gave
    /// `false`; and every percentage that counts as reported has reached the
    /// caller's sink.
    pub open spec fn heeded(&self) -> bool {
        &&& self.stopped() ==> self.caller().reads(true)
        &&& self.asked() > (if self.stopped() {
            1int
        } else {
            0
        }) ==> self.caller().reads(false)
        &&& forall|i: int|
            0 <= i < self.reported().len() ==> self.caller().sent(#[trigger] self.reported()[i])
    }

    /// How a transcription leaves its monitor, given how it ended: the progress
    /// climbed, reached the caller's sink and ended at 100 on success, and the
    /// transcription was cancelled exactly when asking the control gave `true`,
    /// never otherwise and never with an `Ok`.
    pub open spec fn ended(&self, before: Monitor<'a>, outcome: Result<ResultView, ErrorView>) -> bool {
        &&& self.caller() == before.caller()
        &&& self.heeded()
        &&& climbing(self.reported())
        &&& outcome is Ok ==> self.reported().len() > 0 && self.reported().last() == 100
        &&& self.stopped() <==> outcome == Err::<ResultView, ErrorView>(ErrorView::Cancelled)
    }

    /// The transcription is under way: the progress climbed so far to no more
    /// than `bound`, and the control has not asked to stop.
    pub open spec fn running(&self, before: Monitor<'a>, bound: int) -> bool {
        &&& self.caller() == before.caller()
        &&& self.heeded()
        &&& climbing(self.reported())
        &&& level(self.reported()) <= bound
        &&& !self.stopped()
    }

    /// A monitor for one transcription.
    pub fn new(control: &'a TranscribeControl) -> (r: Self)
        ensures
            r.caller() == *control,
            r.fresh(),
    {
        Monitor {
            control,
            reported: Ghost(Seq::empty()),
            asked: Ghost(0nat),
            stopped: Ghost(false),
        }
    }

    /// The caller's control.
    pub fn control(&self) -> (r: &'a TranscribeControl)
        ensures
            *r == self.caller(),
    {
        self.control
    }

    /// Report progress to the caller's sink.
    pub fn report(&mut self, pct: u8)
        ensures
            final(self).caller() == old(self).caller(),
            final(self).reported() == old(self).reported().push(at_most_100(pct as int)),
            final(self).asked() == old(self).asked(),
            final(self).stopped() == old(self).stopped(),
            old(self).caller().sent(at_most_100(pct as int)),
            old(self).heeded() ==> final(self).heeded(),
    {
        self.control.report_progress(pct);
        self.reported = Ghost(self.reported@.push(at_most_100(pct as int)));
    }

    /// Ask whether the caller has cancelled.
    pub fn cancelled(&mut self) -> (r: bool)
        ensures
            final(self).caller() == old(self).caller(),
            final(self).reported() == old(self).reported(),
            final(self).asked() == old(self).asked() + 1,
            final(self).stopped() == (old(self).stopped() || r),
            old(self).caller().reads(r),
            old(self).heeded() && !old(self).stopped() ==> final(self).heeded(),
    {
        let ghost was = *self;
        let r = self.control.is_cancelled();
        let ghost times: nat = self.asked@ + 1;
        let ghost told = self.stopped@ || r;
        self.asked = Ghost(times);
        self.stopped = Ghost(told);
        proof {
            assert(self.reported() == was.reported());
            assert(self.caller() == was.caller());
        }
        r
    }
}

/// A requested cancellation is answered with `Cancelled`: a transcription that
/// asked at least once, of a control that can only say that the caller cancelled,
/// ends that way.
pub proof fn law_a_cancellation_is_answered(
    monitor: Monitor<'_>,
    before: Monitor<'_>,
    outcome: Result<ResultView, ErrorView>,
)
    requires
        monitor.ended(before, outcome),
        monitor.asked() > 0,
        !before.caller().reads(false),
    ensures
        outcome == Err::<ResultView, ErrorView>(ErrorView::Cancelled),
{
}

/// Nothing but a requested cancellation is answered with `Cancelled`: under a
/// control that cannot say that the caller cancelled, in particular one without a
/// flag, no transcription ends that way.
pub proof fn law_only_a_cancellation_cancels(
    monitor: Monitor<'_>,
    before: Monitor<'_>,
    outcome: Result<ResultView, ErrorView>,
)
    requires
        monitor.ended(before, outcome),
        !before.caller().reads(true),
    ensures
        outcome != Err::<ResultView, ErrorView>(ErrorView::Cancelled),
{
}

/// On success 100 has reached the caller's sink, and so has all that was reported
/// before it.
pub proof fn law_progress_is_delivered(
    monitor: Monitor<'_>,
    before: Monitor<'_>,
    outcome: Result<ResultView, ErrorView>,
)
    requires
        monitor.ended(before, outcome),
        outcome is Ok,
    ensures
        before.caller().sent(100),
        forall|i: int|
            0 <= i < monitor.reported().len() ==> before.caller().sent(
                #[trigger] monitor.reported()[i],
            ),
{
    let last = monitor.reported().len() - 1;
    assert(monitor.caller().sent(monitor.reported()[last]));
}

/// The share of `total` that is done grows with what is done, from 0 at the start
/// to 100 at the end.
pub(crate) proof fn lemma_share(before: int, after: int, total: int)
    requires
        0 <= before <= after <= total,
        0 < total,
    ensures
        0 <= before * 100 / total <= after * 100 / total <= 100,
        0int * 100 / total == 0,
        total * 100 / total == 100,
{
    vstd::arithmetic::div_mod::lemma_div_is_ordered(before * 100, after * 100, total);
    vstd::arithmetic::div_mod::lemma_div_is_ordered(after * 100, total * 100, total);
    vstd::arithmetic::div_mod::lemma_div_multiples_vanish(100, total);
    vstd::arithmetic::div_mod::lemma_div_pos_is_pos(before * 100, total);
    vstd::arithmetic::div_mod::lemma_div_basics(total);
    assert(total * 100 == 100 * total) by (nonlinear_arith);
}

/// Reporting a percentage that is not below the last one keeps the progress
/// climbing.
pub(crate) proof fn lemma_climbs(reported: Seq<int>, pct: int)
    requires
        climbing(reported),
        level(reported) <= pct <= 100,
        0 <= pct,
    ensures
        climbing(reported.push(pct)),
        level(reported.push(pct)) == pct,
{
    let after = reported.push(pct);
    assert forall|i: int, j: int| 0 <= i <= j < after.len() implies #[trigger] after[i]
        <= #[trigger] after[j] by {
        if j == reported.len() && i < reported.len() {
            assert(reported[i] <= reported[reported.len() - 1]);
        }
    }
}

} // verus!
