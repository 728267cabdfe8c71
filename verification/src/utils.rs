use vstd::prelude::*;

use std::time::Instant;

pub use crate::constants;

verus! {

/// `std::time::Instant`, carried through as an opaque clock reading.
#[verifier::external_type_specification]
#[verifier::external_body]
pub struct ExInstant(Instant);

/// Calls `std::time::Instant::now`. The result is the clock's current reading,
/// which depends on the time of the call, so nothing is claimed of it.
#[verifier::external_body]
fn instant_now() -> Instant {
    Instant::now()
}

/// Frame counter for performance monitoring: counts frames and says when a
/// report of the frame rate is due (every `report_interval` frames).
pub struct FpsCounter {
    start_time: Instant,
    last_report_time: Instant,
    frame_count: u64,
    report_interval: u64,
}

impl FpsCounter {
    /// Number of frames counted so far.
    pub closed spec fn counted(&self) -> u64 {
        self.frame_count
    }

    /// Number of frames between two reports.
    pub closed spec fn interval(&self) -> u64 {
        self.report_interval
    }

    /// Clock reading taken when the counter was created.
    pub closed spec fn started(&self) -> Instant {
        self.start_time
    }

    /// Clock reading that the next frame-rate report measures from: the
    /// previous report, or the counter's creation before the first report.
    pub closed spec fn last_report(&self) -> Instant {
        self.last_report_time
    }

    /// Creates a counter that reports every 60 frames.
    pub fn new() -> (c: Self)
        ensures
            c.counted() == 0,
            c.interval() == 60,
            c.last_report() == c.started(),
    {
        let now = instant_now();
        FpsCounter { start_time: now, last_report_time: now, frame_count: 0, report_interval: 60 }
    }

    /// Creates a counter that reports every `report_interval` frames.
    pub fn with_interval(report_interval: u64) -> (c: Self)
        ensures
            c.counted() == 0,
            c.interval() == report_interval,
            c.last_report() == c.started(),
    {
        let now = instant_now();
        FpsCounter { start_time: now, last_report_time: now, frame_count: 0, report_interval }
    }

    /// Counts one frame at clock reading `now`. When the new count is a
    /// multiple of the report interval, a report is due: returns the clock
    /// reading that the report measures from (the previous report, or the
    /// counter's creation) and times the next report from `now`.
    pub fn record_frame_at(&mut self, now: Instant) -> (report_from: Option<Instant>)
        requires
            old(self).interval() > 0,
            old(self).counted() < u64::MAX,
        ensures
            records_frame(*old(self), *final(self), report_from is Some),
            report_from matches Some(t) ==> t == old(self).last_report(),
            report_from is Some ==> final(self).last_report() == now,
    {
        self.frame_count = self.frame_count + 1;
        if self.frame_count % self.report_interval == 0 {
            let from = self.last_report_time;
            self.last_report_time = now;
            Some(from)
        } else {
            None
        }
    }

    /// Counts one frame at the current clock reading (see `record_frame_at`).
    pub fn record_frame(&mut self) -> (report_from: Option<Instant>)
        requires
            old(self).interval() > 0,
            old(self).counted() < u64::MAX,
        ensures
            records_frame(*old(self), *final(self), report_from is Some),
            report_from matches Some(t) ==> t == old(self).last_report(),
    {
        let now = instant_now();
        self.record_frame_at(now)
    }

    /// Clock reading taken when the counter was created.
    pub fn started_at(&self) -> (t: Instant)
        ensures
            t == self.started(),
    {
        self.start_time
    }

    /// Total number of frames counted.
    pub fn frame_count(&self) -> (n: u64)
        ensures
            n == self.counted(),
    {
        self.frame_count
    }

    /// Number of frames between two reports.
    pub fn report_interval(&self) -> (n: u64)
        ensures
            n == self.interval(),
    {
        self.report_interval
    }
}

/// How one recorded frame changes a counter: the count goes up by one, the
/// interval and the creation reading stay, a report is due exactly when the
/// new count is a multiple of the interval, and without a report the next
/// report still measures from the same reading.
pub open spec fn records_frame(before: FpsCounter, after: FpsCounter, reported: bool) -> bool {
    &&& after.counted() == before.counted() + 1
    &&& after.interval() == before.interval()
    &&& after.started() == before.started()
    &&& (reported <==> after.counted() % after.interval() == 0)
    &&& (!reported ==> after.last_report() == before.last_report())
}

/// Whether `states` is a run of a counter through `reports.len()` recorded
/// frames, `reports[k]` saying whether frame `k + 1` of the run was reported.
pub open spec fn is_frame_run(states: Seq<FpsCounter>, reports: Seq<bool>) -> bool {
    &&& states.len() == reports.len() + 1
    &&& forall|k: int|
        0 <= k < reports.len() ==> #[trigger] records_frame(states[k], states[k + 1], reports[k])
}

/// Over a run of `n` recorded frames the count grows by exactly `n`, the
/// interval and the creation reading never change, and frame `k + 1` of the
/// run is reported exactly when the count it reaches is a multiple of the interval.
pub proof fn lemma_frame_run(states: Seq<FpsCounter>, reports: Seq<bool>)
    requires
        is_frame_run(states, reports),
    ensures
        forall|k: int|
            0 <= k < states.len() ==> {
                &&& #[trigger] states[k].counted() == states[0].counted() + k
                &&& states[k].interval() == states[0].interval()
                &&& states[k].started() == states[0].started()
            },
        forall|k: int|
            0 <= k < reports.len() ==> (#[trigger] reports[k] <==> (states[0].counted() + k + 1)
                % (states[0].interval() as int) == 0),
    decreases reports.len(),
{
    if reports.len() > 0 {
        let n = reports.len() - 1;
        let shorter = states.subrange(0, n + 1);
        let shorter_reports = reports.subrange(0, n);
        assert forall|k: int| 0 <= k < shorter_reports.len() implies #[trigger] records_frame(
            shorter[k],
            shorter[k + 1],
            shorter_reports[k],
        ) by {
            assert(records_frame(states[k], states[k + 1], reports[k]));
        }
        lemma_frame_run(shorter, shorter_reports);
        assert(records_frame(states[n], states[n + 1], reports[n]));
        assert forall|k: int| 0 <= k < states.len() implies {
            &&& #[trigger] states[k].counted() == states[0].counted() + k
            &&& states[k].interval() == states[0].interval()
            &&& states[k].started() == states[0].started()
        } by {
            assert(shorter[0] == states[0]);
            if k <= n {
                assert(shorter[k] == states[k]);
            } else {
                assert(shorter[n] == states[n]);
            }
        }
        assert forall|k: int| 0 <= k < reports.len() implies (#[trigger] reports[k] <==> (
        states[0].counted() + k + 1) % (states[0].interval() as int) == 0) by {
            if k < n {
                assert(shorter_reports[k] == reports[k]);
            } else {
                assert(states[k + 1].counted() == states[0].counted() + k + 1);
            }
        }
    }
}

/// Whether `states` is a run of a counter through `froms.len()` frames
/// recorded with `record_frame_at`: frame `k + 1` is recorded at clock reading
/// `nows[k]` and its report, if one is due, measures from `froms[k]`.
pub open spec fn is_timed_run(states: Seq<FpsCounter>, nows: Seq<Instant>, froms: Seq<Option<Instant>>) -> bool {
    &&& states.len() == froms.len() + 1
    &&& nows.len() == froms.len()
    &&& forall|k: int|
        0 <= k < froms.len() ==> {
            &&& #[trigger] records_frame(states[k], states[k + 1], froms[k] is Some)
            &&& (froms[k] matches Some(t) ==> t == states[k].last_report())
            &&& (froms[k] is Some ==> states[k + 1].last_report() == nows[k])
        }
}

/// Along a timed run, each counter state times its next report from the
/// reading given at the latest report before it, or from the run's start if
/// there was none: reports never measure from anything older.
pub proof fn lemma_timed_run_reference(
    states: Seq<FpsCounter>,
    nows: Seq<Instant>,
    froms: Seq<Option<Instant>>,
    k: int,
)
    requires
        is_timed_run(states, nows, froms),
        0 <= k < states.len(),
    ensures
        (forall|m: int| 0 <= m < k ==> #[trigger] froms[m] is None) ==> states[k].last_report()
            == states[0].last_report(),
        forall|m: int|
            0 <= m < k && #[trigger] froms[m] is Some && (forall|m2: int|
                m < m2 < k ==> #[trigger] froms[m2] is None) ==> states[k].last_report() == nows[m],
    decreases k,
{
    if k > 0 {
        lemma_timed_run_reference(states, nows, froms, k - 1);
        let p = k - 1;
        assert(records_frame(states[p], states[p + 1], froms[p] is Some));
        assert(p + 1 == k);
        assert forall|m: int|
            0 <= m < k && #[trigger] froms[m] is Some && (forall|m2: int|
                m < m2 < k ==> #[trigger] froms[m2] is None) implies states[k].last_report()
            == nows[m] by {
            if m < k - 1 {
                assert(froms[k - 1] is None);
            }
        }
    }
}

/// Along a timed run, a report measures from the reading given at the
/// previous report, or from the run's start for the first report.
pub proof fn lemma_report_measures_from_previous_report(
    states: Seq<FpsCounter>,
    nows: Seq<Instant>,
    froms: Seq<Option<Instant>>,
    k: int,
)
    requires
        is_timed_run(states, nows, froms),
        0 <= k < froms.len(),
        froms[k] is Some,
    ensures
        (forall|m: int| 0 <= m < k ==> #[trigger] froms[m] is None) ==> froms[k] == Some(
            states[0].last_report(),
        ),
        forall|m: int|
            0 <= m < k && #[trigger] froms[m] is Some && (forall|m2: int|
                m < m2 < k ==> #[trigger] froms[m2] is None) ==> froms[k] == Some(nows[m]),
{
    lemma_timed_run_reference(states, nows, froms, k);
    assert(records_frame(states[k], states[k + 1], froms[k] is Some));
}

/// Two runs of the same length from counters with equal counts and equal
/// intervals report on the same frames and end with equal counts: in
/// particular `with_interval(60)` behaves as `new()`.
pub proof fn lemma_same_schedule(
    states_a: Seq<FpsCounter>,
    reports_a: Seq<bool>,
    states_b: Seq<FpsCounter>,
    reports_b: Seq<bool>,
)
    requires
        is_frame_run(states_a, reports_a),
        is_frame_run(states_b, reports_b),
        reports_a.len() == reports_b.len(),
        states_a[0].counted() == states_b[0].counted(),
        states_a[0].interval() == states_b[0].interval(),
    ensures
        reports_a == reports_b,
        forall|k: int|
            0 <= k < states_a.len() ==> #[trigger] states_a[k].counted() == states_b[k].counted(),
{
    lemma_frame_run(states_a, reports_a);
    lemma_frame_run(states_b, reports_b);
    assert forall|k: int| 0 <= k < reports_a.len() implies reports_a[k] == reports_b[k] by {
        assert(reports_a[k] <==> (states_a[0].counted() + k + 1) % (states_a[0].interval() as int) == 0);
        assert(reports_b[k] <==> (states_b[0].counted() + k + 1) % (states_b[0].interval() as int) == 0);
    }
    assert(reports_a =~= reports_b);
    assert forall|k: int| 0 <= k < states_a.len() implies #[trigger] states_a[k].counted()
        == states_b[k].counted() by {
        assert(states_b[k].counted() == states_b[0].counted() + k);
    }
}

impl Default for FpsCounter {
    fn default() -> (c: Self)
        ensures
            c.counted() == 0,
            c.interval() == 60,
            c.last_report() == c.started(),
    {
        Self::new()
    }
}

} // verus!
