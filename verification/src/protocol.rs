//! What holds of every run of the coordinator, whatever the workers and the
//! retry timers do and in whatever order.

use crate::coordinator::{
    completes, drained, inv, poll_shutdown_of, poll_task_of, polled, promotion_due, reduce_round,
    retried, settled, Completion, CoordinatorView,
};
use crate::task::TaskView;
use vstd::prelude::*;

verus! {

/// Whether the coordinator can go from `s` to `t` in one step: a poll, a
/// report of completion, whether it succeeds or stops at a full queue, or a
/// retry timer that fires.
pub open spec fn moves(s: CoordinatorView, t: CoordinatorView) -> bool {
    ||| t == polled(s)
    ||| exists|id: Seq<char>, report: Map<u64, Seq<char>>, c: Completion|
        report.dom().finite() && completes(s, id, report, t, c)
    ||| exists|id: Seq<char>, report: Map<u64, Seq<char>>| #[trigger]
        reports(s, id, report, t)
    ||| exists|id: Seq<char>, fresh: Seq<char>| t == retried(s, id, fresh)
}

/// Whether `t` is `s` with a report taken in and no change of stage.
pub open spec fn reports(
    s: CoordinatorView,
    id: Seq<char>,
    report: Map<u64, Seq<char>>,
    t: CoordinatorView,
) -> bool {
    report.dom().finite() && t == settled(s, id, report)
}

/// Whether each state of `trace` follows from the one before it by one step.
pub open spec fn run(trace: Seq<CoordinatorView>) -> bool {
    forall|i: int| 0 <= i < trace.len() - 1 ==> moves(#[trigger] trace[i], trace[i + 1])
}

/// A poll keeps the coordinator consistent and leaves the stage alone; the
/// task that it hands out is of the stage that is being scheduled, and while
/// that is the reduce stage no map task waits or is leased.
pub proof fn lemma_poll(s: CoordinatorView)
    requires
        inv(s),
    ensures
        inv(polled(s)),
        polled(s).reduce_stage == s.reduce_stage,
        polled(s).signalled == s.signalled,
        poll_task_of(s) matches Some(task) ==> (task.work is ReduceTask) == s.reduce_stage,
        poll_task_of(s) is None ==> polled(s) == s,
{
    if s.pending.len() > 0 {
        let t = polled(s);
        assert forall|i: int| 0 <= i < t.pending.len() implies ((
        #[trigger] t.pending[i]).work is ReduceTask) == t.reduce_stage by {
            assert(t.pending[i] == s.pending[i + 1]);
        }
        assert(s.pending[0].work is ReduceTask == s.reduce_stage);
    }
}

/// Taking a report in keeps the coordinator consistent and leaves the stage
/// alone.
pub proof fn lemma_settled(s: CoordinatorView, id: Seq<char>, report: Map<u64, Seq<char>>)
    requires
        inv(s),
        report.dom().finite(),
    ensures
        inv(settled(s, id, report)),
        settled(s, id, report).reduce_stage == s.reduce_stage,
        settled(s, id, report).signalled == s.signalled,
        settled(s, id, report).pending == s.pending,
        !settled(s, id, report).running.contains_key(id),
{
    let m = settled(s, id, report);
    if s.running.contains_key(id) {
        assert(crate::coordinator::merged(s.reduce_files, report).dom()
            =~= s.reduce_files.dom().union(report.dom()));
        assert(!s.signalled);
    }
}

/// A report of completion keeps the coordinator consistent. The stage never
/// goes back from reduce to map, and it goes forward only when no map task
/// waits or is leased.
pub proof fn lemma_completion(
    s: CoordinatorView,
    id: Seq<char>,
    report: Map<u64, Seq<char>>,
    t: CoordinatorView,
    c: Completion,
)
    requires
        inv(s),
        report.dom().finite(),
        completes(s, id, report, t, c),
    ensures
        inv(t),
        s.reduce_stage ==> t.reduce_stage,
        s.signalled ==> t.signalled,
        t.reduce_stage != s.reduce_stage ==> c.promoted && drained(settled(s, id, report)),
        !t.running.contains_key(id),
{
    lemma_settled(s, id, report);
    let m = settled(s, id, report);
    if promotion_due(m) {
        assert(t.running == m.running);
        assert(t.running.dom().len() == 0);
    }
}

/// A retry timer that fires keeps the coordinator consistent and leaves the
/// stage alone.
pub proof fn lemma_retry(s: CoordinatorView, id: Seq<char>, fresh: Seq<char>)
    requires
        inv(s),
    ensures
        inv(retried(s, id, fresh)),
        retried(s, id, fresh).reduce_stage == s.reduce_stage,
        retried(s, id, fresh).signalled == s.signalled,
        !retried(s, id, fresh).running.contains_key(id),
{
    let t = retried(s, id, fresh);
    if s.running.contains_key(id) {
        assert forall|i: int| 0 <= i < t.pending.len() implies ((
        #[trigger] t.pending[i]).work is ReduceTask) == t.reduce_stage by {
            if i < s.pending.len() {
                assert(t.pending[i] == s.pending[i]);
            }
        }
        assert(!s.signalled);
    }
}

/// A lease that is reported finished before its timer fires has ended for
/// good: the timer then changes nothing, and the task is not queued again.
pub proof fn lemma_completion_beats_timer(
    s: CoordinatorView,
    id: Seq<char>,
    report: Map<u64, Seq<char>>,
    t: CoordinatorView,
    c: Completion,
    fresh: Seq<char>,
)
    requires
        inv(s),
        s.running.contains_key(id),
        completes(s, id, report, t, c),
    ensures
        c.accepted,
        !t.running.contains_key(id),
        retried(t, id, fresh) == t,
{
    let m = settled(s, id, report);
    assert(!m.running.contains_key(id));
}

/// A lease whose timer fires before it is reported finished has ended for
/// good: the task waits again, and the late report is ignored, so that its
/// files are never merged in.
pub proof fn lemma_timer_beats_completion(
    s: CoordinatorView,
    id: Seq<char>,
    fresh: Seq<char>,
    report: Map<u64, Seq<char>>,
    t: CoordinatorView,
    c: Completion,
)
    requires
        inv(s),
        s.running.contains_key(id),
        completes(retried(s, id, fresh), id, report, t, c),
    ensures
        !c.accepted,
        t == retried(s, id, fresh),
        t.reduce_files == s.reduce_files,
        t.pending.len() == s.pending.len() + 1,
        t.pending.last() == (TaskView { id: fresh, work: s.running[id].work }),
{
    let r = retried(s, id, fresh);
    assert(!r.running.contains_key(id));
    assert(settled(r, id, report) == r);
    assert(r.pending.len() > 0);
}

/// A task whose lease runs out waits again, at the tail of the queue and
/// under the identifier that was made for it, and its old identifier is no
/// longer leased.
pub proof fn lemma_timeout_requeues(s: CoordinatorView, id: Seq<char>, fresh: Seq<char>)
    requires
        s.running.contains_key(id),
    ensures
        !retried(s, id, fresh).running.contains_key(id),
        retried(s, id, fresh).pending.len() == s.pending.len() + 1,
        retried(s, id, fresh).pending.last() == (TaskView { id: fresh, work: s.running[id].work }),
        retried(s, id, fresh).pending.take(s.pending.len() as int) == s.pending,
{
}

/// The shutdown signal fires when a report finds the job over for the first
/// time, and at no other time.
pub proof fn lemma_shutdown_fires_once(
    s: CoordinatorView,
    id: Seq<char>,
    report: Map<u64, Seq<char>>,
    t: CoordinatorView,
    c: Completion,
)
    requires
        inv(s),
        report.dom().finite(),
        completes(s, id, report, t, c),
    ensures
        c.shutdown <==> !s.signalled && t.signalled,
        t.signalled <==> s.reduce_stage && drained(settled(s, id, report)),
        s.signalled ==> t == s,
{
    lemma_settled(s, id, report);
    let m = settled(s, id, report);
    if s.signalled {
        assert(!s.running.contains_key(id));
        assert(m == s);
    }
}

/// Once the shutdown signal has fired the job is over for good: no step
/// changes the state, every poll tells the worker to stop, and no report
/// makes the signal fire again.
pub proof fn lemma_after_shutdown(s: CoordinatorView, t: CoordinatorView)
    requires
        inv(s),
        s.signalled,
        moves(s, t),
    ensures
        t == s,
        poll_task_of(t) is None,
        poll_shutdown_of(t),
        forall|id: Seq<char>, report: Map<u64, Seq<char>>, u: CoordinatorView, c: Completion|
            completes(t, id, report, u, c) ==> !c.shutdown,
{
    assert(drained(s) && s.reduce_stage);
    assert forall|id: Seq<char>| !s.running.contains_key(id) by {
        assert(!s.running.dom().contains(id));
    }
    assert(polled(s) == s);
    assert forall|id: Seq<char>, report: Map<u64, Seq<char>>| settled(s, id, report) == s by {}
    assert forall|id: Seq<char>, fresh: Seq<char>| retried(s, id, fresh) == s by {}
    assert forall|id: Seq<char>, report: Map<u64, Seq<char>>, u: CoordinatorView, c: Completion|
        completes(s, id, report, u, c) implies u == s && !c.shutdown by {
        assert(settled(s, id, report) == s);
    }
    if exists|id: Seq<char>, report: Map<u64, Seq<char>>, c: Completion|
        report.dom().finite() && completes(s, id, report, t, c) {
        let (id, report, c) = choose|id: Seq<char>, report: Map<u64, Seq<char>>, c: Completion|
            report.dom().finite() && completes(s, id, report, t, c);
        assert(completes(s, id, report, t, c));
    } else if exists|id: Seq<char>, report: Map<u64, Seq<char>>| #[trigger]
        reports(s, id, report, t) {
        let (id, report) = choose|id: Seq<char>, report: Map<u64, Seq<char>>| #[trigger]
            reports(s, id, report, t);
        assert(settled(s, id, report) == s);
    } else if exists|id: Seq<char>, fresh: Seq<char>| t == retried(s, id, fresh) {
        let (id, fresh) = choose|id: Seq<char>, fresh: Seq<char>| t == retried(s, id, fresh);
        assert(retried(s, id, fresh) == s);
    }
}

/// One step keeps the coordinator consistent, and never takes the stage back
/// from reduce to map nor the shutdown signal back.
pub proof fn lemma_step(s: CoordinatorView, t: CoordinatorView)
    requires
        inv(s),
        moves(s, t),
    ensures
        inv(t),
        s.reduce_stage ==> t.reduce_stage,
        s.signalled ==> t.signalled,
{
    if t == polled(s) {
        lemma_poll(s);
    } else if exists|id: Seq<char>, report: Map<u64, Seq<char>>, c: Completion|
        report.dom().finite() && completes(s, id, report, t, c) {
        let (id, report, c) = choose|id: Seq<char>, report: Map<u64, Seq<char>>, c: Completion|
            report.dom().finite() && completes(s, id, report, t, c);
        lemma_completion(s, id, report, t, c);
    } else if exists|id: Seq<char>, report: Map<u64, Seq<char>>| #[trigger]
        reports(s, id, report, t) {
        let (id, report) = choose|id: Seq<char>, report: Map<u64, Seq<char>>| #[trigger]
            reports(s, id, report, t);
        lemma_settled(s, id, report);
    } else {
        let (id, fresh) = choose|id: Seq<char>, fresh: Seq<char>| t == retried(s, id, fresh);
        lemma_retry(s, id, fresh);
    }
}

/// In every run from a consistent state each state is consistent, and the
/// stage goes from map to reduce at most once: where the reduce stage is on
/// it stays on. Every task that a poll hands out along the run is of the
/// stage that is on at that moment.
pub proof fn lemma_stage_monotone(trace: Seq<CoordinatorView>, i: int, j: int)
    requires
        run(trace),
        0 <= i <= j < trace.len(),
        inv(trace[0]),
    ensures
        inv(trace[i]),
        inv(trace[j]),
        trace[i].reduce_stage ==> trace[j].reduce_stage,
        trace[i].signalled ==> trace[j].signalled,
        poll_task_of(trace[j]) matches Some(task) ==> (task.work is ReduceTask)
            == trace[j].reduce_stage,
    decreases j,
{
    if j > 0 {
        if i < j {
            lemma_stage_monotone(trace, i, j - 1);
        } else {
            lemma_stage_monotone(trace, 0, j - 1);
        }
        lemma_step(trace[j - 1], trace[j]);
    }
    lemma_poll(trace[j]);
}

} // verus!
