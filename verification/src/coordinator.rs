//! The coordinator: a queue of pending tasks, a table of leases, the
//! intermediate files reported so far, and the stage that is being scheduled.
//!
//! Every handler takes the coordinator by `&mut`, so a server that shares one
//! coordinator among its connections and timers runs them one at a time.

use crate::ident::{fresh_id, is_uuid_text};
use crate::queue::{
    queue_is_empty, queue_len, queue_new, queue_pop, queue_push, room, waiting,
};
use crate::table::{
    bucket_files, buckets_add, buckets_list, buckets_new, leased, leases_insert, leases_is_empty,
    leases_len, leases_new, leases_remove, lists, no_files, no_leases, with_file, Bucket,
};
use crate::task::{copy_strings, Inner, MapTask, ReduceTask, Task, TaskView, Work};
use crate::text::texts;
use crossbeam_queue::ArrayQueue;
use dashmap::DashMap;
use std::collections::HashMap;
use vstd::prelude::*;
use vstd::std_specs::iter::IteratorSpec;

verus! {

broadcast use vstd::std_specs::hash::group_hash_axioms;

/// The address at which the coordinator listens unless told otherwise.
pub const ADDR: &'static str = "[::1]:56789";

/// The number of reduce buckets unless told otherwise.
pub const N_REDUCE: u64 = 10;

/// How long a lease may be held, in seconds, before its task is handed out
/// again.
pub const LEASE_SECS: u64 = 10;

/// The spare room in the pending queue, beyond one slot for each pair of an
/// input file and a bucket.
pub const SLACK: usize = 5;

/// What the coordinator is started with.
#[derive(Debug)]
pub struct Cli {
    pub listen: String,
    pub n_reduce: u64,
    pub input_files: Vec<String>,
}

impl Cli {
    /// What a coordinator is started with when only the input files are
    /// named: the usual address and the usual number of buckets.
    pub fn with_defaults(input_files: Vec<String>) -> (cli: Cli)
        ensures
            cli.listen@ == ADDR@,
            cli.n_reduce == N_REDUCE,
            cli.input_files == input_files,
    {
        Cli { listen: ADDR.to_owned(), n_reduce: N_REDUCE, input_files }
    }
}

/// Why a coordinator could not be set up, or could not go on.
#[derive(Clone, Copy, Debug, PartialEq, Eq, Structural)]
pub enum CoordinatorError {
    /// The pending queue would need more slots than a queue can have.
    TooLarge,
    /// The pending queue cannot hold the tasks of the stage that begins.
    QueueFull,
}

/// The answer to a poll.
#[derive(Debug)]
pub struct PollTaskReply {
    pub task: Option<Task>,
    pub shutdown: bool,
}

/// A worker's report that it has finished a task.
#[derive(Debug)]
pub struct CompleteTaskRequest {
    pub task: Task,
    pub reduce_files: HashMap<u64, String>,
}

/// What a report of completion did.
#[derive(Clone, Copy, Debug, PartialEq, Eq, Structural)]
pub struct Completion {
    /// The report ended a lease; its retry timer is to be cancelled.
    pub accepted: bool,
    /// The map stage was over and the reduce stage began.
    pub promoted: bool,
    /// The whole job was over and the shutdown signal fires, now and never
    /// again.
    pub shutdown: bool,
}

/// The coordinator's state as plain values.
pub struct CoordinatorView {
    /// The tasks that wait for a worker, the next to be leased first.
    pub pending: Seq<TaskView>,
    /// The leases, by task identifier.
    pub running: Map<Seq<char>, TaskView>,
    /// The intermediate files reported so far, by bucket.
    pub reduce_files: Map<u64, Seq<Seq<char>>>,
    /// Whether reduce tasks are being scheduled.
    pub reduce_stage: bool,
    /// Whether the shutdown signal has fired.
    pub signalled: bool,
    /// The number of tasks that the pending queue can hold.
    pub room: nat,
}

/// The coordinator.
pub struct Coordinator {
    cli: Cli,
    signalled: bool,
    reduce_stage: bool,
    capacity: usize,
    pending_tasks: ArrayQueue<Task>,
    running_tasks: DashMap<String, Task>,
    reduce_files: DashMap<u64, Vec<String>>,
}

/// Whether no task waits and none is leased.
pub open spec fn drained(s: CoordinatorView) -> bool {
    s.pending.len() == 0 && s.running.dom() =~= Set::<Seq<char>>::empty()
}

/// What holds of every state that a coordinator reaches: the tasks that wait
/// and the leased ones fit the queue together, each lease is filed under its
/// own identifier, every task is of the stage that is being scheduled, and
/// the shutdown signal fires in the reduce stage only.
pub open spec fn inv(s: CoordinatorView) -> bool {
    &&& s.running.dom().finite()
    &&& s.reduce_files.dom().finite()
    &&& s.pending.len() + s.running.dom().len() <= s.room
    &&& forall|i: int|
        0 <= i < s.pending.len() ==> ((#[trigger] s.pending[i]).work is ReduceTask)
            == s.reduce_stage
    &&& forall|k: Seq<char>| #[trigger]
        s.running.contains_key(k) ==> (s.running[k].work is ReduceTask) == s.reduce_stage
            && s.running[k].id == k
    &&& s.signalled ==> s.reduce_stage && drained(s)
}

/// The state after a poll: the task at the head of the queue, if there is
/// one, is leased under its identifier.
pub open spec fn polled(s: CoordinatorView) -> CoordinatorView {
    if s.pending.len() > 0 {
        CoordinatorView {
            pending: s.pending.skip(1),
            running: s.running.insert(s.pending[0].id, s.pending[0]),
            ..s
        }
    } else {
        s
    }
}

/// The task that a poll hands out, if any.
pub open spec fn poll_task_of(s: CoordinatorView) -> Option<TaskView> {
    if s.pending.len() > 0 {
        Some(s.pending[0])
    } else {
        None
    }
}

/// Whether a poll tells the worker to stop: nothing waits, nothing is
/// leased, and the reduce stage is on.
pub open spec fn poll_shutdown_of(s: CoordinatorView) -> bool {
    s.reduce_stage && drained(s)
}

/// The files by bucket once a map task's report is merged in: each reported
/// file is added at the end of its bucket's list.
pub open spec fn merged(
    table: Map<u64, Seq<Seq<char>>>,
    report: Map<u64, Seq<char>>,
) -> Map<u64, Seq<Seq<char>>> {
    Map::new(
        |b: u64| table.contains_key(b) || report.contains_key(b),
        |b: u64|
            if report.contains_key(b) {
                with_file(table, b, report[b])[b]
            } else {
                table[b]
            },
    )
}

/// The state once a report about the task `id` is taken in, before any
/// change of stage. A report about a task that is not leased changes
/// nothing; one about a leased task ends the lease, and if that task is a map
/// task its files are merged in.
pub open spec fn settled(
    s: CoordinatorView,
    id: Seq<char>,
    report: Map<u64, Seq<char>>,
) -> CoordinatorView {
    if s.running.contains_key(id) {
        CoordinatorView {
            running: s.running.remove(id),
            reduce_files: if s.running[id].work is MapTask {
                merged(s.reduce_files, report)
            } else {
                s.reduce_files
            },
            ..s
        }
    } else {
        s
    }
}

/// Whether `pending` holds exactly one reduce task for each bucket of
/// `table`, with that bucket's files, each under an identifier of its own
/// making. The order of the tasks is not fixed.
pub open spec fn reduce_round(pending: Seq<TaskView>, table: Map<u64, Seq<Seq<char>>>) -> bool {
    &&& pending.len() == table.dom().len()
    &&& forall|i: int|
        0 <= i < pending.len() ==> {
            &&& is_uuid_text((#[trigger] pending[i]).id)
            &&& pending[i].work is ReduceTask
            &&& table.contains_key(pending[i].work->ReduceTask_index)
            &&& pending[i].work->ReduceTask_files == table[pending[i].work->ReduceTask_index]
        }
    &&& forall|i: int, j: int|
        0 <= i < j < pending.len() ==> (#[trigger] pending[i]).work->ReduceTask_index != (
        #[trigger] pending[j]).work->ReduceTask_index
    &&& forall|b: u64|
        table.contains_key(b) ==> exists|i: int|
            0 <= i < pending.len() && (#[trigger] pending[i]).work->ReduceTask_index == b
}

/// Whether the reduce stage is due in `m`, a state in which a report has
/// just been taken in.
pub open spec fn promotion_due(m: CoordinatorView) -> bool {
    drained(m) && !m.reduce_stage
}

/// Whether a report about the task `id` may take the state `s` to `t` with
/// the outcome `c`. The report is taken in; then, if nothing waits and
/// nothing is leased, the map stage gives way to the reduce stage, or the
/// reduce stage to the end of the job, where the shutdown signal fires
/// unless it has fired before.
pub open spec fn completes(
    s: CoordinatorView,
    id: Seq<char>,
    report: Map<u64, Seq<char>>,
    t: CoordinatorView,
    c: Completion,
) -> bool {
    let m = settled(s, id, report);
    &&& c.accepted == s.running.contains_key(id)
    &&& if promotion_due(m) {
        &&& c.promoted
        &&& !c.shutdown
        &&& m.reduce_files.dom().len() <= m.room
        &&& t == CoordinatorView { pending: t.pending, reduce_stage: true, ..m }
        &&& reduce_round(t.pending, m.reduce_files)
    } else if drained(m) {
        &&& !c.promoted
        &&& c.shutdown == !m.signalled
        &&& t == CoordinatorView { signalled: true, ..m }
    } else {
        &&& !c.promoted
        &&& !c.shutdown
        &&& t == m
    }
}

/// The state after the retry timer of the lease `id` fires: if the task is
/// still leased, the lease ends and the task waits again, at the tail of the
/// queue and under the identifier `fresh`; otherwise nothing changes.
pub open spec fn retried(s: CoordinatorView, id: Seq<char>, fresh: Seq<char>) -> CoordinatorView {
    if s.running.contains_key(id) {
        CoordinatorView {
            pending: s.pending.push(TaskView { id: fresh, work: s.running[id].work }),
            running: s.running.remove(id),
            ..s
        }
    } else {
        s
    }
}

/// The number of slots of the pending queue for `files` input files and
/// `n_reduce` buckets.
pub open spec fn capacity_for(files: nat, n_reduce: u64) -> nat {
    files * (n_reduce as nat) + (SLACK as nat)
}

/// Whether `s` is the state in which a coordinator starts on `files`: one
/// map task per file waits, in the order of the files, each under an
/// identifier of its own making; nothing is leased and nothing reported.
pub open spec fn started(s: CoordinatorView, files: Seq<Seq<char>>, n_reduce: u64) -> bool {
    &&& s.pending.len() == files.len()
    &&& forall|i: int|
        0 <= i < files.len() ==> is_uuid_text((#[trigger] s.pending[i]).id) && s.pending[i].work
            == (Work::MapTask { index: i as u64, files: seq![files[i]], n_reduce })
    &&& s.running == no_leases()
    &&& s.reduce_files == no_files()
    &&& !s.reduce_stage
    &&& !s.signalled
    &&& s.room == capacity_for(files.len(), n_reduce)
}

/// The views of a report's files.
pub open spec fn report_view(m: Map<u64, String>) -> Map<u64, Seq<char>> {
    m.map_values(|s: String| s@)
}

/// The files by bucket once the entries are added one after the other.
spec fn absorbed(
    table: Map<u64, Seq<Seq<char>>>,
    entries: Seq<(u64, Seq<char>)>,
) -> Map<u64, Seq<Seq<char>>>
    decreases entries.len(),
{
    if entries.len() == 0 {
        table
    } else {
        with_file(absorbed(table, entries.drop_last()), entries.last().0, entries.last().1)
    }
}

/// Whether `entries` names each bucket of `report` once, with its file.
spec fn enumerates(entries: Seq<(u64, Seq<char>)>, report: Map<u64, Seq<char>>) -> bool {
    &&& forall|i: int|
        0 <= i < entries.len() ==> report.contains_key((#[trigger] entries[i]).0) && report[entries[i].0]
            == entries[i].1
    &&& forall|i: int, j: int|
        0 <= i < j < entries.len() ==> (#[trigger] entries[i]).0 != (#[trigger] entries[j]).0
    &&& forall|b: u64|
        report.contains_key(b) ==> exists|i: int|
            0 <= i < entries.len() && (#[trigger] entries[i]).0 == b
}

/// Whether one of the first `n` entries is for bucket `b`.
spec fn among(entries: Seq<(u64, Seq<char>)>, n: int, b: u64) -> bool {
    exists|j: int| 0 <= j < n && (#[trigger] entries[j]).0 == b
}

proof fn lemma_absorbed_prefix(
    table: Map<u64, Seq<Seq<char>>>,
    entries: Seq<(u64, Seq<char>)>,
    n: int,
)
    requires
        0 <= n <= entries.len(),
        forall|i: int, j: int|
            0 <= i < j < entries.len() ==> (#[trigger] entries[i]).0 != (#[trigger] entries[j]).0,
    ensures
        forall|b: u64|
            absorbed(table, entries.take(n)).contains_key(b) <==> table.contains_key(b) || among(
                entries,
                n,
                b,
            ),
        forall|b: u64|
            !among(entries, n, b) && table.contains_key(b) ==> absorbed(table, entries.take(n))[b]
                == table[b],
        forall|j: int|
            0 <= j < n ==> absorbed(table, entries.take(n))[(#[trigger] entries[j]).0]
                == with_file(table, entries[j].0, entries[j].1)[entries[j].0],
    decreases n,
{
    if n > 0 {
        lemma_absorbed_prefix(table, entries, n - 1);
        let now = entries.take(n);
        let before = entries.take(n - 1);
        let e = entries[n - 1];
        assert(now.drop_last() == before);
        assert(now.last() == e);
        let a0 = absorbed(table, before);
        let a1 = absorbed(table, now);
        assert(a1 == with_file(a0, e.0, e.1));
        assert(!among(entries, n - 1, e.0)) by {
            if among(entries, n - 1, e.0) {
                let j = choose|j: int| 0 <= j < n - 1 && (#[trigger] entries[j]).0 == e.0;
                assert(entries[j].0 != entries[n - 1].0);
            }
        }
        assert forall|b: u64| among(entries, n, b) <==> among(entries, n - 1, b) || b
            == e.0 by {
            if among(entries, n, b) {
                let j = choose|j: int| 0 <= j < n && (#[trigger] entries[j]).0 == b;
                if j < n - 1 {
                    assert(among(entries, n - 1, b));
                }
            }
            if among(entries, n - 1, b) {
                let j = choose|j: int| 0 <= j < n - 1 && (#[trigger] entries[j]).0 == b;
                assert(0 <= j < n && entries[j].0 == b);
            }
            if b == e.0 {
                assert(0 <= n - 1 < n && entries[n - 1].0 == b);
            }
        }
        assert forall|j: int| 0 <= j < n implies a1[(#[trigger] entries[j]).0] == with_file(
            table,
            entries[j].0,
            entries[j].1,
        )[entries[j].0] by {
            if j < n - 1 {
                assert(entries[j].0 != entries[n - 1].0);
            } else {
                if table.contains_key(e.0) {
                    assert(a0[e.0] == table[e.0]);
                } else {
                    assert(!a0.contains_key(e.0));
                }
            }
        }
    } else {
        assert(entries.take(0) =~= Seq::<(u64, Seq<char>)>::empty());
    }
}

/// Adding the files of a report one after the other, in whatever order its
/// buckets are named, gives what the report merged in gives.
proof fn lemma_absorbed_is_merged(
    table: Map<u64, Seq<Seq<char>>>,
    entries: Seq<(u64, Seq<char>)>,
    report: Map<u64, Seq<char>>,
)
    requires
        enumerates(entries, report),
    ensures
        absorbed(table, entries) == merged(table, report),
{
    let n = entries.len() as int;
    lemma_absorbed_prefix(table, entries, n);
    assert(entries.take(n) == entries);
    let a = absorbed(table, entries);
    let m = merged(table, report);
    assert forall|b: u64| among(entries, n, b) <==> report.contains_key(b) by {
        if among(entries, n, b) {
            let j = choose|j: int| 0 <= j < n && (#[trigger] entries[j]).0 == b;
            assert(report.contains_key(entries[j].0));
        }
    }
    assert forall|b: u64| a.contains_key(b) implies a[b] == m[b] by {
        if report.contains_key(b) {
            let j = choose|j: int| 0 <= j < n && (#[trigger] entries[j]).0 == b;
            assert(a[entries[j].0] == with_file(table, entries[j].0, entries[j].1)[entries[j].0]);
        }
    }
    assert(a =~= m);
}

/// The entries of a report as plain values.
spec fn plain(all: Seq<(&u64, &String)>) -> Seq<(u64, Seq<char>)> {
    all.map_values(|e: (&u64, &String)| (*e.0, e.1@))
}

/// Merges a report into the table of intermediate files.
fn absorb(table: &mut DashMap<u64, Vec<String>>, report: &HashMap<u64, String>)
    ensures
        bucket_files(*final(table)) == merged(bucket_files(*old(table)), report_view(report@)),
{
    let entries = report.iter();
    let ghost all = entries.remaining();
    proof {
        assert(plain(all).take(0) =~= Seq::<(u64, Seq<char>)>::empty());
    }
    for entry in it: entries
        invariant
            it.seq() == all,
            bucket_files(*table) == absorbed(bucket_files(*old(table)), plain(all).take(it.index())),
    {
        let ghost done = it.index();
        buckets_add(table, *entry.0, entry.1.clone());
        proof {
            let now = plain(all).take(done + 1);
            assert(now.drop_last() == plain(all).take(done));
            assert(now.last() == (*entry.0, entry.1@));
        }
    }
    proof {
        assert(plain(all).take(all.len() as int) == plain(all));
    }
    proof {
        let entries = plain(all);
        let r = report_view(report@);
        assert(enumerates(entries, r)) by {
            assert forall|i: int| 0 <= i < entries.len() implies r.contains_key(
                (#[trigger] entries[i]).0,
            ) && r[entries[i].0] == entries[i].1 by {
                assert(report@.contains_key(*all[i].0));
            }
            assert forall|i: int, j: int| 0 <= i < j < entries.len() implies (
            #[trigger] entries[i]).0 != (#[trigger] entries[j]).0 by {
                if entries[i].0 == entries[j].0 {
                    assert(report@.contains_key(*all[i].0));
                    assert(report@.contains_key(*all[j].0));
                    assert(all[i] == all[j]);
                }
            }
            assert forall|b: u64| r.contains_key(b) implies exists|i: int|
                0 <= i < entries.len() && (#[trigger] entries[i]).0 == b by {
                assert(report@.contains_key(b));
                assert(all.contains((&b, &report@[b])));
                let i = choose|i: int| 0 <= i < all.len() && all[i] == (&b, &report@[b]);
                assert(entries[i].0 == b);
            }
        }
        lemma_absorbed_is_merged(bucket_files(*old(table)), entries, r);
    }
}

impl View for Coordinator {
    type V = CoordinatorView;

    closed spec fn view(&self) -> CoordinatorView {
        CoordinatorView {
            pending: waiting(self.pending_tasks),
            running: leased(self.running_tasks),
            reduce_files: bucket_files(self.reduce_files),
            reduce_stage: self.reduce_stage,
            signalled: self.signalled,
            room: room(self.pending_tasks),
        }
    }
}

impl Coordinator {
    /// Whether the coordinator is in a state that it can have reached. The
    /// constructor establishes this and every method keeps it.
    pub closed spec fn wf(&self) -> bool {
        &&& inv(self@)
        &&& room(self.pending_tasks) == self.capacity
    }

    /// A coordinator in a state that it can have reached has the properties
    /// of every such state.
    pub proof fn lemma_wf(&self)
        requires
            self.wf(),
        ensures
            inv(self@),
    {
    }

    /// Sets up a coordinator with one map task for each input file, in the
    /// order of the files. The pending queue gets a slot for each pair of an
    /// input file and a bucket, and a few more.
    pub fn new(cli: Cli) -> (r: Result<Coordinator, CoordinatorError>)
        ensures
            r is Ok <==> cli.input_files.len() <= capacity_for(
                cli.input_files.len() as nat,
                cli.n_reduce,
            ) <= isize::MAX,
            r matches Ok(c) ==> c.wf() && started(c@, texts(cli.input_files@), cli.n_reduce),
            r matches Err(e) ==> (e == CoordinatorError::TooLarge) == (capacity_for(
                cli.input_files.len() as nat,
                cli.n_reduce,
            ) > isize::MAX),
    {
        let files = cli.input_files.len();
        let ghost cap = capacity_for(files as nat, cli.n_reduce);
        assert(files * cli.n_reduce <= 0xffff_ffff_ffff_ffff * 0xffff_ffff_ffff_ffff)
            by (nonlinear_arith)
            requires
                0 <= files <= 0xffff_ffff_ffff_ffff,
                0 <= cli.n_reduce <= 0xffff_ffff_ffff_ffff,
        ;
        let wide: u128 = (files as u128) * (cli.n_reduce as u128) + (SLACK as u128);
        assert(wide == cap);
        if wide > isize::MAX as u128 {
            return Err(CoordinatorError::TooLarge);
        }
        let capacity = wide as usize;
        if files > capacity {
            return Err(CoordinatorError::QueueFull);
        }
        let mut this = Coordinator {
            cli,
            signalled: false,
            reduce_stage: false,
            capacity,
            pending_tasks: queue_new(capacity),
            running_tasks: leases_new(),
            reduce_files: buckets_new(),
        };
        this.init_map();
        Ok(this)
    }

    /// Queues one map task for each input file.
    fn init_map(&mut self)
        requires
            old(self).wf(),
            old(self)@.pending.len() == 0,
            old(self)@.running == no_leases(),
            old(self)@.reduce_files == no_files(),
            !old(self)@.reduce_stage,
            !old(self)@.signalled,
            old(self).cli.input_files.len() <= old(self)@.room,
        ensures
            final(self).wf(),
            final(self).cli == old(self).cli,
            final(self)@.room == old(self)@.room,
            started(
                CoordinatorView { room: capacity_for(
                    old(self).cli.input_files.len() as nat,
                    old(self).cli.n_reduce,
                ), ..final(self)@ },
                texts(old(self).cli.input_files@),
                old(self).cli.n_reduce,
            ),
    {
        let mut i: usize = 0;
        while i < self.cli.input_files.len()
            invariant
                self.wf(),
                self.cli == old(self).cli,
                i <= self.cli.input_files.len() <= self@.room,
                self@.room == old(self)@.room,
                self@.pending.len() == i,
                self@.running == no_leases(),
                self@.reduce_files == no_files(),
                !self@.reduce_stage,
                !self@.signalled,
                forall|j: int|
                    0 <= j < i ==> is_uuid_text((#[trigger] self@.pending[j]).id)
                        && self@.pending[j].work == (Work::MapTask {
                        index: j as u64,
                        files: seq![self.cli.input_files@[j]@],
                        n_reduce: self.cli.n_reduce,
                    }),
            decreases self.cli.input_files.len() - i,
        {
            let mut files: Vec<String> = Vec::new();
            files.push(self.cli.input_files[i].clone());
            assert(texts(files@) == seq![self.cli.input_files@[i as int]@]);
            let task = Task {
                id: fresh_id(),
                inner: Inner::MapTask(
                    MapTask { index: i as u64, files, n_reduce: self.cli.n_reduce },
                ),
            };
            let pushed = queue_push(&mut self.pending_tasks, task);
            assert(pushed is Ok);
            i += 1;
        }
    }

    /// Begins the reduce stage: queues one reduce task for each bucket that
    /// has files, with the files of that bucket, unless the buckets
    /// outnumber the slots of the queue.
    fn init_reduce(&mut self) -> (r: Result<(), CoordinatorError>)
        requires
            old(self).wf(),
            promotion_due(old(self)@),
        ensures
            final(self).wf(),
            r is Ok <==> old(self)@.reduce_files.dom().len() <= old(self)@.room,
            r is Ok ==> final(self)@ == (CoordinatorView {
                pending: final(self)@.pending,
                reduce_stage: true,
                ..old(self)@
            }) && reduce_round(final(self)@.pending, old(self)@.reduce_files),
            r is Err ==> r->Err_0 == CoordinatorError::QueueFull && final(self)@ == old(self)@,
    {
        let list = buckets_list(&self.reduce_files);
        if list.len() > self.capacity {
            return Err(CoordinatorError::QueueFull);
        }
        self.reduce_stage = true;
        assert(self@.running.dom().len() == 0);
        let mut i: usize = 0;
        while i < list.len()
            invariant
                self.wf(),
                i <= list.len() <= self@.room,
                lists(list@, self@.reduce_files),
                self@ == (CoordinatorView {
                    pending: self@.pending,
                    reduce_stage: true,
                    ..old(self)@
                }),
                self@.running.dom() =~= Set::<Seq<char>>::empty(),
                !self@.signalled,
                self@.pending.len() == i,
                forall|j: int|
                    0 <= j < i ==> is_uuid_text((#[trigger] self@.pending[j]).id)
                        && self@.pending[j].work == (Work::ReduceTask {
                        index: list@[j].index,
                        files: texts(list@[j].files@),
                    }),
            decreases list.len() - i,
        {
            let task = Task {
                id: fresh_id(),
                inner: Inner::ReduceTask(
                    ReduceTask { index: list[i].index, files: copy_strings(&list[i].files) },
                ),
            };
            let pushed = queue_push(&mut self.pending_tasks, task);
            assert(pushed is Ok);
            i += 1;
        }
        proof {
            let pending = self@.pending;
            let table = old(self)@.reduce_files;
            assert forall|b: u64| table.contains_key(b) implies exists|k: int|
                0 <= k < pending.len() && (#[trigger] pending[k]).work->ReduceTask_index == b by {
                let k = choose|k: int| 0 <= k < list@.len() && (#[trigger] list@[k]).index == b;
                assert(pending[k].work->ReduceTask_index == b);
            }
            assert forall|j: int, k: int| 0 <= j < k < pending.len() implies (
            #[trigger] pending[j]).work->ReduceTask_index != (
            #[trigger] pending[k]).work->ReduceTask_index by {
                assert(list@[j].index != list@[k].index);
            }
            assert forall|j: int| 0 <= j < pending.len() implies table.contains_key(
                (#[trigger] pending[j]).work->ReduceTask_index,
            ) && pending[j].work->ReduceTask_files == table[pending[j].work->ReduceTask_index] by {
                assert(table.contains_key(list@[j].index));
            }
        }
        Ok(())
    }

    /// Fires the shutdown signal if it has not fired before, and tells
    /// whether it did.
    fn shutdown(&mut self) -> (first: bool)
        requires
            old(self).wf(),
            old(self)@.reduce_stage,
            drained(old(self)@),
        ensures
            final(self).wf(),
            first == !old(self)@.signalled,
            final(self)@ == (CoordinatorView { signalled: true, ..old(self)@ }),
    {
        let first = !self.signalled;
        self.signalled = true;
        first
    }

    /// Takes in a worker's report that it has finished a task. A report
    /// about a task that is not leased, because its lease ran out or it never
    /// had one, is ignored. Otherwise the lease ends, the caller cancels its
    /// retry timer, and the files of a map task are merged in. Then, if
    /// nothing waits and nothing is leased, the reduce stage begins, or, in
    /// the reduce stage, the job is over. The one error is that the reduce
    /// stage is due and has more buckets than the queue has slots; the report
    /// is then taken in and the stage stays as it was.
    pub fn complete_task(&mut self, request: CompleteTaskRequest) -> (r: Result<
        Completion,
        CoordinatorError,
    >)
        requires
            old(self).wf(),
        ensures
            final(self).wf(),
            r is Err <==> promotion_due(
                settled(old(self)@, request.task@.id, report_view(request.reduce_files@)),
            ) && settled(
                old(self)@,
                request.task@.id,
                report_view(request.reduce_files@),
            ).reduce_files.dom().len() > old(self)@.room,
            r is Ok ==> completes(
                old(self)@,
                request.task@.id,
                report_view(request.reduce_files@),
                final(self)@,
                r->Ok_0,
            ),
            r is Err ==> r->Err_0 == CoordinatorError::QueueFull && final(self)@ == settled(
                old(self)@,
                request.task@.id,
                report_view(request.reduce_files@),
            ),
    {
        let CompleteTaskRequest { task, reduce_files } = request;
        let ghost before = self@;
        let ghost settled_state = settled(before, task@.id, report_view(reduce_files@));
        let found = leases_remove(&mut self.running_tasks, task.id.as_str());
        let accepted = found.is_some();
        match found {
            Some(lease) => {
                if lease.is_map() {
                    absorb(&mut self.reduce_files, &reduce_files);
                }
            },
            None => {
                assert(before.running.remove(task@.id) =~= before.running);
            },
        }
        assert(self@ == settled_state);
        assert(self.wf()) by {
            let now = self@;
            assert(merged(before.reduce_files, report_view(reduce_files@)).dom()
                =~= before.reduce_files.dom().union(report_view(reduce_files@).dom()));
            assert(report_view(reduce_files@).dom() =~= reduce_files@.dom());
            assert(now.reduce_files.dom().finite());
            assert(now.running.dom().finite());
            assert(now.pending.len() + now.running.dom().len() <= now.room);
            assert(now.signalled ==> now.reduce_stage && drained(now));
            assert(inv(now));
        }
        if queue_is_empty(&self.pending_tasks) && leases_is_empty(&self.running_tasks) {
            if !self.reduce_stage {
                match self.init_reduce() {
                    Ok(()) => Ok(Completion { accepted, promoted: true, shutdown: false }),
                    Err(e) => Err(e),
                }
            } else {
                let first = self.shutdown();
                Ok(Completion { accepted, promoted: false, shutdown: first })
            }
        } else {
            Ok(Completion { accepted, promoted: false, shutdown: false })
        }
    }

    /// What the retry timer of the lease `id` does when it fires. If the
    /// task is still leased it is presumed lost: the lease ends and the task
    /// waits again, under a fresh identifier, which is returned. If the task
    /// was reported finished in the meantime, nothing happens.
    pub fn retry(&mut self, id: &str) -> (fresh: Option<String>)
        requires
            old(self).wf(),
        ensures
            final(self).wf(),
            fresh is Some <==> old(self)@.running.contains_key(id@),
            fresh is Some ==> is_uuid_text(fresh->0@) && final(self)@ == retried(
                old(self)@,
                id@,
                fresh->0@,
            ),
            fresh is None ==> final(self)@ == old(self)@,
    {
        let ghost before = self@;
        match leases_remove(&mut self.running_tasks, id) {
            Some(task) => {
                let fresh = fresh_id();
                let again = Task { id: fresh.clone(), inner: task.inner };
                let pushed = queue_push(&mut self.pending_tasks, again);
                assert(pushed is Ok);
                proof {
                    let after = self@;
                    assert forall|i: int| 0 <= i < after.pending.len() implies ((
                    #[trigger] after.pending[i]).work is ReduceTask) == after.reduce_stage by {
                        if i < before.pending.len() {
                            assert(after.pending[i] == before.pending[i]);
                        }
                    }
                }
                Some(fresh)
            },
            None => {
                assert(before.running.remove(id@) =~= before.running);
                None
            },
        }
    }

    /// Answers a worker's poll. The task at the head of the queue, if there
    /// is one, is leased and handed out; the caller starts its retry timer.
    /// Without a task the worker is told to stop if the job is over, and to
    /// poll again if it is not.
    pub fn poll_task(&mut self) -> (reply: PollTaskReply)
        requires
            old(self).wf(),
        ensures
            final(self).wf(),
            final(self)@ == polled(old(self)@),
            reply.task is Some <==> poll_task_of(old(self)@) is Some,
            reply.task is Some ==> reply.task->0@ == poll_task_of(old(self)@)->0,
            reply.task is Some ==> (reply.task->0@.work is ReduceTask) == old(self)@.reduce_stage,
            reply.shutdown == (reply.task is None && poll_shutdown_of(old(self)@)),
    {
        match queue_pop(&mut self.pending_tasks) {
            Some(task) => {
                let lease = task.clone();
                proof {
                    let before = old(self)@;
                    assert(before.pending[0] == task@);
                    assert(before.pending.skip(1).len() == before.pending.len() - 1);
                    assert forall|i: int| 0 <= i < before.pending.skip(1).len() implies ((
                    #[trigger] before.pending.skip(1)[i]).work is ReduceTask)
                        == before.reduce_stage by {
                        assert(before.pending.skip(1)[i] == before.pending[i + 1]);
                    }
                }
                leases_insert(&mut self.running_tasks, task.id.clone(), lease);
                PollTaskReply { task: Some(task), shutdown: false }
            },
            None => {
                let idle = leases_is_empty(&self.running_tasks);
                PollTaskReply { task: None, shutdown: self.reduce_stage && idle }
            },
        }
    }

    /// The number of tasks that wait for a worker.
    pub fn pending_len(&self) -> (n: usize)
        ensures
            n == self@.pending.len(),
    {
        queue_len(&self.pending_tasks)
    }

    /// The number of tasks that are leased.
    pub fn running_len(&self) -> (n: usize)
        ensures
            n == self@.running.dom().len(),
    {
        leases_len(&self.running_tasks)
    }

    /// Whether the shutdown signal has fired.
    pub fn signalled(&self) -> (b: bool)
        ensures
            b == self@.signalled,
    {
        self.signalled
    }

    /// Whether reduce tasks are being scheduled.
    pub fn reduce_stage(&self) -> (b: bool)
        ensures
            b == self@.reduce_stage,
    {
        self.reduce_stage
    }
}

} // verus!
