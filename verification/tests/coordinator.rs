use mr::coordinator::{
    Cli, CompleteTaskRequest, Completion, Coordinator, CoordinatorError, ADDR, LEASE_SECS,
    N_REDUCE,
};
use mr::task::{Inner, Task};
use std::collections::HashMap;

fn cli(files: &[&str], n_reduce: u64) -> Cli {
    Cli {
        listen: ADDR.to_string(),
        n_reduce,
        input_files: files.iter().map(|f| f.to_string()).collect(),
    }
}

fn start(files: &[&str], n_reduce: u64) -> Coordinator {
    match Coordinator::new(cli(files, n_reduce)) {
        Ok(c) => c,
        Err(e) => panic!("no coordinator: {:?}", e),
    }
}

fn lease(c: &mut Coordinator) -> Task {
    let reply = c.poll_task();
    assert!(!reply.shutdown);
    match reply.task {
        Some(task) => task,
        None => panic!("no task"),
    }
}

fn files_of(pairs: &[(u64, &str)]) -> HashMap<u64, String> {
    pairs.iter().map(|(b, f)| (*b, f.to_string())).collect()
}

fn complete(c: &mut Coordinator, task: &Task, pairs: &[(u64, &str)]) -> Completion {
    let request = CompleteTaskRequest { task: task.clone(), reduce_files: files_of(pairs) };
    match c.complete_task(request) {
        Ok(done) => done,
        Err(e) => panic!("completion failed: {:?}", e),
    }
}

fn is_uuid(text: &str) -> bool {
    let chars: Vec<char> = text.chars().collect();
    chars.len() == 36
        && chars.iter().enumerate().all(|(i, c)| {
            if i == 8 || i == 13 || i == 18 || i == 23 {
                *c == '-'
            } else {
                c.is_ascii_digit() || ('a'..='f').contains(c)
            }
        })
}

#[test]
fn defaults() {
    assert_eq!(ADDR, "[::1]:56789");
    assert_eq!(N_REDUCE, 10);
    assert_eq!(LEASE_SECS, 10);
}

#[test]
fn starts_with_one_map_task_per_file() {
    let mut c = start(&["a.txt", "b.txt", "c.txt"], 4);
    assert_eq!(c.pending_len(), 3);
    assert_eq!(c.running_len(), 0);
    assert!(!c.reduce_stage());
    assert!(!c.signalled());
    for (i, name) in ["a.txt", "b.txt", "c.txt"].iter().enumerate() {
        let task = lease(&mut c);
        assert!(is_uuid(&task.id));
        match task.inner {
            Inner::MapTask(m) => {
                assert_eq!(m.index, i as u64);
                assert_eq!(m.files, vec![name.to_string()]);
                assert_eq!(m.n_reduce, 4);
            }
            Inner::ReduceTask(_) => panic!("a reduce task in the map stage"),
        }
    }
    assert_eq!(c.pending_len(), 0);
    assert_eq!(c.running_len(), 3);
}

#[test]
fn task_identifiers_differ() {
    let mut c = start(&["a", "b"], 1);
    let first = lease(&mut c);
    let second = lease(&mut c);
    assert_ne!(first.id, second.id);
}

#[test]
fn too_many_slots_are_refused() {
    let r = Coordinator::new(cli(&["a", "b", "c"], u64::MAX));
    assert!(matches!(r, Err(CoordinatorError::TooLarge)));
}

#[test]
fn no_buckets_and_many_files_overflow_the_queue() {
    let r = Coordinator::new(cli(&["1", "2", "3", "4", "5", "6"], 0));
    assert!(matches!(r, Err(CoordinatorError::QueueFull)));
    let ok = Coordinator::new(cli(&["1", "2", "3", "4", "5"], 0));
    assert!(ok.is_ok());
}

#[test]
fn poll_without_work_in_the_map_stage_says_wait() {
    let mut c = start(&["a"], 2);
    let _task = lease(&mut c);
    let reply = c.poll_task();
    assert!(reply.task.is_none());
    assert!(!reply.shutdown);
}

#[test]
fn whole_job_runs_through_both_stages() {
    let mut c = start(&["a", "b"], 2);
    let t0 = lease(&mut c);
    let t1 = lease(&mut c);
    let done = complete(&mut c, &t0, &[(0, "mr-0-0-x"), (1, "mr-0-1-x")]);
    assert_eq!(done, Completion { accepted: true, promoted: false, shutdown: false });
    assert!(!c.reduce_stage());
    let done = complete(&mut c, &t1, &[(0, "mr-1-0-y")]);
    assert_eq!(done, Completion { accepted: true, promoted: true, shutdown: false });
    assert!(c.reduce_stage());
    assert_eq!(c.pending_len(), 2);
    let mut seen: Vec<(u64, Vec<String>)> = Vec::new();
    let r0 = lease(&mut c);
    let r1 = lease(&mut c);
    for task in [&r0, &r1] {
        assert!(is_uuid(&task.id));
        match &task.inner {
            Inner::ReduceTask(r) => seen.push((r.index, r.files.clone())),
            Inner::MapTask(_) => panic!("a map task in the reduce stage"),
        }
    }
    seen.sort();
    assert_eq!(
        seen,
        vec![
            (0, vec!["mr-0-0-x".to_string(), "mr-1-0-y".to_string()]),
            (1, vec!["mr-0-1-x".to_string()]),
        ]
    );
    let reply = c.poll_task();
    assert!(reply.task.is_none());
    assert!(!reply.shutdown);
    let done = complete(&mut c, &r0, &[]);
    assert_eq!(done, Completion { accepted: true, promoted: false, shutdown: false });
    let done = complete(&mut c, &r1, &[]);
    assert_eq!(done, Completion { accepted: true, promoted: false, shutdown: true });
    assert!(c.signalled());
    let reply = c.poll_task();
    assert!(reply.task.is_none());
    assert!(reply.shutdown);
}

#[test]
fn files_of_a_reduce_task_are_not_merged() {
    let mut c = start(&["a"], 1);
    let t = lease(&mut c);
    complete(&mut c, &t, &[(0, "f")]);
    let r = lease(&mut c);
    let done = complete(&mut c, &r, &[(9, "bogus")]);
    assert!(done.shutdown);
    assert_eq!(c.pending_len(), 0);
}

#[test]
fn unknown_task_is_ignored() {
    let mut c = start(&["a"], 2);
    let t = lease(&mut c);
    let stranger = Task { id: "no-such-lease".to_string(), inner: t.inner.clone() };
    let done = complete(&mut c, &stranger, &[(0, "stale")]);
    assert_eq!(done, Completion { accepted: false, promoted: false, shutdown: false });
    assert_eq!(c.running_len(), 1);
    let done = complete(&mut c, &t, &[(1, "good")]);
    assert!(done.promoted);
    let r = lease(&mut c);
    match r.inner {
        Inner::ReduceTask(r) => {
            assert_eq!(r.index, 1);
            assert_eq!(r.files, vec!["good".to_string()]);
        }
        Inner::MapTask(_) => panic!("a map task in the reduce stage"),
    }
}

#[test]
fn completion_then_timer_completes_only() {
    let mut c = start(&["a", "b"], 2);
    let t = lease(&mut c);
    let done = complete(&mut c, &t, &[(0, "f")]);
    assert!(done.accepted);
    assert_eq!(c.retry(&t.id), None);
    assert_eq!(c.pending_len(), 1);
    assert_eq!(c.running_len(), 0);
}

#[test]
fn timer_then_completion_requeues_only() {
    let mut c = start(&["a", "b"], 2);
    let t = lease(&mut c);
    let fresh = c.retry(&t.id);
    assert!(fresh.is_some());
    let done = complete(&mut c, &t, &[(0, "orphan")]);
    assert_eq!(done, Completion { accepted: false, promoted: false, shutdown: false });
    assert_eq!(c.pending_len(), 2);
    assert_eq!(c.running_len(), 0);
}

#[test]
fn timed_out_task_waits_again_under_a_new_identifier() {
    let mut c = start(&["a", "b"], 3);
    let t = lease(&mut c);
    let fresh = match c.retry(&t.id) {
        Some(id) => id,
        None => panic!("the lease was there"),
    };
    assert!(is_uuid(&fresh));
    assert_ne!(fresh, t.id);
    assert_eq!(c.running_len(), 0);
    assert_eq!(c.pending_len(), 2);
    let _b = lease(&mut c);
    let again = lease(&mut c);
    assert_eq!(again.id, fresh);
    match (again.inner, t.inner) {
        (Inner::MapTask(x), Inner::MapTask(y)) => {
            assert_eq!(x.index, y.index);
            assert_eq!(x.files, y.files);
            assert_eq!(x.n_reduce, y.n_reduce);
        }
        _ => panic!("the task changed its kind"),
    }
    assert_eq!(c.retry(&t.id), None);
}

#[test]
fn timer_of_an_unknown_lease_does_nothing() {
    let mut c = start(&["a"], 1);
    assert_eq!(c.retry("nothing"), None);
    assert_eq!(c.pending_len(), 1);
}

#[test]
fn late_files_of_a_superseded_attempt_are_dropped() {
    let mut c = start(&["a"], 1);
    let first = lease(&mut c);
    c.retry(&first.id);
    let second = lease(&mut c);
    complete(&mut c, &first, &[(0, "from-first")]);
    let done = complete(&mut c, &second, &[(0, "from-second")]);
    assert!(done.promoted);
    match lease(&mut c).inner {
        Inner::ReduceTask(r) => assert_eq!(r.files, vec!["from-second".to_string()]),
        Inner::MapTask(_) => panic!("a map task in the reduce stage"),
    }
}

#[test]
fn stage_goes_forward_once() {
    let mut c = start(&["a", "b", "c"], 2);
    let mut stages = vec![c.reduce_stage()];
    let mut leased = Vec::new();
    for _ in 0..3 {
        let t = lease(&mut c);
        assert!(matches!(t.inner, Inner::MapTask(_)));
        leased.push(t);
        stages.push(c.reduce_stage());
    }
    for t in &leased {
        complete(&mut c, t, &[(0, "x"), (1, "y")]);
        stages.push(c.reduce_stage());
    }
    loop {
        let reply = c.poll_task();
        stages.push(c.reduce_stage());
        match reply.task {
            Some(t) => {
                assert!(matches!(t.inner, Inner::ReduceTask(_)));
                complete(&mut c, &t, &[]);
                stages.push(c.reduce_stage());
            }
            None => break,
        }
    }
    let flips = stages.windows(2).filter(|w| w[0] != w[1]).count();
    assert_eq!(flips, 1);
    assert_eq!(stages.first(), Some(&false));
    assert_eq!(stages.last(), Some(&true));
}

#[test]
fn shutdown_fires_once() {
    let mut c = start(&["a"], 1);
    let t = lease(&mut c);
    complete(&mut c, &t, &[(0, "f")]);
    let r = lease(&mut c);
    let mut fired = 0;
    for _ in 0..5 {
        if complete(&mut c, &r, &[]).shutdown {
            fired += 1;
        }
    }
    assert_eq!(fired, 1);
    for _ in 0..3 {
        let reply = c.poll_task();
        assert!(reply.task.is_none());
        assert!(reply.shutdown);
    }
}

#[test]
fn job_without_files_ends_after_two_reports() {
    let mut c = start(&[], 3);
    let reply = c.poll_task();
    assert!(reply.task.is_none());
    assert!(!reply.shutdown);
    let ghost = Task {
        id: "none".to_string(),
        inner: Inner::ReduceTask(mr::task::ReduceTask { index: 0, files: Vec::new() }),
    };
    let done = complete(&mut c, &ghost, &[]);
    assert_eq!(done, Completion { accepted: false, promoted: true, shutdown: false });
    let done = complete(&mut c, &ghost, &[]);
    assert_eq!(done, Completion { accepted: false, promoted: false, shutdown: true });
}

#[test]
fn more_buckets_than_slots_stop_the_promotion() {
    let mut c = start(&["a"], 1);
    let t = lease(&mut c);
    let many: Vec<(u64, String)> = (0..7).map(|b| (b, format!("f{}", b))).collect();
    let request = CompleteTaskRequest {
        task: t.clone(),
        reduce_files: many.into_iter().collect(),
    };
    assert_eq!(c.complete_task(request), Err(CoordinatorError::QueueFull));
    assert!(!c.reduce_stage());
    assert_eq!(c.pending_len(), 0);
    assert_eq!(c.running_len(), 0);
}

#[test]
fn queue_takes_exactly_its_slots() {
    let mut c = start(&["a"], 1);
    let t = lease(&mut c);
    let six: Vec<(u64, String)> = (0..6).map(|b| (b, format!("f{}", b))).collect();
    let request = CompleteTaskRequest { task: t.clone(), reduce_files: six.into_iter().collect() };
    let done = c.complete_task(request);
    assert_eq!(done, Ok(Completion { accepted: true, promoted: true, shutdown: false }));
    assert_eq!(c.pending_len(), 6);
}

#[test]
fn usual_settings() {
    let cli = Cli::with_defaults(vec!["a".to_string()]);
    assert_eq!(cli.listen, "[::1]:56789");
    assert_eq!(cli.n_reduce, 10);
    assert_eq!(cli.input_files, vec!["a".to_string()]);
    let c = match Coordinator::new(cli) {
        Ok(c) => c,
        Err(e) => panic!("{:?}", e),
    };
    assert_eq!(c.pending_len(), 1);
}
