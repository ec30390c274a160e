use mr::apps::{Indexer, WordCount};
use mr::coordinator::PollTaskReply;
use mr::record::{sort_records, sort_strings, KeyValue};
use mr::sequential::run_sequential;
use mr::task::{Inner, MapTask, ReduceTask, Task};
use mr::worker::{
    key_hash, map_records, next_step, parse_files, parse_line, parse_records, partition,
    reduce_files, reduce_records, render, report, run_map, run_reduce, write_map, InputFile, Step,
    Worker, WorkerError, POLL_PAUSE_SECS,
};
use std::collections::HashMap;
use std::hash::{Hash, Hasher};

fn kv(key: &str, value: &str) -> KeyValue {
    KeyValue { key: key.to_string(), value: value.to_string() }
}

fn input(name: &str, contents: &str) -> InputFile {
    InputFile { name: name.to_string(), contents: contents.to_string() }
}

fn map_task(index: u64, n_reduce: u64) -> MapTask {
    MapTask { index, files: Vec::new(), n_reduce }
}

#[test]
fn records_are_ordered_by_key_then_value() {
    assert!(kv("a", "z").precedes(&kv("b", "a")));
    assert!(kv("a", "1").precedes(&kv("a", "2")));
    assert!(!kv("a", "1").precedes(&kv("a", "1")));
    assert!(!kv("b", "1").precedes(&kv("a", "2")));
    assert_eq!(kv("a", "1"), kv("a", "1"));
    assert_ne!(kv("a", "1"), kv("a", "2"));
}

#[test]
fn sorting_records() {
    let sorted = sort_records(vec![kv("b", "1"), kv("a", "2"), kv("b", "0"), kv("a", "1")]);
    assert_eq!(sorted, vec![kv("a", "1"), kv("a", "2"), kv("b", "0"), kv("b", "1")]);
    assert_eq!(sort_records(Vec::new()), Vec::<KeyValue>::new());
    assert_eq!(sort_records(vec![kv("x", "y")]), vec![kv("x", "y")]);
}

#[test]
fn sorting_many_records_agrees_with_std() {
    let mut list = Vec::new();
    let mut seed: u64 = 12345;
    for _ in 0..500 {
        seed = seed.wrapping_mul(6364136223846793005).wrapping_add(1442695040888963407);
        let key = format!("k{}", (seed >> 33) % 17);
        let value = format!("v{}", (seed >> 20) % 5);
        list.push((key, value));
    }
    let ours = sort_records(list.iter().map(|(k, v)| kv(k, v)).collect());
    list.sort();
    let expected: Vec<KeyValue> = list.iter().map(|(k, v)| kv(k, v)).collect();
    assert_eq!(ours, expected);
}

#[test]
fn sorting_strings() {
    let v = vec!["pear".to_string(), "apple".to_string(), "fig".to_string(), "apple".to_string()];
    assert_eq!(sort_strings(v), vec!["apple", "apple", "fig", "pear"]);
}

#[test]
fn hash_is_the_standard_one() {
    for key in ["", "a", "the", "naïve", "a longer key with spaces"] {
        let mut hasher = std::collections::hash_map::DefaultHasher::new();
        key.hash(&mut hasher);
        assert_eq!(key_hash(key), hasher.finish());
    }
}

#[test]
fn partition_routes_by_hash_and_keeps_order() {
    let list = vec![kv("a", "1"), kv("b", "2"), kv("a", "3"), kv("c", "4"), kv("b", "5")];
    let n = 3;
    let buckets = partition(list.clone(), n);
    assert_eq!(buckets.len(), 3);
    for (b, bucket) in buckets.iter().enumerate() {
        let expected: Vec<KeyValue> =
            list.iter().filter(|r| key_hash(&r.key) % n == b as u64).cloned().collect();
        assert_eq!(bucket, &expected);
    }
    let total: usize = buckets.iter().map(|b| b.len()).sum();
    assert_eq!(total, list.len());
}

#[test]
fn one_bucket_takes_everything() {
    let list = vec![kv("x", "1"), kv("y", "2")];
    assert_eq!(partition(list.clone(), 1), vec![list]);
}

#[test]
fn lines_of_records() {
    assert_eq!(render(&vec![kv("a", "1"), kv("b", "2")]), "a 1\nb 2\n");
    assert_eq!(render(&Vec::new()), "");
}

#[test]
fn map_phase_lays_out_one_file_per_bucket() {
    let all = vec![kv("a", "1"), kv("b", "1"), kv("a", "1")];
    let files = match write_map(4, 2, all.clone()) {
        Ok(files) => files,
        Err(e) => panic!("{:?}", e),
    };
    assert_eq!(files.len(), 2);
    for (j, file) in files.iter().enumerate() {
        assert_eq!(file.bucket, j as u64);
        let prefix = format!("mr-4-{}-", j);
        assert!(file.name.starts_with(&prefix));
        assert_eq!(file.name.len(), prefix.len() + 36);
        let expected: Vec<KeyValue> =
            all.iter().filter(|r| key_hash(&r.key) % 2 == j as u64).cloned().collect();
        assert_eq!(file.contents, render(&expected));
    }
    assert_ne!(files[0].name, files[1].name);
    let reported = reduce_files(&files);
    assert_eq!(reported.len(), 2);
    assert_eq!(reported[&0], files[0].name);
    assert_eq!(reported[&1], files[1].name);
}

#[test]
fn map_phase_without_buckets() {
    assert_eq!(write_map(0, 0, vec![kv("a", "1")]).err(), Some(WorkerError::NoBuckets));
    match write_map(0, 0, Vec::new()) {
        Ok(files) => assert!(files.is_empty()),
        Err(e) => panic!("{:?}", e),
    }
}

#[test]
fn map_task_on_word_count() {
    let inputs = vec![input("f1", "the cat"), input("f2", "the hat")];
    assert_eq!(
        map_records(&WordCount, &inputs),
        vec![kv("the", "1"), kv("cat", "1"), kv("the", "1"), kv("hat", "1")]
    );
    let files = match run_map(&WordCount, &map_task(0, 1), &inputs) {
        Ok(files) => files,
        Err(e) => panic!("{:?}", e),
    };
    assert_eq!(files.len(), 1);
    assert_eq!(files[0].contents, "the 1\ncat 1\nthe 1\nhat 1\n");
    assert_eq!(run_map(&WordCount, &map_task(0, 0), &inputs).err(), Some(WorkerError::NoBuckets));
}

#[test]
fn parsing_lines() {
    assert_eq!(parse_line("a 1"), Some(kv("a", "1")));
    assert_eq!(parse_line("  key \t value  and more"), Some(kv("key", "value")));
    assert_eq!(parse_line("lonely"), None);
    assert_eq!(parse_line(""), None);
    assert_eq!(parse_line("   "), None);
}

#[test]
fn parsing_files() {
    assert_eq!(parse_records("a 1\nb 2\n"), Some(vec![kv("a", "1"), kv("b", "2")]));
    assert_eq!(parse_records(""), Some(Vec::new()));
    assert_eq!(parse_records("a 1\n\nb 2\n"), None);
    assert_eq!(parse_records("a 1\nb\n"), None);
    assert_eq!(
        parse_files(&vec!["a 1\n".to_string(), "".to_string(), "b 2\nc 3".to_string()]),
        Some(vec![kv("a", "1"), kv("b", "2"), kv("c", "3")])
    );
    assert_eq!(parse_files(&vec!["a 1\n".to_string(), "oops\n".to_string()]), None);
    assert_eq!(parse_files(&Vec::new()), Some(Vec::new()));
}

#[test]
fn parsing_undoes_rendering() {
    let list = vec![kv("b", "2"), kv("a", "1"), kv("a", "1")];
    assert_eq!(parse_records(&render(&list)), Some(list));
}

#[test]
fn reduce_phase_groups_neighbours() {
    let list = vec![kv("b", "1"), kv("a", "1"), kv("b", "1"), kv("c", "1"), kv("b", "1")];
    assert_eq!(reduce_records(&WordCount, list), "a 1\nb 3\nc 1\n");
    assert_eq!(reduce_records(&WordCount, Vec::new()), "");
}

#[test]
fn reduce_task_on_word_count() {
    let task = ReduceTask { index: 7, files: Vec::new() };
    let contents = vec!["the 1\ncat 1\n".to_string(), "the 1\nhat 1\nthe 1\n".to_string()];
    let out = match run_reduce(&WordCount, &task, &contents) {
        Ok(out) => out,
        Err(e) => panic!("{:?}", e),
    };
    assert_eq!(out.output_path, "mr-out-7");
    assert!(out.temp_path.starts_with("mr-tmp/"));
    assert_eq!(out.temp_path.len(), "mr-tmp/".len() + 36);
    assert_eq!(out.contents, "cat 1\nhat 1\nthe 3\n");
    let bad = vec!["the 1\nbroken\n".to_string()];
    assert_eq!(run_reduce(&WordCount, &task, &bad).err(), Some(WorkerError::BadLine));
}

#[test]
fn indexer_on_two_files() {
    let inputs = vec![input("f1", "cat dog"), input("f2", "dog dog")];
    let out = run_sequential(&Indexer, "indexer", &inputs);
    assert_eq!(out.path, "mr-indexer-seq");
    assert_eq!(out.contents, "cat 1 f1\ndog 2 f1,f2\n");
    let dog_line = out.contents.lines().find(|l| l.starts_with("dog ")).map(|l| l.to_string());
    assert_eq!(dog_line, Some("dog 2 f1,f2".to_string()));
}

#[test]
fn sequential_word_count() {
    let inputs = vec![input("a", "the cat and the hat"), input("b", "The end of the thing")];
    let out = run_sequential(&WordCount, "wc", &inputs);
    assert_eq!(out.path, "mr-wc-seq");
    assert_eq!(out.contents, "The 1\nand 1\ncat 1\nend 1\nhat 1\nof 1\nthe 3\nthing 1\n");
}

#[test]
fn sequential_run_repeats_itself() {
    let inputs = vec![input("a", "x y z x"), input("b", "z z y"), input("c", "")];
    let first = run_sequential(&WordCount, "wc", &inputs);
    let second = run_sequential(&WordCount, "wc", &inputs);
    assert_eq!(first.path, second.path);
    assert_eq!(first.contents.as_bytes(), second.contents.as_bytes());
}

#[test]
fn distributed_word_count_agrees_with_sequential() {
    let corpus = vec![
        input("one", "the quick brown fox jumps over the lazy dog"),
        input("two", "the dog barks; the fox runs. The end"),
        input("three", "nothing here but the the the"),
    ];
    let n_reduce: u64 = 4;
    let mut by_bucket: HashMap<u64, Vec<String>> = HashMap::new();
    for (i, file) in corpus.iter().enumerate() {
        let one = vec![input(&file.name, &file.contents)];
        let files = match run_map(&WordCount, &map_task(i as u64, n_reduce), &one) {
            Ok(files) => files,
            Err(e) => panic!("{:?}", e),
        };
        for f in files {
            by_bucket.entry(f.bucket).or_default().push(f.contents);
        }
    }
    let mut distributed: Vec<String> = Vec::new();
    let mut the_total = 0;
    for (bucket, contents) in &by_bucket {
        let task = ReduceTask { index: *bucket, files: Vec::new() };
        let out = match run_reduce(&WordCount, &task, contents) {
            Ok(out) => out,
            Err(e) => panic!("{:?}", e),
        };
        for line in out.contents.lines() {
            if let Some(count) = line.strip_prefix("the ") {
                the_total += count.parse::<u64>().unwrap_or(0);
            }
            distributed.push(line.to_string());
        }
    }
    assert_eq!(the_total, 7);
    distributed.sort();
    let sequential = run_sequential(&WordCount, "wc", &corpus);
    let expected: Vec<String> = sequential.contents.lines().map(|l| l.to_string()).collect();
    assert_eq!(distributed, expected);
    assert!(expected.contains(&"the 7".to_string()));
}

#[test]
fn worker_steps() {
    assert_eq!(POLL_PAUSE_SECS, 1);
    let task = Task { id: "t".to_string(), inner: Inner::MapTask(map_task(0, 1)) };
    assert!(matches!(next_step(PollTaskReply { task: None, shutdown: true }), Step::Stop));
    assert!(matches!(
        next_step(PollTaskReply { task: Some(task.clone()), shutdown: true }),
        Step::Stop
    ));
    assert!(matches!(next_step(PollTaskReply { task: None, shutdown: false }), Step::Wait(1)));
    match next_step(PollTaskReply { task: Some(task), shutdown: false }) {
        Step::Run(t) => assert_eq!(t.id, "t"),
        _ => panic!("the task was not run"),
    }
}

#[test]
fn reports_of_finished_tasks() {
    let written: HashMap<u64, String> = [(0, "f".to_string())].into_iter().collect();
    let map = Task { id: "m".to_string(), inner: Inner::MapTask(map_task(0, 1)) };
    let request = report(map, written.clone());
    assert_eq!(request.task.id, "m");
    assert_eq!(request.reduce_files, written);
    let reduce = Task {
        id: "r".to_string(),
        inner: Inner::ReduceTask(ReduceTask { index: 0, files: Vec::new() }),
    };
    let request = report(reduce, written);
    assert_eq!(request.task.id, "r");
    assert!(request.reduce_files.is_empty());
}

#[test]
fn records_compare_like_their_fields() {
    assert!(kv("a", "z") < kv("b", "a"));
    assert!(kv("a", "1") < kv("a", "2"));
    assert!(kv("a", "2") > kv("a", "1"));
    assert!(kv("a", "1") <= kv("a", "1"));
    assert_eq!(kv("a", "1").partial_cmp(&kv("a", "1")), Some(std::cmp::Ordering::Equal));
    assert_eq!(kv("b", "").partial_cmp(&kv("a", "z")), Some(std::cmp::Ordering::Greater));
    assert_eq!(kv("a", "").cmp(&kv("a", "z")), std::cmp::Ordering::Less);
    let mut list = vec![kv("b", "1"), kv("a", "2"), kv("a", "10"), kv("", "x")];
    let ours = sort_records(list.clone());
    list.sort();
    assert_eq!(ours, list);
}

#[test]
fn worker_runs_tasks_with_its_application() {
    let worker = Worker::new("4711".to_string(), WordCount);
    assert_eq!(worker.id, "4711");
    let inputs = vec![input("f", "b a b")];
    let files = match worker.run_map(&map_task(2, 1), &inputs) {
        Ok(files) => files,
        Err(e) => panic!("{:?}", e),
    };
    assert_eq!(files.len(), 1);
    assert!(files[0].name.starts_with("mr-2-0-"));
    assert_eq!(files[0].contents, "b 1\na 1\nb 1\n");
    let task = ReduceTask { index: 0, files: vec![files[0].name.clone()] };
    let out = match worker.run_reduce(&task, &vec![files[0].contents.clone()]) {
        Ok(out) => out,
        Err(e) => panic!("{:?}", e),
    };
    assert_eq!(out.output_path, "mr-out-0");
    assert_eq!(out.contents, "a 1\nb 2\n");
    assert!(matches!(worker.step(PollTaskReply { task: None, shutdown: true }), Step::Stop));
    assert!(matches!(worker.step(PollTaskReply { task: None, shutdown: false }), Step::Wait(1)));
}

#[test]
fn each_key_goes_to_one_bucket() {
    let mut list = Vec::new();
    for i in 0..40 {
        list.push(kv(&format!("k{}", i % 7), &format!("{}", i)));
    }
    let buckets = partition(list.clone(), 5);
    for key in 0..7 {
        let key = format!("k{}", key);
        let holders: Vec<usize> = buckets
            .iter()
            .enumerate()
            .filter(|(_, b)| b.iter().any(|r| r.key == key))
            .map(|(i, _)| i)
            .collect();
        assert_eq!(holders, vec![(key_hash(&key) % 5) as usize]);
        let held = buckets[holders[0]].iter().filter(|r| r.key == key).count();
        assert_eq!(held, list.iter().filter(|r| r.key == key).count());
    }
}
