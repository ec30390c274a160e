use mr::apps::{
    builtin, Builtin, ee_m, ee_r, ee_stall_secs, indexer_m, indexer_r, jobcount_m, jobcount_marker, jobcount_pause,
    jobcount_r, lot_of, maybe_crash, mc_m, mc_r, wc_m, wc_r, Api, Fault, Indexer, Lot, WordCount,
    EE_STALL_SECS,
};
use mr::record::KeyValue;

fn kv(key: &str, value: &str) -> KeyValue {
    KeyValue { key: key.to_string(), value: value.to_string() }
}

fn strings(items: &[&str]) -> Vec<String> {
    items.iter().map(|s| s.to_string()).collect()
}

#[test]
fn word_count_map_keeps_repetitions() {
    assert_eq!(
        wc_m("f", "the cat and the hat"),
        vec![kv("the", "1"), kv("cat", "1"), kv("and", "1"), kv("the", "1"), kv("hat", "1")]
    );
    assert_eq!(wc_m("f", ""), Vec::<KeyValue>::new());
    assert_eq!(wc_m("f", "a1a,a"), vec![kv("a", "1"), kv("a", "1"), kv("a", "1")]);
}

#[test]
fn word_count_map_is_case_sensitive() {
    assert_eq!(wc_m("f", "The the"), vec![kv("The", "1"), kv("the", "1")]);
}

#[test]
fn word_count_reduce_counts_values() {
    assert_eq!(wc_r("the".to_string(), strings(&["1", "1", "1", "1", "1"])), "5");
    assert_eq!(wc_r("x".to_string(), Vec::new()), "0");
    assert_eq!(wc_r("x".to_string(), strings(&["7"; 12])), "12");
}

#[test]
fn word_count_through_the_interface() {
    let app = WordCount;
    assert_eq!(app.map("f", "a b"), vec![kv("a", "1"), kv("b", "1")]);
    assert_eq!(app.reduce("a", strings(&["1", "1"])), "2");
}

#[test]
fn indexer_map_names_each_word_once() {
    assert_eq!(indexer_m("f1", "cat dog"), vec![kv("cat", "f1"), kv("dog", "f1")]);
    assert_eq!(indexer_m("f2", "dog dog"), vec![kv("dog", "f2")]);
    assert_eq!(
        indexer_m("f", "b a b c a"),
        vec![kv("b", "f"), kv("a", "f"), kv("c", "f")]
    );
    assert_eq!(indexer_m("f", ""), Vec::<KeyValue>::new());
}

#[test]
fn indexer_reduce_lists_the_files() {
    assert_eq!(indexer_r("dog", strings(&["f1", "f2"])), "2 f1,f2");
    assert_eq!(indexer_r("cat", strings(&["f1"])), "1 f1");
    assert_eq!(indexer_r("x", Vec::new()), "0 ");
}

#[test]
fn indexer_through_the_interface() {
    let app = Indexer;
    assert_eq!(app.map("f", "x x y"), vec![kv("x", "f"), kv("y", "f")]);
    assert_eq!(app.reduce("x", strings(&["a", "b", "c"])), "3 a,b,c");
}

#[test]
fn early_exit_map_is_one_record_per_file() {
    assert_eq!(ee_m("pg-tom_sawyer.txt", "whatever it holds"), vec![kv("pg-tom_sawyer.txt", "1")]);
    assert_eq!(ee_m("", ""), vec![kv("", "1")]);
}

#[test]
fn early_exit_stalls_on_two_names() {
    assert_eq!(EE_STALL_SECS, 3);
    assert_eq!(ee_stall_secs("pg-sherlock_holmes.txt"), 3);
    assert_eq!(ee_stall_secs("pg-tom_sawyer.txt"), 3);
    assert_eq!(ee_stall_secs("pg-grimm.txt"), 0);
    assert_eq!(ee_stall_secs("Sherlock"), 0);
    assert_eq!(ee_stall_secs(""), 0);
}

#[test]
fn early_exit_reduce_counts_values() {
    assert_eq!(ee_r("k", strings(&["1"])), "1");
    assert_eq!(ee_r("k", strings(&["1", "1", "1"])), "3");
}

#[test]
fn job_count_marker_names() {
    assert_eq!(jobcount_marker(4711, 0), "mr-worker-jobcount-4711-0");
    assert_eq!(jobcount_marker(1, 23), "mr-worker-jobcount-1-23");
}

#[test]
fn job_count_pause_is_two_to_five_seconds() {
    for _ in 0..200 {
        let millis = jobcount_pause();
        assert!(2000 <= millis && millis < 5000);
    }
}

#[test]
fn job_count_draws_vary() {
    let first = jobcount_pause();
    let mut varied = false;
    for _ in 0..200 {
        if jobcount_pause() != first {
            varied = true;
        }
    }
    assert!(varied);
}

#[test]
fn job_count_map_is_fixed() {
    assert_eq!(jobcount_m("any", "thing"), vec![kv("a", "x")]);
}

#[test]
fn job_count_reduce_counts_markers() {
    let names = strings(&[
        "mr-worker-jobcount-1-0",
        "mr-out-0",
        "mr-worker-jobcount-2-5",
        "mr-worker-jobcoun",
        "x-mr-worker-jobcount",
        "mr-worker-jobcount",
    ]);
    assert_eq!(jobcount_r(&names), "3");
    assert_eq!(jobcount_r(&Vec::new()), "0");
}

#[test]
fn crash_lots() {
    assert_eq!(lot_of(0), Lot::Crash);
    assert_eq!(lot_of(329), Lot::Crash);
    assert_eq!(lot_of(330), Lot::Hang);
    assert_eq!(lot_of(659), Lot::Hang);
    assert_eq!(lot_of(660), Lot::Proceed);
    assert_eq!(lot_of(999), Lot::Proceed);
}

#[test]
fn crash_switch_off_means_no_fault() {
    for toggle in ["", "0", "true", "11", " 1"] {
        for _ in 0..50 {
            assert_eq!(maybe_crash(toggle), Fault::Proceed);
        }
    }
}

#[test]
fn crash_switch_on_gives_every_fault() {
    let mut crashes = 0;
    let mut hangs = 0;
    let mut proceeds = 0;
    for _ in 0..3000 {
        match maybe_crash("1") {
            Fault::Crash => crashes += 1,
            Fault::Hang(millis) => {
                assert!(millis < 10000);
                hangs += 1;
            }
            Fault::Proceed => proceeds += 1,
        }
    }
    assert!(crashes > 0 && hangs > 0 && proceeds > 0);
}

#[test]
fn crash_map_is_four_records() {
    assert_eq!(
        mc_m("pg-grimm.txt", "hello"),
        vec![kv("a", "pg-grimm.txt"), kv("b", "12"), kv("c", "5"), kv("d", "xyzzy")]
    );
    assert_eq!(mc_m("é", ""), vec![kv("a", "é"), kv("b", "2"), kv("c", "0"), kv("d", "xyzzy")]);
}

#[test]
fn crash_reduce_sorts_and_joins() {
    assert_eq!(mc_r("a", strings(&["c", "a", "b"])), "a b c");
    assert_eq!(mc_r("a", strings(&["10", "9", "10"])), "10 10 9");
    assert_eq!(mc_r("a", strings(&["x"])), "x");
    assert_eq!(mc_r("a", Vec::new()), "");
}

#[test]
fn applications_by_name() {
    assert_eq!(builtin("app_wc"), Some(Builtin::WordCount));
    assert_eq!(builtin("app_indexer"), Some(Builtin::Indexer));
    assert_eq!(builtin("app_early_exit"), Some(Builtin::EarlyExit));
    assert_eq!(builtin("app_jobcount"), Some(Builtin::JobCount));
    assert_eq!(builtin("app_crash"), Some(Builtin::Crash));
    assert_eq!(builtin("wc"), None);
    assert_eq!(builtin(""), None);
    assert_eq!(builtin("app_wc "), None);
}
