//! The applications: pairs of a map and a reduce function that the framework
//! runs. The ones that simulate faults return the fault to act out or the
//! time to stall, for the caller to do so.

use crate::chance::draw_below;
use crate::grouping::{distinct, unique};
use crate::record::{in_order, lemma_in_order, records, sort_strings, KeyValue, Record};
use crate::text::{
    contains_text, decimal, decimal_string, has_substring, join, join_strings, same_text,
    split_words, starts_with, texts, words, CharClass,
};
use vstd::prelude::*;

verus! {

broadcast use vstd::slice::group_slice_axioms;

/// What an application is to the framework: a map function from a file to
/// records, and a reduce function from a key and its values to one value.
pub trait Api {
    /// Whether `out` is what the map function may return for the file
    /// `filename` that holds `contents`. An application that promises nothing
    /// leaves this as it is: it holds of every `out`.
    open spec fn maps(&self, filename: Seq<char>, contents: Seq<char>, out: Seq<Record>) -> bool {
        true
    }

    /// Whether `out` is what the reduce function may return for `key` with
    /// `values`. An application that promises nothing leaves this as it is.
    open spec fn reduces(&self, key: Seq<char>, values: Seq<Seq<char>>, out: Seq<char>) -> bool {
        true
    }

    /// Maps the file `filename`, which holds `contents`, to records.
    fn map(&self, filename: &str, contents: &str) -> (out: Vec<KeyValue>)
        ensures
            self.maps(filename@, contents@, records(out@)),
    ;

    /// Reduces the values that were emitted for `key` to one value.
    fn reduce(&self, key: &str, values: Vec<String>) -> (out: String)
        ensures
            self.reduces(key@, texts(values@), out@),
    ;
}

/// The text `1`.
pub open spec fn one() -> Seq<char> {
    seq!['1']
}

/// One record for each word: the word with `value`.
pub open spec fn tagged(ws: Seq<Seq<char>>, value: Seq<char>) -> Seq<Record> {
    ws.map_values(|w: Seq<char>| (w, value))
}

/// Makes one record for each word: the word with `value`.
fn tag(ws: Vec<String>, value: &str) -> (out: Vec<KeyValue>)
    ensures
        records(out@) == tagged(texts(ws@), value@),
{
    let mut out: Vec<KeyValue> = Vec::new();
    let mut i: usize = 0;
    while i < ws.len()
        invariant
            i <= ws.len(),
            records(out@) == tagged(texts(ws@), value@).take(i as int),
        decreases ws.len() - i,
    {
        out.push(KeyValue { key: ws[i].clone(), value: value.to_owned() });
        assert(records(out@) == tagged(texts(ws@), value@).take(i as int).push(
            (ws@[i as int]@, value@),
        ));
        assert(tagged(texts(ws@), value@).take(i + 1) == tagged(texts(ws@), value@).take(
            i as int,
        ).push((ws@[i as int]@, value@)));
        i += 1;
    }
    assert(tagged(texts(ws@), value@).take(i as int) == tagged(texts(ws@), value@));
    out
}

/// Word count, map: one record for each occurrence of a word, a word being a
/// maximal run of letters. The value is always `1`.
pub fn wc_m(_filename: &str, contents: &str) -> (out: Vec<KeyValue>)
    ensures
        records(out@) == tagged(words(contents@, CharClass::Alphabetic), one()),
{
    proof {
        reveal_strlit("1");
        assert("1"@ == one());
    }
    tag(split_words(contents, CharClass::Alphabetic), "1")
}

/// Word count, reduce: the number of values, in decimal.
pub fn wc_r(_key: String, values: Vec<String>) -> (out: String)
    ensures
        out@ == decimal(values.len() as nat),
{
    decimal_string(values.len() as u64)
}

/// The word count application.
pub struct WordCount;

impl Api for WordCount {
    open spec fn maps(&self, filename: Seq<char>, contents: Seq<char>, out: Seq<Record>) -> bool {
        out == tagged(words(contents, CharClass::Alphabetic), one())
    }

    open spec fn reduces(&self, key: Seq<char>, values: Seq<Seq<char>>, out: Seq<char>) -> bool {
        out == decimal(values.len())
    }

    fn map(&self, filename: &str, contents: &str) -> (out: Vec<KeyValue>) {
        wc_m(filename, contents)
    }

    fn reduce(&self, key: &str, values: Vec<String>) -> (out: String) {
        wc_r(key.to_owned(), values)
    }
}

/// Indexer, map: one record for each word that the file holds, however
/// often it holds it, in the order in which the words first come. The value
/// is the name of the file.
pub fn indexer_m(filename: &str, contents: &str) -> (out: Vec<KeyValue>)
    ensures
        records(out@) == tagged(distinct(words(contents@, CharClass::Alphabetic)), filename@),
{
    tag(unique(split_words(contents, CharClass::Alphabetic)), filename)
}

/// What the indexer makes of the names of the files that hold a word: their
/// number, a space, and the names with commas between them.
pub open spec fn index_entry(files: Seq<Seq<char>>) -> Seq<char> {
    decimal(files.len()) + seq![' '] + join(files, seq![','])
}

/// Indexer, reduce: the number of files that hold the word, then their
/// names.
pub fn indexer_r(_key: &str, values: Vec<String>) -> (out: String)
    ensures
        out@ == index_entry(texts(values@)),
{
    proof {
        reveal_strlit(" ");
        reveal_strlit(",");
        assert(" "@ == seq![' ']);
        assert(","@ == seq![',']);
    }
    let mut out = decimal_string(values.len() as u64);
    out.append(" ");
    let names = join_strings(&values, ",");
    out.append(names.as_str());
    out
}

/// The indexer application.
pub struct Indexer;

impl Api for Indexer {
    open spec fn maps(&self, filename: Seq<char>, contents: Seq<char>, out: Seq<Record>) -> bool {
        out == tagged(distinct(words(contents, CharClass::Alphabetic)), filename)
    }

    open spec fn reduces(&self, key: Seq<char>, values: Seq<Seq<char>>, out: Seq<char>) -> bool {
        out == index_entry(values)
    }

    fn map(&self, filename: &str, contents: &str) -> (out: Vec<KeyValue>) {
        indexer_m(filename, contents)
    }

    fn reduce(&self, key: &str, values: Vec<String>) -> (out: String) {
        indexer_r(key, values)
    }
}

/// The text `sherlock`.
pub open spec fn sherlock() -> Seq<char> {
    seq!['s', 'h', 'e', 'r', 'l', 'o', 'c', 'k']
}

/// The text `tom`.
pub open spec fn tom() -> Seq<char> {
    seq!['t', 'o', 'm']
}

/// For how many seconds the early exit application stalls on the keys that
/// it is slow on.
pub const EE_STALL_SECS: u64 = 3;

/// Whether the early exit application is slow on `key`: the key holds
/// `sherlock` or `tom`.
pub open spec fn ee_slow(key: Seq<char>) -> bool {
    has_substring(key, sherlock()) || has_substring(key, tom())
}

/// Early exit, map: one record for the file, whatever it holds: its name
/// with the value `1`.
pub fn ee_m(filename: &str, _contents: &str) -> (out: Vec<KeyValue>)
    ensures
        records(out@) == seq![(filename@, one())],
{
    proof {
        reveal_strlit("1");
        assert("1"@ == one());
    }
    let mut out: Vec<KeyValue> = Vec::new();
    out.push(KeyValue { key: filename.to_owned(), value: "1".to_owned() });
    assert(records(out@) == seq![(filename@, one())]);
    out
}

/// Early exit: the number of seconds to stall before `key` is reduced.
pub fn ee_stall_secs(key: &str) -> (secs: u64)
    ensures
        secs == if ee_slow(key@) {
            EE_STALL_SECS
        } else {
            0
        },
{
    proof {
        reveal_strlit("sherlock");
        reveal_strlit("tom");
        assert("sherlock"@ == sherlock());
        assert("tom"@ == tom());
    }
    if contains_text(key, "sherlock") || contains_text(key, "tom") {
        EE_STALL_SECS
    } else {
        0
    }
}

/// Early exit, reduce: the number of values, in decimal. The caller stalls
/// first, for as long as `ee_stall_secs` says.
pub fn ee_r(_key: &str, values: Vec<String>) -> (out: String)
    ensures
        out@ == decimal(values.len() as nat),
{
    decimal_string(values.len() as u64)
}

/// The text that the name of every marker file of the job count application
/// begins with.
pub open spec fn marker_prefix() -> Seq<char> {
    seq![
        'm',
        'r',
        '-',
        'w',
        'o',
        'r',
        'k',
        'e',
        'r',
        '-',
        'j',
        'o',
        'b',
        'c',
        'o',
        'u',
        'n',
        't',
    ]
}

/// The name of the marker file that the process `pid` makes on its call
/// number `count` of the job count application's map function.
pub open spec fn marker_name(pid: u32, count: u64) -> Seq<char> {
    marker_prefix() + seq!['-'] + decimal(pid as nat) + seq!['-'] + decimal(count as nat)
}

/// Job count: the name of the marker file to make.
pub fn jobcount_marker(pid: u32, count: u64) -> (out: String)
    ensures
        out@ == marker_name(pid, count),
{
    proof {
        reveal_strlit("mr-worker-jobcount");
        reveal_strlit("-");
        assert("mr-worker-jobcount"@ == marker_prefix());
        assert("-"@ == seq!['-']);
    }
    let mut out = "mr-worker-jobcount".to_owned();
    out.append("-");
    out.append(decimal_string(pid as u64).as_str());
    out.append("-");
    out.append(decimal_string(count).as_str());
    out
}

/// Job count: for how many milliseconds the map function stalls, two
/// seconds and a random part of up to three more.
pub fn jobcount_pause() -> (millis: u64)
    ensures
        2000 <= millis < 5000,
{
    2000 + draw_below(3000)
}

/// Job count, map: one fixed record, `a` with `x`. The caller makes the
/// marker file and stalls first.
pub fn jobcount_m(_filename: &str, _contents: &str) -> (out: Vec<KeyValue>)
    ensures
        records(out@) == seq![(seq!['a'], seq!['x'])],
{
    proof {
        reveal_strlit("a");
        reveal_strlit("x");
        assert("a"@ == seq!['a']);
        assert("x"@ == seq!['x']);
    }
    let mut out: Vec<KeyValue> = Vec::new();
    out.push(KeyValue { key: "a".to_owned(), value: "x".to_owned() });
    assert(records(out@) == seq![(seq!['a'], seq!['x'])]);
    out
}

/// The number of names that begin like the name of a marker file.
pub open spec fn count_markers(names: Seq<Seq<char>>) -> nat
    decreases names.len(),
{
    if names.len() == 0 {
        0
    } else if marker_prefix().is_prefix_of(names.last()) {
        count_markers(names.drop_last()) + 1
    } else {
        count_markers(names.drop_last())
    }
}

/// Job count, reduce: the number of marker files among the names of the
/// working directory's entries, which the caller lists, in decimal.
pub fn jobcount_r(names: &Vec<String>) -> (out: String)
    ensures
        out@ == decimal(count_markers(texts(names@))),
{
    proof {
        reveal_strlit("mr-worker-jobcount");
        assert("mr-worker-jobcount"@ == marker_prefix());
    }
    let mut found: u64 = 0;
    let mut i: usize = 0;
    while i < names.len()
        invariant
            i <= names.len(),
            "mr-worker-jobcount"@ == marker_prefix(),
            found == count_markers(texts(names@).take(i as int)),
            found <= i,
        decreases names.len() - i,
    {
        assert(texts(names@).take(i + 1).drop_last() == texts(names@).take(i as int));
        assert(texts(names@).take(i + 1).last() == names@[i as int]@);
        if starts_with(names[i].as_str(), "mr-worker-jobcount") {
            found += 1;
        }
        i += 1;
    }
    assert(texts(names@).take(i as int) == texts(names@));
    decimal_string(found)
}

/// What the crash simulator does to a call.
#[derive(Clone, Copy, Debug, PartialEq, Eq, Structural)]
pub enum Fault {
    /// Nothing: the call goes on.
    Proceed,
    /// The process ends at once.
    Crash,
    /// The call stalls for so many milliseconds and then goes on.
    Hang(u64),
}

/// What the crash simulator makes of a draw below a thousand.
#[derive(Clone, Copy, Debug, PartialEq, Eq, Structural)]
pub enum Lot {
    Proceed,
    Crash,
    Hang,
}

/// The lot for `draw`: below 330 a crash, from there below 660 a hang, from
/// there on neither.
pub open spec fn lot_for(draw: u64) -> Lot {
    if draw < 330 {
        Lot::Crash
    } else if draw < 660 {
        Lot::Hang
    } else {
        Lot::Proceed
    }
}

/// The lot for `draw`.
pub fn lot_of(draw: u64) -> (lot: Lot)
    ensures
        lot == lot_for(draw),
{
    if draw < 330 {
        Lot::Crash
    } else if draw < 660 {
        Lot::Hang
    } else {
        Lot::Proceed
    }
}

/// The lot that a fault comes from.
pub open spec fn lot_behind(fault: Fault) -> Lot {
    match fault {
        Fault::Proceed => Lot::Proceed,
        Fault::Crash => Lot::Crash,
        Fault::Hang(_) => Lot::Hang,
    }
}

/// Decides what the crash simulator does to a call. `toggle` is the value of
/// the switch in the environment, empty if it is not set. Unless the switch
/// is `1` nothing happens. If it is, a number below a thousand is drawn and
/// its lot decides; a hang lasts a random time below ten seconds.
pub fn maybe_crash(toggle: &str) -> (fault: Fault)
    ensures
        toggle@ != one() ==> fault == Fault::Proceed,
        toggle@ == one() ==> exists|draw: u64| draw < 1000 && lot_behind(fault) == #[trigger] lot_for(draw),
        fault matches Fault::Hang(millis) ==> millis < 10000,
{
    proof {
        reveal_strlit("1");
        assert("1"@ == one());
    }
    if !same_text(toggle, "1") {
        return Fault::Proceed;
    }
    let draw = draw_below(1000);
    let fault = match lot_of(draw) {
        Lot::Crash => Fault::Crash,
        Lot::Hang => Fault::Hang(draw_below(10000)),
        Lot::Proceed => Fault::Proceed,
    };
    assert(draw < 1000 && lot_behind(fault) == lot_for(draw));
    fault
}

/// The text `xyzzy`.
pub open spec fn xyzzy() -> Seq<char> {
    seq!['x', 'y', 'z', 'z', 'y']
}

/// The four records of the crash simulator for a file: `a` with its name,
/// `b` with the length of its name, `c` with the length of what it holds,
/// both in bytes, and `d` with `xyzzy`.
pub open spec fn crash_records(filename: Seq<char>, contents: Seq<char>) -> Seq<Record> {
    seq![
        (seq!['a'], filename),
        (seq!['b'], decimal(vstd::utf8::encode_utf8(filename).len())),
        (seq!['c'], decimal(vstd::utf8::encode_utf8(contents).len())),
        (seq!['d'], xyzzy()),
    ]
}

/// Crash simulator, map: four fixed records for the file. The caller acts
/// out the fault of `maybe_crash` first.
pub fn mc_m(filename: &str, contents: &str) -> (out: Vec<KeyValue>)
    ensures
        records(out@) == crash_records(filename@, contents@),
{
    proof {
        reveal_strlit("a");
        reveal_strlit("b");
        reveal_strlit("c");
        reveal_strlit("d");
        reveal_strlit("xyzzy");
        assert("a"@ == seq!['a']);
        assert("b"@ == seq!['b']);
        assert("c"@ == seq!['c']);
        assert("d"@ == seq!['d']);
        assert("xyzzy"@ == xyzzy());
    }
    let mut out: Vec<KeyValue> = Vec::new();
    out.push(KeyValue { key: "a".to_owned(), value: filename.to_owned() });
    let name_len = filename.as_bytes().len();
    let text_len = contents.as_bytes().len();
    out.push(KeyValue { key: "b".to_owned(), value: decimal_string(name_len as u64) });
    out.push(KeyValue { key: "c".to_owned(), value: decimal_string(text_len as u64) });
    out.push(KeyValue { key: "d".to_owned(), value: "xyzzy".to_owned() });
    assert(records(out@) == crash_records(filename@, contents@));
    out
}

/// Crash simulator, reduce: the values in order, with a space between each
/// two neighbours. The caller acts out the fault of `maybe_crash` first.
pub fn mc_r(_key: &str, values: Vec<String>) -> (out: String)
    ensures
        out@ == join(in_order(texts(values@)), seq![' ']),
{
    proof {
        reveal_strlit(" ");
        assert(" "@ == seq![' ']);
    }
    let ordered = sort_strings(values);
    proof {
        lemma_in_order(texts(values@), texts(ordered@));
    }
    join_strings(&ordered, " ")
}

/// The applications that come with the framework.
#[derive(Clone, Copy, Debug, PartialEq, Eq, Structural)]
pub enum Builtin {
    WordCount,
    Indexer,
    EarlyExit,
    JobCount,
    Crash,
}

/// The application that goes by `name`, if it is one of those that come
/// with the framework.
pub open spec fn builtin_for(name: Seq<char>) -> Option<Builtin> {
    if name == "app_wc"@ {
        Some(Builtin::WordCount)
    } else if name == "app_indexer"@ {
        Some(Builtin::Indexer)
    } else if name == "app_early_exit"@ {
        Some(Builtin::EarlyExit)
    } else if name == "app_jobcount"@ {
        Some(Builtin::JobCount)
    } else if name == "app_crash"@ {
        Some(Builtin::Crash)
    } else {
        None
    }
}

/// Looks an application up by its name. A name that is none of the five is
/// the name of a module for the caller to load.
pub fn builtin(name: &str) -> (app: Option<Builtin>)
    ensures
        app == builtin_for(name@),
{
    if same_text(name, "app_wc") {
        Some(Builtin::WordCount)
    } else if same_text(name, "app_indexer") {
        Some(Builtin::Indexer)
    } else if same_text(name, "app_early_exit") {
        Some(Builtin::EarlyExit)
    } else if same_text(name, "app_jobcount") {
        Some(Builtin::JobCount)
    } else if same_text(name, "app_crash") {
        Some(Builtin::Crash)
    } else {
        None
    }
}

} // verus!
