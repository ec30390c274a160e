//! Runs of records that share a key, and lists without repetitions.

use crate::record::{records, KeyValue, Record};
use crate::text::texts;
use itertools::Itertools;
use vstd::prelude::*;

verus! {

/// A key with the values of one run of records, as plain values.
pub type Group = (Seq<char>, Seq<Seq<char>>);

/// The number of leading records of `s` whose key is `key`.
pub open spec fn key_run(s: Seq<Record>, key: Seq<char>) -> nat
    decreases s.len(),
{
    if s.len() == 0 || s[0].0 != key {
        0
    } else {
        1 + key_run(s.skip(1), key)
    }
}

/// A run of records with `key` is no longer than the sequence it starts.
pub proof fn lemma_key_run_bound(s: Seq<Record>, key: Seq<char>)
    ensures
        key_run(s, key) <= s.len(),
        s.len() > 0 && s[0].0 == key ==> key_run(s, key) >= 1,
    decreases s.len(),
{
    if s.len() > 0 && s[0].0 == key {
        lemma_key_run_bound(s.skip(1), key);
    }
}

/// The values of the records, in order.
pub open spec fn values_of(s: Seq<Record>) -> Seq<Seq<char>> {
    s.map_values(|r: Record| r.1)
}

/// The records cut into runs: neighbours with the same key go into one
/// group, a change of key begins the next. Each group has the key of its run
/// and the values of its records, in order.
pub open spec fn groups(s: Seq<Record>) -> Seq<Group>
    decreases s.len(),
{
    if s.len() == 0 {
        Seq::empty()
    } else {
        let n = key_run(s, s[0].0) as int;
        proof {
            lemma_key_run_bound(s, s[0].0);
        }
        seq![(s[0].0, values_of(s.take(n)))] + groups(s.skip(n))
    }
}

/// The views of a list of groups.
pub open spec fn grouped(v: Seq<(String, Vec<String>)>) -> Seq<Group> {
    v.map_values(|g: (String, Vec<String>)| (g.0@, texts(g.1@)))
}

/// `Itertools::group_by` with the record's key as the key of a group: it
/// puts neighbours that have equal keys into one group and begins a new group
/// where the key changes. A group is handed over as its key and the values of
/// its records, in the order of the records.
#[verifier::external_body]
pub(crate) fn group_by_key(input: Vec<KeyValue>) -> (out: Vec<(String, Vec<String>)>)
    ensures
        grouped(out@) == groups(records(input@)),
{
    let runs = input.into_iter().group_by(|kv| kv.key.clone());
    runs.into_iter().map(|(key, run)| (key, run.map(|kv| kv.value).collect())).collect()
}

/// `s` without repetitions: of equal items the first stays, and what stays
/// keeps its order.
pub open spec fn distinct(s: Seq<Seq<char>>) -> Seq<Seq<char>>
    decreases s.len(),
{
    if s.len() == 0 {
        s
    } else if s.drop_last().contains(s.last()) {
        distinct(s.drop_last())
    } else {
        distinct(s.drop_last()).push(s.last())
    }
}

/// `Itertools::unique` drops each item that has come before: of equal
/// strings the first is kept, and the order of what is kept does not change.
#[verifier::external_body]
pub(crate) fn unique(words: Vec<String>) -> (out: Vec<String>)
    ensures
        texts(out@) == distinct(texts(words@)),
{
    words.into_iter().unique().collect()
}

} // verus!
