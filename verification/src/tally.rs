//! What a sequential run of the word count application writes: each word of
//! the input once, with the number of times it occurs.

use crate::apps::{one, tagged, Api, WordCount};
use crate::grouping::{groups, key_run, lemma_key_run_bound, values_of, Group};
use crate::record::{
    lemma_record_order, lemma_sort_of_sorts, record_le, sort_of, sorted, Record,
};
use crate::sequential::sequential_text;
use crate::text::{decimal, lemma_text_order, text_lt, words, CharClass};
use crate::worker::{emitted, flat, reduced, rendered};
use vstd::prelude::*;
use vstd::seq_lib::{lemma_multiset_commutative, to_multiset_build};

verus! {

/// The words of the files, those of the first file first.
pub open spec fn corpus_words(inputs: Seq<(Seq<char>, Seq<char>)>) -> Seq<Seq<char>>
    decreases inputs.len(),
{
    if inputs.len() == 0 {
        Seq::empty()
    } else {
        corpus_words(inputs.drop_last()) + words(inputs.last().1, CharClass::Alphabetic)
    }
}

/// Whether one of the records has the key `key`.
pub open spec fn has_key(s: Seq<Record>, key: Seq<char>) -> bool {
    exists|p: int| 0 <= p < s.len() && (#[trigger] s[p]).0 == key
}

/// Whether `results` tallies `ws`: it holds each word of `ws` once, in the
/// order of the words, with the number of times that the word occurs in
/// `ws`, in decimal.
pub open spec fn tallies(results: Seq<Record>, ws: Seq<Seq<char>>) -> bool {
    &&& forall|i: int|
        0 <= i < results.len() ==> ws.contains((#[trigger] results[i]).0) && results[i].1
            == decimal(ws.to_multiset().count(results[i].0))
    &&& forall|i: int, j: int|
        0 <= i < j < results.len() ==> text_lt((#[trigger] results[i]).0, (#[trigger] results[j]).0)
    &&& forall|m: int| 0 <= m < ws.len() ==> has_key(results, #[trigger] ws[m])
}

/// Whether every record of `s` has the value `v`.
pub open spec fn all_valued(s: Seq<Record>, v: Seq<char>) -> bool {
    forall|i: int| 0 <= i < s.len() ==> (#[trigger] s[i]).1 == v
}

proof fn lemma_tagged_count(ws: Seq<Seq<char>>, v: Seq<char>, w: Seq<char>)
    ensures
        tagged(ws, v).to_multiset().count((w, v)) == ws.to_multiset().count(w),
    decreases ws.len(),
{
    if ws.len() == 0 {
        tagged(ws, v).to_multiset_ensures();
        ws.to_multiset_ensures();
        assert(!tagged(ws, v).contains((w, v)));
        assert(!ws.contains(w));
    } else {
        let init = ws.drop_last();
        let last = ws.last();
        lemma_tagged_count(init, v, w);
        assert(ws == init.push(last));
        assert(tagged(ws, v) =~= tagged(init, v).push((last, v)));
        to_multiset_build(init, last);
        to_multiset_build(tagged(init, v), (last, v));
    }
}

proof fn lemma_tagged_concat(a: Seq<Seq<char>>, b: Seq<Seq<char>>, v: Seq<char>)
    ensures
        tagged(a + b, v) == tagged(a, v) + tagged(b, v),
{
    assert(tagged(a + b, v) =~= tagged(a, v) + tagged(b, v));
}

/// What the word count application emits for the files is their words, each
/// with the value `1`.
proof fn lemma_emitted_words(inputs: Seq<(Seq<char>, Seq<char>)>, outs: Seq<Seq<Record>>)
    requires
        emitted(&WordCount, inputs, outs),
    ensures
        flat(outs) == tagged(corpus_words(inputs), one()),
    decreases inputs.len(),
{
    if inputs.len() == 0 {
        assert(flat(outs) =~= tagged(corpus_words(inputs), one()));
    } else {
        let n = inputs.len() - 1;
        assert(WordCount.maps(inputs[n].0, inputs[n].1, outs[n]));
        assert forall|i: int| 0 <= i < inputs.drop_last().len() implies WordCount.maps(
            inputs.drop_last()[i].0,
            inputs.drop_last()[i].1,
            #[trigger] outs.drop_last()[i],
        ) by {
            assert(WordCount.maps(inputs[i].0, inputs[i].1, outs[i]));
        }
        lemma_emitted_words(inputs.drop_last(), outs.drop_last());
        lemma_tagged_concat(
            corpus_words(inputs.drop_last()),
            words(inputs.last().1, CharClass::Alphabetic),
            one(),
        );
    }
}

/// The records at the head of `s` that have the key `key` are a run: they
/// all have it, and the record after them, if there is one, has another.
proof fn lemma_key_run(s: Seq<Record>, key: Seq<char>)
    ensures
        key_run(s, key) <= s.len(),
        forall|i: int| 0 <= i < key_run(s, key) ==> (#[trigger] s[i]).0 == key,
        key_run(s, key) < s.len() ==> s[key_run(s, key) as int].0 != key,
    decreases s.len(),
{
    if s.len() > 0 && s[0].0 == key {
        lemma_key_run(s.skip(1), key);
        let n = key_run(s.skip(1), key) as int;
        assert forall|i: int| 0 <= i < n + 1 implies (#[trigger] s[i]).0 == key by {
            if i > 0 {
                assert(s.skip(1)[i - 1] == s[i]);
            }
        }
        if n + 1 < s.len() {
            assert(s.skip(1)[n] == s[n + 1]);
        }
    }
}

/// A sequence of equal records holds that record as often as it is long, and
/// no other record.
proof fn lemma_constant_count(s: Seq<Record>, r: Record, other: Record)
    requires
        forall|i: int| 0 <= i < s.len() ==> s[i] == r,
    ensures
        s.to_multiset().count(r) == s.len(),
        other != r ==> s.to_multiset().count(other) == 0,
    decreases s.len(),
{
    if s.len() == 0 {
        s.to_multiset_ensures();
        assert(!s.contains(r));
        assert(!s.contains(other));
    } else {
        let init = s.drop_last();
        assert forall|i: int| 0 <= i < init.len() implies init[i] == r by {
            assert(init[i] == s[i]);
        }
        lemma_constant_count(init, r, other);
        assert(s == init.push(s.last()));
        assert(s.last() == r);
        to_multiset_build(init, r);
    }
}

/// In a sorted sequence of records the keys after a run are all greater than
/// the key of the run.
proof fn lemma_after_run(s: Seq<Record>, n: int, j: int)
    requires
        sorted(s),
        0 < n <= j < s.len(),
        s[n].0 != s[0].0,
    ensures
        text_lt(s[0].0, s[j].0),
{
    assert(record_le(s[0], s[n]));
    lemma_text_order(s[0].0, s[n].0, s[j].0);
    lemma_text_order(s[n].0, s[0].0, s[j].0);
    if j > n {
        assert(record_le(s[n], s[j]));
        lemma_text_order(s[j].0, s[n].0, s[0].0);
    }
}

/// Whether group `i` of `gs` has as many values as `s` holds records of its
/// key with the value `v`, and at least one.
pub open spec fn counts_at(s: Seq<Record>, gs: Seq<Group>, v: Seq<char>, i: int) -> bool {
    gs[i].1.len() == s.to_multiset().count((gs[i].0, v)) && gs[i].1.len() > 0
}

/// Whether the key of group `i` of `gs` is the key of a record of `s`.
pub open spec fn key_from(s: Seq<Record>, gs: Seq<Group>, i: int) -> bool {
    exists|m: int| 0 <= m < s.len() && (#[trigger] s[m]).0 == gs[i].0
}

/// Whether the key of record `m` of `s` is the key of a group of `gs`.
pub open spec fn key_into(s: Seq<Record>, gs: Seq<Group>, m: int) -> bool {
    exists|i: int| 0 <= i < gs.len() && (#[trigger] gs[i]).0 == s[m].0
}

/// Whether `gs` groups `s`, a sequence of records with the value `v`, by
/// key: each group has as many values as `s` holds records of its key, the
/// keys of the groups go up, and they are the keys of `s`.
pub open spec fn group_facts(s: Seq<Record>, gs: Seq<Group>, v: Seq<char>) -> bool {
    &&& forall|i: int| 0 <= i < gs.len() ==> #[trigger] counts_at(s, gs, v, i)
    &&& forall|i: int, j: int|
        0 <= i < j < gs.len() ==> text_lt((#[trigger] gs[i]).0, (#[trigger] gs[j]).0)
    &&& forall|m: int| 0 <= m < s.len() ==> #[trigger] key_into(s, gs, m)
    &&& forall|i: int| 0 <= i < gs.len() ==> #[trigger] key_from(s, gs, i)
}

proof fn lemma_split_count(s: Seq<Record>, n: int, r: Record)
    requires
        0 <= n <= s.len(),
    ensures
        s.to_multiset().count(r) == s.take(n).to_multiset().count(r) + s.skip(n).to_multiset().count(
            r,
        ),
{
    assert(s == s.take(n) + s.skip(n));
    lemma_multiset_commutative(s.take(n), s.skip(n));
}

proof fn lemma_absent_count(s: Seq<Record>, r: Record)
    requires
        forall|j: int| 0 <= j < s.len() ==> (#[trigger] s[j]).0 != r.0,
    ensures
        s.to_multiset().count(r) == 0,
{
    s.to_multiset_ensures();
    if s.contains(r) {
        let j = choose|j: int| 0 <= j < s.len() && s[j] == r;
        assert(s[j].0 != r.0);
    }
}

/// One run and the groups of what follows it are the groups of the whole.
proof fn lemma_groups_step(s: Seq<Record>, v: Seq<char>, n: int, gr: Seq<Group>)
    requires
        0 < n <= s.len(),
        forall|i: int| 0 <= i < n ==> #[trigger] s[i] == (s[0].0, v),
        forall|j: int| n <= j < s.len() ==> text_lt(s[0].0, (#[trigger] s[j]).0),
        group_facts(s.skip(n), gr, v),
    ensures
        group_facts(s, seq![(s[0].0, values_of(s.take(n)))] + gr, v),
{
    let k = s[0].0;
    let head = s.take(n);
    let rest = s.skip(n);
    let first: Group = (k, values_of(head));
    let gs = seq![first] + gr;
    lemma_text_order(k, k, k);
    assert forall|i: int| 0 <= i < head.len() implies head[i] == (k, v) by {
        assert(head[i] == s[i]);
    }
    assert forall|j: int| 0 <= j < rest.len() implies (#[trigger] rest[j]).0 != k by {
        assert(rest[j] == s[j + n]);
        assert(text_lt(k, s[j + n].0));
    }
    assert forall|i: int| 0 <= i < gs.len() implies #[trigger] counts_at(s, gs, v, i) by {
        lemma_split_count(s, n, (gs[i].0, v));
        if i == 0 {
            assert(gs[0] == first);
            assert(values_of(head).len() == n);
            lemma_constant_count(head, (k, v), (k, v));
            lemma_absent_count(rest, (k, v));
        } else {
            assert(gs[i] == gr[i - 1]);
            assert(counts_at(rest, gr, v, i - 1));
            assert(key_from(rest, gr, i - 1));
            let m = choose|m: int| 0 <= m < rest.len() && (#[trigger] rest[m]).0 == gr[i - 1].0;
            assert(rest[m].0 != k);
            lemma_constant_count(head, (k, v), (gs[i].0, v));
        }
    }
    assert forall|i: int, j: int| 0 <= i < j < gs.len() implies text_lt(
        (#[trigger] gs[i]).0,
        (#[trigger] gs[j]).0,
    ) by {
        assert(gs[j] == gr[j - 1]);
        if i == 0 {
            assert(key_from(rest, gr, j - 1));
            let m = choose|m: int| 0 <= m < rest.len() && (#[trigger] rest[m]).0 == gr[j - 1].0;
            assert(rest[m] == s[m + n]);
            assert(text_lt(k, s[m + n].0));
        } else {
            assert(gs[i] == gr[i - 1]);
        }
    }
    assert forall|m: int| 0 <= m < s.len() implies #[trigger] key_into(s, gs, m) by {
        if m < n {
            assert(s[m] == (k, v));
            assert(gs[0].0 == s[m].0);
        } else {
            assert(rest[m - n] == s[m]);
            assert(key_into(rest, gr, m - n));
            let i = choose|i: int| 0 <= i < gr.len() && (#[trigger] gr[i]).0 == rest[m - n].0;
            assert(gs[i + 1] == gr[i]);
            assert(gs[i + 1].0 == s[m].0);
        }
    }
    assert forall|i: int| 0 <= i < gs.len() implies #[trigger] key_from(s, gs, i) by {
        if i == 0 {
            assert(s[0].0 == gs[0].0);
        } else {
            assert(gs[i] == gr[i - 1]);
            assert(key_from(rest, gr, i - 1));
            let m = choose|m: int| 0 <= m < rest.len() && (#[trigger] rest[m]).0 == gr[i - 1].0;
            assert(rest[m] == s[m + n]);
            assert(s[m + n].0 == gs[i].0);
        }
    }
}

/// What a run at the head of a sorted sequence of records with the value `v`
/// looks like: its records are all the same, and every key after it is
/// greater than its key.
proof fn lemma_head_run(s: Seq<Record>, v: Seq<char>)
    requires
        sorted(s),
        all_valued(s, v),
        s.len() > 0,
    ensures
        0 < key_run(s, s[0].0) <= s.len(),
        forall|i: int| 0 <= i < key_run(s, s[0].0) ==> #[trigger] s[i] == (s[0].0, v),
        forall|j: int| key_run(s, s[0].0) <= j < s.len() ==> text_lt(s[0].0, (#[trigger] s[j]).0),
        sorted(s.skip(key_run(s, s[0].0) as int)),
        all_valued(s.skip(key_run(s, s[0].0) as int), v),
{
    let k = s[0].0;
    let n = key_run(s, k) as int;
    lemma_key_run(s, k);
    lemma_key_run_bound(s, k);
    let rest = s.skip(n);
    assert forall|i: int| 0 <= i < n implies #[trigger] s[i] == (k, v) by {
        assert(s[i].0 == k && s[i].1 == v);
    }
    assert forall|j: int| n <= j < s.len() implies text_lt(k, (#[trigger] s[j]).0) by {
        lemma_after_run(s, n, j);
    }
    assert forall|i: int, j: int| 0 <= i < j < rest.len() implies record_le(rest[i], rest[j]) by {
        assert(rest[i] == s[i + n] && rest[j] == s[j + n]);
    }
    assert forall|i: int| 0 <= i < rest.len() implies (#[trigger] rest[i]).1 == v by {
        assert(rest[i] == s[i + n]);
    }
}

/// The groups of a sorted sequence of records that all have the value `v`
/// group it by key.
proof fn lemma_groups_count(s: Seq<Record>, v: Seq<char>)
    requires
        sorted(s),
        all_valued(s, v),
    ensures
        group_facts(s, groups(s), v),
    decreases s.len(),
{
    if s.len() > 0 {
        let n = key_run(s, s[0].0) as int;
        lemma_head_run(s, v);
        lemma_groups_count(s.skip(n), v);
        lemma_groups_step(s, v, n, groups(s.skip(n)));
    }
}

/// What is sorted from records that all have the value `v` holds only
/// records with that value, and each of the records.
proof fn lemma_sorted_tagged(ws: Seq<Seq<char>>, v: Seq<char>)
    ensures
        all_valued(sort_of(tagged(ws, v)), v),
        forall|m: int| 0 <= m < ws.len() ==> has_key(sort_of(tagged(ws, v)), #[trigger] ws[m]),
{
    let all = tagged(ws, v);
    let s = sort_of(all);
    lemma_sort_of_sorts(all);
    s.to_multiset_ensures();
    all.to_multiset_ensures();
    assert forall|i: int| 0 <= i < s.len() implies (#[trigger] s[i]).1 == v by {
        assert(s.contains(s[i]));
        assert(s.to_multiset().count(s[i]) > 0);
        assert(all.to_multiset().count(s[i]) > 0);
        assert(all.contains(s[i]));
        let m = choose|m: int| 0 <= m < all.len() && all[m] == s[i];
        assert(all[m].1 == v);
    }
    assert forall|m: int| 0 <= m < ws.len() implies has_key(s, #[trigger] ws[m]) by {
        assert(all[m] == (ws[m], v));
        assert(all.contains(all[m]));
        assert(all.to_multiset().count(all[m]) > 0);
        assert(s.to_multiset().count(all[m]) > 0);
        assert(s.contains(all[m]));
        let p = choose|p: int| 0 <= p < s.len() && s[p] == all[m];
        assert(s[p].0 == ws[m]);
    }
}

/// Reducing the groups of the sorted words by counting tallies the words.
proof fn lemma_counted_groups(ws: Seq<Seq<char>>, results: Seq<Record>)
    requires
        reduced(&WordCount, groups(sort_of(tagged(ws, one()))), results),
    ensures
        tallies(results, ws),
{
    let all = tagged(ws, one());
    let s = sort_of(all);
    let gs = groups(s);
    lemma_sort_of_sorts(all);
    lemma_sorted_tagged(ws, one());
    lemma_groups_count(s, one());
    ws.to_multiset_ensures();
    assert forall|i: int| 0 <= i < results.len() implies ws.contains((#[trigger] results[i]).0)
        && results[i].1 == decimal(ws.to_multiset().count(results[i].0)) by {
        assert(results[i].0 == gs[i].0);
        assert(WordCount.reduces(gs[i].0, gs[i].1, results[i].1));
        assert(counts_at(s, gs, one(), i));
        lemma_tagged_count(ws, one(), gs[i].0);
        assert(ws.to_multiset().count(gs[i].0) > 0);
    }
    assert forall|i: int, j: int| 0 <= i < j < results.len() implies text_lt(
        (#[trigger] results[i]).0,
        (#[trigger] results[j]).0,
    ) by {
        assert(results[i].0 == gs[i].0 && results[j].0 == gs[j].0);
    }
    assert forall|m: int| 0 <= m < ws.len() implies has_key(results, #[trigger] ws[m]) by {
        assert(has_key(s, ws[m]));
        let p = choose|p: int| 0 <= p < s.len() && (#[trigger] s[p]).0 == ws[m];
        assert(key_into(s, gs, p));
        let i = choose|i: int| 0 <= i < gs.len() && (#[trigger] gs[i]).0 == s[p].0;
        assert(results[i].0 == gs[i].0);
    }
}

/// A sequential run of the word count application tallies the words of the
/// files: its output has one line for each word, in the order of the words,
/// with the number of times that the word occurs in all the files together.
pub proof fn lemma_word_count_tallies(inputs: Seq<(Seq<char>, Seq<char>)>, text: Seq<char>)
    requires
        sequential_text(&WordCount, inputs, text),
    ensures
        exists|results: Seq<Record>| #[trigger]
            tallies(results, corpus_words(inputs)) && text == rendered(results),
{
    let (outs, results) = choose|outs: Seq<Seq<Record>>, results: Seq<Record>| #[trigger]
        emitted(&WordCount, inputs, outs) && #[trigger] reduced(
            &WordCount,
            groups(sort_of(flat(outs))),
            results,
        ) && text == rendered(results);
    lemma_emitted_words(inputs, outs);
    lemma_counted_groups(corpus_words(inputs), results);
}

} // verus!
