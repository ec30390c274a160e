//! Records: the key and value pairs that map emits and reduce consumes, and
//! their order.

use crate::text::{lemma_text_order, text_before, text_lt, texts};
use std::cmp::Ordering;
use vstd::multiset::Multiset;
use vstd::prelude::*;
use vstd::seq_lib::to_multiset_build;
use vstd::std_specs::cmp::{PartialEqSpecImpl, PartialOrdSpecImpl};

verus! {

/// A key with a value. Records are ordered by key, and by value where the
/// keys are equal.
#[derive(Debug, Ord)]
pub struct KeyValue {
    pub key: String,
    pub value: String,
}

/// A record as plain values: the key, then the value.
pub type Record = (Seq<char>, Seq<char>);

impl View for KeyValue {
    type V = Record;

    open spec fn view(&self) -> Record {
        (self.key@, self.value@)
    }
}

impl Clone for KeyValue {
    fn clone(&self) -> (out: Self)
        ensures
            out@ == self@,
    {
        KeyValue { key: self.key.clone(), value: self.value.clone() }
    }
}

impl PartialEq for KeyValue {
    fn eq(&self, other: &Self) -> (r: bool) {
        self.key == other.key && self.value == other.value
    }
}

impl PartialEqSpecImpl for KeyValue {
    open spec fn obeys_eq_spec() -> bool {
        true
    }

    open spec fn eq_spec(&self, other: &Self) -> bool {
        self@ == other@
    }
}

impl Eq for KeyValue {

}

/// The views of a sequence of records.
pub open spec fn records(v: Seq<KeyValue>) -> Seq<Record> {
    v.map_values(|r: KeyValue| r@)
}

/// The order of records: by key, and by value where the keys are equal.
pub open spec fn record_lt(a: Record, b: Record) -> bool {
    text_lt(a.0, b.0) || (a.0 == b.0 && text_lt(a.1, b.1))
}

/// Whether `a` does not come after `b`.
pub open spec fn record_le(a: Record, b: Record) -> bool {
    !record_lt(b, a)
}

/// Whether no record of `s` comes after a later one.
pub open spec fn sorted(s: Seq<Record>) -> bool {
    forall|i: int, j: int| 0 <= i < j < s.len() ==> record_le(s[i], s[j])
}

/// The order of records is a total order: each record is at most itself, the
/// order is transitive, any two records are ordered one way or the other, and
/// two records that are each at most the other are the same record.
pub proof fn lemma_record_order(a: Record, b: Record, c: Record)
    ensures
        record_le(a, a),
        record_le(a, b) && record_le(b, c) ==> record_le(a, c),
        record_le(a, b) || record_le(b, a),
        record_le(a, b) && record_le(b, a) ==> a == b,
{
    lemma_text_order(a.0, a.0, a.0);
    lemma_text_order(a.1, a.1, a.1);
    lemma_text_order(a.0, b.0, c.0);
    lemma_text_order(a.1, b.1, c.1);
    lemma_text_order(b.0, a.0, c.0);
    lemma_text_order(b.1, a.1, c.1);
    lemma_text_order(c.0, b.0, a.0);
    lemma_text_order(c.1, b.1, a.1);
    lemma_text_order(c.0, a.0, b.0);
    lemma_text_order(c.1, a.1, b.1);
    lemma_text_order(b.0, c.0, a.0);
    lemma_text_order(b.1, c.1, a.1);
    lemma_text_order(a.0, c.0, b.0);
    lemma_text_order(a.1, c.1, b.1);
}

impl PartialOrd for KeyValue {
    fn partial_cmp(&self, other: &Self) -> (r: Option<Ordering>) {
        if self.precedes(other) {
            Some(Ordering::Less)
        } else if self.key == other.key && self.value == other.value {
            Some(Ordering::Equal)
        } else {
            Some(Ordering::Greater)
        }
    }
}

impl PartialOrdSpecImpl for KeyValue {
    open spec fn obeys_partial_cmp_spec() -> bool {
        true
    }

    open spec fn partial_cmp_spec(&self, other: &Self) -> Option<Ordering> {
        if record_lt(self@, other@) {
            Some(Ordering::Less)
        } else if self@ == other@ {
            Some(Ordering::Equal)
        } else {
            Some(Ordering::Greater)
        }
    }
}

impl KeyValue {
    /// Whether this record comes strictly before `other`.
    pub fn precedes(&self, other: &KeyValue) -> (r: bool)
        ensures
            r == record_lt(self@, other@),
    {
        if text_before(self.key.as_str(), other.key.as_str()) {
            true
        } else if self.key == other.key {
            text_before(self.value.as_str(), other.value.as_str())
        } else {
            false
        }
    }
}

/// Whether no record of `s` comes before a later one.
pub open spec fn sorted_down(s: Seq<Record>) -> bool {
    forall|i: int, j: int| 0 <= i < j < s.len() ==> record_le(s[j], s[i])
}

/// Whether every record of `low` is at most every record of `high`.
pub open spec fn all_le(low: Seq<Record>, high: Seq<Record>) -> bool {
    forall|i: int, j: int| 0 <= i < low.len() && 0 <= j < high.len() ==> record_le(low[i], high[j])
}

proof fn lemma_no_records(v: Seq<KeyValue>)
    requires
        v.len() == 0,
    ensures
        records(v).to_multiset() == Multiset::<Record>::empty(),
{
    records(v).to_multiset_ensures();
    assert(records(v).to_multiset() =~= Multiset::<Record>::empty());
}

proof fn lemma_records_push(v: Seq<KeyValue>, x: KeyValue)
    ensures
        records(v.push(x)) == records(v).push(x@),
        records(v.push(x)).to_multiset() == records(v).to_multiset().insert(x@),
{
    assert(records(v.push(x)) =~= records(v).push(x@));
    to_multiset_build(records(v), x@);
}

proof fn lemma_records_pop(v: Seq<KeyValue>)
    requires
        v.len() > 0,
    ensures
        records(v) == records(v.drop_last()).push(v.last()@),
        records(v).to_multiset() == records(v.drop_last()).to_multiset().insert(v.last()@),
{
    assert(v == v.drop_last().push(v.last()));
    lemma_records_push(v.drop_last(), v.last());
}

/// Moves the records of `down`, which go down, into a list that goes up.
fn turn(down: Vec<KeyValue>) -> (up: Vec<KeyValue>)
    requires
        sorted_down(records(down@)),
    ensures
        sorted(records(up@)),
        records(up@).to_multiset() == records(down@).to_multiset(),
{
    let mut down = down;
    let mut up: Vec<KeyValue> = Vec::new();
    let ghost whole = records(down@).to_multiset();
    proof {
        lemma_no_records(up@);
    }
    while down.len() > 0
        invariant
            sorted_down(records(down@)),
            sorted(records(up@)),
            all_le(records(up@), records(down@)),
            records(up@).to_multiset().add(records(down@).to_multiset()) == whole,
        decreases down.len(),
    {
        let ghost d0 = down@;
        let ghost u0 = up@;
        let x = down.pop().unwrap();
        up.push(x);
        proof {
            lemma_records_pop(d0);
            lemma_records_push(u0, x);
            assert(records(up@).to_multiset().add(records(down@).to_multiset()) =~= whole);
            let u = records(up@);
            let d = records(down@);
            assert forall|i: int, j: int| 0 <= i < j < u.len() implies record_le(u[i], u[j]) by {
                if j == u.len() - 1 {
                    assert(u[j] == records(d0)[d0.len() - 1]);
                    assert(u[i] == records(u0)[i]);
                }
            }
            assert forall|i: int, j: int| 0 <= i < u.len() && 0 <= j < d.len() implies record_le(
                u[i],
                d[j],
            ) by {
                assert(d[j] == records(d0)[j]);
                if i == u.len() - 1 {
                    assert(u[i] == records(d0)[d0.len() - 1]);
                } else {
                    assert(u[i] == records(u0)[i]);
                }
            }
            assert forall|i: int, j: int| 0 <= i < j < d.len() implies record_le(d[j], d[i]) by {
                assert(d[j] == records(d0)[j] && d[i] == records(d0)[i]);
            }
        }
    }
    proof {
        lemma_no_records(down@);
        assert(records(up@).to_multiset() =~= whole);
    }
    up
}

/// Merges two sorted lists into one.
fn merge(a: Vec<KeyValue>, b: Vec<KeyValue>) -> (out: Vec<KeyValue>)
    requires
        sorted(records(a@)),
        sorted(records(b@)),
    ensures
        sorted(records(out@)),
        records(out@).to_multiset() == records(a@).to_multiset().add(records(b@).to_multiset()),
{
    let ghost whole = records(a@).to_multiset().add(records(b@).to_multiset());
    let mut a = a;
    let mut b = b;
    let mut down: Vec<KeyValue> = Vec::new();
    proof {
        lemma_no_records(down@);
    }
    assert(records(down@).to_multiset().add(records(a@).to_multiset()).add(
        records(b@).to_multiset(),
    ) =~= whole);
    while a.len() > 0 || b.len() > 0
        invariant
            sorted(records(a@)),
            sorted(records(b@)),
            sorted_down(records(down@)),
            all_le(records(a@), records(down@)),
            all_le(records(b@), records(down@)),
            records(down@).to_multiset().add(records(a@).to_multiset()).add(
                records(b@).to_multiset(),
            ) == whole,
        decreases a.len() + b.len(),
    {
        let ghost a0 = a@;
        let ghost b0 = b@;
        let ghost d0 = down@;
        let from_a = if b.len() == 0 {
            true
        } else if a.len() == 0 {
            false
        } else {
            !a[a.len() - 1].precedes(&b[b.len() - 1])
        };
        let x = if from_a {
            a.pop().unwrap()
        } else {
            b.pop().unwrap()
        };
        down.push(x);
        proof {
            lemma_records_push(d0, x);
            if from_a {
                lemma_records_pop(a0);
            } else {
                lemma_records_pop(b0);
            }
            assert(records(down@).to_multiset().add(records(a@).to_multiset()).add(
                records(b@).to_multiset(),
            ) =~= whole);
            let ra = records(a@);
            let rb = records(b@);
            let rd = records(down@);
            assert forall|i: int, j: int| 0 <= i < j < ra.len() implies record_le(ra[i], ra[j]) by {
                assert(ra[i] == records(a0)[i] && ra[j] == records(a0)[j]);
            }
            assert forall|i: int, j: int| 0 <= i < j < rb.len() implies record_le(rb[i], rb[j]) by {
                assert(rb[i] == records(b0)[i] && rb[j] == records(b0)[j]);
            }
            assert forall|i: int, j: int| 0 <= i < j < rd.len() implies record_le(rd[j], rd[i]) by {
                assert(rd[i] == records(d0)[i]);
                if j == rd.len() - 1 {
                    if from_a {
                        assert(rd[j] == records(a0)[a0.len() - 1]);
                    } else {
                        assert(rd[j] == records(b0)[b0.len() - 1]);
                    }
                } else {
                    assert(rd[j] == records(d0)[j]);
                }
            }
            assert forall|i: int, j: int| 0 <= i < ra.len() && 0 <= j < rd.len() implies record_le(
                ra[i],
                rd[j],
            ) by {
                assert(ra[i] == records(a0)[i]);
                if j == rd.len() - 1 {
                    if from_a {
                        assert(rd[j] == records(a0)[a0.len() - 1]);
                    } else {
                        let top_a = records(a0)[a0.len() - 1];
                        let top_b = records(b0)[b0.len() - 1];
                        assert(rd[j] == top_b);
                        lemma_record_order(top_a, top_b, top_b);
                        lemma_record_order(ra[i], top_a, top_b);
                    }
                } else {
                    assert(rd[j] == records(d0)[j]);
                }
            }
            assert forall|i: int, j: int| 0 <= i < rb.len() && 0 <= j < rd.len() implies record_le(
                rb[i],
                rd[j],
            ) by {
                assert(rb[i] == records(b0)[i]);
                if j == rd.len() - 1 {
                    if from_a {
                        let top_a = records(a0)[a0.len() - 1];
                        let top_b = records(b0)[b0.len() - 1];
                        assert(rd[j] == top_a);
                        lemma_record_order(rb[i], top_b, top_a);
                    } else {
                        assert(rd[j] == records(b0)[b0.len() - 1]);
                    }
                } else {
                    assert(rd[j] == records(d0)[j]);
                }
            }
        }
    }
    proof {
        lemma_no_records(a@);
        lemma_no_records(b@);
        assert(records(down@).to_multiset() =~= whole);
    }
    turn(down)
}

/// Sorts the records by key, and by value where the keys are equal.
pub fn sort_records(v: Vec<KeyValue>) -> (out: Vec<KeyValue>)
    ensures
        sorted(records(out@)),
        records(out@).to_multiset() == records(v@).to_multiset(),
    decreases v.len(),
{
    if v.len() <= 1 {
        return v;
    }
    let mid = v.len() / 2;
    let mut left = v;
    let right = left.split_off(mid);
    proof {
        let l = left@;
        let r = right@;
        assert(v@ == l + r);
        assert(records(v@) =~= records(l) + records(r));
        vstd::seq_lib::lemma_multiset_commutative(records(l), records(r));
    }
    let left = sort_records(left);
    let right = sort_records(right);
    merge(left, right)
}

/// A collection of records can be sorted in one way only: two sorted
/// sequences that hold the same records, each as often as the other, are the
/// same sequence. So sorting gives the same result every time.
pub proof fn lemma_sorted_unique(a: Seq<Record>, b: Seq<Record>)
    requires
        sorted(a),
        sorted(b),
        a.to_multiset() == b.to_multiset(),
    ensures
        a == b,
    decreases a.len(),
{
    a.to_multiset_ensures();
    b.to_multiset_ensures();
    if a.len() == 0 {
        assert(a =~= b);
    } else {
        assert(a.contains(a[0]));
        assert(a.to_multiset().count(a[0]) > 0);
        assert(b.to_multiset().count(a[0]) > 0);
        assert(b.contains(a[0]));
        let k = choose|k: int| 0 <= k < b.len() && b[k] == a[0];
        assert(b.contains(b[0]));
        assert(b.to_multiset().count(b[0]) > 0);
        assert(a.to_multiset().count(b[0]) > 0);
        assert(a.contains(b[0]));
        let l = choose|l: int| 0 <= l < a.len() && a[l] == b[0];
        lemma_record_order(a[0], b[0], a[0]);
        if k > 0 {
            assert(record_le(b[0], b[k]));
        }
        if l > 0 {
            assert(record_le(a[0], a[l]));
        }
        assert(a[0] == b[0]);
        let ra = a.remove(0);
        let rb = b.remove(0);
        assert(ra.to_multiset() == rb.to_multiset());
        assert forall|i: int, j: int| 0 <= i < j < ra.len() implies record_le(ra[i], ra[j]) by {
            assert(ra[i] == a[i + 1] && ra[j] == a[j + 1]);
        }
        assert forall|i: int, j: int| 0 <= i < j < rb.len() implies record_le(rb[i], rb[j]) by {
            assert(rb[i] == b[i + 1] && rb[j] == b[j + 1]);
        }
        lemma_sorted_unique(ra, rb);
        assert(a =~= seq![a[0]] + ra);
        assert(b =~= seq![b[0]] + rb);
    }
}

/// Whether no text of `s` comes after a later one.
pub open spec fn texts_sorted(s: Seq<Seq<char>>) -> bool {
    forall|i: int, j: int| 0 <= i < j < s.len() ==> !text_lt(s[j], s[i])
}

/// Each text as the key of a record with an empty value.
pub open spec fn keyed(s: Seq<Seq<char>>) -> Seq<Record> {
    s.map_values(|t: Seq<char>| (t, Seq::<char>::empty()))
}

proof fn lemma_keyed_count(s: Seq<Seq<char>>, r: Record)
    ensures
        keyed(s).to_multiset().count(r) == if r.1 == Seq::<char>::empty() {
            s.to_multiset().count(r.0)
        } else {
            0
        },
    decreases s.len(),
{
    if s.len() == 0 {
        keyed(s).to_multiset_ensures();
        s.to_multiset_ensures();
        assert(!keyed(s).contains(r));
        assert(!s.contains(r.0));
    } else {
        let init = s.drop_last();
        let last = s.last();
        lemma_keyed_count(init, r);
        assert(s == init.push(last));
        assert(keyed(s) =~= keyed(init).push((last, Seq::<char>::empty())));
        to_multiset_build(init, last);
        to_multiset_build(keyed(init), (last, Seq::<char>::empty()));
        if (last, Seq::<char>::empty()) == r {
            assert(last == r.0);
        }
    }
}

proof fn lemma_keyed_multiset(a: Seq<Seq<char>>, b: Seq<Seq<char>>)
    ensures
        a.to_multiset() == b.to_multiset() <==> keyed(a).to_multiset() == keyed(b).to_multiset(),
{
    if a.to_multiset() == b.to_multiset() {
        assert forall|r: Record| keyed(a).to_multiset().count(r) == keyed(b).to_multiset().count(
            r,
        ) by {
            lemma_keyed_count(a, r);
            lemma_keyed_count(b, r);
        }
        assert(keyed(a).to_multiset() =~= keyed(b).to_multiset());
    }
    if keyed(a).to_multiset() == keyed(b).to_multiset() {
        assert forall|t: Seq<char>| a.to_multiset().count(t) == b.to_multiset().count(t) by {
            lemma_keyed_count(a, (t, Seq::<char>::empty()));
            lemma_keyed_count(b, (t, Seq::<char>::empty()));
        }
        assert(a.to_multiset() =~= b.to_multiset());
    }
}

proof fn lemma_keyed_sorted(s: Seq<Seq<char>>)
    ensures
        texts_sorted(s) <==> sorted(keyed(s)),
{
    let k = keyed(s);
    if texts_sorted(s) {
        assert forall|i: int, j: int| 0 <= i < j < k.len() implies record_le(k[i], k[j]) by {
            lemma_text_order(Seq::<char>::empty(), s[i], s[j]);
            assert(!text_lt(s[j], s[i]));
        }
    }
    if sorted(k) {
        assert forall|i: int, j: int| 0 <= i < j < s.len() implies !text_lt(s[j], s[i]) by {
            assert(record_le(k[i], k[j]));
        }
    }
}

/// A collection of texts can be sorted in one way only.
pub proof fn lemma_sorted_texts_unique(a: Seq<Seq<char>>, b: Seq<Seq<char>>)
    requires
        texts_sorted(a),
        texts_sorted(b),
        a.to_multiset() == b.to_multiset(),
    ensures
        a == b,
{
    lemma_keyed_sorted(a);
    lemma_keyed_sorted(b);
    lemma_keyed_multiset(a, b);
    lemma_sorted_unique(keyed(a), keyed(b));
    assert(a.len() == keyed(a).len() && b.len() == keyed(b).len());
    assert forall|i: int| 0 <= i < a.len() implies a[i] == b[i] by {
        assert(keyed(a)[i].0 == a[i]);
        assert(keyed(b)[i].0 == b[i]);
    }
    assert(a =~= b);
}

/// Sorts the strings.
pub fn sort_strings(v: Vec<String>) -> (out: Vec<String>)
    ensures
        texts_sorted(texts(out@)),
        texts(out@).to_multiset() == texts(v@).to_multiset(),
{
    let mut wrapped: Vec<KeyValue> = Vec::new();
    let mut i: usize = 0;
    while i < v.len()
        invariant
            i <= v.len(),
            records(wrapped@) == keyed(texts(v@)).take(i as int),
        decreases v.len() - i,
    {
        wrapped.push(KeyValue { key: v[i].clone(), value: String::new() });
        assert(records(wrapped@) == keyed(texts(v@)).take(i as int).push(
            (v@[i as int]@, Seq::<char>::empty()),
        ));
        assert(keyed(texts(v@)).take(i + 1) == keyed(texts(v@)).take(i as int).push(
            (v@[i as int]@, Seq::<char>::empty()),
        ));
        i += 1;
    }
    assert(keyed(texts(v@)).take(i as int) == keyed(texts(v@)));
    let ordered = sort_records(wrapped);
    proof {
        records(ordered@).to_multiset_ensures();
        keyed(texts(v@)).to_multiset_ensures();
    }
    let mut out: Vec<String> = Vec::new();
    let mut j: usize = 0;
    while j < ordered.len()
        invariant
            j <= ordered.len(),
            out.len() == j,
            keyed(texts(out@)) == records(ordered@).take(j as int),
            records(ordered@).to_multiset() == keyed(texts(v@)).to_multiset(),
        decreases ordered.len() - j,
    {
        proof {
            let r = records(ordered@)[j as int];
            assert(records(ordered@).contains(r));
            assert(records(ordered@).to_multiset().count(r) > 0) by {
                records(ordered@).to_multiset_ensures();
            }
            lemma_keyed_count(texts(v@), r);
            assert(r.1 == Seq::<char>::empty());
        }
        let ghost before = out@;
        out.push(ordered[j].key.clone());
        assert(keyed(texts(out@)) =~= keyed(texts(before)).push(records(ordered@)[j as int]));
        assert(records(ordered@).take(j + 1) == records(ordered@).take(j as int).push(
            records(ordered@)[j as int],
        ));
        j += 1;
    }
    proof {
        assert(records(ordered@).take(j as int) == records(ordered@));
        lemma_keyed_sorted(texts(out@));
        lemma_keyed_multiset(texts(out@), texts(v@));
    }
    out
}

/// The texts of `s` in order: the one sorted sequence that holds the same
/// texts, each as often as `s` does.
pub open spec fn in_order(s: Seq<Seq<char>>) -> Seq<Seq<char>> {
    choose|t: Seq<Seq<char>>| texts_sorted(t) && t.to_multiset() == s.to_multiset()
}

/// A sorted sequence that holds the texts of `s` is `s` in order.
pub proof fn lemma_in_order(s: Seq<Seq<char>>, t: Seq<Seq<char>>)
    requires
        texts_sorted(t),
        t.to_multiset() == s.to_multiset(),
    ensures
        in_order(s) == t,
{
    lemma_sorted_texts_unique(in_order(s), t);
}

/// The records of `s` in order: the one sorted sequence that holds the same
/// records, each as often as `s` does.
pub open spec fn sort_of(s: Seq<Record>) -> Seq<Record> {
    choose|t: Seq<Record>| sorted(t) && t.to_multiset() == s.to_multiset()
}

/// A sorted sequence that holds the records of `s` is `s` in order.
pub proof fn lemma_sort_of(s: Seq<Record>, t: Seq<Record>)
    requires
        sorted(t),
        t.to_multiset() == s.to_multiset(),
    ensures
        sort_of(s) == t,
{
    lemma_sorted_unique(sort_of(s), t);
}

/// Every collection of records has a sorted arrangement, so `sort_of` is one:
/// it is sorted and holds the records of `s`, each as often as `s` does.
pub proof fn lemma_sort_of_sorts(s: Seq<Record>)
    ensures
        sorted(sort_of(s)),
        sort_of(s).to_multiset() == s.to_multiset(),
{
    let leq = |a: Record, b: Record| record_le(a, b);
    assert(vstd::relations::total_ordering(leq)) by {
        assert forall|x: Record| #[trigger] leq(x, x) by {
            lemma_record_order(x, x, x);
        }
        assert forall|x: Record, y: Record| #[trigger] leq(x, y) && #[trigger] leq(y, x) implies x
            == y by {
            lemma_record_order(x, y, x);
        }
        assert forall|x: Record, y: Record, z: Record| #[trigger]
            leq(x, y) && #[trigger] leq(y, z) implies leq(x, z) by {
            lemma_record_order(x, y, z);
        }
        assert forall|x: Record, y: Record| #[trigger] leq(x, y) || #[trigger] leq(y, x) by {
            lemma_record_order(x, y, x);
        }
    }
    s.lemma_sort_by_ensures(leq);
    let t = s.sort_by(leq);
    assert(sorted(t)) by {
        assert forall|i: int, j: int| 0 <= i < j < t.len() implies record_le(t[i], t[j]) by {
            assert(leq(t[i], t[j]));
        }
    }
    assert(t.to_multiset() == s.to_multiset());
}

} // verus!
