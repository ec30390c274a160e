//! The worker: what to do with the answer to a poll, the map phase, which
//! partitions records into buckets, and the reduce phase, which parses,
//! sorts, groups and reduces them. Reading and writing the files is the
//! caller's part.

use crate::apps::Api;
use crate::coordinator::{CompleteTaskRequest, PollTaskReply};
use crate::grouping::{group_by_key, grouped, groups, Group};
use crate::ident::{fresh_id, is_uuid_text};
use crate::names::{
    intermediate_name, intermediate_name_of, output_name, output_name_of, scratch_path_of,
    temp_file, tmp_path,
};
use crate::record::{lemma_sort_of, records, sort_of, sort_records, KeyValue, Record};
use crate::task::{copy_strings, MapTask, ReduceTask, Task};
use crate::text::{lines, split_lines, split_words, texts, words, CharClass};
use std::collections::hash_map::DefaultHasher;
use std::collections::HashMap;
use std::hash::Hasher;
use vstd::prelude::*;
use vstd::std_specs::hash::DefaultHasherAdditionalSpecFns;

verus! {

broadcast use {vstd::std_specs::hash::group_hash_axioms, vstd::slice::group_slice_axioms};

/// For how many seconds a worker waits before it polls again when there was
/// no task for it.
pub const POLL_PAUSE_SECS: u64 = 1;

/// The hash of a key: that of the standard hasher fed with the key's bytes
/// and then the byte `0xff`.
pub open spec fn hash_of(key: Seq<char>) -> u64 {
    DefaultHasher::spec_finish(seq![vstd::utf8::encode_utf8(key), seq![0xffu8]])
}

/// The bucket of a key among `n_reduce` buckets.
pub open spec fn bucket_of(key: Seq<char>, n_reduce: u64) -> u64
    recommends
        n_reduce > 0,
{
    hash_of(key) % n_reduce
}

/// The hash of `key`.
pub fn key_hash(key: &str) -> (h: u64)
    ensures
        h == hash_of(key@),
{
    let mut hasher = DefaultHasher::new();
    hasher.write(key.as_bytes());
    let mut mark: Vec<u8> = Vec::new();
    mark.push(0xffu8);
    hasher.write(mark.as_slice());
    assert(hasher@ == seq![vstd::utf8::encode_utf8(key@), seq![0xffu8]]);
    hasher.finish()
}

/// The records of `s` that belong to `bucket`, in their order.
pub open spec fn bucket_records(s: Seq<Record>, n_reduce: u64, bucket: u64) -> Seq<Record>
    decreases s.len(),
{
    if s.len() == 0 {
        s
    } else if bucket_of(s.last().0, n_reduce) == bucket {
        bucket_records(s.drop_last(), n_reduce, bucket).push(s.last())
    } else {
        bucket_records(s.drop_last(), n_reduce, bucket)
    }
}

/// Partitioning loses and repeats nothing, and keeps the records of a key
/// together: the bucket of a record's key holds the record as often as the
/// input does, and no other bucket holds it.
pub proof fn lemma_partition(s: Seq<Record>, n_reduce: u64, bucket: u64, r: Record)
    ensures
        bucket_records(s, n_reduce, bucket).to_multiset().count(r) == if bucket_of(r.0, n_reduce)
            == bucket {
            s.to_multiset().count(r)
        } else {
            0
        },
    decreases s.len(),
{
    if s.len() == 0 {
        s.to_multiset_ensures();
        assert(!s.contains(r));
    } else {
        let init = s.drop_last();
        let last = s.last();
        lemma_partition(init, n_reduce, bucket, r);
        assert(s == init.push(last));
        vstd::seq_lib::to_multiset_build(init, last);
        vstd::seq_lib::to_multiset_build(bucket_records(init, n_reduce, bucket), last);
    }
}

/// Sorts the records into `n_reduce` buckets by the hash of their keys. Each
/// bucket keeps its records in the order in which they came.
pub fn partition(input: Vec<KeyValue>, n_reduce: u64) -> (out: Vec<Vec<KeyValue>>)
    requires
        0 < n_reduce <= usize::MAX,
    ensures
        out.len() == n_reduce,
        forall|b: int|
            0 <= b < n_reduce ==> records(#[trigger] out@[b]@) == bucket_records(
                records(input@),
                n_reduce,
                b as u64,
            ),
{
    let mut out: Vec<Vec<KeyValue>> = Vec::new();
    let mut b: u64 = 0;
    while b < n_reduce
        invariant
            b <= n_reduce <= usize::MAX,
            out.len() == b,
            forall|k: int| 0 <= k < b ==> (#[trigger] out@[k])@.len() == 0,
        decreases n_reduce - b,
    {
        out.push(Vec::new());
        b += 1;
    }
    let mut i: usize = 0;
    assert(records(input@).take(0) =~= Seq::<Record>::empty());
    assert forall|k: int| 0 <= k < n_reduce implies records(#[trigger] out@[k]@)
        == bucket_records(records(input@).take(0), n_reduce, k as u64) by {
        assert(records(out@[k]@) =~= Seq::<Record>::empty());
    }
    while i < input.len()
        invariant
            0 < n_reduce <= usize::MAX,
            i <= input.len(),
            out.len() == n_reduce,
            forall|k: int|
                0 <= k < n_reduce ==> records(#[trigger] out@[k]@) == bucket_records(
                    records(input@).take(i as int),
                    n_reduce,
                    k as u64,
                ),
        decreases input.len() - i,
    {
        let record = input[i].clone();
        let target = (key_hash(record.key.as_str()) % n_reduce) as usize;
        let ghost before = out@;
        let ghost sofar = records(input@).take(i as int);
        let ghost now = records(input@).take(i + 1);
        assert(now.drop_last() == sofar);
        assert(now.last() == record@);
        let mut slot: Vec<KeyValue> = Vec::new();
        std::mem::swap(&mut slot, &mut out[target]);
        slot.push(record);
        out[target] = slot;
        assert forall|k: int| 0 <= k < n_reduce implies records(#[trigger] out@[k]@)
            == bucket_records(now, n_reduce, k as u64) by {
            if k == target {
                assert(records(out@[k]@) =~= records(before[k]@).push(record@));
            } else {
                assert(out@[k] == before[k]);
            }
        }
        i += 1;
    }
    assert(records(input@).take(i as int) == records(input@));
    out
}

/// The line of a record in a file: the key, a space, the value, a line
/// feed.
pub open spec fn line_of(r: Record) -> Seq<char> {
    r.0 + seq![' '] + r.1 + seq!['\n']
}

/// The lines of the records, one after the other.
pub open spec fn rendered(s: Seq<Record>) -> Seq<char>
    decreases s.len(),
{
    if s.len() == 0 {
        Seq::empty()
    } else {
        rendered(s.drop_last()) + line_of(s.last())
    }
}

/// Writes the records out, one line each.
pub fn render(list: &Vec<KeyValue>) -> (out: String)
    ensures
        out@ == rendered(records(list@)),
{
    proof {
        reveal_strlit(" ");
        reveal_strlit("\n");
        assert(" "@ == seq![' ']);
        assert("\n"@ == seq!['\n']);
    }
    let mut out = String::new();
    let mut i: usize = 0;
    assert(records(list@).take(0) =~= Seq::<Record>::empty());
    while i < list.len()
        invariant
            i <= list.len(),
            " "@ == seq![' '],
            "\n"@ == seq!['\n'],
            out@ == rendered(records(list@).take(i as int)),
        decreases list.len() - i,
    {
        let ghost now = records(list@).take(i + 1);
        assert(now.drop_last() == records(list@).take(i as int));
        assert(now.last() == list@[i as int]@);
        out.append(list[i].key.as_str());
        out.append(" ");
        out.append(list[i].value.as_str());
        out.append("\n");
        i += 1;
    }
    assert(records(list@).take(i as int) == records(list@));
    out
}

/// A file that the caller has read: its name and what it holds.
#[derive(Debug)]
pub struct InputFile {
    pub name: String,
    pub contents: String,
}

/// An intermediate file for the caller to write: the bucket it is for, its
/// name and what it is to hold.
#[derive(Debug)]
pub struct IntermediateFile {
    pub bucket: u64,
    pub name: String,
    pub contents: String,
}

/// The output of a reduce task for the caller to write: under `temp_path`
/// first, then moved to `output_path`.
#[derive(Debug)]
pub struct ReduceOutput {
    pub temp_path: String,
    pub output_path: String,
    pub contents: String,
}

/// Why a task could not be carried out.
#[derive(Clone, Copy, Debug, PartialEq, Eq, Structural)]
pub enum WorkerError {
    /// There are records to partition and no bucket to put them in.
    NoBuckets,
    /// There are more buckets than a list can hold.
    TooManyBuckets,
    /// A line of an intermediate file has fewer than two fields.
    BadLine,
}

/// The sequences one after the other.
pub open spec fn flat(parts: Seq<Seq<Record>>) -> Seq<Record>
    decreases parts.len(),
{
    if parts.len() == 0 {
        Seq::empty()
    } else {
        flat(parts.drop_last()) + parts.last()
    }
}

/// The names and contents of the files.
pub open spec fn inputs_view(inputs: Seq<InputFile>) -> Seq<(Seq<char>, Seq<char>)> {
    inputs.map_values(|f: InputFile| (f.name@, f.contents@))
}

/// Whether `outs` holds, for each of the files in turn, records that the
/// application's map function may return for it.
pub open spec fn emitted<P: Api>(
    app: &P,
    inputs: Seq<(Seq<char>, Seq<char>)>,
    outs: Seq<Seq<Record>>,
) -> bool {
    &&& outs.len() == inputs.len()
    &&& forall|i: int|
        0 <= i < inputs.len() ==> app.maps(inputs[i].0, inputs[i].1, #[trigger] outs[i])
}

/// Runs the application's map function on each file in turn and puts what
/// it emits together, in the order of the files.
pub fn map_records<P: Api>(app: &P, inputs: &Vec<InputFile>) -> (out: Vec<KeyValue>)
    ensures
        exists|outs: Seq<Seq<Record>>| #[trigger]
            emitted(app, inputs_view(inputs@), outs) && records(out@) == flat(outs),
{
    let mut all: Vec<KeyValue> = Vec::new();
    let ghost mut outs: Seq<Seq<Record>> = Seq::empty();
    let mut i: usize = 0;
    assert(records(all@) =~= flat(outs));
    while i < inputs.len()
        invariant
            i <= inputs.len(),
            emitted(app, inputs_view(inputs@).take(i as int), outs),
            records(all@) == flat(outs),
        decreases inputs.len() - i,
    {
        let mut part = app.map(inputs[i].name.as_str(), inputs[i].contents.as_str());
        let ghost before = records(all@);
        let ghost piece = records(part@);
        let ghost old_outs = outs;
        all.append(&mut part);
        proof {
            outs = outs.push(piece);
            assert(outs.drop_last() == old_outs);
            assert(records(all@) =~= before + piece);
            let now = inputs_view(inputs@).take(i + 1);
            assert forall|k: int| 0 <= k < now.len() implies app.maps(
                now[k].0,
                now[k].1,
                #[trigger] outs[k],
            ) by {
                if k < i {
                    assert(outs[k] == old_outs[k]);
                    assert(now[k] == inputs_view(inputs@).take(i as int)[k]);
                }
            }
        }
        i += 1;
    }
    assert(inputs_view(inputs@).take(i as int) == inputs_view(inputs@));
    assert(emitted(app, inputs_view(inputs@), outs) && records(all@) == flat(outs));
    all
}

/// Whether `files` is what a map task writes for the records `all`: one
/// file for each bucket, in the order of the buckets, named after the task,
/// the bucket and a suffix of its own, and holding the lines of that
/// bucket's records.
pub open spec fn is_map_output(
    index: u64,
    n_reduce: u64,
    all: Seq<Record>,
    files: Seq<IntermediateFile>,
) -> bool {
    &&& files.len() == n_reduce
    &&& forall|j: int|
        0 <= j < files.len() ==> {
            &&& (#[trigger] files[j]).bucket == j
            &&& files[j].contents@ == rendered(bucket_records(all, n_reduce, j as u64))
            &&& exists|suffix: Seq<char>| #[trigger]
                is_uuid_text(suffix) && files[j].name@ == intermediate_name_of(
                    index,
                    j as u64,
                    suffix,
                )
        }
}

/// Lays out the intermediate files of map task `index` for the records that
/// its application emitted: the records are partitioned into `n_reduce`
/// buckets and each bucket becomes a file. Without buckets there is nothing
/// to lay out, which is an error if there are records.
pub fn write_map(index: u64, n_reduce: u64, all: Vec<KeyValue>) -> (r: Result<
    Vec<IntermediateFile>,
    WorkerError,
>)
    ensures
        r is Ok <==> n_reduce <= usize::MAX && (n_reduce > 0 || all.len() == 0),
        r is Ok ==> is_map_output(index, n_reduce, records(all@), r->Ok_0@),
        r is Err ==> r->Err_0 == if n_reduce == 0 {
            WorkerError::NoBuckets
        } else {
            WorkerError::TooManyBuckets
        },
{
    if n_reduce == 0 {
        if all.len() == 0 {
            return Ok(Vec::new());
        }
        return Err(WorkerError::NoBuckets);
    }
    if n_reduce > usize::MAX as u64 {
        return Err(WorkerError::TooManyBuckets);
    }
    let buckets = partition(all, n_reduce);
    let mut files: Vec<IntermediateFile> = Vec::new();
    let mut j: usize = 0;
    while j < buckets.len()
        invariant
            j <= buckets.len(),
            buckets.len() == n_reduce,
            files.len() == j,
            forall|b: int|
                0 <= b < n_reduce ==> records(#[trigger] buckets@[b]@) == bucket_records(
                    records(all@),
                    n_reduce,
                    b as u64,
                ),
            forall|k: int|
                0 <= k < j ==> {
                    &&& (#[trigger] files@[k]).bucket == k
                    &&& files@[k].contents@ == rendered(
                        bucket_records(records(all@), n_reduce, k as u64),
                    )
                    &&& exists|suffix: Seq<char>| #[trigger]
                        is_uuid_text(suffix) && files@[k].name@ == intermediate_name_of(
                            index,
                            k as u64,
                            suffix,
                        )
                },
        decreases buckets.len() - j,
    {
        let suffix = fresh_id();
        let file = IntermediateFile {
            bucket: j as u64,
            name: intermediate_name(index, j as u64, suffix.as_str()),
            contents: render(&buckets[j]),
        };
        let ghost before = files@;
        files.push(file);
        proof {
            assert(is_uuid_text(suffix@) && files@[j as int].name@ == intermediate_name_of(
                index,
                j as u64,
                suffix@,
            ));
            assert forall|k: int| 0 <= k < j + 1 implies {
                &&& (#[trigger] files@[k]).bucket == k
                &&& files@[k].contents@ == rendered(
                    bucket_records(records(all@), n_reduce, k as u64),
                )
                &&& exists|suffix: Seq<char>| #[trigger]
                    is_uuid_text(suffix) && files@[k].name@ == intermediate_name_of(
                        index,
                        k as u64,
                        suffix,
                    )
            } by {
                if k < j {
                    assert(files@[k] == before[k]);
                }
            }
        }
        j += 1;
    }
    Ok(files)
}

/// Carries out a map task on the files that the caller has read for it: the
/// application maps each file, and what it emits is laid out as the
/// intermediate files for the caller to write.
pub fn run_map<P: Api>(app: &P, task: &MapTask, inputs: &Vec<InputFile>) -> (r: Result<
    Vec<IntermediateFile>,
    WorkerError,
>)
    ensures
        0 < task.n_reduce <= usize::MAX ==> r is Ok,
        task.n_reduce > usize::MAX ==> r is Err,
        r is Ok ==> exists|outs: Seq<Seq<Record>>| #[trigger]
            emitted(app, inputs_view(inputs@), outs) && is_map_output(
                task.index,
                task.n_reduce,
                flat(outs),
                r->Ok_0@,
            ) && (task.n_reduce > 0 || flat(outs).len() == 0),
        r is Err && task.n_reduce == 0 ==> exists|outs: Seq<Seq<Record>>| #[trigger]
            emitted(app, inputs_view(inputs@), outs) && flat(outs).len() > 0,
        r is Err ==> r->Err_0 == if task.n_reduce == 0 {
            WorkerError::NoBuckets
        } else {
            WorkerError::TooManyBuckets
        },
{
    let all = map_records(app, inputs);
    let ghost outs = choose|outs: Seq<Seq<Record>>| #[trigger]
        emitted(app, inputs_view(inputs@), outs) && records(all@) == flat(outs);
    let r = write_map(task.index, task.n_reduce, all);
    proof {
        assert(emitted(app, inputs_view(inputs@), outs));
        assert(crate::record::records(all@).len() == all@.len());
    }
    r
}

/// The files that a map task reports to the coordinator: the name of each
/// intermediate file under the number of its place in the list, which is its
/// bucket.
pub fn reduce_files(files: &Vec<IntermediateFile>) -> (out: HashMap<u64, String>)
    ensures
        forall|b: u64| out@.contains_key(b) <==> b < files.len(),
        forall|j: int| 0 <= j < files.len() ==> out@[j as u64]@ == (#[trigger] files@[j]).name@,
{
    let mut out: HashMap<u64, String> = HashMap::new();
    let mut j: usize = 0;
    while j < files.len()
        invariant
            j <= files.len(),
            forall|b: u64| out@.contains_key(b) <==> b < j,
            forall|k: int| 0 <= k < j ==> out@[k as u64]@ == (#[trigger] files@[k]).name@,
        decreases files.len() - j,
    {
        out.insert(j as u64, files[j].name.clone());
        j += 1;
    }
    out
}

/// The record on a line: its first two fields, a field being a maximal run
/// of characters that are not white space. A line with fewer than two fields
/// holds no record.
pub open spec fn field_pair(line: Seq<char>) -> Option<Record> {
    let fields = words(line, CharClass::Visible);
    if fields.len() >= 2 {
        Some((fields[0], fields[1]))
    } else {
        None
    }
}

/// The records on the lines, unless one of the lines holds none.
pub open spec fn parsed_lines(ls: Seq<Seq<char>>) -> Option<Seq<Record>>
    decreases ls.len(),
{
    if ls.len() == 0 {
        Some(Seq::empty())
    } else {
        match (parsed_lines(ls.drop_last()), field_pair(ls.last())) {
            (Some(init), Some(r)) => Some(init.push(r)),
            _ => None,
        }
    }
}

/// The records of an intermediate file that holds `contents`.
pub open spec fn parsed(contents: Seq<char>) -> Option<Seq<Record>> {
    parsed_lines(lines(contents))
}

/// The records of the intermediate files, those of the first file first,
/// unless one of the files has a line without a record.
pub open spec fn parsed_all(files: Seq<Seq<char>>) -> Option<Seq<Record>>
    decreases files.len(),
{
    if files.len() == 0 {
        Some(Seq::empty())
    } else {
        match (parsed_all(files.drop_last()), parsed(files.last())) {
            (Some(init), Some(part)) => Some(init + part),
            _ => None,
        }
    }
}

/// Reads the record on a line.
pub fn parse_line(line: &str) -> (r: Option<KeyValue>)
    ensures
        r is Some <==> field_pair(line@) is Some,
        r is Some ==> r->0@ == field_pair(line@)->0,
{
    let fields = split_words(line, CharClass::Visible);
    assert(texts(fields@).len() == fields@.len());
    if fields.len() >= 2 {
        assert(texts(fields@)[0] == fields@[0]@);
        assert(texts(fields@)[1] == fields@[1]@);
        Some(KeyValue { key: fields[0].clone(), value: fields[1].clone() })
    } else {
        None
    }
}

/// Reads the records of an intermediate file.
pub fn parse_records(contents: &str) -> (r: Option<Vec<KeyValue>>)
    ensures
        r is Some <==> parsed(contents@) is Some,
        r is Some ==> records(r->0@) == parsed(contents@)->0,
{
    let ls = split_lines(contents);
    let mut out: Vec<KeyValue> = Vec::new();
    let mut i: usize = 0;
    assert(texts(ls@).take(0) =~= Seq::<Seq<char>>::empty());
    assert(records(out@) =~= Seq::<Record>::empty());
    while i < ls.len()
        invariant
            i <= ls.len(),
            texts(ls@) == lines(contents@),
            parsed_lines(texts(ls@).take(i as int)) == Some(records(out@)),
        decreases ls.len() - i,
    {
        let ghost now = texts(ls@).take(i + 1);
        assert(now.drop_last() == texts(ls@).take(i as int));
        assert(now.last() == ls@[i as int]@);
        match parse_line(ls[i].as_str()) {
            Some(record) => {
                let ghost before = records(out@);
                out.push(record);
                assert(records(out@) =~= before.push(record@));
            },
            None => {
                proof {
                    lemma_parsed_prefix(texts(ls@), i + 1);
                }
                return None;
            },
        }
        i += 1;
    }
    assert(texts(ls@).take(i as int) == texts(ls@));
    Some(out)
}

/// Lines from which the first few hold no records hold none as a whole.
proof fn lemma_parsed_prefix(ls: Seq<Seq<char>>, n: int)
    requires
        0 <= n <= ls.len(),
        parsed_lines(ls.take(n)) is None,
    ensures
        parsed_lines(ls) is None,
    decreases ls.len(),
{
    if n < ls.len() {
        assert(ls.drop_last().take(n) == ls.take(n));
        lemma_parsed_prefix(ls.drop_last(), n);
    } else {
        assert(ls.take(n) == ls);
    }
}

proof fn lemma_parsed_all_prefix(files: Seq<Seq<char>>, n: int)
    requires
        0 <= n <= files.len(),
        parsed_all(files.take(n)) is None,
    ensures
        parsed_all(files) is None,
    decreases files.len(),
{
    if n < files.len() {
        assert(files.drop_last().take(n) == files.take(n));
        lemma_parsed_all_prefix(files.drop_last(), n);
    } else {
        assert(files.take(n) == files);
    }
}

/// Reads the records of the intermediate files, those of the first file
/// first.
pub fn parse_files(contents: &Vec<String>) -> (r: Option<Vec<KeyValue>>)
    ensures
        r is Some <==> parsed_all(texts(contents@)) is Some,
        r is Some ==> records(r->0@) == parsed_all(texts(contents@))->0,
{
    let mut out: Vec<KeyValue> = Vec::new();
    let mut i: usize = 0;
    assert(texts(contents@).take(0) =~= Seq::<Seq<char>>::empty());
    assert(records(out@) =~= Seq::<Record>::empty());
    while i < contents.len()
        invariant
            i <= contents.len(),
            parsed_all(texts(contents@).take(i as int)) == Some(records(out@)),
        decreases contents.len() - i,
    {
        let ghost now = texts(contents@).take(i + 1);
        assert(now.drop_last() == texts(contents@).take(i as int));
        assert(now.last() == contents@[i as int]@);
        match parse_records(contents[i].as_str()) {
            Some(part) => {
                let mut part = part;
                let ghost before = records(out@);
                let ghost piece = records(part@);
                out.append(&mut part);
                assert(records(out@) =~= before + piece);
            },
            None => {
                proof {
                    lemma_parsed_all_prefix(texts(contents@), i + 1);
                }
                return None;
            },
        }
        i += 1;
    }
    assert(texts(contents@).take(i as int) == texts(contents@));
    Some(out)
}

/// Whether `results` holds, for each of the groups in turn, its key with a
/// value that the application's reduce function may return for it.
pub open spec fn reduced<P: Api>(app: &P, gs: Seq<Group>, results: Seq<Record>) -> bool {
    &&& results.len() == gs.len()
    &&& forall|i: int|
        0 <= i < gs.len() ==> (#[trigger] results[i]).0 == gs[i].0 && app.reduces(
            gs[i].0,
            gs[i].1,
            results[i].1,
        )
}

/// Runs the application's reduce function on each group in turn.
pub fn reduce_groups<P: Api>(app: &P, gs: &Vec<(String, Vec<String>)>) -> (out: Vec<KeyValue>)
    ensures
        reduced(app, grouped(gs@), records(out@)),
{
    let mut out: Vec<KeyValue> = Vec::new();
    let mut i: usize = 0;
    while i < gs.len()
        invariant
            i <= gs.len(),
            reduced(app, grouped(gs@).take(i as int), records(out@)),
        decreases gs.len() - i,
    {
        let key = gs[i].0.clone();
        let value = app.reduce(key.as_str(), copy_strings(&gs[i].1));
        let ghost before = records(out@);
        out.push(KeyValue { key, value });
        proof {
            let now = grouped(gs@).take(i + 1);
            let results = records(out@);
            assert(results =~= before.push((gs@[i as int].0@, value@)));
            assert forall|k: int| 0 <= k < now.len() implies (#[trigger] results[k]).0 == now[k].0
                && app.reduces(now[k].0, now[k].1, results[k].1) by {
                if k < i {
                    assert(results[k] == before[k]);
                    assert(now[k] == grouped(gs@).take(i as int)[k]);
                }
            }
        }
        i += 1;
    }
    assert(grouped(gs@).take(i as int) == grouped(gs@));
    out
}

/// Sorts the records, groups them by key and reduces each group: the lines
/// of the output, one for each key, in the order of the keys.
pub fn reduce_records<P: Api>(app: &P, input: Vec<KeyValue>) -> (out: String)
    ensures
        exists|results: Seq<Record>| #[trigger]
            reduced(app, groups(sort_of(records(input@))), results) && out@ == rendered(results),
{
    let ordered = sort_records(input);
    proof {
        lemma_sort_of(records(input@), records(ordered@));
    }
    let gs = group_by_key(ordered);
    let results = reduce_groups(app, &gs);
    assert(reduced(app, groups(sort_of(records(input@))), records(results@)));
    render(&results)
}

/// Carries out a reduce task on what the caller has read from the task's
/// intermediate files: the records are parsed, sorted and grouped by key,
/// and the application reduces each group. The output is for the caller to
/// write to the scratch file and then to move to its final name. The one
/// error is a line with fewer than two fields.
pub fn run_reduce<P: Api>(app: &P, task: &ReduceTask, contents: &Vec<String>) -> (r: Result<
    ReduceOutput,
    WorkerError,
>)
    ensures
        r is Ok <==> parsed_all(texts(contents@)) is Some,
        r is Err ==> r->Err_0 == WorkerError::BadLine,
        r is Ok ==> r->Ok_0.output_path@ == output_name_of(task.index),
        r is Ok ==> exists|name: Seq<char>| #[trigger]
            is_uuid_text(name) && r->Ok_0.temp_path@ == scratch_path_of(tmp_path(), name),
        r is Ok ==> exists|results: Seq<Record>| #[trigger]
            reduced(app, groups(sort_of(parsed_all(texts(contents@))->0)), results)
                && r->Ok_0.contents@ == rendered(results),
{
    match parse_files(contents) {
        Some(input) => {
            let text = reduce_records(app, input);
            Ok(
                ReduceOutput {
                    temp_path: temp_file(),
                    output_path: output_name(task.index),
                    contents: text,
                },
            )
        },
        None => Err(WorkerError::BadLine),
    }
}

/// What a worker does next.
#[derive(Debug)]
pub enum Step {
    /// The job is over: stop.
    Stop,
    /// Carry out the task and report it.
    Run(Task),
    /// Nothing to do for now: wait so many seconds and poll again.
    Wait(u64),
}

/// What a worker does with the answer to its poll. It stops when it is told
/// to, whatever else the answer holds; else it runs the task if there is
/// one, and waits a moment if there is none.
pub fn next_step(reply: PollTaskReply) -> (step: Step)
    ensures
        reply.shutdown ==> step is Stop,
        !reply.shutdown && reply.task is Some ==> step == Step::Run(reply.task->0),
        !reply.shutdown && reply.task is None ==> step == Step::Wait(POLL_PAUSE_SECS),
{
    if reply.shutdown {
        return Step::Stop;
    }
    match reply.task {
        Some(task) => Step::Run(task),
        None => Step::Wait(POLL_PAUSE_SECS),
    }
}

/// The report of a finished task: a map task is reported with the files
/// that it wrote, a reduce task with none.
pub fn report(task: Task, written: HashMap<u64, String>) -> (request: CompleteTaskRequest)
    ensures
        request.task == task,
        task@.work is MapTask ==> request.reduce_files == written,
        task@.work is ReduceTask ==> request.reduce_files@ == Map::<u64, String>::empty(),
{
    if task.is_map() {
        CompleteTaskRequest { task, reduce_files: written }
    } else {
        CompleteTaskRequest { task, reduce_files: HashMap::new() }
    }
}

/// A worker: the process that it is and the application that it runs.
pub struct Worker<P: Api> {
    pub id: String,
    pub app: P,
}

impl<P: Api> Worker<P> {
    /// The worker of the process `id` that runs `app`.
    pub fn new(id: String, app: P) -> (worker: Self)
        ensures
            worker.id == id,
            worker.app == app,
    {
        Worker { id, app }
    }

    /// What the worker does with the answer to its poll.
    pub fn step(&self, reply: PollTaskReply) -> (step: Step)
        ensures
            reply.shutdown ==> step is Stop,
            !reply.shutdown && reply.task is Some ==> step == Step::Run(reply.task->0),
            !reply.shutdown && reply.task is None ==> step == Step::Wait(POLL_PAUSE_SECS),
    {
        next_step(reply)
    }

    /// Carries out a map task on the files that the caller has read for it
    /// and names what is to be reported: the intermediate files to write, and
    /// their names by bucket.
    pub fn run_map(&self, task: &MapTask, inputs: &Vec<InputFile>) -> (r: Result<
        Vec<IntermediateFile>,
        WorkerError,
    >)
        ensures
            0 < task.n_reduce <= usize::MAX ==> r is Ok,
            task.n_reduce > usize::MAX ==> r is Err,
            r is Ok ==> exists|outs: Seq<Seq<Record>>| #[trigger]
                emitted(&self.app, inputs_view(inputs@), outs) && is_map_output(
                    task.index,
                    task.n_reduce,
                    flat(outs),
                    r->Ok_0@,
                ) && (task.n_reduce > 0 || flat(outs).len() == 0),
            r is Err && task.n_reduce == 0 ==> exists|outs: Seq<Seq<Record>>| #[trigger]
                emitted(&self.app, inputs_view(inputs@), outs) && flat(outs).len() > 0,
            r is Err ==> r->Err_0 == if task.n_reduce == 0 {
                WorkerError::NoBuckets
            } else {
                WorkerError::TooManyBuckets
            },
    {
        run_map(&self.app, task, inputs)
    }

    /// Carries out a reduce task on what the caller has read from the task's
    /// intermediate files.
    pub fn run_reduce(&self, task: &ReduceTask, contents: &Vec<String>) -> (r: Result<
        ReduceOutput,
        WorkerError,
    >)
        ensures
            r is Ok <==> parsed_all(texts(contents@)) is Some,
            r is Err ==> r->Err_0 == WorkerError::BadLine,
            r is Ok ==> r->Ok_0.output_path@ == output_name_of(task.index),
            r is Ok ==> exists|name: Seq<char>| #[trigger]
                is_uuid_text(name) && r->Ok_0.temp_path@ == scratch_path_of(tmp_path(), name),
            r is Ok ==> exists|results: Seq<Record>| #[trigger]
                reduced(&self.app, groups(sort_of(parsed_all(texts(contents@))->0)), results)
                    && r->Ok_0.contents@ == rendered(results),
    {
        run_reduce(&self.app, task, contents)
    }
}

} // verus!
