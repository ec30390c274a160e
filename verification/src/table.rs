//! The coordinator's two tables: the leases by task identifier, and the
//! intermediate files by reduce bucket.
//!
//! Both are `dashmap::DashMap`, whose methods take the map by shared
//! reference so that threads can share it. Here one owner holds each table
//! and changes it through `&mut`, so that a contract can tell the table
//! before a call from the table after it.

use crate::task::{Task, TaskView};
use crate::text::texts;
use dashmap::DashMap;
use vstd::prelude::*;

verus! {

/// `dashmap::DashMap`, of which nothing is known but what the functions
/// below say.
#[verifier::external_type_specification]
#[verifier::external_body]
#[verifier::reject_recursive_types(K)]
#[verifier::reject_recursive_types(V)]
#[verifier::reject_recursive_types(S)]
pub struct ExDashMap<K, V, S>(DashMap<K, V, S>);

/// The leases that the table holds, by task identifier.
pub uninterp spec fn leased(m: DashMap<String, Task>) -> Map<Seq<char>, TaskView>;

/// The intermediate files that the table holds, by bucket, each list in the
/// order in which its files were reported.
pub uninterp spec fn bucket_files(m: DashMap<u64, Vec<String>>) -> Map<u64, Seq<Seq<char>>>;

/// The table of leases that holds none.
pub open spec fn no_leases() -> Map<Seq<char>, TaskView> {
    Map::empty()
}

/// The table of intermediate files that holds none.
pub open spec fn no_files() -> Map<u64, Seq<Seq<char>>> {
    Map::empty()
}

/// One bucket with its files.
pub struct Bucket {
    pub index: u64,
    pub files: Vec<String>,
}

/// `DashMap::new` makes an empty table.
#[verifier::external_body]
pub(crate) fn leases_new() -> (m: DashMap<String, Task>)
    ensures
        leased(m) == no_leases(),
{
    DashMap::new()
}

/// `DashMap::insert` stores the task under the identifier, in place of what
/// was stored under it before.
#[verifier::external_body]
pub(crate) fn leases_insert(m: &mut DashMap<String, Task>, id: String, task: Task)
    ensures
        leased(*final(m)) == leased(*old(m)).insert(id@, task@),
{
    m.insert(id, task);
}

/// `DashMap::remove` takes out what is stored under the identifier and
/// returns it, or returns `None` and changes nothing when nothing is.
#[verifier::external_body]
pub(crate) fn leases_remove(m: &mut DashMap<String, Task>, id: &str) -> (r: Option<Task>)
    ensures
        r is Some <==> leased(*old(m)).contains_key(id@),
        r is Some ==> r->0@ == leased(*old(m))[id@],
        leased(*final(m)) == leased(*old(m)).remove(id@),
{
    m.remove(id).map(|pair| pair.1)
}

/// `DashMap::is_empty` tells whether the table holds no lease.
#[verifier::external_body]
pub(crate) fn leases_is_empty(m: &DashMap<String, Task>) -> (b: bool)
    ensures
        b == (leased(*m).dom() =~= Set::<Seq<char>>::empty()),
{
    m.is_empty()
}

/// `DashMap::len` counts the leases that the table holds.
#[verifier::external_body]
pub(crate) fn leases_len(m: &DashMap<String, Task>) -> (n: usize)
    ensures
        n == leased(*m).dom().len(),
{
    m.len()
}

/// `DashMap::new` makes an empty table.
#[verifier::external_body]
pub(crate) fn buckets_new() -> (m: DashMap<u64, Vec<String>>)
    ensures
        bucket_files(m) == no_files(),
{
    DashMap::new()
}

/// What a bucket holds once `file` is added: its files so far, none for a
/// bucket not yet in the table, and then `file`.
pub open spec fn with_file(
    table: Map<u64, Seq<Seq<char>>>,
    bucket: u64,
    file: Seq<char>,
) -> Map<u64, Seq<Seq<char>>> {
    let before = if table.contains_key(bucket) {
        table[bucket]
    } else {
        Seq::empty()
    };
    table.insert(bucket, before.push(file))
}

/// `DashMap::entry`, `Entry::or_default` and `Vec::push`: the file is added
/// at the end of the bucket's list, which is made if the bucket had none.
#[verifier::external_body]
pub(crate) fn buckets_add(m: &mut DashMap<u64, Vec<String>>, bucket: u64, file: String)
    ensures
        bucket_files(*final(m)) == with_file(bucket_files(*old(m)), bucket, file@),
{
    m.entry(bucket).or_default().push(file);
}

/// Whether `list` names each bucket of `table` once, with its files.
pub open spec fn lists(list: Seq<Bucket>, table: Map<u64, Seq<Seq<char>>>) -> bool {
    &&& list.len() == table.dom().len()
    &&& forall|i: int|
        0 <= i < list.len() ==> table.contains_key(#[trigger] list[i].index) && texts(
            list[i].files@,
        ) == table[list[i].index]
    &&& forall|i: int, j: int|
        0 <= i < j < list.len() ==> #[trigger] list[i].index != #[trigger] list[j].index
    &&& forall|b: u64|
        table.contains_key(b) ==> exists|i: int| 0 <= i < list.len() && #[trigger] list[i].index == b
}

/// `DashMap::iter` visits each entry of the table once, in an order that it
/// does not promise; each visited bucket is copied out with its files.
#[verifier::external_body]
pub(crate) fn buckets_list(m: &DashMap<u64, Vec<String>>) -> (list: Vec<Bucket>)
    ensures
        lists(list@, bucket_files(*m)),
{
    m.iter().map(|e| Bucket { index: *e.key(), files: e.value().clone() }).collect()
}

} // verus!
