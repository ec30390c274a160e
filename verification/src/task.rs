//! Tasks: the units of work that the coordinator leases to workers, and the
//! messages that the two exchange about them.

use crate::text::texts;
use vstd::prelude::*;

verus! {

/// Runs the plugin's map function over input files and partitions what it
/// emits into `n_reduce` buckets.
#[derive(Debug)]
pub struct MapTask {
    pub index: u64,
    pub files: Vec<String>,
    pub n_reduce: u64,
}

/// Merges the intermediate files of bucket `index` and runs the plugin's
/// reduce function on each key.
#[derive(Debug)]
pub struct ReduceTask {
    pub index: u64,
    pub files: Vec<String>,
}

/// The two variants of a task.
#[derive(Debug)]
pub enum Inner {
    MapTask(MapTask),
    ReduceTask(ReduceTask),
}

/// A task under the identifier of its current lease.
#[derive(Debug)]
pub struct Task {
    pub id: String,
    pub inner: Inner,
}

/// What a task asks for, as plain values.
pub enum Work {
    MapTask { index: u64, files: Seq<Seq<char>>, n_reduce: u64 },
    ReduceTask { index: u64, files: Seq<Seq<char>> },
}

/// A task as plain values.
pub struct TaskView {
    pub id: Seq<char>,
    pub work: Work,
}

impl View for MapTask {
    type V = Work;

    open spec fn view(&self) -> Work {
        Work::MapTask { index: self.index, files: texts(self.files@), n_reduce: self.n_reduce }
    }
}

impl View for ReduceTask {
    type V = Work;

    open spec fn view(&self) -> Work {
        Work::ReduceTask { index: self.index, files: texts(self.files@) }
    }
}

impl View for Inner {
    type V = Work;

    open spec fn view(&self) -> Work {
        match self {
            Inner::MapTask(m) => m@,
            Inner::ReduceTask(r) => r@,
        }
    }
}

impl View for Task {
    type V = TaskView;

    open spec fn view(&self) -> TaskView {
        TaskView { id: self.id@, work: self.inner@ }
    }
}

/// A copy of a list of strings.
pub fn copy_strings(v: &Vec<String>) -> (out: Vec<String>)
    ensures
        texts(out@) == texts(v@),
{
    let mut out: Vec<String> = Vec::new();
    let mut i: usize = 0;
    while i < v.len()
        invariant
            i <= v.len(),
            texts(out@) == texts(v@).take(i as int),
        decreases v.len() - i,
    {
        out.push(v[i].clone());
        assert(texts(out@) == texts(v@).take(i as int).push(v@[i as int]@));
        assert(texts(v@).take(i + 1) == texts(v@).take(i as int).push(v@[i as int]@));
        i += 1;
    }
    assert(texts(v@).take(i as int) == texts(v@));
    out
}

impl Clone for MapTask {
    fn clone(&self) -> (out: Self)
        ensures
            out@ == self@,
    {
        MapTask { index: self.index, files: copy_strings(&self.files), n_reduce: self.n_reduce }
    }
}

impl Clone for ReduceTask {
    fn clone(&self) -> (out: Self)
        ensures
            out@ == self@,
    {
        ReduceTask { index: self.index, files: copy_strings(&self.files) }
    }
}

impl Clone for Inner {
    fn clone(&self) -> (out: Self)
        ensures
            out@ == self@,
    {
        match self {
            Inner::MapTask(m) => Inner::MapTask(m.clone()),
            Inner::ReduceTask(r) => Inner::ReduceTask(r.clone()),
        }
    }
}

impl Clone for Task {
    fn clone(&self) -> (out: Self)
        ensures
            out@ == self@,
    {
        Task { id: self.id.clone(), inner: self.inner.clone() }
    }
}

impl Task {
    /// Whether this is a map task.
    pub fn is_map(&self) -> (b: bool)
        ensures
            b == (self@.work is MapTask),
    {
        match &self.inner {
            Inner::MapTask(_) => true,
            Inner::ReduceTask(_) => false,
        }
    }
}

} // verus!
