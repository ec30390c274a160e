//! A MapReduce framework. A coordinator schedules the map tasks of a job and,
//! once they are all done, its reduce tasks; workers poll it for tasks and
//! carry them out with the application that they were started with. This
//! library holds what the coordinator and the workers decide and compute: the
//! coordinator's state and its handlers, the worker's map and reduce phases,
//! the applications, and the sequential runner that does a whole job at
//! once. Serving, polling, timers and files are the caller's.

pub use crate::record::KeyValue;
use vstd::prelude::*;

pub mod apps;
pub mod chance;
pub mod coordinator;
pub mod grouping;
pub mod ident;
pub mod names;
pub mod protocol;
pub mod queue;
pub mod record;
pub mod sequential;
pub mod table;
pub mod tally;
pub mod task;
pub mod text;
pub mod worker;

verus! {

/// Adds two sizes.
pub fn add(left: usize, right: usize) -> (sum: usize)
    requires
        left + right <= usize::MAX,
    ensures
        sum == left + right,
{
    left + right
}

} // verus!
