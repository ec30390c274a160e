//! The sequential runner: the whole job in one process, as a reference for
//! what the distributed run must produce.

use crate::apps::{Api, WordCount};
use crate::grouping::groups;
use crate::names::{sequential_name, sequential_name_of};
use crate::record::{sort_of, Record};
use crate::worker::{
    emitted, flat, inputs_view, map_records, reduce_records, reduced, rendered, InputFile,
};
use vstd::prelude::*;

verus! {

/// The output of a sequential run for the caller to write: the name of the
/// file and what it is to hold.
#[derive(Debug)]
pub struct SequentialOutput {
    pub path: String,
    pub contents: String,
}

/// Whether `text` is what a sequential run of the application on the files
/// may produce: the application maps each file, what it emits is sorted and
/// grouped by key, the application reduces each group, and each key is
/// written with its value on a line, in the order of the keys.
pub open spec fn sequential_text<P: Api>(
    app: &P,
    inputs: Seq<(Seq<char>, Seq<char>)>,
    text: Seq<char>,
) -> bool {
    exists|outs: Seq<Seq<Record>>, results: Seq<Record>| #[trigger]
        emitted(app, inputs, outs) && #[trigger] reduced(
            app,
            groups(sort_of(flat(outs))),
            results,
        ) && text == rendered(results)
}

/// Runs the application `app`, which goes by the name `app_name`, on the
/// files that the caller has read.
pub fn run_sequential<P: Api>(app: &P, app_name: &str, inputs: &Vec<InputFile>) -> (out:
    SequentialOutput)
    ensures
        out.path@ == sequential_name_of(app_name@),
        sequential_text(app, inputs_view(inputs@), out.contents@),
{
    let all = map_records(app, inputs);
    let ghost outs = choose|outs: Seq<Seq<Record>>| #[trigger]
        emitted(app, inputs_view(inputs@), outs) && crate::record::records(all@) == flat(outs);
    let contents = reduce_records(app, all);
    proof {
        let results = choose|results: Seq<Record>| #[trigger]
            reduced(app, groups(sort_of(flat(outs))), results) && contents@ == rendered(results);
        assert(emitted(app, inputs_view(inputs@), outs) && reduced(
            app,
            groups(sort_of(flat(outs))),
            results,
        ));
    }
    SequentialOutput { path: sequential_name(app_name), contents }
}

/// Whether the application's functions are functions of their arguments:
/// what map may return for a file is one thing, and so is what reduce may
/// return for a key with its values.
pub open spec fn deterministic<P: Api>(app: &P) -> bool {
    &&& forall|name: Seq<char>, contents: Seq<char>, a: Seq<Record>, b: Seq<Record>|
        app.maps(name, contents, a) && app.maps(name, contents, b) ==> a == b
    &&& forall|key: Seq<char>, values: Seq<Seq<char>>, a: Seq<char>, b: Seq<char>|
        app.reduces(key, values, a) && app.reduces(key, values, b) ==> a == b
}

/// Two sequential runs of an application whose functions are functions of
/// their arguments, on the same files, produce the same output, character
/// for character.
pub proof fn lemma_sequential_repeatable<P: Api>(
    app: &P,
    inputs: Seq<(Seq<char>, Seq<char>)>,
    first: Seq<char>,
    second: Seq<char>,
)
    requires
        deterministic(app),
        sequential_text(app, inputs, first),
        sequential_text(app, inputs, second),
    ensures
        first == second,
{
    let (outs1, results1) = choose|outs: Seq<Seq<Record>>, results: Seq<Record>| #[trigger]
        emitted(app, inputs, outs) && #[trigger] reduced(
            app,
            groups(sort_of(flat(outs))),
            results,
        ) && first == rendered(results);
    let (outs2, results2) = choose|outs: Seq<Seq<Record>>, results: Seq<Record>| #[trigger]
        emitted(app, inputs, outs) && #[trigger] reduced(
            app,
            groups(sort_of(flat(outs))),
            results,
        ) && second == rendered(results);
    assert forall|i: int| 0 <= i < outs1.len() implies outs1[i] == outs2[i] by {
        assert(app.maps(inputs[i].0, inputs[i].1, outs1[i]));
        assert(app.maps(inputs[i].0, inputs[i].1, outs2[i]));
    }
    assert(outs1 =~= outs2);
    let gs = groups(sort_of(flat(outs1)));
    assert forall|i: int| 0 <= i < results1.len() implies results1[i] == results2[i] by {
        assert(app.reduces(gs[i].0, gs[i].1, results1[i].1));
        assert(app.reduces(gs[i].0, gs[i].1, results2[i].1));
    }
    assert(results1 =~= results2);
}

/// The word count application's functions are functions of their arguments,
/// so two sequential runs of it on the same files produce the same output.
pub proof fn lemma_word_count_repeatable(
    inputs: Seq<(Seq<char>, Seq<char>)>,
    first: Seq<char>,
    second: Seq<char>,
)
    requires
        sequential_text(&WordCount, inputs, first),
        sequential_text(&WordCount, inputs, second),
    ensures
        first == second,
{
    lemma_sequential_repeatable(&WordCount, inputs, first, second);
}

} // verus!
