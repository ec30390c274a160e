//! The names of the files that the framework reads and writes.

use crate::ident::{fresh_id, is_uuid_text};
use crate::text::{decimal, decimal_string};
use vstd::prelude::*;

verus! {

/// The directory of scratch files.
pub const TMP_PATH: &'static str = "mr-tmp";

/// The text of `TMP_PATH`.
pub open spec fn tmp_path() -> Seq<char> {
    seq!['m', 'r', '-', 't', 'm', 'p']
}

/// The text `mr-`.
pub open spec fn stem() -> Seq<char> {
    seq!['m', 'r', '-']
}

/// The name of the intermediate file that map task `index` writes for
/// `bucket`: `mr-`, the two numbers and the suffix, with hyphens between.
pub open spec fn intermediate_name_of(index: u64, bucket: u64, suffix: Seq<char>) -> Seq<char> {
    stem() + decimal(index as nat) + seq!['-'] + decimal(bucket as nat) + seq!['-'] + suffix
}

/// The name of the final output of `bucket`: `mr-out-` and the number.
pub open spec fn output_name_of(bucket: u64) -> Seq<char> {
    stem() + seq!['o', 'u', 't', '-'] + decimal(bucket as nat)
}

/// The name of the sequential runner's output for the application
/// `app_name`: `mr-`, the name, `-seq`.
pub open spec fn sequential_name_of(app_name: Seq<char>) -> Seq<char> {
    stem() + app_name + seq!['-', 's', 'e', 'q']
}

/// The path of the scratch file `name` in the directory `dir`.
pub open spec fn scratch_path_of(dir: Seq<char>, name: Seq<char>) -> Seq<char> {
    dir + seq!['/'] + name
}

/// The path of the loadable module of the application `app_name` in the
/// directory `dir`: the file `lib`, the name, `.dylib`.
pub open spec fn library_path_of(dir: Seq<char>, app_name: Seq<char>) -> Seq<char> {
    dir + seq!['/', 'l', 'i', 'b'] + app_name + seq!['.', 'd', 'y', 'l', 'i', 'b']
}

/// The name of the intermediate file that map task `index` writes for
/// `bucket`, with `suffix` to tell one attempt from another.
pub fn intermediate_name(index: u64, bucket: u64, suffix: &str) -> (out: String)
    ensures
        out@ == intermediate_name_of(index, bucket, suffix@),
{
    proof {
        reveal_strlit("mr-");
        reveal_strlit("-");
        assert("mr-"@ == stem());
        assert("-"@ == seq!['-']);
    }
    let mut out = "mr-".to_owned();
    out.append(decimal_string(index).as_str());
    out.append("-");
    out.append(decimal_string(bucket).as_str());
    out.append("-");
    out.append(suffix);
    out
}

/// The name of the final output of `bucket`.
pub fn output_name(bucket: u64) -> (out: String)
    ensures
        out@ == output_name_of(bucket),
{
    proof {
        reveal_strlit("mr-out-");
        assert("mr-out-"@ == stem() + seq!['o', 'u', 't', '-']);
    }
    let mut out = "mr-out-".to_owned();
    out.append(decimal_string(bucket).as_str());
    out
}

/// The name of the sequential runner's output for `app_name`.
pub fn sequential_name(app_name: &str) -> (out: String)
    ensures
        out@ == sequential_name_of(app_name@),
{
    proof {
        reveal_strlit("mr-");
        reveal_strlit("-seq");
        assert("mr-"@ == stem());
        assert("-seq"@ == seq!['-', 's', 'e', 'q']);
    }
    let mut out = "mr-".to_owned();
    out.append(app_name);
    out.append("-seq");
    out
}

/// The path of the loadable module of the application `app_name` in `dir`.
pub fn library_path(dir: &str, app_name: &str) -> (out: String)
    ensures
        out@ == library_path_of(dir@, app_name@),
{
    proof {
        reveal_strlit("/lib");
        reveal_strlit(".dylib");
        assert("/lib"@ == seq!['/', 'l', 'i', 'b']);
        assert(".dylib"@ == seq!['.', 'd', 'y', 'l', 'i', 'b']);
    }
    let mut out = dir.to_owned();
    out.append("/lib");
    out.append(app_name);
    out.append(".dylib");
    out
}

/// The path of a new scratch file: the directory of scratch files and a
/// fresh name in it.
pub fn temp_file() -> (out: String)
    ensures
        exists|name: Seq<char>| is_uuid_text(name) && out@ == scratch_path_of(tmp_path(), name),
{
    proof {
        reveal_strlit("mr-tmp");
        reveal_strlit("/");
        assert("mr-tmp"@ == tmp_path());
        assert("/"@ == seq!['/']);
    }
    let name = fresh_id();
    let mut out = TMP_PATH.to_owned();
    out.append("/");
    out.append(name.as_str());
    assert(out@ == scratch_path_of(tmp_path(), name@));
    out
}

} // verus!
