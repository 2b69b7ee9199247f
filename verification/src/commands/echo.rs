//! `echo` — write arguments to standard output.

use vstd::prelude::*;
use crate::text::{join, joined, strings_view};

verus! {

/// What `echo` prints: the arguments separated by single spaces and followed
/// by a newline, or without the newline when the first argument is `-n`
/// (which is not printed).
pub open spec fn echo_text(args: Seq<Seq<char>>) -> Seq<char> {
    if args.len() > 0 && args[0] == "-n"@ {
        joined(args.drop_first(), " "@)
    } else {
        joined(args, " "@) + "\n"@
    }
}

/// The text `echo` prints for the given arguments.
pub fn run(args: &[String]) -> (r: String)
    ensures
        r@ == echo_text(strings_view(args@)),
{
    let suppress_newline = args.len() > 0 && args[0] == "-n".to_owned();
    if suppress_newline {
        let rest = &args[1..args.len()];
        assert(strings_view(rest@) =~= strings_view(args@).drop_first());
        join(rest, " ")
    } else {
        let mut line = join(args, " ");
        line.append("\n");
        line
    }
}

} // verus!
