//! `mkdir` — which directories to create, and how.

use vstd::prelude::*;
use crate::text::{copy_strings, strings_view};

verus! {

/// The options and operands of `mkdir`: a first argument `-p` asks for
/// parents to be created as needed, and at least one directory must follow.
pub open spec fn spec_mkdir_args(args: Seq<Seq<char>>) -> Result<(bool, Seq<Seq<char>>), Seq<char>> {
    let parents = args.len() > 0 && args[0] == "-p"@;
    let operands = if parents {
        args.drop_first()
    } else {
        args
    };
    if operands.len() == 0 {
        Err("missing operand"@)
    } else {
        Ok((parents, operands))
    }
}

/// Reads the arguments of `mkdir`: whether `-p` was given, and the
/// directories to create.
pub fn parse_args(args: &[String]) -> (r: Result<(bool, Vec<String>), String>)
    ensures
        match (r, spec_mkdir_args(strings_view(args@))) {
            (Ok((p, ops)), Ok((pp, oo))) => p == pp && strings_view(ops@) == oo,
            (Err(e), Err(ee)) => e@ == ee,
            _ => false,
        },
{
    let parents = args.len() > 0 && args[0] == "-p".to_owned();
    let start: usize = if parents {
        1
    } else {
        0
    };
    if start >= args.len() {
        return Err("missing operand".to_owned());
    }
    let operands = copy_strings(&args[start..args.len()]);
    assert(strings_view(operands@) =~= if parents {
        strings_view(args@).drop_first()
    } else {
        strings_view(args@)
    });
    Ok((parents, operands))
}

} // verus!
