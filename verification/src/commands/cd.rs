//! `cd` — where the shell's working directory goes.

use vstd::prelude::*;
use crate::text::strings_view;

verus! {

/// Where `cd` goes: its one argument, or `home` (the value of `$HOME`) when
/// it has none. More than one argument, or none without a home, is an error.
pub open spec fn spec_cd_target(args: Seq<Seq<char>>, home: Option<Seq<char>>) -> Result<Seq<char>, Seq<char>> {
    if args.len() > 1 {
        Err("too many arguments"@)
    } else if args.len() == 1 {
        Ok(args[0])
    } else {
        match home {
            Some(h) => Ok(h),
            None => Err("HOME not set"@),
        }
    }
}

/// Decides the directory `cd` changes to.
pub fn target(args: &[String], home: Option<String>) -> (r: Result<String, String>)
    ensures
        match (r, spec_cd_target(strings_view(args@), match home {
            Some(h) => Some(h@),
            None => None,
        })) {
            (Ok(t), Ok(tt)) => t@ == tt,
            (Err(e), Err(ee)) => e@ == ee,
            _ => false,
        },
{
    if args.len() > 1 {
        return Err("too many arguments".to_owned());
    }
    if args.len() == 1 {
        return Ok(args[0].clone());
    }
    match home {
        Some(h) => Ok(h),
        None => Err("HOME not set".to_owned()),
    }
}

} // verus!
