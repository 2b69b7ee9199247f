//! `cp` — which sources are copied. Where each one goes is decided in
//! `util`, which `mv` shares.

use vstd::prelude::*;

verus! {

/// Why `cp` refuses a directory.
pub open spec fn msg_omitting_directory() -> Seq<char> {
    "omitting directory (recursive copy not supported)"@
}

/// Decides whether a source is copied: a directory is refused (there is no
/// recursive copy), anything else is copied.
pub fn refusal(is_dir: bool) -> (r: Option<String>)
    ensures
        match r {
            Some(m) => is_dir && m@ == msg_omitting_directory(),
            None => !is_dir,
        },
{
    if is_dir {
        Some("omitting directory (recursive copy not supported)".to_owned())
    } else {
        None
    }
}

} // verus!
