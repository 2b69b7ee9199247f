//! ANSI colour escapes, applied only when the output is a terminal.

use vstd::prelude::*;
use vstd::string::StringExecFns;

verus! {

/// Ends any colour started by one of the codes below.
pub const RESET: &'static str = "\x1b[0m";
/// Directories.
pub const BOLD_BLUE: &'static str = "\x1b[1;34m";
/// Executable files.
pub const BOLD_GREEN: &'static str = "\x1b[1;32m";
/// Symbolic links.
pub const BOLD_CYAN: &'static str = "\x1b[1;36m";
/// Error messages.
pub const BOLD_RED: &'static str = "\x1b[1;31m";
/// The working directory in the prompt.
pub const CYAN: &'static str = "\x1b[36m";

/// What `paint` produces: `text` wrapped in `code` and the reset sequence when
/// colour is enabled, `text` itself otherwise.
pub open spec fn painted(enabled: bool, code: Seq<char>, text: Seq<char>) -> Seq<char> {
    if enabled {
        code + text + RESET@
    } else {
        text
    }
}

/// Wraps `text` in the given ANSI code when `enabled`, otherwise returns it
/// unchanged.
pub fn paint(enabled: bool, code: &str, text: &str) -> (r: String)
    ensures
        r@ == painted(enabled, code@, text@),
{
    let mut s = String::new();
    if enabled {
        s.append(code);
        s.append(text);
        s.append(RESET);
    } else {
        s.append(text);
    }
    s
}

} // verus!
