//! What the built-in commands compute: their argument handling and the text
//! they print. Reading and changing the file system is left to the caller.

pub mod cd;
pub mod cp;
pub mod echo;
pub mod help;
pub mod ls;
pub mod mkdir;
pub mod rm;
pub mod util;
