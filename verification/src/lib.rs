//! A small Unix-like shell: command-line parsing, line editing, history and the
//! text that the built-in commands print, with their behaviour stated and proved.

pub mod color;
pub mod executor;
pub mod commands;
pub mod history;
pub mod line_editor;
pub mod parser;
pub mod parser_laws;
pub mod prompt;
pub mod shell;
pub mod sorting;
pub mod text;
