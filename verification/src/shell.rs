//! What the shell does with each line it reads: record it, parse it, and
//! either run it, report why it cannot, prompt again or stop.

use vstd::prelude::*;
use crate::history::{added, History};
use crate::line_editor::Line;
use crate::parser::{parse, pipelines_view, spec_parse, CommandView, Environment, Pipeline};
use crate::parser_laws::well_formed_pipelines;

verus! {

/// What the shell does next.
pub enum Next {
    /// Show the prompt again.
    Prompt,
    /// Run these statements, in order.
    Run(Vec<Pipeline>),
    /// Print this message on standard error, then prompt again.
    Report(String),
    /// Leave the shell with this status.
    Quit(i32),
}

/// The report for a line that does not parse.
pub open spec fn msg_parse_error(e: Seq<char>) -> Seq<char> {
    "0-shell: "@ + e
}

/// Decides what to do with what reading a line gave: a line is recorded in
/// the history and parsed; Ctrl+C prompts again; the end of input stops the
/// shell with status 0.
pub fn after_line(history: &mut History, line: Line, env: &Environment) -> (n: Next)
    ensures
        match line {
            Line::Input(text) => {
                &&& final(history)@ == added(old(history)@, text@)
                &&& match n {
                    Next::Run(ps) => spec_parse(text@, env@) == Ok::<Seq<Seq<CommandView>>, Seq<char>>(pipelines_view(ps@))
                        && well_formed_pipelines(pipelines_view(ps@)),
                    Next::Report(m) => exists|e: Seq<char>| spec_parse(text@, env@) == Err::<Seq<Seq<CommandView>>, Seq<char>>(e)
                        && m@ == msg_parse_error(e),
                    _ => false,
                }
            },
            Line::Interrupted => final(history)@ == old(history)@ && n is Prompt,
            Line::Eof => final(history)@ == old(history)@ && n == Next::Quit(0),
        },
        final(history).path() == old(history).path(),
{
    match line {
        Line::Input(text) => {
            history.add(text.as_str());
            match parse(text.as_str(), env) {
                Ok(pipelines) => Next::Run(pipelines),
                Err(e) => {
                    let mut m = String::new();
                    m.append("0-shell: ");
                    m.append(e.as_str());
                    assert(spec_parse(text@, env@) == Err::<Seq<Seq<CommandView>>, Seq<char>>(e@)
                        && m@ == msg_parse_error(e@));
                    Next::Report(m)
                },
            }
        },
        Line::Interrupted => Next::Prompt,
        Line::Eof => Next::Quit(0),
    }
}

} // verus!
