//! `help` — document the built-in commands.

use vstd::prelude::*;
use crate::line_editor::builtin_names;
use crate::text::{chars_of, pad_right, pad_right_exec, push_chars, starts_with};

verus! {

/// The width of the command column of the help table.
pub const NAME_WIDTH: usize = 30;

/// The rows of the help table: how each built-in is called, and what it does.
pub open spec fn help_entries() -> Seq<(Seq<char>, Seq<char>)> {
    seq![
        ("echo [-n] [text...]"@, "print text (use -n to omit the trailing newline)"@),
        ("cd [dir]"@, "change directory (no argument goes to $HOME)"@),
        ("pwd"@, "print the working directory"@),
        ("ls [-l] [-a] [-F] [path...]"@, "list directory contents"@),
        ("cat [file...]"@, "print files, or standard input when given none"@),
        ("cp src... dest"@, "copy files"@),
        ("rm [-r] path..."@, "remove files (and directories with -r)"@),
        ("mv src... dest"@, "move or rename files"@),
        ("mkdir [-p] dir..."@, "create directories"@),
        ("help"@, "show this help text"@),
        ("exit [code]"@, "quit the shell"@),
    ]
}

/// `help` documents every built-in: the rows follow the names that completion
/// offers, one each, and each row's call begins with its name followed by
/// the end of the call or a space.
pub proof fn law_help_covers_every_command(i: int)
    requires
        0 <= i < builtin_names().len(),
    ensures
        help_entries().len() == builtin_names().len(),
        starts_with(help_entries()[i].0, builtin_names()[i]),
        help_entries()[i].0.len() == builtin_names()[i].len()
            || help_entries()[i].0[builtin_names()[i].len() as int] == ' ',
{
    reveal_strlit("echo");
    reveal_strlit("cd");
    reveal_strlit("pwd");
    reveal_strlit("ls");
    reveal_strlit("cat");
    reveal_strlit("cp");
    reveal_strlit("rm");
    reveal_strlit("mv");
    reveal_strlit("mkdir");
    reveal_strlit("help");
    reveal_strlit("exit");
    reveal_strlit("echo [-n] [text...]");
    reveal_strlit("cd [dir]");
    reveal_strlit("pwd");
    reveal_strlit("ls [-l] [-a] [-F] [path...]");
    reveal_strlit("cat [file...]");
    reveal_strlit("cp src... dest");
    reveal_strlit("rm [-r] path...");
    reveal_strlit("mv src... dest");
    reveal_strlit("mkdir [-p] dir...");
    reveal_strlit("exit [code]");
    let call = help_entries()[i].0;
    let name = builtin_names()[i];
    assert(call.subrange(0, name.len() as int) =~= name);
}

fn entries() -> (r: Vec<(&'static str, &'static str)>)
    ensures
        r@.map_values(|e: (&str, &str)| (e.0@, e.1@)) == help_entries(),
{
    let r = vec![
        ("echo [-n] [text...]", "print text (use -n to omit the trailing newline)"),
        ("cd [dir]", "change directory (no argument goes to $HOME)"),
        ("pwd", "print the working directory"),
        ("ls [-l] [-a] [-F] [path...]", "list directory contents"),
        ("cat [file...]", "print files, or standard input when given none"),
        ("cp src... dest", "copy files"),
        ("rm [-r] path...", "remove files (and directories with -r)"),
        ("mv src... dest", "move or rename files"),
        ("mkdir [-p] dir...", "create directories"),
        ("help", "show this help text"),
        ("exit [code]", "quit the shell"),
    ];
    assert(r@.map_values(|e: (&str, &str)| (e.0@, e.1@)) =~= help_entries());
    r
}

/// One row of the table: the call padded to `NAME_WIDTH` columns, then the
/// description.
pub open spec fn help_row(e: (Seq<char>, Seq<char>)) -> Seq<char> {
    "  "@ + pad_right(e.0, NAME_WIDTH as nat, ' ') + " "@ + e.1 + "\n"@
}

/// The rows of `entries`, one after the other.
pub open spec fn help_rows(entries: Seq<(Seq<char>, Seq<char>)>) -> Seq<char>
    decreases entries.len(),
{
    if entries.len() == 0 {
        Seq::empty()
    } else {
        help_rows(entries.drop_last()) + help_row(entries.last())
    }
}

/// The whole help text: a heading, the table, a blank line and a summary of
/// the shell's features.
pub open spec fn help_text() -> Seq<char> {
    "0-shell built-in commands:\n"@ + help_rows(help_entries()) + "\n"@
        + "Features: ; command chaining, | pipes, < > >> redirection, $VAR expansion.\n"@
        + "Interactive: command history (Up/Down), Tab completion, Ctrl+C to cancel, Ctrl+D to exit.\n"@
}

/// The overview of the built-in commands and supported features. The
/// arguments are ignored.
pub fn run(_args: &[String]) -> (r: String)
    ensures
        r@ == help_text(),
{
    let table = entries();
    let ghost ev = table@.map_values(|e: (&str, &str)| (e.0@, e.1@));
    let mut out = String::new();
    out.append("0-shell built-in commands:\n");
    let ghost head = out@;
    let mut k: usize = 0;
    while k < table.len()
        invariant
            k <= table.len(),
            ev == table@.map_values(|e: (&str, &str)| (e.0@, e.1@)),
            ev == help_entries(),
            out@ == head + help_rows(ev.take(k as int)),
        decreases table.len() - k,
    {
        let (name, description) = table[k];
        let ghost before = out@;
        out.append("  ");
        let padded = pad_right_exec(&chars_of(name), NAME_WIDTH, ' ');
        push_chars(&mut out, &padded);
        out.append(" ");
        out.append(description);
        out.append("\n");
        assert(ev.take(k as int + 1).drop_last() =~= ev.take(k as int));
        assert(ev.take(k as int + 1).last() == (name@, description@));
        assert(out@ =~= before + help_row((name@, description@)));
        k += 1;
    }
    assert(ev.take(k as int) =~= ev);
    out.append("\n");
    out.append("Features: ; command chaining, | pipes, < > >> redirection, $VAR expansion.\n");
    out.append("Interactive: command history (Up/Down), Tab completion, Ctrl+C to cancel, Ctrl+D to exit.\n");
    out
}

} // verus!
