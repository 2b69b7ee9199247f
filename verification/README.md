# zero_shell

A minimalist Unix-like shell whose logic is written in Verus and proved
against its specifications. No external binaries are spawned and no outside
crates are used.

## Layout

- `src/` — the verified library.
  - `parser.rs`, `parser_laws.rs`: quote-aware tokenizing with `$VAR` and
    `${VAR}` expansion, `;` statements, `|` pipes and `<`, `>`, `>>`
    redirections, and the properties the grammar guarantees.
  - `line_editor.rs`: the interactive line editor as a state machine fed one
    byte at a time (cursor keys, Home/End, Delete, history browsing, Tab
    completion, Ctrl+C and Ctrl+D).
  - `history.rs`: the bounded command history and the text of its file.
  - `executor.rs`: the order in which statements run, how each stage of a
    pipeline is wired, and what a command's name asks for.
  - `shell.rs`: what the shell does with each line it reads.
  - `prompt.rs`: the working-directory prompt, with `$HOME` shown as `~`.
  - `commands/`: the argument handling and output of the built-ins (`ls` in
    full, including `-l` columns, dates and permissions; `echo`, `cd`, `cp`,
    `mv`, `rm`, `mkdir`, `help`).
  - `text.rs`, `sorting.rs`, `color.rs`: text helpers, a stable sort order,
    and ANSI colours.
- `app/` — the program around the library: the read-eval-print loop,
  terminal raw mode, and the file-system work the built-ins ask for.
- `tests/` — tests of the library on concrete inputs.
