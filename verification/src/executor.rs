//! Running parsed command lines: the order in which the statements run, how
//! each stage of a pipeline is wired, and what a command's name asks for.
//! Opening files and running the built-ins is left to the caller, which
//! follows the plans made here.

use vstd::prelude::*;
use crate::color::{paint, painted, BOLD_RED};
use crate::line_editor::builtin_names;
use crate::parser::{Command, CommandView, Pipeline};
use crate::text::{chars_of, parse_i32, spec_parse_i32};

verus! {

/// What should happen to the shell after running a statement list.
#[derive(Clone, Copy, Debug, PartialEq, Eq, Structural)]
pub enum Flow {
    /// Keep looping.
    Continue,
    /// Exit the shell with the given status code.
    Exit(i32),
}

/// Whether each of the first `k` pipelines, run by `run`, can have let the
/// shell go on.
pub open spec fn all_continue<F: Fn(&Pipeline) -> Flow>(run: F, pipelines: Seq<Pipeline>, k: int) -> bool {
    forall|i: int| 0 <= i < k ==> call_ensures(run, (&pipelines[i],), Flow::Continue)
}

/// Running the pipelines in order stopped after the `k`-th with `r`: the ones
/// before it let the shell go on, and either the `k`-th asked to exit with
/// `r`, or all of them ran (`k` is their number) and `r` is `Continue`.
pub open spec fn stopped_at<F: Fn(&Pipeline) -> Flow>(run: F, pipelines: Seq<Pipeline>, k: int, r: Flow) -> bool {
    &&& 0 <= k <= pipelines.len()
    &&& all_continue(run, pipelines, k)
    &&& if k < pipelines.len() {
        r is Exit && call_ensures(run, (&pipelines[k],), r)
    } else {
        r == Flow::Continue
    }
}

/// Runs every pipeline in order (the `;` separated statements) with `run`,
/// stopping at the first one that asks the shell to exit.
pub fn run_list<F: Fn(&Pipeline) -> Flow>(pipelines: Vec<Pipeline>, run: F) -> (r: Flow)
    requires
        forall|i: int| 0 <= i < pipelines.len() ==> call_requires(run, (&pipelines[i],)),
    ensures
        exists|k: int| stopped_at(run, pipelines@, k, r),
{
    let mut i: usize = 0;
    while i < pipelines.len()
        invariant
            i <= pipelines.len(),
            forall|j: int| 0 <= j < pipelines.len() ==> call_requires(run, (&pipelines[j],)),
            all_continue(run, pipelines@, i as int),
        decreases pipelines.len() - i,
    {
        let f = run(&pipelines[i]);
        match f {
            Flow::Exit(_) => {
                assert(stopped_at(run, pipelines@, i as int, f));
                return f;
            },
            Flow::Continue => {},
        }
        i += 1;
    }
    assert(stopped_at(run, pipelines@, i as int, Flow::Continue));
    Flow::Continue
}

// ---------------------------------------------------------------------------
// Wiring the stages of a pipeline
// ---------------------------------------------------------------------------

/// Where a stage reads its input from.
pub enum StageInput {
    /// The file named by `< file`.
    File(String),
    /// What the stage before it sent down the pipe.
    Piped,
    /// The shell's own standard input.
    Terminal,
}

/// Where a stage writes its output to.
pub enum StageOutput {
    /// Down the pipe, to the next stage.
    Pipe,
    /// The file named by `> file` (`false`) or `>> file` (`true`).
    File(String, bool),
    /// The shell's own standard output.
    Terminal,
}

/// How one command of a pipeline is connected.
pub struct Stage {
    pub input: StageInput,
    pub output: StageOutput,
    /// Whether the command may colour its output.
    pub color: bool,
}

pub enum StageInputView {
    File(Seq<char>),
    Piped,
    Terminal,
}

pub enum StageOutputView {
    Pipe,
    File(Seq<char>, bool),
    Terminal,
}

pub struct StageView {
    pub input: StageInputView,
    pub output: StageOutputView,
    pub color: bool,
}

impl View for Stage {
    type V = StageView;

    open spec fn view(&self) -> StageView {
        StageView {
            input: match self.input {
                StageInput::File(p) => StageInputView::File(p@),
                StageInput::Piped => StageInputView::Piped,
                StageInput::Terminal => StageInputView::Terminal,
            },
            output: match self.output {
                StageOutput::Pipe => StageOutputView::Pipe,
                StageOutput::File(p, append) => StageOutputView::File(p@, append),
                StageOutput::Terminal => StageOutputView::Terminal,
            },
            color: self.color,
        }
    }
}

/// How the command `c`, at `index` in a pipeline of `count` commands, is
/// connected: a redirection wins; otherwise the first command reads the
/// terminal and the others the pipe, and the last command writes to the
/// terminal and the others to the pipe. Only output to the terminal is
/// coloured, and only when that terminal is a tty.
pub open spec fn spec_stage(c: CommandView, index: int, count: int, stdout_is_tty: bool) -> StageView {
    let input = match c.stdin {
        Some(p) => StageInputView::File(p),
        None => if index == 0 {
            StageInputView::Terminal
        } else {
            StageInputView::Piped
        },
    };
    let output = match c.stdout {
        Some((p, append)) => StageOutputView::File(p, append),
        None => if index + 1 < count {
            StageOutputView::Pipe
        } else {
            StageOutputView::Terminal
        },
    };
    StageView { input, output, color: output is Terminal && stdout_is_tty }
}

/// Decides how the command at `index` of a pipeline of `count` commands is
/// connected.
pub fn plan_stage(command: &Command, index: usize, count: usize, stdout_is_tty: bool) -> (s: Stage)
    requires
        index < count,
    ensures
        s@ == spec_stage(command@, index as int, count as int, stdout_is_tty),
{
    let input = match &command.stdin {
        Some(p) => StageInput::File(p.clone()),
        None => if index == 0 {
            StageInput::Terminal
        } else {
            StageInput::Piped
        },
    };
    let mut color = false;
    let output = match &command.stdout {
        Some((p, append)) => StageOutput::File(p.clone(), *append),
        None => if index + 1 < count {
            StageOutput::Pipe
        } else {
            color = stdout_is_tty;
            StageOutput::Terminal
        },
    };
    Stage { input, output, color }
}

/// Decides how every command of a pipeline is connected, in order.
pub fn plan_pipeline(pipeline: &Pipeline, stdout_is_tty: bool) -> (r: Vec<Stage>)
    ensures
        r.len() == pipeline.commands.len(),
        forall|i: int| 0 <= i < r.len() ==> #[trigger] r[i]@ == spec_stage(
            pipeline@[i],
            i,
            pipeline@.len() as int,
            stdout_is_tty,
        ),
{
    let count = pipeline.commands.len();
    let mut r: Vec<Stage> = Vec::new();
    let mut i: usize = 0;
    while i < count
        invariant
            count == pipeline.commands.len(),
            i <= count,
            r.len() == i,
            forall|j: int| 0 <= j < i ==> #[trigger] r[j]@ == spec_stage(
                pipeline@[j],
                j,
                count as int,
                stdout_is_tty,
            ),
        decreases count - i,
    {
        let s = plan_stage(&pipeline.commands[i], i, count, stdout_is_tty);
        r.push(s);
        i += 1;
    }
    r
}

/// A redirection is followed as written: `< f` reads `f`, and `> f` or
/// `>> f` writes `f` with the same append flag (`>` truncates, `>>` appends),
/// wherever the command stands in the pipeline. Output to a file is never
/// coloured.
pub proof fn law_redirections_are_followed(c: CommandView, index: int, count: int, stdout_is_tty: bool)
    ensures
        c.stdin matches Some(p) ==> spec_stage(c, index, count, stdout_is_tty).input == StageInputView::File(p),
        c.stdout matches Some((p, append)) ==> spec_stage(c, index, count, stdout_is_tty).output
            == StageOutputView::File(p, append) && !spec_stage(c, index, count, stdout_is_tty).color,
{
}

/// Colour is used only for output that goes to the terminal, and only when
/// that terminal is a tty.
pub proof fn law_color_only_on_terminal(c: CommandView, index: int, count: int, stdout_is_tty: bool)
    ensures
        spec_stage(c, index, count, stdout_is_tty).color <==> (stdout_is_tty && spec_stage(
            c,
            index,
            count,
            stdout_is_tty,
        ).output is Terminal),
{
}

/// In a pipe, a stage that redirects neither way hands its output to the
/// next stage, and a next stage without `<` reads it.
pub proof fn law_pipe_connects_stages(a: CommandView, b: CommandView, i: int, count: int, stdout_is_tty: bool)
    requires
        0 <= i,
        i + 1 < count,
        a.stdout is None,
        b.stdin is None,
    ensures
        spec_stage(a, i, count, stdout_is_tty).output is Pipe,
        spec_stage(b, i + 1, count, stdout_is_tty).input is Piped,
{
}

/// Only the first stage of a pipeline reads the shell's input, and only the
/// last one writes to the shell's output.
pub proof fn law_terminal_only_at_the_ends(c: CommandView, index: int, count: int, stdout_is_tty: bool)
    requires
        0 <= index < count,
    ensures
        spec_stage(c, index, count, stdout_is_tty).input is Terminal ==> index == 0,
        spec_stage(c, index, count, stdout_is_tty).output is Terminal ==> index == count - 1,
{
}

/// What came of one stage of a pipeline.
#[derive(Clone, Copy, Debug, PartialEq, Eq, Structural)]
pub enum StageOutcome {
    /// The stage could not start (its `<` file did not open) and was left out.
    Skipped,
    /// The stage's command ran, with this result.
    Ran(Flow),
}

/// Whether each of the first `k` stages, run by `run`, can have let the
/// pipeline go on.
pub open spec fn stages_go_on<F: Fn(usize, &Stage) -> StageOutcome>(run: F, stages: Seq<Stage>, k: int) -> bool {
    forall|i: int|
        0 <= i < k ==> call_ensures(run, (i as usize, #[trigger] &stages[i]), StageOutcome::Skipped)
            || call_ensures(run, (i as usize, &stages[i]), StageOutcome::Ran(Flow::Continue))
}

/// Running the stages in order stopped after the `k`-th with `r`: those
/// before it were skipped or let the pipeline go on, and either the `k`-th
/// ran `exit` with the status in `r`, or all of them ran and `r` is
/// `Continue`.
pub open spec fn stage_stopped_at<F: Fn(usize, &Stage) -> StageOutcome>(run: F, stages: Seq<Stage>, k: int, r: Flow) -> bool {
    &&& 0 <= k <= stages.len()
    &&& stages_go_on(run, stages, k)
    &&& if k < stages.len() {
        r is Exit && call_ensures(run, (k as usize, &stages[k]), StageOutcome::Ran(r))
    } else {
        r == Flow::Continue
    }
}

/// Runs the stages of a pipeline in order with `run`, which is given each
/// stage's index and wiring: a stage that could not start is left out and
/// the others go on; the first stage that asks the shell to exit ends the
/// pipeline.
pub fn run_stages<F: Fn(usize, &Stage) -> StageOutcome>(stages: &Vec<Stage>, run: F) -> (r: Flow)
    requires
        forall|i: int| 0 <= i < stages.len() ==> call_requires(run, (i as usize, &stages[i])),
    ensures
        exists|k: int| stage_stopped_at(run, stages@, k, r),
{
    let mut i: usize = 0;
    while i < stages.len()
        invariant
            i <= stages.len(),
            forall|j: int| 0 <= j < stages.len() ==> call_requires(run, (j as usize, &stages[j])),
            stages_go_on(run, stages@, i as int),
        decreases stages.len() - i,
    {
        let o = run(i, &stages[i]);
        match o {
            StageOutcome::Ran(Flow::Exit(c)) => {
                assert(stage_stopped_at(run, stages@, i as int, Flow::Exit(c)));
                return Flow::Exit(c);
            },
            _ => {},
        }
        i += 1;
    }
    assert(stage_stopped_at(run, stages@, i as int, Flow::Continue));
    Flow::Continue
}

// ---------------------------------------------------------------------------
// What a command asks for
// ---------------------------------------------------------------------------

/// The built-in commands that produce output or change the file system.
#[derive(Clone, Copy, Debug, PartialEq, Eq, Structural)]
pub enum Builtin {
    Echo,
    Cd,
    Pwd,
    Ls,
    Cat,
    Cp,
    Rm,
    Mv,
    Mkdir,
    Help,
}

/// What running a command comes to.
#[derive(Clone, Copy, Debug, PartialEq, Eq, Structural)]
pub enum Action {
    /// `exit`: leave the shell with this status.
    Exit(i32),
    /// Run this built-in with the command's arguments.
    Run(Builtin),
    /// No built-in has this name.
    NotFound,
}

/// The built-in called `name`, other than `exit`.
pub open spec fn builtin_named(name: Seq<char>) -> Option<Builtin> {
    if name == "echo"@ {
        Some(Builtin::Echo)
    } else if name == "cd"@ {
        Some(Builtin::Cd)
    } else if name == "pwd"@ {
        Some(Builtin::Pwd)
    } else if name == "ls"@ {
        Some(Builtin::Ls)
    } else if name == "cat"@ {
        Some(Builtin::Cat)
    } else if name == "cp"@ {
        Some(Builtin::Cp)
    } else if name == "rm"@ {
        Some(Builtin::Rm)
    } else if name == "mv"@ {
        Some(Builtin::Mv)
    } else if name == "mkdir"@ {
        Some(Builtin::Mkdir)
    } else if name == "help"@ {
        Some(Builtin::Help)
    } else {
        None
    }
}

/// The status that `exit` with the arguments `args` leaves with: the first
/// argument read as an `i32`, or 0 when there is none or it is not a number.
pub open spec fn spec_exit_code(args: Seq<Seq<char>>) -> i32 {
    if args.len() > 0 {
        match spec_parse_i32(args[0]) {
            Some(c) => c,
            None => 0,
        }
    } else {
        0
    }
}

/// What the command with the words `argv` asks for.
pub open spec fn spec_action(argv: Seq<Seq<char>>) -> Action {
    if argv[0] == "exit"@ {
        Action::Exit(spec_exit_code(argv.drop_first()))
    } else {
        match builtin_named(argv[0]) {
            Some(b) => Action::Run(b),
            None => Action::NotFound,
        }
    }
}

/// Whether `name` is the text `word`.
fn name_is(name: &String, word: &str) -> (b: bool)
    ensures
        b == (name@ == word@),
{
    let w = word.to_owned();
    *name == w
}

/// The status that `exit` leaves with, given its arguments.
pub fn exit_code(args: &[String]) -> (c: i32)
    ensures
        c == spec_exit_code(args@.map_values(|a: String| a@)),
{
    if args.len() > 0 {
        match parse_i32(&chars_of(args[0].as_str())) {
            Some(c) => c,
            None => 0,
        }
    } else {
        0
    }
}

/// Decides what a command asks for from its name, the first of its words.
pub fn action_of(command: &Command) -> (a: Action)
    requires
        command@.argv.len() > 0,
    ensures
        a == spec_action(command@.argv),
{
    let name = &command.argv[0];
    if name_is(name, "exit") {
        let args = &command.argv.as_slice()[1..command.argv.len()];
        assert(args@.map_values(|a: String| a@) =~= command@.argv.drop_first());
        return Action::Exit(exit_code(args));
    }
    let b = if name_is(name, "echo") {
        Some(Builtin::Echo)
    } else if name_is(name, "cd") {
        Some(Builtin::Cd)
    } else if name_is(name, "pwd") {
        Some(Builtin::Pwd)
    } else if name_is(name, "ls") {
        Some(Builtin::Ls)
    } else if name_is(name, "cat") {
        Some(Builtin::Cat)
    } else if name_is(name, "cp") {
        Some(Builtin::Cp)
    } else if name_is(name, "rm") {
        Some(Builtin::Rm)
    } else if name_is(name, "mv") {
        Some(Builtin::Mv)
    } else if name_is(name, "mkdir") {
        Some(Builtin::Mkdir)
    } else if name_is(name, "help") {
        Some(Builtin::Help)
    } else {
        None
    };
    match b {
        Some(b) => Action::Run(b),
        None => Action::NotFound,
    }
}

/// The names that completion offers at the start of a line are exactly the
/// commands the shell runs: any other name is not found.
pub proof fn law_completed_names_are_commands(name: Seq<char>)
    ensures
        builtin_names().contains(name) <==> spec_action(seq![name]) != Action::NotFound,
{
    let names = builtin_names();
    let argv = seq![name];
    assert(argv[0] == name);
    if names.contains(name) {
        let i = choose|i: int| 0 <= i < names.len() && names[i] == name;
        assert(0 <= i < 11);
    }
    if spec_action(argv) != Action::NotFound {
        if name == "exit"@ {
            assert(names[10] == name);
        } else if name == "echo"@ {
            assert(names[0] == name);
        } else if name == "cd"@ {
            assert(names[1] == name);
        } else if name == "pwd"@ {
            assert(names[2] == name);
        } else if name == "ls"@ {
            assert(names[3] == name);
        } else if name == "cat"@ {
            assert(names[4] == name);
        } else if name == "cp"@ {
            assert(names[5] == name);
        } else if name == "rm"@ {
            assert(names[6] == name);
        } else if name == "mv"@ {
            assert(names[7] == name);
        } else if name == "mkdir"@ {
            assert(names[8] == name);
        } else {
            assert(names[9] == name);
        }
    }
}

/// The name a built-in is called by.
pub open spec fn builtin_name(b: Builtin) -> Seq<char> {
    match b {
        Builtin::Echo => "echo"@,
        Builtin::Cd => "cd"@,
        Builtin::Pwd => "pwd"@,
        Builtin::Ls => "ls"@,
        Builtin::Cat => "cat"@,
        Builtin::Cp => "cp"@,
        Builtin::Rm => "rm"@,
        Builtin::Mv => "mv"@,
        Builtin::Mkdir => "mkdir"@,
        Builtin::Help => "help"@,
    }
}

/// A command runs the built-in whose name is its first word, and only that
/// one; `exit` is the only name that leaves the shell.
pub proof fn law_command_runs_the_builtin_it_names(argv: Seq<Seq<char>>, b: Builtin)
    requires
        argv.len() > 0,
    ensures
        spec_action(argv) == Action::Run(b) <==> argv[0] == builtin_name(b),
        spec_action(argv) is Exit <==> argv[0] == "exit"@,
{
    reveal_strlit("echo");
    reveal_strlit("cd");
    reveal_strlit("pwd");
    reveal_strlit("ls");
    reveal_strlit("cat");
    reveal_strlit("cp");
    reveal_strlit("rm");
    reveal_strlit("mv");
    reveal_strlit("mkdir");
    reveal_strlit("help");
    reveal_strlit("exit");
    assert("echo"@ =~= seq!['e', 'c', 'h', 'o']);
    assert("cd"@ =~= seq!['c', 'd']);
    assert("pwd"@ =~= seq!['p', 'w', 'd']);
    assert("ls"@ =~= seq!['l', 's']);
    assert("cat"@ =~= seq!['c', 'a', 't']);
    assert("cp"@ =~= seq!['c', 'p']);
    assert("rm"@ =~= seq!['r', 'm']);
    assert("mv"@ =~= seq!['m', 'v']);
    assert("mkdir"@ =~= seq!['m', 'k', 'd', 'i', 'r']);
    assert("help"@ =~= seq!['h', 'e', 'l', 'p']);
    assert("exit"@ =~= seq!['e', 'x', 'i', 't']);
    let n = argv[0];
    if n == builtin_name(b) {
        match b {
            Builtin::Echo => {},
            Builtin::Cd => {},
            Builtin::Pwd => {},
            Builtin::Ls => {},
            Builtin::Cat => {},
            Builtin::Cp => {},
            Builtin::Rm => {},
            Builtin::Mv => {},
            Builtin::Mkdir => {},
            Builtin::Help => {},
        }
    }
    if spec_action(argv) == Action::Run(b) {
        assert(n != "exit"@);
        assert(builtin_named(n) == Some(b));
    }
}

/// `exit` without a usable number leaves with status 0.
pub proof fn law_exit_defaults_to_zero(argv: Seq<Seq<char>>)
    requires
        argv.len() > 0,
        argv[0] == "exit"@,
        argv.len() == 1 || spec_parse_i32(argv[1]) is None,
    ensures
        spec_action(argv) == Action::Exit(0),
{
}

/// The line printed for a command that no built-in answers to.
pub open spec fn spec_not_found_line(name: Seq<char>) -> Seq<char> {
    "Command '"@ + name + "' not found\n"@
}

/// Builds the line printed for a command that no built-in answers to.
pub fn not_found_line(name: &str) -> (r: String)
    ensures
        r@ == spec_not_found_line(name@),
{
    let mut s = String::new();
    s.append("Command '");
    s.append(name);
    s.append("' not found\n");
    s
}

/// The name a command is reported under: its first word, or nothing.
pub fn name_of(command: &Command) -> (r: &str)
    ensures
        r@ == if command@.argv.len() > 0 {
            command@.argv[0]
        } else {
            ""@
        },
{
    if command.argv.len() > 0 {
        command.argv[0].as_str()
    } else {
        ""
    }
}

/// The text of an error report: `name: message`, in red when `colored`.
pub open spec fn spec_error_text(colored: bool, name: Seq<char>, message: Seq<char>) -> Seq<char> {
    painted(colored, BOLD_RED@, name + ": "@ + message)
}

/// Builds the text of an error report for the command `name`.
pub fn error_text(colored: bool, name: &str, message: &str) -> (r: String)
    ensures
        r@ == spec_error_text(colored, name@, message@),
{
    let mut text = String::new();
    text.append(name);
    text.append(": ");
    text.append(message);
    paint(colored, BOLD_RED, text.as_str())
}

} // verus!
