use std::cell::RefCell;

use zero_shell::executor::{
    action_of, error_text, exit_code, name_of, not_found_line, plan_pipeline, plan_stage,
    run_list, run_stages, Action, Builtin, Flow, StageInput, StageOutcome, StageOutput,
};
use zero_shell::history::History;
use zero_shell::line_editor::Line;
use zero_shell::parser::{parse, Command, Environment};
use zero_shell::shell::{after_line, Next};

fn strings(v: &[&str]) -> Vec<String> {
    v.iter().map(|s| s.to_string()).collect()
}

fn command(words: &[&str]) -> Command {
    Command { argv: strings(words), stdin: None, stdout: None }
}

#[test]
fn run_list_stops_at_first_exit() {
    let pipelines = parse("echo a ; exit 3 ; echo b", &Environment::new()).unwrap();
    let seen = RefCell::new(Vec::new());
    let flow = run_list(pipelines, |p| {
        let c = &p.commands[0];
        seen.borrow_mut().push(c.argv[0].clone());
        match action_of(c) {
            Action::Exit(code) => Flow::Exit(code),
            _ => Flow::Continue,
        }
    });
    assert_eq!(flow, Flow::Exit(3));
    assert_eq!(seen.into_inner(), strings(&["echo", "exit"]));
}

#[test]
fn run_list_runs_everything_without_exit() {
    let pipelines = parse("echo a ; echo b", &Environment::new()).unwrap();
    let count = RefCell::new(0);
    let flow = run_list(pipelines, |_| {
        *count.borrow_mut() += 1;
        Flow::Continue
    });
    assert_eq!(flow, Flow::Continue);
    assert_eq!(count.into_inner(), 2);
}

#[test]
fn exit_code_defaults_to_zero() {
    assert_eq!(exit_code(&[]), 0);
    assert_eq!(exit_code(&strings(&["7"])), 7);
    assert_eq!(exit_code(&strings(&["-2"])), -2);
    assert_eq!(exit_code(&strings(&["+4"])), 4);
    assert_eq!(exit_code(&strings(&["x"])), 0);
    assert_eq!(exit_code(&strings(&["2147483648"])), 0);
    assert_eq!(exit_code(&strings(&["-2147483648"])), i32::MIN);
}

#[test]
fn action_of_names() {
    assert_eq!(action_of(&command(&["exit"])), Action::Exit(0));
    assert_eq!(action_of(&command(&["exit", "5", "x"])), Action::Exit(5));
    assert_eq!(action_of(&command(&["echo", "hi"])), Action::Run(Builtin::Echo));
    assert_eq!(action_of(&command(&["mkdir"])), Action::Run(Builtin::Mkdir));
    assert_eq!(action_of(&command(&["help"])), Action::Run(Builtin::Help));
    assert_eq!(action_of(&command(&["nosuch"])), Action::NotFound);
    assert_eq!(action_of(&command(&["Echo"])), Action::NotFound);
}

#[test]
fn not_found_message() {
    assert_eq!(not_found_line("foo"), "Command 'foo' not found\n");
}

#[test]
fn error_text_is_red_only_on_a_terminal() {
    assert_eq!(error_text(false, "cd", "HOME not set"), "cd: HOME not set");
    assert_eq!(error_text(true, "cd", "x"), "\x1b[1;31mcd: x\x1b[0m");
}

#[test]
fn name_of_first_word() {
    assert_eq!(name_of(&command(&["ls", "-l"])), "ls");
    assert_eq!(name_of(&command(&[])), "");
}

#[test]
fn plan_of_a_pipe_with_redirections() {
    let ps = parse("cat < in.txt | cat | cat >> out.txt", &Environment::new()).unwrap();
    let stages = plan_pipeline(&ps[0], true);
    assert_eq!(stages.len(), 3);
    assert!(matches!(&stages[0].input, StageInput::File(p) if p == "in.txt"));
    assert!(matches!(stages[0].output, StageOutput::Pipe));
    assert!(matches!(stages[1].input, StageInput::Piped));
    assert!(matches!(stages[1].output, StageOutput::Pipe));
    assert!(matches!(&stages[2].output, StageOutput::File(p, true) if p == "out.txt"));
    assert!(stages.iter().all(|s| !s.color));
}

#[test]
fn plan_colours_only_the_terminal() {
    let ps = parse("ls | cat", &Environment::new()).unwrap();
    let stages = plan_pipeline(&ps[0], true);
    assert!(matches!(stages[0].input, StageInput::Terminal));
    assert!(!stages[0].color);
    assert!(matches!(stages[1].output, StageOutput::Terminal));
    assert!(stages[1].color);
    let s = plan_stage(&ps[0].commands[1], 1, 2, false);
    assert!(!s.color);
}

#[test]
fn after_line_records_parses_and_stops() {
    let env = Environment::new();
    let mut h = History::load(None, None);
    match after_line(&mut h, Line::Input(" echo a | cat ".to_string()), &env) {
        Next::Run(ps) => assert_eq!(ps[0].commands.len(), 2),
        _ => panic!("expected statements to run"),
    }
    assert_eq!(h.entries(), &["echo a | cat".to_string()]);
    match after_line(&mut h, Line::Input("echo 'x".to_string()), &env) {
        Next::Report(m) => assert_eq!(m, "0-shell: unexpected EOF while looking for matching `'`"),
        _ => panic!("expected a report"),
    }
    assert_eq!(h.entries().len(), 2);
    assert!(matches!(after_line(&mut h, Line::Interrupted, &env), Next::Prompt));
    assert!(matches!(after_line(&mut h, Line::Eof, &env), Next::Quit(0)));
    assert_eq!(h.entries().len(), 2);
}

#[test]
fn every_completed_name_is_a_command() {
    for name in zero_shell::line_editor::builtins() {
        assert_ne!(action_of(&command(&[name])), Action::NotFound, "{name}");
    }
}

#[test]
fn run_stages_skips_and_stops_at_exit() {
    let ps = parse("cat < missing | exit 4 | echo never", &Environment::new()).unwrap();
    let stages = plan_pipeline(&ps[0], false);
    let seen = RefCell::new(Vec::new());
    let flow = run_stages(&stages, |i, s| {
        seen.borrow_mut().push(i);
        if matches!(s.input, StageInput::File(_)) {
            return StageOutcome::Skipped;
        }
        match action_of(&ps[0].commands[i]) {
            Action::Exit(c) => StageOutcome::Ran(Flow::Exit(c)),
            _ => StageOutcome::Ran(Flow::Continue),
        }
    });
    assert_eq!(flow, Flow::Exit(4));
    assert_eq!(seen.into_inner(), vec![0, 1]);
    let ps = parse("echo a | cat", &Environment::new()).unwrap();
    let stages = plan_pipeline(&ps[0], false);
    assert_eq!(run_stages(&stages, |_, _| StageOutcome::Ran(Flow::Continue)), Flow::Continue);
}
