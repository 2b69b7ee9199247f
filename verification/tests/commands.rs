use zero_shell::commands::rm::Removal;
use zero_shell::commands::{cd, cp, echo, help, mkdir, rm, util};

fn strings(v: &[&str]) -> Vec<String> {
    v.iter().map(|s| s.to_string()).collect()
}

#[test]
fn echo_joins_with_spaces() {
    assert_eq!(echo::run(&strings(&["Hello", "There"])), "Hello There\n");
    assert_eq!(echo::run(&strings(&["-n", "a", "b"])), "a b");
    assert_eq!(echo::run(&[]), "\n");
    assert_eq!(echo::run(&strings(&["a", "-n"])), "a -n\n");
}

#[test]
fn cd_targets() {
    assert_eq!(cd::target(&strings(&["/tmp"]), None), Ok("/tmp".to_string()));
    assert_eq!(cd::target(&[], Some("/home/u".to_string())), Ok("/home/u".to_string()));
    assert_eq!(cd::target(&[], None), Err("HOME not set".to_string()));
    assert_eq!(cd::target(&strings(&["a", "b"]), None), Err("too many arguments".to_string()));
}

#[test]
fn mkdir_arguments() {
    assert_eq!(mkdir::parse_args(&strings(&["-p", "a/b"])), Ok((true, strings(&["a/b"]))));
    assert_eq!(mkdir::parse_args(&strings(&["a", "-p"])), Ok((false, strings(&["a", "-p"]))));
    assert_eq!(mkdir::parse_args(&strings(&["-p"])), Err("missing operand".to_string()));
    assert_eq!(mkdir::parse_args(&[]), Err("missing operand".to_string()));
}

#[test]
fn rm_arguments() {
    assert_eq!(rm::parse_args(&strings(&["-rf", "d"])), Ok((true, strings(&["d"]))));
    assert_eq!(rm::parse_args(&strings(&["-f", "-R", "d", "-r"])), Ok((true, strings(&["d", "-r"]))));
    assert_eq!(rm::parse_args(&strings(&["x", "-r"])), Ok((false, strings(&["x", "-r"]))));
    assert_eq!(rm::parse_args(&strings(&["-", "x"])), Ok((false, strings(&["-", "x"]))));
    assert_eq!(rm::parse_args(&strings(&["-rx", "d"])), Err("invalid option '-rx'".to_string()));
    assert_eq!(rm::parse_args(&strings(&["-r"])), Err("missing operand".to_string()));
}

#[test]
fn rm_removal() {
    assert_eq!(rm::removal(false, false), Removal::File);
    assert_eq!(rm::removal(true, true), Removal::Tree);
    assert_eq!(rm::removal(true, false), Removal::Refused);
}

#[test]
fn cp_refuses_directories() {
    assert_eq!(
        cp::refusal(true),
        Some("omitting directory (recursive copy not supported)".to_string())
    );
    assert_eq!(cp::refusal(false), None);
}

#[test]
fn file_name_of_paths() {
    assert_eq!(util::file_name("a/b.txt"), Some("b.txt".to_string()));
    assert_eq!(util::file_name("/usr/bin/"), Some("bin".to_string()));
    assert_eq!(util::file_name("a/.."), None);
    assert_eq!(util::file_name("/"), None);
}

#[test]
fn transfer_operands_and_targets() {
    assert_eq!(util::transfer_operands(&strings(&["a"])), Err("missing file operand".to_string()));
    let (sources, dest) = util::transfer_operands(&strings(&["x/a", "b", "dir"])).unwrap();
    assert_eq!(sources, strings(&["x/a", "b"]));
    assert_eq!(dest, "dir");
    assert_eq!(
        util::transfer_targets(&sources, &dest, false),
        Err("target 'dir' is not a directory".to_string())
    );
    assert_eq!(
        util::transfer_targets(&sources, &dest, true),
        Ok(vec![
            ("x/a".to_string(), "dir/a".to_string()),
            ("b".to_string(), "dir/b".to_string()),
        ])
    );
    assert_eq!(
        util::transfer_targets(&strings(&["a"]), "new", false),
        Ok(vec![("a".to_string(), "new".to_string())])
    );
    assert_eq!(util::resolve_target("a", "d/", true), "d/a");
}

#[test]
fn operand_failure_text() {
    assert_eq!(
        util::operand_failure("rm", "cannot remove", "x", "No such file or directory"),
        "rm: cannot remove 'x': No such file or directory"
    );
}

#[test]
fn help_lists_every_command() {
    let text = help::run(&[]);
    assert!(text.starts_with("0-shell built-in commands:\n"));
    assert!(text.contains(&format!("  {:<30} {}\n", "echo [-n] [text...]", "print text (use -n to omit the trailing newline)")));
    assert!(text.contains(&format!("  {:<30} {}\n", "exit [code]", "quit the shell")));
    assert_eq!(text.lines().count(), 1 + 11 + 1 + 2);
    assert!(text.ends_with("Ctrl+C to cancel, Ctrl+D to exit.\n"));
}

#[test]
fn help_documents_every_builtin() {
    let text = help::run(&[]);
    for name in zero_shell::line_editor::builtins() {
        assert!(
            text.lines().any(|l| l.starts_with(&format!("  {name} ")) ),
            "{name}"
        );
    }
}
