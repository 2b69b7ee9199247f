use zero_shell::parser::{parse, Environment};

fn words(input: &str) -> Vec<String> {
    words_in(input, &Environment::new())
}

fn words_in(input: &str, env: &Environment) -> Vec<String> {
    let pipelines = parse(input, env).unwrap();
    assert_eq!(pipelines.len(), 1);
    assert_eq!(pipelines[0].commands.len(), 1);
    pipelines[0].commands[0].argv.clone()
}

fn test_env() -> Environment {
    let mut env = Environment::new();
    env.set("ZS_TEST_VAR".to_string(), "value".to_string());
    env
}

#[test]
fn splits_on_whitespace() {
    assert_eq!(words("ls -l -a"), vec!["ls", "-l", "-a"]);
}

#[test]
fn keeps_double_quoted_spaces() {
    assert_eq!(words("echo \"Hello There\""), vec!["echo", "Hello There"]);
}

#[test]
fn keeps_single_quoted_spaces() {
    assert_eq!(words("echo 'a b c'"), vec!["echo", "a b c"]);
}

#[test]
fn joins_adjacent_quoted_segments() {
    assert_eq!(words("echo a'b'c"), vec!["echo", "abc"]);
}

#[test]
fn single_quotes_do_not_expand() {
    let env = test_env();
    assert_eq!(words_in("echo '$ZS_TEST_VAR'", &env), vec!["echo", "$ZS_TEST_VAR"]);
}

#[test]
fn double_quotes_expand_variables() {
    let env = test_env();
    assert_eq!(words_in("echo \"$ZS_TEST_VAR\"", &env), vec!["echo", "value"]);
}

#[test]
fn braced_variable_expansion() {
    let env = test_env();
    assert_eq!(words_in("echo ${ZS_TEST_VAR}s", &env), vec!["echo", "values"]);
}

#[test]
fn unset_variable_is_empty() {
    assert_eq!(words("echo x${ZS_DEFINITELY_UNSET}y"), vec!["echo", "xy"]);
}

#[test]
fn backslash_escapes_next_char() {
    assert_eq!(words("echo a\\ b"), vec!["echo", "a b"]);
}

#[test]
fn semicolon_splits_statements() {
    let pipelines = parse("echo a ; echo b", &Environment::new()).unwrap();
    assert_eq!(pipelines.len(), 2);
    assert_eq!(pipelines[0].commands[0].argv, vec!["echo", "a"]);
    assert_eq!(pipelines[1].commands[0].argv, vec!["echo", "b"]);
}

#[test]
fn trailing_semicolon_is_ignored() {
    let pipelines = parse("echo a ;", &Environment::new()).unwrap();
    assert_eq!(pipelines.len(), 1);
}

#[test]
fn pipe_builds_multiple_commands() {
    let pipelines = parse("cat file | cat", &Environment::new()).unwrap();
    assert_eq!(pipelines[0].commands.len(), 2);
}

#[test]
fn parses_output_redirection() {
    let pipelines = parse("echo hi > out.txt", &Environment::new()).unwrap();
    let cmd = &pipelines[0].commands[0];
    assert_eq!(cmd.argv, vec!["echo", "hi"]);
    assert_eq!(cmd.stdout, Some(("out.txt".to_string(), false)));
}

#[test]
fn parses_append_redirection() {
    let pipelines = parse("echo hi >> out.txt", &Environment::new()).unwrap();
    assert_eq!(
        pipelines[0].commands[0].stdout,
        Some(("out.txt".to_string(), true))
    );
}

#[test]
fn parses_input_redirection() {
    let pipelines = parse("cat < in.txt", &Environment::new()).unwrap();
    assert_eq!(pipelines[0].commands[0].stdin, Some("in.txt".to_string()));
}

#[test]
fn unclosed_quote_is_an_error() {
    assert!(parse("echo \"oops", &Environment::new()).is_err());
}

#[test]
fn redirection_without_target_is_an_error() {
    assert!(parse("echo hi >", &Environment::new()).is_err());
}

#[test]
fn leading_pipe_is_an_error() {
    assert!(parse("| cat", &Environment::new()).is_err());
}

#[test]
fn empty_input_yields_no_pipelines() {
    assert!(parse("   ", &Environment::new()).unwrap().is_empty());
}

#[test]
fn error_messages_name_the_problem() {
    let env = Environment::new();
    assert_eq!(parse("echo 'x", &env), Err("unexpected EOF while looking for matching `'`".to_string()));
    assert_eq!(parse("echo \"x", &env), Err("unexpected EOF while looking for matching `\"`".to_string()));
    assert_eq!(parse("a | | b", &env), Err("syntax error near unexpected token `|`".to_string()));
    assert_eq!(parse("cat <", &env), Err("syntax error near unexpected token after `<`".to_string()));
    assert_eq!(parse("echo >> ;", &env), Err("syntax error near unexpected token after `>>`".to_string()));
}

#[test]
fn doubled_semicolons_and_blank_statements_are_skipped() {
    let ps = parse(";; echo a ;; ; echo b ;", &Environment::new()).unwrap();
    assert_eq!(ps.len(), 2);
    assert_eq!(ps[1].commands[0].argv, vec!["echo".to_string(), "b".to_string()]);
}

#[test]
fn whitespace_of_any_kind_separates_words() {
    assert_eq!(words("a\tb\u{3000}c"), vec!["a", "b", "c"]);
}

#[test]
fn dollar_forms() {
    let env = test_env();
    assert_eq!(words_in("echo $ZS_TEST_VAR-x", &env), vec!["echo", "value-x"]);
    assert_eq!(words_in("echo $ $1x", &env), vec!["echo", "$", "$1x"]);
    assert_eq!(words_in("echo ${ZS_TEST", &env), vec!["echo", "${ZS_TEST"]);
    assert_eq!(words_in("echo \"a\\$ZS_TEST_VAR\\\"\\n\"", &env), vec!["echo", "a$ZS_TEST_VAR\"\\n"]);
}

#[test]
fn later_settings_shadow_earlier_ones() {
    let mut env = test_env();
    env.set("ZS_TEST_VAR".to_string(), "other".to_string());
    assert_eq!(words_in("echo $ZS_TEST_VAR", &env), vec!["echo", "other"]);
}

#[test]
fn one_pipeline_per_statement_with_tokens() {
    assert_eq!(parse("ls ;; ; pwd", &Environment::new()).unwrap().len(), 2);
    assert_eq!(parse(";", &Environment::new()).unwrap().len(), 0);
}
