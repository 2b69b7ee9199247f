use zero_shell::line_editor::{
    builtin_candidates, builtins, common_prefix, completion_dir, format_columns, path_candidates,
    read_result_line, Editor, Line,
};

fn strings(v: &[&str]) -> Vec<String> {
    v.iter().map(|s| s.to_string()).collect()
}

fn feed_all(e: &mut Editor, bytes: &[u8], history: &[String]) -> Vec<String> {
    bytes.iter().map(|b| e.feed(*b, history).output).collect()
}

fn finished(e: &mut Editor, b: u8, history: &[String]) -> Option<Line> {
    e.feed(b, history).line
}

#[test]
fn typing_and_enter_gives_the_line() {
    let mut e = Editor::new("$ ".to_string(), 2, 0);
    let outs = feed_all(&mut e, b"ls -l", &[]);
    assert_eq!(outs[0], "\r\x1b[K$ l\r\x1b[3C");
    assert_eq!(e.line(), "ls -l");
    match finished(&mut e, b'\r', &[]) {
        Some(Line::Input(s)) => assert_eq!(s, "ls -l"),
        _ => panic!("expected a line"),
    }
}

#[test]
fn backspace_and_cursor_keys() {
    let mut e = Editor::new("> ".to_string(), 2, 0);
    feed_all(&mut e, b"abc", &[]);
    feed_all(&mut e, &[0x1b, b'[', b'D'], &[]);
    assert_eq!(e.cursor(), 2);
    feed_all(&mut e, &[0x7f], &[]);
    assert_eq!(e.line(), "ac");
    feed_all(&mut e, &[0x01], &[]);
    assert_eq!(e.cursor(), 0);
    feed_all(&mut e, &[0x1b, b'[', b'3', b'~'], &[]);
    assert_eq!(e.line(), "c");
    feed_all(&mut e, &[0x05], &[]);
    assert_eq!(e.cursor(), 1);
}

#[test]
fn multibyte_characters_are_inserted_whole() {
    let mut e = Editor::new(String::new(), 0, 0);
    feed_all(&mut e, "é".as_bytes(), &[]);
    assert_eq!(e.line(), "é");
    assert_eq!(e.cursor(), 1);
}

#[test]
fn ctrl_c_interrupts_and_ctrl_d_ends_only_an_empty_line() {
    let mut e = Editor::new(String::new(), 0, 0);
    feed_all(&mut e, b"x", &[]);
    assert!(finished(&mut e, 0x04, &[]).is_none());
    let r = e.feed(0x03, &[]);
    assert_eq!(r.output, "^C\r\n");
    assert!(matches!(r.line, Some(Line::Interrupted)));
    let mut e = Editor::new(String::new(), 0, 0);
    assert!(matches!(finished(&mut e, 0x04, &[]), Some(Line::Eof)));
}

#[test]
fn up_and_down_browse_history() {
    let history = strings(&["first", "second"]);
    let mut e = Editor::new(String::new(), 0, 2);
    feed_all(&mut e, b"new", &history);
    feed_all(&mut e, &[0x1b, b'[', b'A'], &history);
    assert_eq!(e.line(), "second");
    feed_all(&mut e, &[0x1b, b'[', b'A'], &history);
    assert_eq!(e.line(), "first");
    feed_all(&mut e, &[0x1b, b'[', b'A'], &history);
    assert_eq!(e.line(), "first");
    feed_all(&mut e, &[0x1b, b'[', b'B', 0x1b, b'[', b'B'], &history);
    assert_eq!(e.line(), "new");
}

#[test]
fn end_of_input_ends_reading() {
    let mut e = Editor::new(String::new(), 0, 0);
    let r = e.end_of_input();
    assert!(matches!(r.line, Some(Line::Eof)));
    assert_eq!(r.output, "\r\n");
}

#[test]
fn tab_asks_for_completion_of_a_command() {
    let mut e = Editor::new(String::new(), 0, 0);
    feed_all(&mut e, b"ec", &[]);
    assert!(e.feed(b'\t', &[]).wants_completion);
    let (word, is_command) = e.completion_target();
    assert_eq!(word, "ec");
    assert!(is_command);
    let candidates = builtin_candidates(&word);
    assert_eq!(candidates, strings(&["echo"]));
    e.complete(&candidates);
    assert_eq!(e.line(), "echo ");
    assert_eq!(e.cursor(), 5);
}

#[test]
fn completion_with_several_candidates_lists_them() {
    let mut e = Editor::new(String::new(), 0, 0);
    feed_all(&mut e, b"cat sr", &[]);
    let (word, is_command) = e.completion_target();
    assert_eq!(word, "sr");
    assert!(!is_command);
    let out = e.complete(&strings(&["src/", "srb", "src/"]));
    assert_eq!(e.line(), "cat sr");
    assert!(out.starts_with("\r\nsrb  src\r\n"));
}

#[test]
fn builtin_names_and_candidates() {
    assert_eq!(builtins().len(), 11);
    assert_eq!(builtin_candidates("c"), strings(&["cd", "cat", "cp"]));
    assert_eq!(builtin_candidates("zz"), Vec::<String>::new());
}

#[test]
fn path_completion_helpers() {
    assert_eq!(completion_dir("src/ma"), "src/");
    assert_eq!(completion_dir("ma"), ".");
    let entries = vec![("main.rs".to_string(), false), ("mod".to_string(), true), ("x".to_string(), false)];
    assert_eq!(path_candidates("src/m", &entries), strings(&["src/main.rs", "src/mod/"]));
    assert_eq!(common_prefix(&strings(&["src/main.rs", "src/mod/"])), "src/m");
    assert_eq!(common_prefix(&Vec::new()), "");
    assert_eq!(format_columns(&strings(&["src/main.rs", "src/mod/"])), "main.rs  mod");
}

#[test]
fn plain_reads_drop_the_line_ending() {
    assert!(matches!(read_result_line("", 0), Line::Eof));
    match read_result_line("echo hi\r\n", 9) {
        Line::Input(s) => assert_eq!(s, "echo hi"),
        _ => panic!("expected a line"),
    }
    match read_result_line("\n", 1) {
        Line::Input(s) => assert_eq!(s, ""),
        _ => panic!("expected a line"),
    }
}

#[test]
fn backspace_undoes_typing_anywhere() {
    let mut e = Editor::new(String::new(), 0, 0);
    feed_all(&mut e, b"abcd", &[]);
    feed_all(&mut e, &[0x1b, b'[', b'D', 0x1b, b'[', b'D'], &[]);
    let (line, cursor) = (e.line(), e.cursor());
    feed_all(&mut e, b"x", &[]);
    assert_eq!(e.line(), "abxcd");
    feed_all(&mut e, &[0x08], &[]);
    assert_eq!((e.line(), e.cursor()), (line, cursor));
}

#[test]
fn home_end_variants_and_unknown_escape() {
    for keys in [&[0x1b, b'O', b'H'][..], &[0x1b, b'[', b'1', b'~'], &[0x1b, b'[', b'7', b'~']] {
        let mut e = Editor::new(String::new(), 0, 0);
        feed_all(&mut e, b"abc", &[]);
        feed_all(&mut e, keys, &[]);
        assert_eq!(e.cursor(), 0);
    }
    for keys in [&[0x1b, b'O', b'F'][..], &[0x1b, b'[', b'4', b'~'], &[0x1b, b'[', b'8', b'~']] {
        let mut e = Editor::new(String::new(), 0, 0);
        feed_all(&mut e, b"abc", &[]);
        feed_all(&mut e, &[0x01], &[]);
        feed_all(&mut e, keys, &[]);
        assert_eq!(e.cursor(), 3);
    }
    let mut e = Editor::new(String::new(), 0, 0);
    feed_all(&mut e, b"ab", &[]);
    feed_all(&mut e, &[0x1b, b'x'], &[]);
    assert_eq!((e.line(), e.cursor()), ("ab".to_string(), 2));
    feed_all(&mut e, b"c", &[]);
    assert_eq!(e.line(), "abc");
    feed_all(&mut e, &[0x1b, b'[', b'C'], &[]);
    assert_eq!(e.cursor(), 3);
}
