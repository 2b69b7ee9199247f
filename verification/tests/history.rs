use zero_shell::history::{History, MAX_ENTRIES};

#[test]
fn add_trims_and_skips_blanks_and_repeats() {
    let mut h = History::load(None, None);
    h.add("  ls -l  ");
    h.add("   ");
    h.add("ls -l");
    h.add("pwd");
    h.add("ls -l");
    assert_eq!(h.entries(), &["ls -l".to_string(), "pwd".to_string(), "ls -l".to_string()]);
}

#[test]
fn history_is_bounded() {
    let mut h = History::load(None, None);
    for i in 0..(MAX_ENTRIES + 5) {
        h.add(&format!("cmd {i}"));
    }
    assert_eq!(h.entries().len(), MAX_ENTRIES);
    assert_eq!(h.entries()[0], "cmd 5");
    assert_eq!(h.entries()[MAX_ENTRIES - 1], format!("cmd {}", MAX_ENTRIES + 4));
}

#[test]
fn saved_history_loads_back() {
    let mut h = History::load(Some("/tmp/h".to_string()), None);
    h.add("echo a");
    h.add("echo b");
    let text = h.contents();
    assert_eq!(text, "echo a\necho b");
    let back = History::load(Some("/tmp/h".to_string()), Some(&text));
    assert_eq!(back.entries(), h.entries());
    assert_eq!(back.file_path(), &Some("/tmp/h".to_string()));
}

#[test]
fn load_splits_lines() {
    let h = History::load(None, Some("a\r\nb\n\nc"));
    assert_eq!(h.entries(), &["a".to_string(), "b".to_string(), "".to_string(), "c".to_string()]);
}

#[test]
fn history_stays_trimmed_without_blanks_or_repeats() {
    let mut h = History::load(None, None);
    for line in [" a ", "a", "", "  ", "b", " b", "a", "\tc\n"] {
        h.add(line);
    }
    let e = h.entries();
    assert_eq!(e, &["a".to_string(), "b".to_string(), "a".to_string(), "c".to_string()]);
    assert!(e.iter().all(|x| !x.is_empty() && x.trim() == x));
    assert!(e.windows(2).all(|w| w[0] != w[1]));
}
