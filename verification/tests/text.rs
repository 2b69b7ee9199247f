use zero_shell::color::{paint, BOLD_BLUE, RESET};
use zero_shell::prompt::prompt;
use zero_shell::text::{
    chars_of, decimal, is_whitespace, join, pad_left_exec, parse_i32, parse_u32, signed_decimal,
    split_lines, trim,
};

fn chars(s: &str) -> Vec<char> {
    s.chars().collect()
}

#[test]
fn whitespace_matches_std_for_every_char() {
    for c in (0u32..=0x10ffff).filter_map(char::from_u32) {
        assert_eq!(is_whitespace(c), c.is_whitespace(), "{:?}", c);
    }
}

#[test]
fn trim_and_lines() {
    assert_eq!(trim(&chars("  a b \t")), chars("a b"));
    assert_eq!(split_lines("x\ny\r\n"), vec!["x".to_string(), "y".to_string()]);
    assert_eq!(join(&["a".to_string(), "b".to_string()], ", "), "a, b");
    assert_eq!(chars_of("hé"), vec!['h', 'é']);
}

#[test]
fn numbers_print_and_parse() {
    assert_eq!(decimal(0), vec!['0']);
    assert_eq!(decimal(4096), chars("4096"));
    assert_eq!(signed_decimal(-42), chars("-42"));
    assert_eq!(signed_decimal(i64::MIN), chars(&i64::MIN.to_string()));
    assert_eq!(pad_left_exec(&chars("7"), 3, ' '), chars("  7"));
    assert_eq!(parse_u32(&chars("+12")), Some(12));
    assert_eq!(parse_u32(&chars("4294967296")), None);
    assert_eq!(parse_i32(&chars("-12")), Some(-12));
    assert_eq!(parse_i32(&chars("-")), None);
    assert_eq!(parse_i32(&chars("-+1")), None);
    assert_eq!(parse_i32(&chars("")), None);
    for s in ["0", "-0", "+7", "2147483647", "2147483648", "-2147483648", "-2147483649", "1a", " 1"] {
        assert_eq!(parse_i32(&chars(s)), s.parse::<i32>().ok(), "{s}");
    }
}

#[test]
fn paint_only_when_enabled() {
    assert_eq!(paint(false, BOLD_BLUE, "dir"), "dir");
    assert_eq!(paint(true, BOLD_BLUE, "dir"), format!("{BOLD_BLUE}dir{RESET}"));
}

#[test]
fn prompt_collapses_home() {
    assert_eq!(prompt("/home/u", Some("/home/u"), false), ("~ $ ".to_string(), 4));
    assert_eq!(prompt("/home/u/src", Some("/home/u"), false), ("~/src $ ".to_string(), 8));
    assert_eq!(prompt("/home/user2", Some("/home/u"), false), ("/home/user2 $ ".to_string(), 14));
    assert_eq!(prompt("/tmp", None, false), ("/tmp $ ".to_string(), 7));
    assert_eq!(prompt("/tmp", Some("/tmp"), true), ("\x1b[36m~\x1b[0m $ ".to_string(), 4));
}
