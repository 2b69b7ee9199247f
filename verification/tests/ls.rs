use zero_shell::commands::ls::{
    can_list, civil_from_days, decorate, format_time, list_directory, list_operands, parse_args,
    parse_id_file, permission_string, sort_key, try_list_operands, Emit, EntryInfo, Flags,
    NameResolver, Operand,
};

fn strings(v: &[&str]) -> Vec<String> {
    v.iter().map(|s| s.to_string()).collect()
}

fn entry(name: &str, mode: u32, size: u64, mtime: i64, blocks: u64) -> EntryInfo {
    EntryInfo {
        display: name.to_string(),
        mode,
        nlink: 1,
        uid: 0,
        gid: 0,
        size,
        mtime,
        blocks,
        link_target: None,
    }
}

fn no_flags() -> Flags {
    Flags { long: false, all: false, classify: false }
}

#[test]
fn permission_string_regular_file() {
    assert_eq!(permission_string(0o100_644), "-rw-r--r--");
}

#[test]
fn permission_string_directory() {
    assert_eq!(permission_string(0o040_755), "drwxr-xr-x");
}

#[test]
fn permission_string_setuid() {
    assert_eq!(permission_string(0o104_755), "-rwsr-xr-x");
}

#[test]
fn civil_from_days_epoch() {
    assert_eq!(civil_from_days(0), (1970, 1, 1));
}

#[test]
fn civil_from_days_known_date() {
    assert_eq!(civil_from_days(10_957), (2000, 1, 1));
}

#[test]
fn civil_from_days_before_the_epoch_and_leap_day() {
    assert_eq!(civil_from_days(-1), (1969, 12, 31));
    // 2000-02-29 is 10957 + 31 + 28 days after the epoch.
    assert_eq!(civil_from_days(11_016), (2000, 2, 29));
    assert_eq!(civil_from_days(11_017), (2000, 3, 1));
}

#[test]
fn permission_string_special_bits() {
    assert_eq!(permission_string(0o102_644), "-rw-r-Sr--");
    assert_eq!(permission_string(0o041_777), "drwxrwxrwt");
    assert_eq!(permission_string(0o120_777), "lrwxrwxrwx");
    assert_eq!(permission_string(0o010_600), "prw-------");
}

#[test]
fn format_time_recent_and_old() {
    // 2000-01-01 12:34 UTC.
    let t: i64 = 10_957 * 86_400 + 12 * 3600 + 34 * 60;
    assert_eq!(format_time(t, t + 60), "Jan  1 12:34");
    assert_eq!(format_time(t, t + 20_000_000), "Jan  1  2000");
    assert_eq!(format_time(t, t - 20_000_000), "Jan  1  2000");
}

#[test]
fn parse_args_flags_and_default_operand() {
    let (flags, ops) = parse_args(&strings(&["-la"])).unwrap();
    assert!(flags.long && flags.all && !flags.classify);
    assert_eq!(ops, vec![".".to_string()]);
    let (flags, ops) = parse_args(&strings(&["-F", "x", "-"])).unwrap();
    assert!(flags.classify);
    assert_eq!(ops, strings(&["x", "-"]));
}

#[test]
fn parse_args_rejects_unknown_option() {
    assert_eq!(parse_args(&strings(&["-lz"])), Err("invalid option -- 'z'".to_string()));
}

#[test]
fn decorate_classifies_and_colours() {
    let f = Flags { long: false, all: false, classify: true };
    assert_eq!(decorate(&entry("d", 0o040_755, 0, 0, 0), f, false), "d/");
    assert_eq!(decorate(&entry("x", 0o100_755, 0, 0, 0), f, false), "x*");
    assert_eq!(decorate(&entry("l", 0o120_777, 0, 0, 0), f, false), "l@");
    assert_eq!(decorate(&entry("p", 0o010_644, 0, 0, 0), f, false), "p|");
    assert_eq!(decorate(&entry("s", 0o140_644, 0, 0, 0), f, false), "s=");
    assert_eq!(decorate(&entry("r", 0o100_644, 0, 0, 0), f, false), "r");
    assert_eq!(
        decorate(&entry("d", 0o040_755, 0, 0, 0), no_flags(), true),
        "\x1b[1;34md\x1b[0m"
    );
}

#[test]
fn sort_key_ignores_leading_dots_and_case() {
    assert_eq!(sort_key("..Hidden"), "hidden");
    assert_eq!(sort_key("ABC"), "abc");
}

#[test]
fn parse_id_file_keeps_first_name_per_id() {
    let text = "root:x:0:0::/root:/bin/sh\nalice:x:1000:1000::/home/a:/bin/sh\nbad\nroot2:x:0:0\n";
    let table = parse_id_file(text);
    assert_eq!(table.len(), 2);
    assert_eq!(table.get(&0), Some(&"root".to_string()));
    assert_eq!(table.get(&1000), Some(&"alice".to_string()));
    let r = NameResolver::new(Some(text), None, None);
    assert_eq!(r.user(0), "root");
    assert_eq!(r.user(1000), "alice");
}

#[test]
fn name_resolver_falls_back_to_numbers() {
    let r = NameResolver::new(Some("root:x:0:0::/:/bin/sh\n"), None, None);
    assert_eq!(r.user(0), "root");
    assert_eq!(r.user(42), "42");
    assert_eq!(r.group(0), "0");
    let r = NameResolver::new(None, None, Some("me".to_string()));
    assert_eq!(r.user(0), "me");
    assert_eq!(r.group(0), "me");
}

#[test]
fn list_directory_short_hides_dot_files_and_sorts() {
    let es = vec![
        entry("b", 0o100_644, 1, 0, 0),
        entry(".hidden", 0o100_644, 1, 0, 0),
        entry("A", 0o100_644, 1, 0, 0),
    ];
    let r = NameResolver::new(None, None, None);
    assert_eq!(list_directory(&es, no_flags(), &r, 0, false), strings(&["A", "b"]));
    let all = Flags { long: false, all: true, classify: false };
    assert_eq!(list_directory(&es, all, &r, 0, false), strings(&["A", "b", ".hidden"]));
}

#[test]
fn list_directory_long_aligns_columns() {
    let t: i64 = 10_957 * 86_400;
    let es = vec![entry("a", 0o100_644, 5, t, 8), entry("bb", 0o040_755, 4096, t, 8)];
    let r = NameResolver::new(Some("root:x:0:0::/:/bin/sh\n"), Some("wheel:x:0:\n"), None);
    let long = Flags { long: true, all: false, classify: false };
    assert_eq!(
        list_directory(&es, long, &r, t, false),
        strings(&[
            "total 8",
            "-rw-r--r-- 1 root wheel    5 Jan  1 00:00 a",
            "drwxr-xr-x 1 root wheel 4096 Jan  1 00:00 bb",
        ])
    );
}

#[test]
fn list_operands_files_first_then_directories() {
    let ops = vec![
        Operand::Directory("d".to_string(), Ok(vec![entry("x", 0o100_644, 0, 0, 0)])),
        Operand::Missing("nope".to_string(), "No such file or directory".to_string()),
        Operand::File(entry("f", 0o100_644, 0, 0, 0)),
        Operand::Directory("e".to_string(), Err("Permission denied".to_string())),
    ];
    let r = NameResolver::new(None, None, None);
    let out = list_operands(&ops, no_flags(), &r, 0, false);
    let text: Vec<(bool, String)> = out
        .into_iter()
        .map(|e| match e {
            Emit::Stdout(s) => (true, s),
            Emit::Stderr(s) => (false, s),
        })
        .collect();
    assert_eq!(
        text,
        vec![
            (false, "ls: cannot access 'nope': No such file or directory".to_string()),
            (true, "f".to_string()),
            (true, "".to_string()),
            (true, "d:".to_string()),
            (true, "x".to_string()),
            (true, "".to_string()),
            (true, "e:".to_string()),
            (false, "ls: cannot open directory 'e': Permission denied".to_string()),
        ]
    );
}

#[test]
fn try_list_operands_refuses_times_out_of_range() {
    let long = Flags { long: true, all: false, classify: false };
    let ops = vec![Operand::File(entry("f", 0o100_644, 0, i64::MIN, 0))];
    assert!(!can_list(&ops, long, 1));
    let r = NameResolver::new(None, None, None);
    assert!(try_list_operands(&ops, long, &r, 1, false).is_none());
    assert!(try_list_operands(&ops, no_flags(), &r, 1, false).is_some());
}

#[test]
fn sort_key_lowercases_beyond_ascii() {
    assert_eq!(sort_key(".ÀBC"), "àbc");
}

#[test]
fn civil_from_days_steps_one_calendar_day() {
    let leap = |y: i64| (y % 4 == 0 && y % 100 != 0) || y % 400 == 0;
    let month_len = |y: i64, m: i64| match m {
        2 => if leap(y) { 29 } else { 28 },
        4 | 6 | 9 | 11 => 30,
        _ => 31,
    };
    for d in -800_000i64..800_000 {
        let (y, m, day) = civil_from_days(d);
        let next = if day < month_len(y, m) {
            (y, m, day + 1)
        } else if m < 12 {
            (y, m + 1, 1)
        } else {
            (y + 1, 1, 1)
        };
        assert_eq!(civil_from_days(d + 1), next, "{d}");
    }
}

#[test]
fn dot_entries_come_first_with_all() {
    let es = vec![
        entry(".", 0o040_755, 0, 0, 0),
        entry("..", 0o040_755, 0, 0, 0),
        entry(".b", 0o100_644, 0, 0, 0),
        entry("A", 0o100_644, 0, 0, 0),
        entry("...", 0o100_644, 0, 0, 0),
    ];
    let r = NameResolver::new(None, None, None);
    let all = Flags { long: false, all: true, classify: false };
    assert_eq!(list_directory(&es, all, &r, 0, false), strings(&[".", "..", "...", "A", ".b"]));
}

#[test]
fn first_unknown_option_is_reported() {
    assert_eq!(parse_args(&strings(&["-l", "x", "-aZQ", "-Y"])), Err("invalid option -- 'Z'".to_string()));
}
