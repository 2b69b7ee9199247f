//! `ls` — list directory contents, supporting `-l`, `-a` and `-F`.
//!
//! The caller reads the file system and hands each entry over as an
//! [`EntryInfo`]; this module decides what is listed, in which order and how.

use std::collections::HashMap;
use vstd::prelude::*;
use vstd::string::StringExecFns;
use crate::color::{paint, painted, BOLD_BLUE, BOLD_CYAN, BOLD_GREEN, RESET};
use crate::sorting::{is_sorted_order, keys_view, occurs, precedes, sorted_order, spec_sorted_order};
use crate::text::{
    chars_of, decimal, digit_char, lines, pad_left, pad_left_exec, parse_u32, push_char, push_chars,
    signed_decimal, spec_decimal, spec_parse_u32, spec_signed_decimal, split_at_char, split_char,
    split_lines, string_of, strings_view, to_lowercase, spec_lowercase, lex_less, lex_less_exec,
    byte_len, byte_len_exec, pad_right,
    pad_right_exec,
};

verus! {

// ---------------------------------------------------------------------------
// Options
// ---------------------------------------------------------------------------

/// Parsed command-line options for `ls`.
#[derive(Clone, Copy, Debug, PartialEq, Eq)]
pub struct Flags {
    /// `-l`: long listing format.
    pub long: bool,
    /// `-a`: include entries starting with `.`.
    pub all: bool,
    /// `-F`: append an indicator (one of `*/=@|`) to entries.
    pub classify: bool,
}

pub open spec fn no_flags() -> Flags {
    Flags { long: false, all: false, classify: false }
}

/// An argument that holds option letters: a `-` and at least one more
/// character.
pub open spec fn is_option_word(a: Seq<char>) -> bool {
    a.len() > 1 && a[0] == '-'
}

/// Applies the option letters of `w` from index `i` on; the first letter
/// that is not `l`, `a` or `F` is the error.
pub open spec fn apply_options(w: Seq<char>, i: int, f: Flags) -> Result<Flags, char>
    decreases w.len() - i,
{
    if i < 0 || i >= w.len() {
        Ok(f)
    } else if w[i] == 'l' {
        apply_options(w, i + 1, Flags { long: true, all: f.all, classify: f.classify })
    } else if w[i] == 'a' {
        apply_options(w, i + 1, Flags { long: f.long, all: true, classify: f.classify })
    } else if w[i] == 'F' {
        apply_options(w, i + 1, Flags { long: f.long, all: f.all, classify: true })
    } else {
        Err(w[i])
    }
}

pub open spec fn msg_invalid_option(c: char) -> Seq<char> {
    "invalid option -- '"@ + seq![c] + "'"@
}

/// The options and operands of the arguments from `k` on. Options may be
/// clustered (`-la`) or separate; without operands, `.` is listed.
pub open spec fn ls_args_from(args: Seq<Seq<char>>, k: int, f: Flags, ops: Seq<Seq<char>>) -> Result<(Flags, Seq<Seq<char>>), Seq<char>>
    decreases args.len() - k,
{
    if k < 0 || k >= args.len() {
        Ok((f, if ops.len() == 0 { seq![seq!['.']] } else { ops }))
    } else if is_option_word(args[k]) {
        match apply_options(args[k], 1, f) {
            Ok(g) => ls_args_from(args, k + 1, g, ops),
            Err(c) => Err(msg_invalid_option(c)),
        }
    } else {
        ls_args_from(args, k + 1, f, ops.push(args[k]))
    }
}

/// The options and operands of an `ls` command line.
pub open spec fn spec_ls_args(args: Seq<Seq<char>>) -> Result<(Flags, Seq<Seq<char>>), Seq<char>> {
    ls_args_from(args, 0, no_flags(), seq![])
}

/// Whether `c` is an option letter of `ls`.
pub open spec fn is_ls_letter(c: char) -> bool {
    c == 'l' || c == 'a' || c == 'F'
}

proof fn lemma_apply_options(w: Seq<char>, i: int, f: Flags, j: int)
    requires
        1 <= i <= j <= w.len(),
        forall|k: int| i <= k < j ==> is_ls_letter(#[trigger] w[k]),
    ensures
        j == w.len() ==> apply_options(w, i, f) is Ok,
        j < w.len() && !is_ls_letter(w[j]) ==> apply_options(w, i, f) == Err::<Flags, char>(w[j]),
    decreases j - i,
{
    if i < j {
        let g = if w[i] == 'l' {
            Flags { long: true, all: f.all, classify: f.classify }
        } else if w[i] == 'a' {
            Flags { long: f.long, all: true, classify: f.classify }
        } else {
            Flags { long: f.long, all: f.all, classify: true }
        };
        lemma_apply_options(w, i + 1, g, j);
    }
}

proof fn lemma_ls_args_error(args: Seq<Seq<char>>, k: int, f: Flags, ops: Seq<Seq<char>>, bad: int, j: int)
    requires
        0 <= k <= bad < args.len(),
        is_option_word(args[bad]),
        1 <= j < args[bad].len(),
        !is_ls_letter(args[bad][j]),
        forall|x: int| 1 <= x < j ==> is_ls_letter(#[trigger] args[bad][x]),
        forall|a: int, x: int| k <= a < bad && is_option_word(args[a]) && 1 <= x < args[a].len() ==> is_ls_letter(#[trigger] args[a][x]),
    ensures
        ls_args_from(args, k, f, ops) == Err::<(Flags, Seq<Seq<char>>), Seq<char>>(msg_invalid_option(args[bad][j])),
    decreases bad - k,
{
    if k < bad {
        if is_option_word(args[k]) {
            lemma_apply_options(args[k], 1, f, args[k].len() as int);
            let g = apply_options(args[k], 1, f)->Ok_0;
            lemma_ls_args_error(args, k + 1, g, ops, bad, j);
        } else {
            lemma_ls_args_error(args, k + 1, f, ops.push(args[k]), bad, j);
        }
    } else {
        lemma_apply_options(args[bad], 1, f, j);
    }
}

/// `ls` refuses an option letter other than `l`, `a` and `F`, naming the
/// first one: that of the first option argument holding one, the first such
/// letter in it.
pub proof fn law_ls_reports_first_unknown_option(args: Seq<Seq<char>>, bad: int, j: int)
    requires
        0 <= bad < args.len(),
        is_option_word(args[bad]),
        1 <= j < args[bad].len(),
        !is_ls_letter(args[bad][j]),
        forall|x: int| 1 <= x < j ==> is_ls_letter(#[trigger] args[bad][x]),
        forall|a: int, x: int| 0 <= a < bad && is_option_word(args[a]) && 1 <= x < args[a].len() ==> is_ls_letter(#[trigger] args[a][x]),
    ensures
        spec_ls_args(args) == Err::<(Flags, Seq<Seq<char>>), Seq<char>>(msg_invalid_option(args[bad][j])),
{
    lemma_ls_args_error(args, 0, no_flags(), seq![], bad, j);
}

/// Splits the arguments of `ls` into options and operands.
pub fn parse_args(args: &[String]) -> (r: Result<(Flags, Vec<String>), String>)
    ensures
        r matches Ok((f, ops)) ==> spec_ls_args(strings_view(args@)) == Ok::<(Flags, Seq<Seq<char>>), Seq<char>>((f, strings_view(ops@))),
        r matches Err(e) ==> spec_ls_args(strings_view(args@)) == Err::<(Flags, Seq<Seq<char>>), Seq<char>>(e@),
{
    let ghost a = strings_view(args@);
    let mut flags = Flags { long: false, all: false, classify: false };
    let mut operands: Vec<String> = Vec::new();
    let mut k: usize = 0;
    assert(strings_view(operands@) =~= Seq::<Seq<char>>::empty());
    while k < args.len()
        invariant
            a == strings_view(args@),
            k <= args@.len(),
            spec_ls_args(a) == ls_args_from(a, k as int, flags, strings_view(operands@)),
        decreases args@.len() - k,
    {
        let w = chars_of(args[k].as_str());
        assert(w@ == a[k as int]);
        if w.len() > 1 && w[0] == '-' {
            let mut i: usize = 1;
            while i < w.len()
                invariant
                    1 <= i <= w@.len(),
                    a == strings_view(args@),
                    k < args@.len(),
                    w@ == a[k as int],
                    spec_ls_args(a) == match apply_options(w@, i as int, flags) {
                        Ok(g) => ls_args_from(a, k + 1, g, strings_view(operands@)),
                        Err(c) => Err(msg_invalid_option(c)),
                    },
                decreases w@.len() - i,
            {
                let c = w[i];
                if c == 'l' {
                    flags.long = true;
                } else if c == 'a' {
                    flags.all = true;
                } else if c == 'F' {
                    flags.classify = true;
                } else {
                    assert(apply_options(w@, i as int, flags) == Err::<Flags, char>(c));
                    let mut m = "invalid option -- '".to_owned();
                    push_char(&mut m, c);
                    m.append("'");
                    assert(m@ == msg_invalid_option(c));
                    assert(spec_ls_args(a) == Err::<(Flags, Seq<Seq<char>>), Seq<char>>(msg_invalid_option(c)));
                    return Err(m);
                }
                i += 1;
            }
        } else {
            let ghost before = strings_view(operands@);
            operands.push(args[k].clone());
            assert(strings_view(operands@) =~= before.push(a[k as int]));
        }
        k += 1;
    }
    if operands.len() == 0 {
        operands.push(".".to_owned());
        proof { reveal_strlit("."); }
        assert(strings_view(operands@) =~~= seq![seq!['.']]);
    }
    Ok((flags, operands))
}

// ---------------------------------------------------------------------------
// Entries
// ---------------------------------------------------------------------------

/// What `ls` knows of one entry: the name to show and the `lstat` fields
/// that the listing renders (a symbolic link is described as the link).
#[derive(Clone, Debug, PartialEq)]
pub struct EntryInfo {
    pub display: String,
    pub mode: u32,
    pub nlink: u64,
    pub uid: u32,
    pub gid: u32,
    pub size: u64,
    pub mtime: i64,
    pub blocks: u64,
    /// Where a symbolic link points, when the entry is one and it could be read.
    pub link_target: Option<String>,
}

pub open spec fn file_type(mode: u32) -> u32 {
    mode & 0o170000u32
}

pub open spec fn is_executable_file(mode: u32) -> bool {
    file_type(mode) == 0o100000u32 && mode & 0o111u32 != 0
}

/// The colour of an entry's name: blue directories, cyan links, green
/// executable files.
pub open spec fn name_colour(mode: u32) -> Option<Seq<char>> {
    if file_type(mode) == 0o040000u32 {
        Some(BOLD_BLUE@)
    } else if file_type(mode) == 0o120000u32 {
        Some(BOLD_CYAN@)
    } else if is_executable_file(mode) {
        Some(BOLD_GREEN@)
    } else {
        None
    }
}

/// The `-F` indicator: `/` directory, `@` link, `|` FIFO, `=` socket, `*`
/// executable file.
pub open spec fn type_indicator(mode: u32) -> Seq<char> {
    if file_type(mode) == 0o040000u32 {
        seq!['/']
    } else if file_type(mode) == 0o120000u32 {
        seq!['@']
    } else if file_type(mode) == 0o010000u32 {
        seq!['|']
    } else if file_type(mode) == 0o140000u32 {
        seq!['=']
    } else if is_executable_file(mode) {
        seq!['*']
    } else {
        seq![]
    }
}

/// The display name with colour (when `color`) and the `-F` indicator (when
/// `classify`) applied.
pub open spec fn decorated(display: Seq<char>, mode: u32, classify: bool, color: bool) -> Seq<char> {
    let name = match name_colour(mode) {
        Some(code) => if color { painted(true, code, display) } else { display },
        None => display,
    };
    if classify {
        name + type_indicator(mode)
    } else {
        name
    }
}

/// How an entry's name is decorated: without colour and `-F` it is shown as
/// is; with colour a directory is wrapped in bold blue, a symbolic link in
/// bold cyan and an executable regular file in bold green, each followed by
/// the reset code, and anything else is not coloured; with `-F` a directory
/// ends in `/`, a link in `@`, a FIFO in `|`, a socket in `=` and an
/// executable regular file in `*`.
pub proof fn law_decoration(display: Seq<char>, mode: u32, classify: bool, color: bool)
    ensures
        !classify && !color ==> decorated(display, mode, classify, color) == display,
        ({
            let t = mode & 0o170000u32;
            let exec = t == 0o100000u32 && mode & 0o111u32 != 0;
            let core = if !color {
                display
            } else if t == 0o040000u32 {
                BOLD_BLUE@ + display + RESET@
            } else if t == 0o120000u32 {
                BOLD_CYAN@ + display + RESET@
            } else if exec {
                BOLD_GREEN@ + display + RESET@
            } else {
                display
            };
            let mark: Seq<char> = if !classify {
                seq![]
            } else if t == 0o040000u32 {
                seq!['/']
            } else if t == 0o120000u32 {
                seq!['@']
            } else if t == 0o010000u32 {
                seq!['|']
            } else if t == 0o140000u32 {
                seq!['=']
            } else if exec {
                seq!['*']
            } else {
                seq![]
            };
            decorated(display, mode, classify, color) == core + mark
        }),
{
    let d = decorated(display, mode, classify, color);
    if !classify {
        assert(d + Seq::<char>::empty() =~= d);
    }
}

/// Returns the display name with a `-F` type indicator and/or colour applied.
pub fn decorate(entry: &EntryInfo, flags: Flags, color: bool) -> (r: String)
    ensures
        r@ == decorated(entry.display@, entry.mode, flags.classify, color),
{
    let mode = entry.mode;
    let file_type = mode & 0o170000;
    let executable = file_type == 0o100000 && mode & 0o111 != 0;

    let mut name = entry.display.clone();

    if color {
        if file_type == 0o040000 {
            name = paint(true, BOLD_BLUE, entry.display.as_str());
        } else if file_type == 0o120000 {
            name = paint(true, BOLD_CYAN, entry.display.as_str());
        } else if executable {
            name = paint(true, BOLD_GREEN, entry.display.as_str());
        }
    }

    if flags.classify {
        if file_type == 0o040000 {
            name.append("/");
        } else if file_type == 0o120000 {
            name.append("@");
        } else if file_type == 0o010000 {
            name.append("|");
        } else if file_type == 0o140000 {
            name.append("=");
        } else if executable {
            name.append("*");
        }
        proof {
            reveal_strlit("/");
            reveal_strlit("@");
            reveal_strlit("|");
            reveal_strlit("=");
            reveal_strlit("*");
        }
    }
    assert(name@ =~= decorated(entry.display@, entry.mode, flags.classify, color));
    name
}

// ---------------------------------------------------------------------------
// Permissions
// ---------------------------------------------------------------------------

/// The file-type letter of the permission string.
pub open spec fn type_letter(mode: u32) -> char {
    if file_type(mode) == 0o040000u32 {
        'd'
    } else if file_type(mode) == 0o120000u32 {
        'l'
    } else if file_type(mode) == 0o020000u32 {
        'c'
    } else if file_type(mode) == 0o060000u32 {
        'b'
    } else if file_type(mode) == 0o010000u32 {
        'p'
    } else if file_type(mode) == 0o140000u32 {
        's'
    } else {
        '-'
    }
}

/// A read or write position: the letter when the bit is set, `-` otherwise.
pub open spec fn spec_rwx_bit(set: bool, ch: char) -> char {
    if set { ch } else { '-' }
}

/// The uppercase form of an ASCII lowercase letter; other characters are
/// unchanged.
pub open spec fn ascii_upper(c: char) -> char {
    if 'a' <= c && c <= 'z' {
        ((c as u32) - 32) as char
    } else {
        c
    }
}

/// An execute position: `x` or `-`, or the setuid/setgid/sticky letter,
/// lowercase over an execute bit and uppercase without one.
pub open spec fn spec_exec_bit(executable: bool, special: bool, special_char: char) -> char {
    if special {
        if executable { special_char } else { ascii_upper(special_char) }
    } else if executable {
        'x'
    } else {
        '-'
    }
}

pub open spec fn bit(mode: u32, mask: u32) -> bool {
    mode & mask != 0
}

/// The 10-character permission string, e.g. `drwxr-xr-x`.
pub open spec fn spec_permission_string(mode: u32) -> Seq<char> {
    seq![
        type_letter(mode),
        spec_rwx_bit(bit(mode, 0o400u32), 'r'),
        spec_rwx_bit(bit(mode, 0o200u32), 'w'),
        spec_exec_bit(bit(mode, 0o100u32), bit(mode, 0o4000u32), 's'),
        spec_rwx_bit(bit(mode, 0o040u32), 'r'),
        spec_rwx_bit(bit(mode, 0o020u32), 'w'),
        spec_exec_bit(bit(mode, 0o010u32), bit(mode, 0o2000u32), 's'),
        spec_rwx_bit(bit(mode, 0o004u32), 'r'),
        spec_rwx_bit(bit(mode, 0o002u32), 'w'),
        spec_exec_bit(bit(mode, 0o001u32), bit(mode, 0o1000u32), 't'),
    ]
}

/// Builds the 10-character permission string, e.g. `drwxr-xr-x`.
#[verifier::rlimit(40)]
pub fn permission_string(mode: u32) -> (r: String)
    ensures
        r@ == spec_permission_string(mode),
{
    let file_type = type_char(mode);
    assert(file_type == type_letter(mode));
    let c1 = rwx_bit(mode & 0o400 != 0, 'r');
    let c2 = rwx_bit(mode & 0o200 != 0, 'w');
    let c3 = exec_bit(mode & 0o100 != 0, mode & 0o4000 != 0, 's');
    let c4 = rwx_bit(mode & 0o040 != 0, 'r');
    let c5 = rwx_bit(mode & 0o020 != 0, 'w');
    let c6 = exec_bit(mode & 0o010 != 0, mode & 0o2000 != 0, 's');
    let c7 = rwx_bit(mode & 0o004 != 0, 'r');
    let c8 = rwx_bit(mode & 0o002 != 0, 'w');
    let c9 = exec_bit(mode & 0o001 != 0, mode & 0o1000 != 0, 't');
    let ghost expected = spec_permission_string(mode);
    assert(expected[0] == file_type);
    assert(expected[1] == c1);
    assert(expected[2] == c2);
    assert(expected[3] == c3);
    assert(expected[4] == c4);
    assert(expected[5] == c5);
    assert(expected[6] == c6);
    assert(expected[7] == c7);
    assert(expected[8] == c8);
    assert(expected[9] == c9);
    let mut v: Vec<char> = Vec::new();
    v.push(file_type);
    v.push(c1);
    v.push(c2);
    v.push(c3);
    v.push(c4);
    v.push(c5);
    v.push(c6);
    v.push(c7);
    v.push(c8);
    v.push(c9);
    let s = string_of(v.as_slice());
    assert(s@ =~= spec_permission_string(mode));
    s
}

fn type_char(mode: u32) -> (r: char)
    ensures
        r == type_letter(mode),
{
    let ft = mode & 0o170000;
    if ft == 0o040000 {
        'd'
    } else if ft == 0o120000 {
        'l'
    } else if ft == 0o020000 {
        'c'
    } else if ft == 0o060000 {
        'b'
    } else if ft == 0o010000 {
        'p'
    } else if ft == 0o140000 {
        's'
    } else {
        '-'
    }
}

/// A read or write position of the permission string.
pub fn rwx_bit(set: bool, ch: char) -> (r: char)
    ensures
        r == spec_rwx_bit(set, ch),
{
    if set {
        ch
    } else {
        '-'
    }
}

/// Renders an execute position, folding in the setuid/setgid/sticky bit.
pub fn exec_bit(executable: bool, special: bool, special_char: char) -> (r: char)
    ensures
        r == spec_exec_bit(executable, special, special_char),
{
    if special {
        if executable {
            special_char
        } else {
            to_ascii_uppercase(special_char)
        }
    } else if executable {
        'x'
    } else {
        '-'
    }
}

fn to_ascii_uppercase(c: char) -> (r: char)
    ensures
        r == ascii_upper(c),
{
    if 'a' <= c && c <= 'z' {
        let code: u8 = (c as u32 - 32) as u8;
        code as char
    } else {
        c
    }
}


// ---------------------------------------------------------------------------
// Times
// ---------------------------------------------------------------------------

/// The civil date `(year, month, day)` of the day `days` after 1970-01-01,
/// by Howard Hinnant's algorithm over 400-year eras of 146097 days that
/// begin on March 1st. (`/` here is floor division.)
pub open spec fn spec_civil(days: int) -> (int, int, int) {
    let z = days + 719468;
    let era = z / 146097;
    let doe = z - era * 146097;
    let yoe = (doe - doe / 1460 + doe / 36524 - doe / 146096) / 365;
    let y = yoe + era * 400;
    let doy = doe - (365 * yoe + yoe / 4 - yoe / 100);
    let mp = (5 * doy + 2) / 153;
    let d = doy - (153 * mp + 2) / 5 + 1;
    let m = if mp < 10 { mp + 3 } else { mp - 9 };
    (if m <= 2 { y + 1 } else { y }, m, d)
}

/// Converts a count of days since the Unix epoch into a civil `(year, month,
/// day)` triple using Howard Hinnant's well-known algorithm.
pub fn civil_from_days(days: i64) -> (r: (i64, i64, i64))
    requires
        days + 719468 <= i64::MAX,
    ensures
        (r.0 as int, r.1 as int, r.2 as int) == spec_civil(days as int),
        1 <= r.1 <= 12,
        1 <= r.2 <= days_in_month(r.0 as int, r.1 as int),
        days_from_civil(r.0 as int, r.1 as int, r.2 as int) == days,
{
    proof { law_civil_date_is_calendar_date(days as int); }
    let z = days + 719_468;
    let era: i64 = if z >= 0 { z / 146_097 } else { -((146_096 - z) / 146_097) };
    assert(era == z / 146097);
    let doe = z - era * 146_097; // [0, 146096]
    let yoe = (doe - doe / 1460 + doe / 36_524 - doe / 146_096) / 365; // [0, 399]
    let year = yoe + era * 400;
    let doy = doe - (365 * yoe + yoe / 4 - yoe / 100); // [0, 365]
    let mp = (5 * doy + 2) / 153; // [0, 11]
    let day = doy - (153 * mp + 2) / 5 + 1; // [1, 31]
    let month = if mp < 10 { mp + 3 } else { mp - 9 }; // [1, 12]
    (if month <= 2 { year + 1 } else { year }, month, day)
}

/// A leap year of the Gregorian calendar.
pub open spec fn is_leap(y: int) -> bool {
    (y % 4 == 0 && y % 100 != 0) || y % 400 == 0
}
/// The length of month `m` of year `y`.
pub open spec fn days_in_month(y: int, m: int) -> int {
    if m == 2 { if is_leap(y) { 29 } else { 28 } }
    else if m == 4 || m == 6 || m == 9 || m == 11 { 30 }
    else { 31 }
}
/// The days of the years before `y`, counted from year 1.
pub open spec fn days_before_year(y: int) -> int {
    365 * (y - 1) + (y - 1) / 4 - (y - 1) / 100 + (y - 1) / 400
}
/// The days of the months of year `y` before month `m`.
pub open spec fn days_before_month(y: int, m: int) -> int {
    let base: int = if m == 1 { 0 } else if m == 2 { 31 } else if m == 3 { 59 } else if m == 4 { 90 }
        else if m == 5 { 120 } else if m == 6 { 151 } else if m == 7 { 181 } else if m == 8 { 212 }
        else if m == 9 { 243 } else if m == 10 { 273 } else if m == 11 { 304 } else { 334 };
    if m > 2 && is_leap(y) { base + 1 } else { base }
}
/// The number of days from 1970-01-01 to the date `y-m-d`.
pub open spec fn days_from_civil(y: int, m: int, d: int) -> int {
    days_before_year(y) + days_before_month(y, m) + (d - 1) - days_before_year(1970)
}
#[verifier::spinoff_prover]
#[verifier::rlimit(60)]
proof fn lemma_doe(doe: int)
    requires 0 <= doe <= 146096,
    ensures ({
        let yoe = (doe - doe / 1460 + doe / 36524 - doe / 146096) / 365;
        let doy = doe - (365 * yoe + yoe / 4 - yoe / 100);
        &&& 0 <= yoe <= 399
        &&& 0 <= doy <= 365
        &&& doy == 365 ==> ((yoe + 1) % 4 == 0 && ((yoe + 1) % 100 != 0 || yoe == 399))
    }),
{
}

proof fn lemma_div_shift(k: int, x: int, d: int)
    requires
        d > 0,
    ensures
        (k * d + x) / d == k + x / d,
        (k * d + x) % d == x % d,
{
    vstd::arithmetic::div_mod::lemma_fundamental_div_mod(x, d);
    let q = x / d;
    let r = x % d;
    assert((k + q) * d + r == k * d + x) by (nonlinear_arith)
        requires
            x == d * q + r,
    ;
    vstd::arithmetic::div_mod::lemma_fundamental_div_mod_converse(k * d + x, d, k + q, r);
}

proof fn lemma_years_before(e: int, x: int)
    requires 0 <= x <= 399,
    ensures
        days_before_year(400 * e + x) == 146097 * e + 365 * x - 365 + (x - 1) / 4 - (x - 1) / 100 + (x - 1) / 400,
        days_before_year(400 * e + x + 1) == 146097 * e + 365 * x + x / 4 - x / 100 + x / 400,
        is_leap(400 * e + x) == is_leap(x),
        is_leap(400 * e + x + 1) == is_leap(x + 1),
{
    lemma_div_shift(100 * e, x - 1, 4);
    lemma_div_shift(4 * e, x - 1, 100);
    lemma_div_shift(e, x - 1, 400);
    lemma_div_shift(100 * e, x, 4);
    lemma_div_shift(4 * e, x, 100);
    lemma_div_shift(e, x, 400);
    lemma_div_shift(100 * e, x + 1, 4);
    lemma_div_shift(4 * e, x + 1, 100);
    lemma_div_shift(e, x + 1, 400);
    assert(100 * e * 4 == 400 * e) by (nonlinear_arith);
    assert(4 * e * 100 == 400 * e) by (nonlinear_arith);
    assert(e * 400 == 400 * e) by (nonlinear_arith);
}

proof fn lemma_year_identity(x: int)
    requires 0 <= x <= 399,
    ensures
        (x - 1) / 4 - (x - 1) / 100 + (x - 1) / 400 + (if is_leap(x) { 1int } else { 0 }) == x / 4 - x / 100,
        x / 400 == 0,
{
}

proof fn lemma_doy(doy: int)
    requires 0 <= doy <= 365,
    ensures ({
        let mp = (5 * doy + 2) / 153;
        let d = doy - (153 * mp + 2) / 5 + 1;
        let m = if mp < 10 { mp + 3 } else { mp - 9 };
        &&& 0 <= mp <= 11
        &&& 1 <= d
        &&& (m != 2 ==> d <= days_in_month(0, m))
        &&& (m == 2 ==> d <= 28 || (d == 29 && doy == 365))
        &&& (m >= 3 ==> days_before_month(1, m) + (d - 1) == 59 + doy)
        &&& (m <= 2 ==> days_before_month(1, m) + (d - 1) == doy - 306)
    }),
{
}

/// The number of days of year `y`.
pub open spec fn days_in_year(y: int) -> int {
    if is_leap(y) { 366 } else { 365 }
}

/// The calendar date after `y-m-d`.
pub open spec fn next_date(y: int, m: int, d: int) -> (int, int, int) {
    if d < days_in_month(y, m) {
        (y, m, d + 1)
    } else if m < 12 {
        (y, m + 1, 1)
    } else {
        (y + 1, 1, 1)
    }
}

pub open spec fn valid_date(y: int, m: int, d: int) -> bool {
    1 <= m <= 12 && 1 <= d <= days_in_month(y, m)
}

proof fn lemma_div_step(y: int, k: int)
    requires
        k > 0,
    ensures
        y / k - (y - 1) / k == if y % k == 0 { 1int } else { 0 },
{
    vstd::arithmetic::div_mod::lemma_fundamental_div_mod(y - 1, k);
    let q = (y - 1) / k;
    let r = (y - 1) % k;
    if r == k - 1 {
        assert(y == (q + 1) * k + 0) by (nonlinear_arith)
            requires
                y - 1 == k * q + r,
                r == k - 1,
        ;
        vstd::arithmetic::div_mod::lemma_fundamental_div_mod_converse(y, k, q + 1, 0);
    } else {
        assert(y == q * k + (r + 1)) by (nonlinear_arith)
            requires
                y - 1 == k * q + r,
        ;
        vstd::arithmetic::div_mod::lemma_fundamental_div_mod_converse(y, k, q, r + 1);
    }
}

proof fn lemma_year_step(y: int)
    ensures
        days_before_year(y + 1) == days_before_year(y) + days_in_year(y),
{
    lemma_div_step(y, 4);
    lemma_div_step(y, 100);
    lemma_div_step(y, 400);
    if y % 400 == 0 {
        let k = y / 400;
        vstd::arithmetic::div_mod::lemma_fundamental_div_mod(y, 400);
        assert(y == (4 * k) * 100 + 0 && y == (100 * k) * 4 + 0) by (nonlinear_arith)
            requires
                y == 400 * k + y % 400,
                y % 400 == 0,
        ;
        vstd::arithmetic::div_mod::lemma_fundamental_div_mod_converse(y, 100, 4 * k, 0);
        vstd::arithmetic::div_mod::lemma_fundamental_div_mod_converse(y, 4, 100 * k, 0);
    } else if y % 100 == 0 {
        let k = y / 100;
        vstd::arithmetic::div_mod::lemma_fundamental_div_mod(y, 100);
        assert(y == (25 * k) * 4 + 0) by (nonlinear_arith)
            requires
                y == 100 * k + y % 100,
                y % 100 == 0,
        ;
        vstd::arithmetic::div_mod::lemma_fundamental_div_mod_converse(y, 4, 25 * k, 0);
    }
}

proof fn lemma_years_apart(y1: int, y2: int)
    requires
        y1 < y2,
    ensures
        days_before_year(y1) + days_in_year(y1) <= days_before_year(y2),
    decreases y2 - y1,
{
    lemma_year_step(y1);
    if y1 + 1 < y2 {
        lemma_years_apart(y1 + 1, y2);
        lemma_year_step(y1 + 1);
    }
}

/// Two valid dates the same number of days after the epoch are the same.
proof fn lemma_civil_unique(y1: int, m1: int, d1: int, y2: int, m2: int, d2: int)
    requires
        valid_date(y1, m1, d1),
        valid_date(y2, m2, d2),
        days_from_civil(y1, m1, d1) == days_from_civil(y2, m2, d2),
    ensures
        y1 == y2 && m1 == m2 && d1 == d2,
{
    assert(days_before_month(y1, m1) + d1 <= days_in_year(y1));
    assert(days_before_month(y2, m2) + d2 <= days_in_year(y2));
    if y1 < y2 {
        lemma_years_apart(y1, y2);
    } else if y2 < y1 {
        lemma_years_apart(y2, y1);
    }
    assert(y1 == y2);
    if m1 < m2 {
        assert(days_before_month(y1, m2) >= days_before_month(y1, m1) + days_in_month(y1, m1));
    } else if m2 < m1 {
        assert(days_before_month(y1, m1) >= days_before_month(y1, m2) + days_in_month(y1, m2));
    }
}

/// The date that `civil_from_days` gives for the next day is the calendar
/// date after the one it gives for this day.
pub proof fn law_civil_next_day(days: int)
    ensures
        spec_civil(days + 1) == ({
            let (y, m, d) = spec_civil(days);
            next_date(y, m, d)
        }),
{
    law_civil_date_is_calendar_date(days);
    law_civil_date_is_calendar_date(days + 1);
    let (y, m, d) = spec_civil(days);
    let (ny, nm, nd) = next_date(y, m, d);
    if d < days_in_month(y, m) {
    } else if m < 12 {
        assert(days_before_month(y, m + 1) == days_before_month(y, m) + days_in_month(y, m));
    } else {
        lemma_year_step(y);
        assert(days_before_month(y, 12) + 31 == days_in_year(y));
    }
    assert(valid_date(ny, nm, nd));
    assert(days_from_civil(ny, nm, nd) == days + 1);
    let (y2, m2, d2) = spec_civil(days + 1);
    lemma_civil_unique(ny, nm, nd, y2, m2, d2);
}

/// The date that `civil_from_days` gives is a valid date of the proleptic
/// Gregorian calendar, and it lies exactly `days` days after 1970-01-01.
pub proof fn law_civil_date_is_calendar_date(days: int)
    ensures ({
        let (y, m, d) = spec_civil(days);
        1 <= m <= 12 && 1 <= d <= days_in_month(y, m) && days_from_civil(y, m, d) == days
    }),
{
    let z = days + 719468;
    let era = z / 146097;
    let doe = z - era * 146097;
    assert(0 <= doe <= 146096);
    lemma_doe(doe);
    let yoe = (doe - doe / 1460 + doe / 36524 - doe / 146096) / 365;
    let doy = doe - (365 * yoe + yoe / 4 - yoe / 100);
    lemma_doy(doy);
    lemma_years_before(era, yoe);
    lemma_year_identity(yoe);
    let mp = (5 * doy + 2) / 153;
    let m = if mp < 10 { mp + 3 } else { mp - 9 };
    let y0 = yoe + era * 400;
    assert(400 * era + yoe == y0);
    assert(days_in_month(y0, m) == days_in_month(0, m) || m == 2);
    assert(days_before_month(y0, m) == days_before_month(1, m) + (if m > 2 && is_leap(yoe) { 1int } else { 0 }));
}

/// The abbreviated English name of month `m`.
pub open spec fn month_abbrev(m: int) -> Seq<char> {
    if m == 1 { "Jan"@ } else if m == 2 { "Feb"@ } else if m == 3 { "Mar"@ }
    else if m == 4 { "Apr"@ } else if m == 5 { "May"@ } else if m == 6 { "Jun"@ }
    else if m == 7 { "Jul"@ } else if m == 8 { "Aug"@ } else if m == 9 { "Sep"@ }
    else if m == 10 { "Oct"@ } else if m == 11 { "Nov"@ } else { "Dec"@ }
}

fn month_name(m: i64) -> (r: &'static str)
    ensures
        r@ == month_abbrev(m as int),
{
    if m == 1 { "Jan" } else if m == 2 { "Feb" } else if m == 3 { "Mar" }
    else if m == 4 { "Apr" } else if m == 5 { "May" } else if m == 6 { "Jun" }
    else if m == 7 { "Jul" } else if m == 8 { "Aug" } else if m == 9 { "Sep" }
    else if m == 10 { "Oct" } else if m == 11 { "Nov" } else { "Dec" }
}

/// Roughly six months, in seconds: the recency limit of the long listing.
pub const SIX_MONTHS: i64 = 15_552_000;

/// A modification time as `ls -l` shows it: `Mon DD HH:MM` within roughly
/// six months of `now`, `Mon DD  YYYY` otherwise. Times are in UTC.
pub open spec fn spec_format_time(mtime: int, now: int) -> Seq<char> {
    let (year, month, day) = spec_civil(mtime / 86400);
    let seconds_of_day = mtime % 86400;
    let hour = seconds_of_day / 3600;
    let minute = (seconds_of_day % 3600) / 60;
    let head = month_abbrev(month) + seq![' '] + pad_left(spec_signed_decimal(day), 2, ' ');
    let distance = if now - mtime < 0 { mtime - now } else { now - mtime };
    if distance > SIX_MONTHS {
        head + seq![' ', ' '] + spec_signed_decimal(year)
    } else {
        head + seq![' '] + pad_left(spec_decimal(hour as nat), 2, '0') + seq![':'] + pad_left(spec_decimal(minute as nat), 2, '0')
    }
}

proof fn lemma_two_digits(n: int, fill: char)
    requires
        0 <= n < 100,
        fill == '0' || fill == ' ',
    ensures
        pad_left(spec_decimal(n as nat), 2, fill) == seq![
            if n < 10 { fill } else { digit_char(n / 10) },
            digit_char(n % 10),
        ],
{
    reveal_with_fuel(spec_decimal, 2);
    if n < 10 {
        assert(pad_left(spec_decimal(n as nat), 2, fill) =~= seq![fill, digit_char(n % 10)]);
    } else {
        assert(spec_decimal(n as nat) =~= seq![digit_char(n / 10), digit_char(n % 10)]);
    }
}

/// What the time column shows: the month's abbreviation, the day padded to
/// two columns, and then, for a time within `SIX_MONTHS` seconds of `now`
/// (before or after), the hour and minute as `HH:MM`; for any other time,
/// two spaces and the year. All in UTC.
pub proof fn law_format_time_fields(mtime: int, now: int)
    ensures
        ({
            let (y, m, d) = spec_civil(mtime / 86400);
            let r = spec_format_time(mtime, now);
            let sod = mtime % 86400;
            let hour = sod / 3600;
            let minute = (sod % 3600) / 60;
            let distance = if now >= mtime { now - mtime } else { mtime - now };
            &&& r.subrange(0, 3) == month_abbrev(m)
            &&& r[3] == ' '
            &&& r[4] == (if d < 10 { ' ' } else { digit_char(d / 10) })
            &&& r[5] == digit_char(d % 10)
            &&& distance <= SIX_MONTHS ==> r.len() == 12 && r[6] == ' ' && r[7] == digit_char(hour / 10)
                && r[8] == digit_char(hour % 10) && r[9] == ':' && r[10] == digit_char(minute / 10)
                && r[11] == digit_char(minute % 10)
            &&& distance > SIX_MONTHS ==> r[6] == ' ' && r[7] == ' ' && r.skip(8) == spec_signed_decimal(y)
        }),
{
    let (y, m, d) = spec_civil(mtime / 86400);
    law_civil_date_is_calendar_date(mtime / 86400);
    reveal_strlit("Jan");
    reveal_strlit("Feb");
    reveal_strlit("Mar");
    reveal_strlit("Apr");
    reveal_strlit("May");
    reveal_strlit("Jun");
    reveal_strlit("Jul");
    reveal_strlit("Aug");
    reveal_strlit("Sep");
    reveal_strlit("Oct");
    reveal_strlit("Nov");
    reveal_strlit("Dec");
    assert(month_abbrev(m).len() == 3);
    assert(spec_signed_decimal(d) == spec_decimal(d as nat));
    lemma_two_digits(d, ' ');
    let sod = mtime % 86400;
    let hour = sod / 3600;
    let minute = (sod % 3600) / 60;
    lemma_two_digits(hour, '0');
    lemma_two_digits(minute, '0');
    let head = month_abbrev(m) + seq![' '] + pad_left(spec_signed_decimal(d), 2, ' ');
    assert(head.len() == 6);
    let r = spec_format_time(mtime, now);
    let distance = if now >= mtime { now - mtime } else { mtime - now };
    if distance > SIX_MONTHS {
        assert(r == head + seq![' ', ' '] + spec_signed_decimal(y));
        assert(r.skip(8) =~= spec_signed_decimal(y));
    } else {
        assert(r == head + seq![' '] + pad_left(spec_decimal(hour as nat), 2, '0') + seq![':'] + pad_left(spec_decimal(minute as nat), 2, '0'));
    }
    assert(r.subrange(0, 3) =~= month_abbrev(m));
}

/// Formats a modification time the way `ls -l` does: `Mon DD HH:MM` for recent
/// files and `Mon DD  YYYY` for files older than roughly six months.
///
/// Times are computed in UTC.
pub fn format_time(mtime: i64, now: i64) -> (r: String)
    requires
        i64::MIN < now - mtime <= i64::MAX,
    ensures
        r@ == spec_format_time(mtime as int, now as int),
{
    let days: i64 = if mtime >= 0 { mtime / 86400 } else { -((-(mtime + 1)) / 86400 + 1) };
    let seconds_of_day: i64 = if mtime >= 0 { mtime % 86400 } else { 86399 - (-(mtime + 1)) % 86400 };
    assert(days == mtime / 86400 && seconds_of_day == mtime % 86400);
    let (year, month, day) = civil_from_days(days);
    let hour = seconds_of_day / 3600;
    let minute = (seconds_of_day % 3600) / 60;

    let mut s = month_name(month).to_owned();
    push_char(&mut s, ' ');
    let d = signed_decimal(day);
    let padded = pad_left_exec(d.as_slice(), 2, ' ');
    push_chars(&mut s, padded.as_slice());

    let distance = if now - mtime < 0 { mtime - now } else { now - mtime };
    if distance > SIX_MONTHS {
        push_char(&mut s, ' ');
        push_char(&mut s, ' ');
        let y = signed_decimal(year);
        push_chars(&mut s, y.as_slice());
    } else {
        push_char(&mut s, ' ');
        let h = decimal(hour as u128);
        let hp = pad_left_exec(h.as_slice(), 2, '0');
        push_chars(&mut s, hp.as_slice());
        push_char(&mut s, ':');
        let m = decimal(minute as u128);
        let mp = pad_left_exec(m.as_slice(), 2, '0');
        push_chars(&mut s, mp.as_slice());
    }
    s
}

// ---------------------------------------------------------------------------
// Owner and group names
// ---------------------------------------------------------------------------

/// The `(id, name)` entry of one line of a `passwd`/`group`-style file: the
/// name is field 0 and the numeric id field 2, fields being separated by `:`.
pub open spec fn id_entry(line: Seq<char>) -> Option<(u32, Seq<char>)> {
    let fields = split_char(line, ':');
    if fields.len() >= 3 {
        match spec_parse_u32(fields[2]) {
            Some(id) => Some((id, fields[0])),
            None => None,
        }
    } else {
        None
    }
}

/// The entries of the given lines, in order.
pub open spec fn id_entries(ls: Seq<Seq<char>>) -> Seq<(u32, Seq<char>)>
    decreases ls.len(),
{
    if ls.len() == 0 {
        seq![]
    } else {
        let front = id_entries(ls.drop_last());
        match id_entry(ls.last()) {
            Some(e) => front.push(e),
            None => front,
        }
    }
}

/// The names that the entries give their ids: for each id, the name of its
/// first entry.
pub open spec fn id_map(t: Seq<(u32, Seq<char>)>) -> Map<u32, Seq<char>>
    decreases t.len(),
{
    if t.len() == 0 {
        Map::empty()
    } else {
        let m = id_map(t.drop_last());
        if m.contains_key(t.last().0) {
            m
        } else {
            m.insert(t.last().0, t.last().1)
        }
    }
}

pub open spec fn names_view(m: Map<u32, String>) -> Map<u32, Seq<char>> {
    m.map_values(|s: String| s@)
}

/// Parses a colon-separated `passwd`/`group`-style text into an
/// `id -> name` map; when several lines give the same id, the first wins.
pub fn parse_id_file(contents: &str) -> (r: HashMap<u32, String>)
    ensures
        names_view(r@) == id_map(id_entries(lines(contents@))),
{
    let ls = split_lines(contents);
    let ghost lv = strings_view(ls@);
    let mut map: HashMap<u32, String> = HashMap::new();
    let mut k: usize = 0;
    assert(lv.take(0) =~= Seq::<Seq<char>>::empty());
    assert(names_view(map@) =~= Map::<u32, Seq<char>>::empty());
    while k < ls.len()
        invariant
            lv == strings_view(ls@),
            k <= ls@.len(),
            names_view(map@) == id_map(id_entries(lv.take(k as int))),
        decreases ls@.len() - k,
    {
        let line = chars_of(ls[k].as_str());
        let fields = split_at_char(line.as_slice(), ':');
        let ghost fv = fields@.map_values(|p: Vec<char>| p@);
        assert(lv.take(k as int + 1).drop_last() =~= lv.take(k as int));
        assert(lv.take(k as int + 1).last() == line@);
        if fields.len() >= 3 {
            assert(fv[2] == fields@[2]@);
            match parse_u32(fields[2].as_slice()) {
                Some(id) => {
                    let name = string_of(fields[0].as_slice());
                    assert(name@ == fv[0]);
                    let ghost t = id_entries(lv.take(k as int));
                    assert(id_entries(lv.take(k as int + 1)) == t.push((id, fv[0])));
                    assert(t.push((id, fv[0])).drop_last() =~= t);
                    assert(names_view(map@).dom() =~= map@.dom());
                    if !map.contains_key(&id) {
                        let ghost before = map@;
                        map.insert(id, name);
                        assert(names_view(map@) =~= names_view(before).insert(id, fv[0]));
                    }
                },
                None => {},
            }
        }
        k += 1;
    }
    assert(lv.take(ls@.len() as int) =~= lv);
    map
}

/// Resolves numeric user and group IDs to names from the text of the
/// `passwd` and `group` databases. Falls back to the numeric ID when a name
/// is unavailable.
pub struct NameResolver {
    users: HashMap<u32, String>,
    groups: HashMap<u32, String>,
}

/// The names of a database with, when there is a substitute name, id 0 given
/// that name if the database gives it none.
pub open spec fn with_fallback(m: Map<u32, Seq<char>>, fallback: Option<Seq<char>>) -> Map<u32, Seq<char>> {
    match fallback {
        Some(name) => if m.contains_key(0u32) {
            m
        } else {
            m.insert(0u32, name)
        },
        None => m,
    }
}

pub open spec fn database_names(contents: Option<Seq<char>>) -> Map<u32, Seq<char>> {
    match contents {
        Some(c) => id_map(id_entries(lines(c))),
        None => Map::empty(),
    }
}

/// The name shown for an id: the one the names give it, or the id in
/// decimal.
pub open spec fn name_or_number(names: Map<u32, Seq<char>>, id: u32) -> Seq<char> {
    if names.contains_key(id) {
        names[id]
    } else {
        spec_decimal(id as nat)
    }
}

/// A `passwd` database exists, so no substitute name is needed.
pub fn fallback_owner() -> (r: Option<String>)
    ensures
        r is None,
{
    None
}

fn names_of(contents: Option<&str>) -> (r: HashMap<u32, String>)
    ensures
        names_view(r@) == database_names(match contents {
            Some(c) => Some(c@),
            None => None,
        }),
{
    match contents {
        Some(c) => parse_id_file(c),
        None => {
            let m: HashMap<u32, String> = HashMap::new();
            assert(names_view(m@) =~= Map::<u32, Seq<char>>::empty());
            m
        },
    }
}

fn add_fallback(names: &mut HashMap<u32, String>, fallback: &Option<String>)
    ensures
        names_view(final(names)@) == with_fallback(names_view(old(names)@), match fallback {
            Some(f) => Some(f@),
            None => None,
        }),
{
    if let Some(name) = fallback {
        if !names.contains_key(&0) {
            let ghost before = names@;
            names.insert(0, name.clone());
            assert(names_view(names@) =~= names_view(before).insert(0u32, name@));
        }
    }
}

impl NameResolver {
    /// The user names.
    pub closed spec fn users(&self) -> Map<u32, Seq<char>> {
        names_view(self.users@)
    }

    /// The group names.
    pub closed spec fn groups(&self) -> Map<u32, Seq<char>> {
        names_view(self.groups@)
    }

    /// Builds the name maps from the text of `/etc/passwd` and `/etc/group`
    /// (`None` for a file that could not be read). On platforms without a
    /// `passwd` database every entry reports id 0; `fallback` names that id.
    pub fn new(passwd: Option<&str>, group: Option<&str>, fallback: Option<String>) -> (r: NameResolver)
        ensures
            r.users() == with_fallback(database_names(match passwd { Some(p) => Some(p@), None => None }), match fallback { Some(f) => Some(f@), None => None }),
            r.groups() == with_fallback(database_names(match group { Some(g) => Some(g@), None => None }), match fallback { Some(f) => Some(f@), None => None }),
    {
        let mut users = names_of(passwd);
        let mut groups = names_of(group);
        add_fallback(&mut users, &fallback);
        add_fallback(&mut groups, &fallback);
        NameResolver { users, groups }
    }

    /// The user name for `uid`, or the number itself.
    pub fn user(&self, uid: u32) -> (r: String)
        ensures
            r@ == name_or_number(self.users(), uid),
    {
        lookup_name(&self.users, uid)
    }

    /// The group name for `gid`, or the number itself.
    pub fn group(&self, gid: u32) -> (r: String)
        ensures
            r@ == name_or_number(self.groups(), gid),
    {
        lookup_name(&self.groups, gid)
    }
}

fn lookup_name(names: &HashMap<u32, String>, id: u32) -> (r: String)
    ensures
        r@ == name_or_number(names_view(names@), id),
{
    match names.get(&id) {
        Some(name) => name.clone(),
        None => string_of(decimal(id as u128).as_slice()),
    }
}

// ---------------------------------------------------------------------------
// Ordering
// ---------------------------------------------------------------------------

/// The number of leading `.` characters of `s`.
pub open spec fn leading_dots(s: Seq<char>, i: int) -> int
    decreases s.len() - i,
{
    if i < 0 || i >= s.len() {
        if i < 0 { 0 } else { s.len() as int }
    } else if s[i] == '.' {
        leading_dots(s, i + 1)
    } else {
        i
    }
}

/// The sort key of a name: without its leading dots, lowercased. Comparison
/// is then case-insensitive and ignores a leading dot, close to GNU's default
/// collation.
pub open spec fn spec_sort_key(name: Seq<char>) -> Seq<char> {
    let rest = name.skip(leading_dots(name, 0));
    if rest.len() == 0 {
        rest
    } else {
        spec_lowercase(rest)
    }
}

/// Produces the sort key that `ls` orders names by.
pub fn sort_key(name: &str) -> (r: String)
    ensures
        r@ == spec_sort_key(name@),
{
    let chars = chars_of(name);
    let mut i: usize = 0;
    while i < chars.len() && chars[i] == '.'
        invariant
            i <= chars@.len(),
            leading_dots(chars@, 0) == leading_dots(chars@, i as int),
        decreases chars@.len() - i,
    {
        i += 1;
    }
    let mut rest: Vec<char> = Vec::new();
    let mut k: usize = i;
    while k < chars.len()
        invariant
            i <= k <= chars@.len(),
            rest@ == chars@.subrange(i as int, k as int),
        decreases chars@.len() - k,
    {
        rest.push(chars[k]);
        k += 1;
        assert(rest@ =~= chars@.subrange(i as int, k as int));
    }
    assert(rest@ =~= name@.skip(leading_dots(name@, 0)));
    let trimmed = string_of(rest.as_slice());
    if rest.len() == 0 {
        // Nothing is left to lowercase.
        return trimmed;
    }
    to_lowercase(trimmed.as_str())
}

// ---------------------------------------------------------------------------
// Rendering
// ---------------------------------------------------------------------------

/// The columns of one line of the long listing.
pub struct LongRow {
    pub perms: String,
    pub links: String,
    pub owner: String,
    pub group: String,
    pub size: String,
    pub time: String,
    pub name: String,
}

/// The columns of one line of the long listing, as character sequences.
pub struct LongRowView {
    pub perms: Seq<char>,
    pub links: Seq<char>,
    pub owner: Seq<char>,
    pub group: Seq<char>,
    pub size: Seq<char>,
    pub time: Seq<char>,
    pub name: Seq<char>,
}

impl View for LongRow {
    type V = LongRowView;

    open spec fn view(&self) -> LongRowView {
        LongRowView {
            perms: self.perms@,
            links: self.links@,
            owner: self.owner@,
            group: self.group@,
            size: self.size@,
            time: self.time@,
            name: self.name@,
        }
    }
}

/// The name column: the decorated name, and for a link ` -> ` and its target.
pub open spec fn long_name(e: EntryInfo, flags: Flags, color: bool) -> Seq<char> {
    let d = decorated(e.display@, e.mode, flags.classify, color);
    match e.link_target {
        Some(t) => d + " -> "@ + t@,
        None => d,
    }
}

/// In the long listing, the line of a symbolic link whose target is known
/// ends with ` -> ` and the target; the line of any other entry ends with
/// its (decorated) name.
pub proof fn law_long_line_shows_link_target(es: Seq<EntryInfo>, flags: Flags, users: Map<u32, Seq<char>>, groups: Map<u32, Seq<char>>, now: i64, color: bool, i: int)
    requires
        flags.long,
        0 <= i < es.len(),
    ensures
        spec_render(es, flags, users, groups, now, color).len() == es.len(),
        ({
            let line = spec_render(es, flags, users, groups, now, color)[i];
            let d = decorated(es[i].display@, es[i].mode, flags.classify, color);
            match es[i].link_target {
                Some(t) => line.len() >= t@.len() + 4 && line.subrange(
                    line.len() - t@.len() - 4,
                    line.len() as int,
                ) == seq![' ', '-', '>', ' '] + t@,
                None => line.len() >= d.len() && line.subrange(line.len() - d.len(), line.len() as int) == d,
            }
        }),
{
    let rows = es.map_values(|e: EntryInfo| spec_long_row(e, flags, users, groups, now, color));
    let r = rows[i];
    let wl = seq_max(column_widths(rows, 0));
    let wo = seq_max(column_widths(rows, 1));
    let wg = seq_max(column_widths(rows, 2));
    let ws = seq_max(column_widths(rows, 3));
    let line = long_line(r, wl, wo, wg, ws);
    assert(spec_render(es, flags, users, groups, now, color)[i] == line);
    let front = r.perms + seq![' '] + pad_left(r.links, wl as nat, ' ') + seq![' '] + pad_right(r.owner, wo as nat, ' ')
        + seq![' '] + pad_right(r.group, wg as nat, ' ') + seq![' '] + pad_left(r.size, ws as nat, ' ')
        + seq![' '] + r.time + seq![' '];
    assert(line =~= front + r.name);
    let d = decorated(es[i].display@, es[i].mode, flags.classify, color);
    match es[i].link_target {
        Some(t) => {
            reveal_strlit(" -> ");
            assert(" -> "@ =~= seq![' ', '-', '>', ' ']);
            let tail = seq![' ', '-', '>', ' '] + t@;
            assert(r.name =~= d + tail);
            assert(line =~= (front + d) + tail);
            assert(line.subrange(line.len() - tail.len(), line.len() as int) =~= tail);
        },
        None => {
            assert(line.subrange(line.len() - d.len(), line.len() as int) =~= d);
        },
    }
}

/// The columns that the long listing shows for an entry.
pub open spec fn spec_long_row(e: EntryInfo, flags: Flags, users: Map<u32, Seq<char>>, groups: Map<u32, Seq<char>>, now: i64, color: bool) -> LongRowView {
    LongRowView {
        perms: spec_permission_string(e.mode),
        links: spec_decimal(e.nlink as nat),
        owner: name_or_number(users, e.uid),
        group: name_or_number(groups, e.gid),
        size: spec_decimal(e.size as nat),
        time: spec_format_time(e.mtime as int, now as int),
        name: long_name(e, flags, color),
    }
}

/// The entry's time can be compared with `now` without overflow.
pub open spec fn time_in_range(e: EntryInfo, now: i64) -> bool {
    i64::MIN < now - e.mtime <= i64::MAX
}

/// Builds the columns of the long listing for one entry.
pub fn long_row(e: &EntryInfo, flags: Flags, resolver: &NameResolver, now: i64, color: bool) -> (r: LongRow)
    requires
        time_in_range(*e, now),
    ensures
        r@ == spec_long_row(*e, flags, resolver.users(), resolver.groups(), now, color),
{
    let d = decorate(e, flags, color);
    let name = match &e.link_target {
        Some(target) => {
            let mut n = d;
            n.append(" -> ");
            n.append(target.as_str());
            n
        },
        None => d,
    };
    LongRow {
        perms: permission_string(e.mode),
        links: string_of(decimal(e.nlink as u128).as_slice()),
        owner: resolver.user(e.uid),
        group: resolver.group(e.gid),
        size: string_of(decimal(e.size as u128).as_slice()),
        time: format_time(e.mtime, now),
        name,
    }
}

/// The largest of the widths, or 0 when there are none.
pub open spec fn seq_max(w: Seq<usize>) -> usize
    decreases w.len(),
{
    if w.len() == 0 {
        0
    } else {
        let m = seq_max(w.drop_last());
        if w.last() > m { w.last() } else { m }
    }
}

/// The largest of the widths, or 0 when there are none.
pub fn max_width(widths: &Vec<usize>) -> (r: usize)
    ensures
        r == seq_max(widths@),
{
    let mut m: usize = 0;
    let mut k: usize = 0;
    assert(widths@.take(0) =~= Seq::<usize>::empty());
    while k < widths.len()
        invariant
            k <= widths@.len(),
            m == seq_max(widths@.take(k as int)),
        decreases widths@.len() - k,
    {
        assert(widths@.take(k as int + 1).drop_last() =~= widths@.take(k as int));
        if widths[k] > m {
            m = widths[k];
        }
        k += 1;
    }
    assert(widths@.take(widths@.len() as int) =~= widths@);
    m
}

/// The byte widths of one column of the rows.
pub open spec fn column_widths(rows: Seq<LongRowView>, column: int) -> Seq<usize> {
    rows.map_values(|r: LongRowView| byte_len(
        if column == 0 { r.links } else if column == 1 { r.owner } else if column == 2 { r.group } else { r.size }
    ) as usize)
}

/// One line of the long listing, with the link count and size right-aligned
/// and the owner and group left-aligned to the given widths.
pub open spec fn long_line(r: LongRowView, wl: usize, wo: usize, wg: usize, ws: usize) -> Seq<char> {
    r.perms + seq![' '] + pad_left(r.links, wl as nat, ' ') + seq![' '] + pad_right(r.owner, wo as nat, ' ')
        + seq![' '] + pad_right(r.group, wg as nat, ' ') + seq![' '] + pad_left(r.size, ws as nat, ' ')
        + seq![' '] + r.time + seq![' '] + r.name
}

/// The lines of the long listing: columns padded to their widest value, as
/// GNU `ls` does.
pub open spec fn spec_long_lines(rows: Seq<LongRowView>) -> Seq<Seq<char>> {
    let wl = seq_max(column_widths(rows, 0));
    let wo = seq_max(column_widths(rows, 1));
    let wg = seq_max(column_widths(rows, 2));
    let ws = seq_max(column_widths(rows, 3));
    rows.map_values(|r: LongRowView| long_line(r, wl, wo, wg, ws))
}

proof fn lemma_byte_len_at_least_len(s: Seq<char>)
    ensures
        byte_len(s) >= s.len(),
    decreases s.len(),
{
    if s.len() > 0 {
        lemma_byte_len_at_least_len(s.drop_first());
        assert(vstd::utf8::encode_scalar(s[0] as u32).len() >= 1);
    }
}

proof fn lemma_seq_max_bounds(w: Seq<usize>, i: int)
    requires
        0 <= i < w.len(),
    ensures
        w[i] <= seq_max(w),
    decreases w.len(),
{
    if i < w.len() - 1 {
        lemma_seq_max_bounds(w.drop_last(), i);
    }
}

/// The position at which the time column starts on every line of the long
/// listing of `rows`: the 10 characters of the permissions, the four padded
/// columns and the five spaces after them.
pub open spec fn time_column(rows: Seq<LongRowView>) -> int {
    15 + seq_max(column_widths(rows, 0)) + seq_max(column_widths(rows, 1)) + seq_max(column_widths(rows, 2))
        + seq_max(column_widths(rows, 3))
}

/// The columns of the long listing line up: on every line the time starts at
/// the same position.
pub proof fn law_long_columns_aligned(rows: Seq<LongRowView>, i: int)
    requires
        0 <= i < rows.len(),
        rows[i].perms.len() == 10,
        byte_len(rows[i].links) <= usize::MAX,
        byte_len(rows[i].owner) <= usize::MAX,
        byte_len(rows[i].group) <= usize::MAX,
        byte_len(rows[i].size) <= usize::MAX,
    ensures
        spec_long_lines(rows)[i].subrange(time_column(rows), time_column(rows) + rows[i].time.len())
            == rows[i].time,
{
    let r = rows[i];
    let wl = seq_max(column_widths(rows, 0));
    let wo = seq_max(column_widths(rows, 1));
    let wg = seq_max(column_widths(rows, 2));
    let ws = seq_max(column_widths(rows, 3));
    lemma_seq_max_bounds(column_widths(rows, 0), i);
    lemma_seq_max_bounds(column_widths(rows, 1), i);
    lemma_seq_max_bounds(column_widths(rows, 2), i);
    lemma_seq_max_bounds(column_widths(rows, 3), i);
    lemma_byte_len_at_least_len(r.links);
    lemma_byte_len_at_least_len(r.owner);
    lemma_byte_len_at_least_len(r.group);
    lemma_byte_len_at_least_len(r.size);
    assert(column_widths(rows, 0)[i] == byte_len(r.links) as usize);
    assert(column_widths(rows, 1)[i] == byte_len(r.owner) as usize);
    assert(column_widths(rows, 2)[i] == byte_len(r.group) as usize);
    assert(column_widths(rows, 3)[i] == byte_len(r.size) as usize);
    let a = pad_left(r.links, wl as nat, ' ');
    let b = pad_right(r.owner, wo as nat, ' ');
    let c = pad_right(r.group, wg as nat, ' ');
    let d = pad_left(r.size, ws as nat, ' ');
    assert(a.len() == wl);
    assert(b.len() == wo);
    assert(c.len() == wg);
    assert(d.len() == ws);
    let front = r.perms + seq![' '] + a + seq![' '] + b + seq![' '] + c + seq![' '] + d + seq![' '];
    let line = long_line(r, wl, wo, wg, ws);
    assert(line =~= front + r.time + (seq![' '] + r.name));
    assert(front.len() == time_column(rows));
    assert(spec_long_lines(rows)[i] == line);
    assert(line.subrange(front.len() as int, front.len() + r.time.len() as int) =~= r.time);
}

/// Every permission string is 10 characters long.
pub proof fn law_permission_string_length(mode: u32)
    ensures
        spec_permission_string(mode).len() == 10,
{
}

pub open spec fn rows_view(rows: Seq<LongRow>) -> Seq<LongRowView> {
    rows.map_values(|r: LongRow| r@)
}

fn column_width_list(rows: &Vec<LongRow>, column: usize) -> (w: Vec<usize>)
    ensures
        w@ == column_widths(rows_view(rows@), column as int),
{
    let mut w: Vec<usize> = Vec::new();
    let mut k: usize = 0;
    while k < rows.len()
        invariant
            k <= rows@.len(),
            w@ == column_widths(rows_view(rows@), column as int).take(k as int),
        decreases rows@.len() - k,
    {
        let r = &rows[k];
        let n = if column == 0 {
            byte_len_exec(&r.links)
        } else if column == 1 {
            byte_len_exec(&r.owner)
        } else if column == 2 {
            byte_len_exec(&r.group)
        } else {
            byte_len_exec(&r.size)
        };
        w.push(n);
        k += 1;
        assert(w@ =~= column_widths(rows_view(rows@), column as int).take(k as int));
    }
    assert(column_widths(rows_view(rows@), column as int).take(rows@.len() as int) =~= column_widths(rows_view(rows@), column as int));
    w
}

/// Renders rows in `-l` long format with columns aligned to their widest
/// value, mirroring GNU `ls`.
pub fn render_long(rows: &Vec<LongRow>) -> (lines: Vec<String>)
    ensures
        strings_view(lines@) == spec_long_lines(rows_view(rows@)),
{
    let ghost rv = rows_view(rows@);
    let w_links = max_width(&column_width_list(rows, 0));
    let w_owner = max_width(&column_width_list(rows, 1));
    let w_group = max_width(&column_width_list(rows, 2));
    let w_size = max_width(&column_width_list(rows, 3));

    let mut lines: Vec<String> = Vec::new();
    let mut k: usize = 0;
    while k < rows.len()
        invariant
            rv == rows_view(rows@),
            k <= rows@.len(),
            w_links == seq_max(column_widths(rv, 0)),
            w_owner == seq_max(column_widths(rv, 1)),
            w_group == seq_max(column_widths(rv, 2)),
            w_size == seq_max(column_widths(rv, 3)),
            strings_view(lines@) == spec_long_lines(rv).take(k as int),
        decreases rows@.len() - k,
    {
        let r = &rows[k];
        let mut line = r.perms.clone();
        push_char(&mut line, ' ');
        push_chars(&mut line, pad_left_exec(chars_of(r.links.as_str()).as_slice(), w_links, ' ').as_slice());
        push_char(&mut line, ' ');
        push_chars(&mut line, pad_right_exec(chars_of(r.owner.as_str()).as_slice(), w_owner, ' ').as_slice());
        push_char(&mut line, ' ');
        push_chars(&mut line, pad_right_exec(chars_of(r.group.as_str()).as_slice(), w_group, ' ').as_slice());
        push_char(&mut line, ' ');
        push_chars(&mut line, pad_left_exec(chars_of(r.size.as_str()).as_slice(), w_size, ' ').as_slice());
        push_char(&mut line, ' ');
        line.append(r.time.as_str());
        push_char(&mut line, ' ');
        line.append(r.name.as_str());
        let ghost before = strings_view(lines@);
        let ghost lv = line@;
        assert(lv =~= long_line(rv[k as int], w_links, w_owner, w_group, w_size));
        lines.push(line);
        assert(strings_view(lines@) =~= before.push(lv));
        k += 1;
        assert(strings_view(lines@) =~= spec_long_lines(rv).take(k as int));
    }
    assert(spec_long_lines(rv).take(rows@.len() as int) =~= spec_long_lines(rv));
    lines
}

/// The lines that list the entries, in the given order: long rows with `-l`,
/// the decorated names otherwise.
pub open spec fn spec_render(es: Seq<EntryInfo>, flags: Flags, users: Map<u32, Seq<char>>, groups: Map<u32, Seq<char>>, now: i64, color: bool) -> Seq<Seq<char>> {
    if flags.long {
        spec_long_lines(es.map_values(|e: EntryInfo| spec_long_row(e, flags, users, groups, now, color)))
    } else {
        es.map_values(|e: EntryInfo| decorated(e.display@, e.mode, flags.classify, color))
    }
}

/// Every entry's time can be compared with `now` without overflow.
pub open spec fn times_in_range(es: Seq<EntryInfo>, now: i64) -> bool {
    forall|i: int| 0 <= i < es.len() ==> time_in_range(#[trigger] es[i], now)
}

/// Renders entries in either long or short form.
pub fn render(entries: &Vec<EntryInfo>, flags: Flags, resolver: &NameResolver, now: i64, color: bool) -> (lines: Vec<String>)
    requires
        flags.long ==> times_in_range(entries@, now),
    ensures
        strings_view(lines@) == spec_render(entries@, flags, resolver.users(), resolver.groups(), now, color),
{
    if flags.long {
        let mut rows: Vec<LongRow> = Vec::new();
        let mut k: usize = 0;
        while k < entries.len()
            invariant
                k <= entries@.len(),
                times_in_range(entries@, now),
                rows_view(rows@) == entries@.map_values(|e: EntryInfo| spec_long_row(e, flags, resolver.users(), resolver.groups(), now, color)).take(k as int),
            decreases entries@.len() - k,
        {
            let ghost before = rows_view(rows@);
            let row = long_row(&entries[k], flags, resolver, now, color);
            rows.push(row);
            assert(rows_view(rows@) =~= before.push(spec_long_row(entries@[k as int], flags, resolver.users(), resolver.groups(), now, color)));
            k += 1;
            assert(rows_view(rows@) =~= entries@.map_values(|e: EntryInfo| spec_long_row(e, flags, resolver.users(), resolver.groups(), now, color)).take(k as int));
        }
        assert(rows_view(rows@) =~= entries@.map_values(|e: EntryInfo| spec_long_row(e, flags, resolver.users(), resolver.groups(), now, color)));
        render_long(&rows)
    } else {
        let mut lines: Vec<String> = Vec::new();
        let mut k: usize = 0;
        while k < entries.len()
            invariant
                k <= entries@.len(),
                strings_view(lines@) == entries@.map_values(|e: EntryInfo| decorated(e.display@, e.mode, flags.classify, color)).take(k as int),
            decreases entries@.len() - k,
        {
            let ghost before = strings_view(lines@);
            let d = decorate(&entries[k], flags, color);
            lines.push(d);
            assert(strings_view(lines@) =~= before.push(decorated(entries@[k as int].display@, entries@[k as int].mode, flags.classify, color)));
            k += 1;
            assert(strings_view(lines@) =~= entries@.map_values(|e: EntryInfo| decorated(e.display@, e.mode, flags.classify, color)).take(k as int));
        }
        assert(strings_view(lines@) =~= entries@.map_values(|e: EntryInfo| decorated(e.display@, e.mode, flags.classify, color)));
        lines
    }
}

// ---------------------------------------------------------------------------
// Directories and operands
// ---------------------------------------------------------------------------

/// A name that `ls` hides unless `-a` is given.
pub open spec fn is_hidden(e: EntryInfo) -> bool {
    e.display@.len() > 0 && e.display@[0] == '.'
}

/// The entries shown: all of them with `-a`, those not hidden otherwise.
pub open spec fn shown_entries(es: Seq<EntryInfo>, all: bool) -> Seq<EntryInfo>
    decreases es.len(),
{
    if es.len() == 0 {
        seq![]
    } else {
        let front = shown_entries(es.drop_last(), all);
        if all || !is_hidden(es.last()) {
            front.push(es.last())
        } else {
            front
        }
    }
}

/// The allocated 512-byte blocks of the entries.
pub open spec fn sum_blocks(es: Seq<EntryInfo>) -> nat
    decreases es.len(),
{
    if es.len() == 0 {
        0
    } else {
        sum_blocks(es.drop_last()) + es.last().blocks as nat
    }
}

pub open spec fn entry_keys(es: Seq<EntryInfo>) -> Seq<Seq<char>> {
    es.map_values(|e: EntryInfo| spec_sort_key(e.display@))
}

/// The shown entries in listing order.
pub open spec fn listed_entries(es: Seq<EntryInfo>, all: bool) -> Seq<EntryInfo> {
    let sh = shown_entries(es, all);
    spec_sorted_order(entry_keys(sh)).map_values(|i: usize| sh[i as int])
}

proof fn lemma_all_shown(es: Seq<EntryInfo>)
    ensures
        shown_entries(es, true) == es,
    decreases es.len(),
{
    if es.len() > 0 {
        lemma_all_shown(es.drop_last());
        assert(es.drop_last().push(es.last()) =~= es);
    }
}

/// With `-a`, the entries `.` and `..`, given first, are listed first and in
/// that order: their sort key is empty, which no other key precedes.
pub proof fn law_dot_entries_listed_first(es: Seq<EntryInfo>)
    requires
        es.len() >= 2,
        es.len() <= usize::MAX,
        es[0].display@ == seq!['.'],
        es[1].display@ == seq!['.', '.'],
    ensures
        listed_entries(es, true).len() == es.len(),
        listed_entries(es, true)[0] == es[0],
        listed_entries(es, true)[1] == es[1],
{
    lemma_all_shown(es);
    let keys = entry_keys(es);
    crate::sorting::lemma_sorted_order_exists(keys);
    let o = spec_sorted_order(keys);
    assert(leading_dots(es[0].display@, 1) == 1);
    assert(leading_dots(es[0].display@, 0) == 1);
    assert(leading_dots(es[1].display@, 2) == 2);
    assert(leading_dots(es[1].display@, 1) == 2);
    assert(leading_dots(es[1].display@, 0) == 2);
    assert(keys[0].len() == 0);
    assert(keys[1].len() == 0);
    assert(occurs(o, 0));
    let p = choose|i: int| 0 <= i < o.len() && o[i] == 0;
    if p > 0 {
        assert(precedes(keys, o[0] as int, o[p] as int));
    }
    assert(o[0] == 0);
    assert(occurs(o, 1));
    let q = choose|i: int| 0 <= i < o.len() && o[i] == 1;
    if q > 1 {
        assert(precedes(keys, o[1] as int, o[q] as int));
        assert(o[0] != o[1]);
    }
    assert(o[1] == 1);
}

/// Entries are listed in the order of their sort keys, compared as
/// `String`s: no listed entry has a key smaller than one listed before it.
pub proof fn law_listing_in_key_order(es: Seq<EntryInfo>, all: bool, i: int, j: int)
    requires
        es.len() <= usize::MAX,
        0 <= i < j < listed_entries(es, all).len(),
    ensures
        !lex_less(
            spec_sort_key(listed_entries(es, all)[j].display@),
            spec_sort_key(listed_entries(es, all)[i].display@),
        ),
{
    let sh = shown_entries(es, all);
    lemma_shown_len(es, all);
    let keys = entry_keys(sh);
    crate::sorting::lemma_sorted_order_exists(keys);
    let o = spec_sorted_order(keys);
    assert(precedes(keys, o[i] as int, o[j] as int));
    let ki = keys[o[i] as int];
    let kj = keys[o[j] as int];
    if lex_less(ki, kj) {
        crate::text::lemma_lex_less_asymmetric(ki, kj);
    } else {
        crate::text::lemma_lex_less_irreflexive(ki);
    }
}

proof fn lemma_shown_len(es: Seq<EntryInfo>, all: bool)
    ensures
        shown_entries(es, all).len() <= es.len(),
    decreases es.len(),
{
    if es.len() > 0 {
        lemma_shown_len(es.drop_last(), all);
    }
}

proof fn lemma_shown_contents(es: Seq<EntryInfo>, all: bool)
    ensures
        forall|j: int| 0 <= j < shown_entries(es, all).len() ==> (all || !is_hidden(#[trigger] shown_entries(es, all)[j])),
        forall|k: int| 0 <= k < es.len() && (all || !is_hidden(es[k])) ==> exists|j: int|
            0 <= j < shown_entries(es, all).len() && #[trigger] shown_entries(es, all)[j] == #[trigger] es[k],
    decreases es.len(),
{
    if es.len() > 0 {
        let front = es.drop_last();
        lemma_shown_contents(front, all);
        let sf = shown_entries(front, all);
        let sh = shown_entries(es, all);
        assert forall|k: int| 0 <= k < es.len() && (all || !is_hidden(es[k])) implies exists|j: int|
            0 <= j < sh.len() && #[trigger] sh[j] == #[trigger] es[k] by {
            if k == es.len() - 1 {
                assert(sh[sh.len() - 1] == es[k]);
            } else {
                assert(es[k] == front[k]);
                let j = choose|j: int| 0 <= j < sf.len() && #[trigger] sf[j] == #[trigger] front[k];
                assert(sh[j] == sf[j]);
            }
        }
        assert forall|j: int| 0 <= j < sh.len() implies (all || !is_hidden(#[trigger] sh[j])) by {
            if j < sf.len() {
                assert(sh[j] == sf[j]);
            }
        }
    }
}

/// Without `-a` no entry whose name starts with `.` is listed; every other
/// entry is, and with `-a` every entry is.
pub proof fn law_hidden_entries_need_all(es: Seq<EntryInfo>, all: bool)
    requires
        es.len() <= usize::MAX,
    ensures
        forall|i: int| 0 <= i < listed_entries(es, all).len() ==> (all || !(#[trigger] listed_entries(es, all)[i].display@.len() > 0
            && listed_entries(es, all)[i].display@[0] == '.')),
        forall|k: int| 0 <= k < es.len() && (all || !(es[k].display@.len() > 0 && es[k].display@[0] == '.')) ==> exists|i: int|
            0 <= i < listed_entries(es, all).len() && #[trigger] listed_entries(es, all)[i] == #[trigger] es[k],
{
    let sh = shown_entries(es, all);
    lemma_shown_len(es, all);
    lemma_shown_contents(es, all);
    let keys = entry_keys(sh);
    crate::sorting::lemma_sorted_order_exists(keys);
    let o = spec_sorted_order(keys);
    let l = listed_entries(es, all);
    assert forall|i: int| 0 <= i < l.len() implies (all || !(#[trigger] l[i].display@.len() > 0 && l[i].display@[0] == '.')) by {
        assert(l[i] == sh[o[i] as int]);
    }
    assert forall|k: int| 0 <= k < es.len() && (all || !(es[k].display@.len() > 0 && es[k].display@[0] == '.')) implies exists|i: int|
        0 <= i < l.len() && #[trigger] l[i] == #[trigger] es[k] by {
        assert(all || !is_hidden(es[k]));
        let j = choose|j: int| 0 <= j < sh.len() && #[trigger] sh[j] == #[trigger] es[k];
        assert(occurs(o, j));
        let i = choose|i: int| 0 <= i < o.len() && o[i] == j;
        assert(l[i] == sh[j]);
    }
}

/// The `total` line of the long listing, in 1024-byte blocks.
pub open spec fn total_line(es: Seq<EntryInfo>) -> Seq<char> {
    "total "@ + spec_decimal(sum_blocks(es) / 2)
}

/// The lines that list a directory with these entries: shown entries only,
/// in listing order, after a `total` line in the long format.
pub open spec fn spec_list_directory(es: Seq<EntryInfo>, flags: Flags, users: Map<u32, Seq<char>>, groups: Map<u32, Seq<char>>, now: i64, color: bool) -> Seq<Seq<char>> {
    let head = if flags.long { seq![total_line(shown_entries(es, flags.all))] } else { seq![] };
    head + spec_render(listed_entries(es, flags.all), flags, users, groups, now, color)
}

/// What listing a directory needs of its entries: their times can be
/// compared with `now` and their blocks added up without overflow.
pub open spec fn listable(es: Seq<EntryInfo>, flags: Flags, now: i64) -> bool {
    flags.long ==> times_in_range(es, now) && sum_blocks(shown_entries(es, flags.all)) <= u64::MAX
}

fn copy_entry(e: &EntryInfo) -> (r: EntryInfo)
    ensures
        r == *e,
{
    EntryInfo {
        display: e.display.clone(),
        mode: e.mode,
        nlink: e.nlink,
        uid: e.uid,
        gid: e.gid,
        size: e.size,
        mtime: e.mtime,
        blocks: e.blocks,
        link_target: match &e.link_target {
            Some(t) => Some(t.clone()),
            None => None,
        },
    }
}

proof fn lemma_sum_blocks_prefix(es: Seq<EntryInfo>, k: int)
    requires
        0 <= k <= es.len(),
    ensures
        sum_blocks(es.take(k)) <= sum_blocks(es),
    decreases es.len() - k,
{
    if k < es.len() {
        lemma_sum_blocks_prefix(es, k + 1);
        assert(es.take(k + 1).drop_last() =~= es.take(k));
    } else {
        assert(es.take(k) =~= es);
    }
}

/// Lists one directory from its entries (with `.` and `..` among them when
/// `-a` is given): drops hidden names unless `-a`, sorts, and renders.
pub fn list_directory(entries: &Vec<EntryInfo>, flags: Flags, resolver: &NameResolver, now: i64, color: bool) -> (lines: Vec<String>)
    requires
        listable(entries@, flags, now),
    ensures
        strings_view(lines@) == spec_list_directory(entries@, flags, resolver.users(), resolver.groups(), now, color),
{
    // Keep the shown entries.
    let mut shown: Vec<EntryInfo> = Vec::new();
    let mut k: usize = 0;
    assert(entries@.take(0) =~= Seq::<EntryInfo>::empty());
    while k < entries.len()
        invariant
            k <= entries@.len(),
            shown@ == shown_entries(entries@.take(k as int), flags.all),
            flags.long ==> times_in_range(entries@, now),
            flags.long ==> times_in_range(shown@, now),
        decreases entries@.len() - k,
    {
        let e = &entries[k];
        assert(entries@.take(k as int + 1).drop_last() =~= entries@.take(k as int));
        assert(entries@.take(k as int + 1).last() == *e);
        let c = chars_of(e.display.as_str());
        let hidden = c.len() > 0 && c[0] == '.';
        if flags.all || !hidden {
            shown.push(copy_entry(e));
        }
        k += 1;
    }
    assert(entries@.take(entries@.len() as int) =~= entries@);
    let ghost sh = shown@;

    // Order them.
    let mut keys: Vec<Vec<char>> = Vec::new();
    let mut i: usize = 0;
    while i < shown.len()
        invariant
            i <= shown@.len(),
            keys_view(keys@) == entry_keys(shown@).take(i as int),
        decreases shown@.len() - i,
    {
        let key = sort_key(shown[i].display.as_str());
        let kc = chars_of(key.as_str());
        let ghost before = keys_view(keys@);
        keys.push(kc);
        assert(keys_view(keys@) =~= before.push(spec_sort_key(shown@[i as int].display@)));
        i += 1;
        assert(keys_view(keys@) =~= entry_keys(shown@).take(i as int));
    }
    assert(keys_view(keys@) =~= entry_keys(shown@));
    let order = sorted_order(&keys);
    let mut sorted: Vec<EntryInfo> = Vec::new();
    let mut j: usize = 0;
    while j < order.len()
        invariant
            sh == shown@,
            is_sorted_order(entry_keys(sh), order@),
            order@ == spec_sorted_order(entry_keys(sh)),
            j <= order@.len(),
            sorted@ == order@.map_values(|x: usize| sh[x as int]).take(j as int),
            flags.long ==> times_in_range(sh, now),
            flags.long ==> times_in_range(sorted@, now),
        decreases order@.len() - j,
    {
        let x = order[j];
        let ghost before = sorted@;
        sorted.push(copy_entry(&shown[x]));
        assert(sorted@ =~= before.push(sh[x as int]));
        j += 1;
        assert(sorted@ =~= order@.map_values(|x: usize| sh[x as int]).take(j as int));
    }
    assert(sorted@ =~= order@.map_values(|x: usize| sh[x as int]));

    let mut lines: Vec<String> = Vec::new();
    if flags.long {
        let mut total: u64 = 0;
        let mut b: usize = 0;
        proof { lemma_sum_blocks_prefix(sh, 0); }
        assert(sh.take(0) =~= Seq::<EntryInfo>::empty());
        while b < shown.len()
            invariant
                sh == shown@,
                b <= sh.len(),
                total == sum_blocks(sh.take(b as int)),
                sum_blocks(sh) <= u64::MAX,
            decreases sh.len() - b,
        {
            assert(sh.take(b as int + 1).drop_last() =~= sh.take(b as int));
            proof { lemma_sum_blocks_prefix(sh, b as int + 1); }
            total = total + shown[b].blocks;
            b += 1;
        }
        assert(sh.take(sh.len() as int) =~= sh);
        // st_blocks counts 512-byte units; ls reports 1024-byte blocks.
        let mut line = "total ".to_owned();
        push_chars(&mut line, decimal((total / 2) as u128).as_slice());
        lines.push(line);
    }
    let ghost head = strings_view(lines@);
    let mut body = render(&sorted, flags, resolver, now, color);
    let ghost bv = strings_view(body@);
    lines.append(&mut body);
    assert(strings_view(lines@) =~= head + bv);
    lines
}

/// An operand of `ls`, as the file system describes it.
pub enum Operand {
    /// A directory, with its entries or the reason they could not be read.
    Directory(String, Result<Vec<EntryInfo>, String>),
    /// Anything else that exists.
    File(EntryInfo),
    /// An operand that could not be examined, and why.
    Missing(String, String),
}

/// A line for standard output or for standard error.
pub enum Emit {
    Stdout(String),
    Stderr(String),
}

pub enum EmitView {
    Stdout(Seq<char>),
    Stderr(Seq<char>),
}

impl View for Emit {
    type V = EmitView;

    open spec fn view(&self) -> EmitView {
        match self {
            Emit::Stdout(s) => EmitView::Stdout(s@),
            Emit::Stderr(s) => EmitView::Stderr(s@),
        }
    }
}

pub open spec fn emits_view(e: Seq<Emit>) -> Seq<EmitView> {
    e.map_values(|x: Emit| x@)
}

pub open spec fn outs(lines: Seq<Seq<char>>) -> Seq<EmitView> {
    lines.map_values(|l: Seq<char>| EmitView::Stdout(l))
}

pub open spec fn msg_cannot_access(name: Seq<char>, error: Seq<char>) -> Seq<char> {
    "ls: cannot access '"@ + name + "': "@ + error
}

pub open spec fn msg_cannot_open(name: Seq<char>, error: Seq<char>) -> Seq<char> {
    "ls: cannot open directory '"@ + name + "': "@ + error
}

/// The errors for operands that could not be examined, in order.
pub open spec fn missing_errors(ops: Seq<Operand>) -> Seq<EmitView>
    decreases ops.len(),
{
    if ops.len() == 0 {
        seq![]
    } else {
        let front = missing_errors(ops.drop_last());
        match ops.last() {
            Operand::Missing(n, e) => front.push(EmitView::Stderr(msg_cannot_access(n@, e@))),
            _ => front,
        }
    }
}

/// The entries of the file operands, in order.
pub open spec fn file_entries(ops: Seq<Operand>) -> Seq<EntryInfo>
    decreases ops.len(),
{
    if ops.len() == 0 {
        seq![]
    } else {
        let front = file_entries(ops.drop_last());
        match ops.last() {
            Operand::File(e) => front.push(e),
            _ => front,
        }
    }
}

/// The listing of one directory operand: a blank line before every block
/// but the first, a `name:` header when there are several operands, then its
/// lines, or the error that kept it from being read.
pub open spec fn dir_block(name: Seq<char>, listing: Result<Vec<EntryInfo>, String>, first: bool, headers: bool, flags: Flags, users: Map<u32, Seq<char>>, groups: Map<u32, Seq<char>>, now: i64, color: bool) -> Seq<EmitView> {
    let sep = if first { seq![] } else { seq![EmitView::Stdout(seq![])] };
    let head = if headers { seq![EmitView::Stdout(name + seq![':'])] } else { seq![] };
    let body = match listing {
        Ok(es) => outs(spec_list_directory(es@, flags, users, groups, now, color)),
        Err(e) => seq![EmitView::Stderr(msg_cannot_open(name, e@))],
    };
    sep + head + body
}

/// The blocks of the directory operands from `k` on.
pub open spec fn dir_blocks(ops: Seq<Operand>, k: int, first: bool, headers: bool, flags: Flags, users: Map<u32, Seq<char>>, groups: Map<u32, Seq<char>>, now: i64, color: bool) -> Seq<EmitView>
    decreases ops.len() - k,
{
    if k < 0 || k >= ops.len() {
        seq![]
    } else {
        match ops[k] {
            Operand::Directory(n, listing) => dir_block(n@, listing, first, headers, flags, users, groups, now, color)
                + dir_blocks(ops, k + 1, false, headers, flags, users, groups, now, color),
            _ => dir_blocks(ops, k + 1, first, headers, flags, users, groups, now, color),
        }
    }
}

/// What `ls` prints for its operands: errors for those that could not be
/// examined, then the file operands together, then each directory.
pub open spec fn spec_list_operands(ops: Seq<Operand>, flags: Flags, users: Map<u32, Seq<char>>, groups: Map<u32, Seq<char>>, now: i64, color: bool) -> Seq<EmitView> {
    let files = file_entries(ops);
    let file_block = if files.len() > 0 { outs(spec_render(files, flags, users, groups, now, color)) } else { seq![] };
    missing_errors(ops) + file_block + dir_blocks(ops, 0, files.len() == 0, ops.len() > 1, flags, users, groups, now, color)
}

/// The directory operands, in order.
pub open spec fn directory_operands(ops: Seq<Operand>) -> Seq<Operand>
    decreases ops.len(),
{
    if ops.len() == 0 {
        seq![]
    } else {
        (if ops[0] is Directory { seq![ops[0]] } else { seq![] }) + directory_operands(ops.drop_first())
    }
}

/// The blocks of the given directory operands, one after the other; only
/// the first may go without a separating blank line.
pub open spec fn blocks_in_order(dirs: Seq<Operand>, first: bool, headers: bool, flags: Flags, users: Map<u32, Seq<char>>, groups: Map<u32, Seq<char>>, now: i64, color: bool) -> Seq<EmitView>
    decreases dirs.len(),
{
    if dirs.len() == 0 {
        seq![]
    } else {
        match dirs[0] {
            Operand::Directory(n, listing) => dir_block(n@, listing, first, headers, flags, users, groups, now, color)
                + blocks_in_order(dirs.drop_first(), false, headers, flags, users, groups, now, color),
            _ => blocks_in_order(dirs.drop_first(), first, headers, flags, users, groups, now, color),
        }
    }
}

proof fn lemma_dir_blocks_in_order(ops: Seq<Operand>, k: int, first: bool, headers: bool, flags: Flags, users: Map<u32, Seq<char>>, groups: Map<u32, Seq<char>>, now: i64, color: bool)
    requires
        0 <= k <= ops.len(),
    ensures
        dir_blocks(ops, k, first, headers, flags, users, groups, now, color)
            == blocks_in_order(directory_operands(ops.skip(k)), first, headers, flags, users, groups, now, color),
    decreases ops.len() - k,
{
    let rest = ops.skip(k);
    if k < ops.len() {
        assert(rest.drop_first() =~= ops.skip(k + 1));
        assert(rest[0] == ops[k]);
        let d = directory_operands(rest);
        match ops[k] {
            Operand::Directory(n, listing) => {
                lemma_dir_blocks_in_order(ops, k + 1, false, headers, flags, users, groups, now, color);
                assert(d[0] == ops[k]);
                assert(d.drop_first() =~= directory_operands(ops.skip(k + 1)));
            },
            _ => {
                lemma_dir_blocks_in_order(ops, k + 1, first, headers, flags, users, groups, now, color);
                assert(d =~= directory_operands(ops.skip(k + 1)));
            },
        }
    } else {
        assert(rest.len() == 0);
    }
}

/// The layout of `ls` with several operands: first the errors for the
/// operands that could not be examined, in order; then the lines of the
/// other non-directory operands, together; then each directory operand in
/// order, as a block with a blank line before it (unless nothing was printed
/// before it), a `name:` header when there are several operands, and its
/// listing or the error that kept it from being read.
pub proof fn law_list_operands_layout(ops: Seq<Operand>, flags: Flags, users: Map<u32, Seq<char>>, groups: Map<u32, Seq<char>>, now: i64, color: bool)
    ensures
        spec_list_operands(ops, flags, users, groups, now, color) == missing_errors(ops)
            + (if file_entries(ops).len() > 0 {
                outs(spec_render(file_entries(ops), flags, users, groups, now, color))
            } else {
                seq![]
            })
            + blocks_in_order(directory_operands(ops), file_entries(ops).len() == 0, ops.len() > 1, flags, users, groups, now, color),
{
    lemma_dir_blocks_in_order(ops, 0, file_entries(ops).len() == 0, ops.len() > 1, flags, users, groups, now, color);
    assert(ops.skip(0) =~= ops);
}

/// What listing the operands needs: every time can be compared with `now`
/// and every directory's blocks added up without overflow.
pub open spec fn operands_listable(ops: Seq<Operand>, flags: Flags, now: i64) -> bool {
    &&& flags.long ==> times_in_range(file_entries(ops), now)
    &&& forall|k: int| 0 <= k < ops.len() ==> match #[trigger] ops[k] {
        Operand::Directory(_, Ok(es)) => listable(es@, flags, now),
        _ => true,
    }
}

proof fn lemma_file_entries_in_range(ops: Seq<Operand>, k: int, now: i64)
    requires
        0 <= k <= ops.len(),
        times_in_range(file_entries(ops), now),
    ensures
        times_in_range(file_entries(ops.take(k)), now),
    decreases ops.len() - k,
{
    if k < ops.len() {
        lemma_file_entries_in_range(ops, k + 1, now);
        assert(ops.take(k + 1).drop_last() =~= ops.take(k));
        let f = file_entries(ops.take(k));
        let g = file_entries(ops.take(k + 1));
        assert forall|i: int| 0 <= i < f.len() implies time_in_range(#[trigger] f[i], now) by {
            assert(f[i] == g[i]);
        }
    } else {
        assert(ops.take(k) =~= ops);
    }
}

fn emit_lines(out: &mut Vec<Emit>, lines: &Vec<String>)
    ensures
        emits_view(final(out)@) == emits_view(old(out)@) + outs(strings_view(lines@)),
{
    let ghost before = emits_view(out@);
    let mut i: usize = 0;
    assert(outs(strings_view(lines@)).take(0) =~= Seq::<EmitView>::empty());
    assert(before + Seq::<EmitView>::empty() =~= before);
    while i < lines.len()
        invariant
            i <= lines@.len(),
            before == emits_view(old(out)@),
            emits_view(out@) == before + outs(strings_view(lines@)).take(i as int),
        decreases lines@.len() - i,
    {
        let ghost b2 = emits_view(out@);
        let item = lines[i].clone();
        assert(item@ == strings_view(lines@)[i as int]);
        out.push(Emit::Stdout(item));
        assert(emits_view(out@) =~= b2.push(EmitView::Stdout(item@)));
        i += 1;
        assert(emits_view(out@) =~= before + outs(strings_view(lines@)).take(i as int));
    }
    assert(outs(strings_view(lines@)).take(lines@.len() as int) =~= outs(strings_view(lines@)));
}

fn emit_dir_block(
    out: &mut Vec<Emit>,
    name: &String,
    listing: &Result<Vec<EntryInfo>, String>,
    first: bool,
    headers: bool,
    flags: Flags,
    resolver: &NameResolver,
    now: i64,
    color: bool,
)
    requires
        listing matches Ok(es) ==> listable(es@, flags, now),
    ensures
        emits_view(final(out)@) == emits_view(old(out)@) + dir_block(name@, *listing, first, headers, flags, resolver.users(), resolver.groups(), now, color),
{
    let ghost before = emits_view(out@);
    let ghost sep: Seq<EmitView> = if first { seq![] } else { seq![EmitView::Stdout(seq![])] };
    let ghost head: Seq<EmitView> = if headers { seq![EmitView::Stdout(name@ + seq![':'])] } else { seq![] };
    if !first {
        let e = String::new();
        out.push(Emit::Stdout(e));
        assert(emits_view(out@) =~= before + sep);
    } else {
        assert(emits_view(out@) =~= before + sep);
    }
    let ghost b1 = emits_view(out@);
    if headers {
        let mut h = name.clone();
        push_char(&mut h, ':');
        let ghost hv = h@;
        assert(hv =~= name@ + seq![':']);
        out.push(Emit::Stdout(h));
        assert(emits_view(out@) =~= b1.push(EmitView::Stdout(hv)));
        assert(emits_view(out@) =~= before + sep + head);
    } else {
        assert(emits_view(out@) =~= before + sep + head);
    }
    let ghost mid = emits_view(out@);
    match listing {
        Ok(es) => {
            let lines = list_directory(es, flags, resolver, now, color);
            emit_lines(out, &lines);
        },
        Err(e) => {
            let mut m = "ls: cannot open directory '".to_owned();
            m.append(name.as_str());
            m.append("': ");
            m.append(e.as_str());
            let ghost mv = m@;
            out.push(Emit::Stderr(m));
            assert(emits_view(out@) =~= mid.push(EmitView::Stderr(mv)));
        },
    }
    assert(emits_view(out@) =~= before + dir_block(name@, *listing, first, headers, flags, resolver.users(), resolver.groups(), now, color));
}

/// Lists every operand. File operands are grouped and printed first;
/// directory operands are then expanded, each with a header when more than
/// one operand was given.
pub fn list_operands(ops: &Vec<Operand>, flags: Flags, resolver: &NameResolver, now: i64, color: bool) -> (r: Vec<Emit>)
    requires
        operands_listable(ops@, flags, now),
    ensures
        emits_view(r@) == spec_list_operands(ops@, flags, resolver.users(), resolver.groups(), now, color),
{
    let ghost users = resolver.users();
    let ghost groups = resolver.groups();
    let mut out: Vec<Emit> = Vec::new();
    let mut files: Vec<EntryInfo> = Vec::new();
    let mut k: usize = 0;
    assert(ops@.take(0) =~= Seq::<Operand>::empty());
    assert(emits_view(out@) =~= Seq::<EmitView>::empty());
    while k < ops.len()
        invariant
            k <= ops@.len(),
            emits_view(out@) == missing_errors(ops@.take(k as int)),
            files@ == file_entries(ops@.take(k as int)),
        decreases ops@.len() - k,
    {
        assert(ops@.take(k as int + 1).drop_last() =~= ops@.take(k as int));
        assert(ops@.take(k as int + 1).last() == ops@[k as int]);
        match &ops[k] {
            Operand::Missing(name, error) => {
                let mut m = "ls: cannot access '".to_owned();
                m.append(name.as_str());
                m.append("': ");
                m.append(error.as_str());
                let ghost before = emits_view(out@);
                let ghost mv = m@;
                out.push(Emit::Stderr(m));
                assert(emits_view(out@) =~= before.push(EmitView::Stderr(mv)));
            },
            Operand::File(e) => {
                files.push(copy_entry(e));
            },
            Operand::Directory(_, _) => {},
        }
        k += 1;
    }
    assert(ops@.take(ops@.len() as int) =~= ops@);

    if files.len() > 0 {
        let lines = render(&files, flags, resolver, now, color);
        emit_lines(&mut out, &lines);
    } else {
        assert(emits_view(out@) + Seq::<EmitView>::empty() =~= emits_view(out@));
    }

    let headers = ops.len() > 1;
    let mut first = files.len() == 0;
    let mut d: usize = 0;
    assert(emits_view(out@) + dir_blocks(ops@, 0, first, headers, flags, users, groups, now, color) =~= spec_list_operands(ops@, flags, users, groups, now, color));
    while d < ops.len()
        invariant
            d <= ops@.len(),
            users == resolver.users(),
            groups == resolver.groups(),
            headers == (ops@.len() > 1),
            operands_listable(ops@, flags, now),
            emits_view(out@) + dir_blocks(ops@, d as int, first, headers, flags, users, groups, now, color)
                == spec_list_operands(ops@, flags, users, groups, now, color),
        decreases ops@.len() - d,
    {
        let ghost before = emits_view(out@);
        match &ops[d] {
            Operand::Directory(name, listing) => {
                assert(ops@[d as int] == ops[d as int]);
                emit_dir_block(&mut out, name, listing, first, headers, flags, resolver, now, color);
                let ghost rest = dir_blocks(ops@, d + 1, false, headers, flags, users, groups, now, color);
                assert(before + dir_blocks(ops@, d as int, first, headers, flags, users, groups, now, color)
                    =~= emits_view(out@) + rest);
                first = false;
            },
            _ => {},
        }
        d += 1;
    }
    assert(emits_view(out@) + Seq::<EmitView>::empty() =~= emits_view(out@));
    out
}


/// Whether the time of `e` can be compared with `now`.
fn time_fits(e: &EntryInfo, now: i64) -> (b: bool)
    ensures
        b == time_in_range(*e, now),
{
    let d: i128 = now as i128 - e.mtime as i128;
    let lo: i128 = i64::MIN as i128;
    let hi: i128 = i64::MAX as i128;
    lo < d && d <= hi
}

proof fn lemma_shown_blocks_prefix(es: Seq<EntryInfo>, all: bool, k: int)
    requires
        0 <= k <= es.len(),
    ensures
        sum_blocks(shown_entries(es.take(k), all)) <= sum_blocks(shown_entries(es, all)),
    decreases es.len(),
{
    if k == es.len() {
        assert(es.take(k) =~= es);
    } else {
        lemma_shown_blocks_prefix(es.drop_last(), all, k);
        assert(es.drop_last().take(k) =~= es.take(k));
        let front = shown_entries(es.drop_last(), all);
        assert(front.push(es.last()).drop_last() =~= front);
    }
}

/// Whether a directory with these entries can be listed with these options.
fn entries_fit(es: &Vec<EntryInfo>, flags: Flags, now: i64) -> (b: bool)
    ensures
        b == listable(es@, flags, now),
{
    if !flags.long {
        return true;
    }
    let mut total: u64 = 0;
    let mut k: usize = 0;
    while k < es.len()
        invariant
            k <= es@.len(),
            flags.long,
            times_in_range(es@.take(k as int), now),
            total == sum_blocks(shown_entries(es@.take(k as int), flags.all)),
        decreases es@.len() - k,
    {
        let e = &es[k];
        assert(es@.take(k as int + 1).drop_last() =~= es@.take(k as int));
        assert(es@.take(k as int + 1).last() == es@[k as int]);
        if !time_fits(e, now) {
            assert(!times_in_range(es@, now)) by {
                assert(es@[k as int] == *e);
            }
            return false;
        }
        let ghost front = shown_entries(es@.take(k as int), flags.all);
        assert(front.push(*e).drop_last() =~= front);
        if flags.all || !is_dot_first(&e.display) {
            if e.blocks > u64::MAX - total {
                proof {
                    lemma_shown_blocks_prefix(es@, flags.all, k as int + 1);
                }
                return false;
            }
            total = total + e.blocks;
        }
        k += 1;
        assert forall|i: int| 0 <= i < es@.take(k as int).len() implies time_in_range(
            #[trigger] es@.take(k as int)[i],
            now,
        ) by {
            if i < k - 1 {
                assert(es@.take(k as int)[i] == es@.take(k as int - 1)[i]);
            }
        }
    }
    assert(es@.take(k as int) =~= es@);
    true
}

/// Whether a name starts with a dot.
fn is_dot_first(name: &String) -> (b: bool)
    ensures
        b == (name@.len() > 0 && name@[0] == '.'),
{
    let c = chars_of(name.as_str());
    c.len() > 0 && c[0] == '.'
}

/// Whether `ls` can list these operands with these options: every time can
/// be compared with `now` and every directory's blocks added up.
pub fn can_list(ops: &Vec<Operand>, flags: Flags, now: i64) -> (b: bool)
    ensures
        b == operands_listable(ops@, flags, now),
{
    let mut k: usize = 0;
    while k < ops.len()
        invariant
            k <= ops@.len(),
            flags.long ==> times_in_range(file_entries(ops@.take(k as int)), now),
            forall|j: int| 0 <= j < k ==> match #[trigger] ops@[j] {
                Operand::Directory(_, Ok(es)) => listable(es@, flags, now),
                _ => true,
            },
        decreases ops@.len() - k,
    {
        assert(ops@.take(k as int + 1).drop_last() =~= ops@.take(k as int));
        assert(ops@.take(k as int + 1).last() == ops@[k as int]);
        match &ops[k] {
            Operand::Directory(_, Ok(es)) => {
                if !entries_fit(es, flags, now) {
                    return false;
                }
            },
            Operand::File(e) => {
                if flags.long && !time_fits(e, now) {
                    proof {
                        lemma_file_entries_prefix(ops@, k as int + 1);
                        let fe = file_entries(ops@.take(k as int + 1));
                        assert(fe.last() == *e);
                        assert(file_entries(ops@)[fe.len() - 1] == *e);
                    }
                    return false;
                }
            },
            _ => {},
        }
        k += 1;
    }
    assert(ops@.take(k as int) =~= ops@);
    true
}

proof fn lemma_file_entries_prefix(ops: Seq<Operand>, k: int)
    requires
        0 <= k <= ops.len(),
    ensures
        file_entries(ops.take(k)).len() <= file_entries(ops).len(),
        forall|i: int| 0 <= i < file_entries(ops.take(k)).len() ==> #[trigger] file_entries(ops.take(k))[i]
            == file_entries(ops)[i],
    decreases ops.len(),
{
    if k == ops.len() {
        assert(ops.take(k) =~= ops);
    } else {
        lemma_file_entries_prefix(ops.drop_last(), k);
        assert(ops.drop_last().take(k) =~= ops.take(k));
    }
}

/// Lists the operands when they can be listed (see `can_list`), and gives
/// `None` otherwise.
pub fn try_list_operands(ops: &Vec<Operand>, flags: Flags, resolver: &NameResolver, now: i64, color: bool) -> (r: Option<Vec<Emit>>)
    ensures
        match r {
            Some(v) => operands_listable(ops@, flags, now) && emits_view(v@) == spec_list_operands(
                ops@,
                flags,
                resolver.users(),
                resolver.groups(),
                now,
                color,
            ),
            None => !operands_listable(ops@, flags, now),
        },
{
    if can_list(ops, flags, now) {
        Some(list_operands(ops, flags, resolver, now, color))
    } else {
        None
    }
}

} // verus!
