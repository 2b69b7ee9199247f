//! Conversions between strings and character vectors, and small text helpers.

use vstd::prelude::*;
use vstd::string::StringExecFns;

verus! {

/// Appends one character to a string.
///
/// Calls `String::push`, which adds the character at the end of the string.
#[verifier::external_body]
pub(crate) fn push_char(s: &mut String, c: char)
    ensures
        final(s)@ == old(s)@.push(c),
{
    s.push(c);
}

/// Whether `c` has the Unicode `White_Space` property: the ASCII controls
/// tab through carriage return, the space, NEL, NO-BREAK SPACE, OGHAM SPACE
/// MARK, the spaces U+2000 to U+200A, the line and paragraph separators,
/// NARROW NO-BREAK SPACE, MEDIUM MATHEMATICAL SPACE and IDEOGRAPHIC SPACE.
pub open spec fn spec_is_whitespace(c: char) -> bool {
    ||| ('\u{9}' <= c && c <= '\u{d}')
    ||| c == ' '
    ||| c == '\u{85}'
    ||| c == '\u{a0}'
    ||| c == '\u{1680}'
    ||| ('\u{2000}' <= c && c <= '\u{200a}')
    ||| c == '\u{2028}'
    ||| c == '\u{2029}'
    ||| c == '\u{202f}'
    ||| c == '\u{205f}'
    ||| c == '\u{3000}'
}

/// Tests a character for white space, as `char::is_whitespace` does.
pub fn is_whitespace(c: char) -> (b: bool)
    ensures
        b == spec_is_whitespace(c),
{
    ('\u{9}' <= c && c <= '\u{d}') || c == ' ' || c == '\u{85}' || c == '\u{a0}' || c == '\u{1680}'
        || ('\u{2000}' <= c && c <= '\u{200a}') || c == '\u{2028}' || c == '\u{2029}'
        || c == '\u{202f}' || c == '\u{205f}' || c == '\u{3000}'
}

/// The characters of a string slice, in order.
pub fn chars_of(s: &str) -> (r: Vec<char>)
    ensures
        r@ == s@,
{
    let mut out: Vec<char> = Vec::new();
    for c in it: s.chars()
        invariant
            out@ == it.seq().take(it.index() as int),
    {
        out.push(c);
    }
    out
}

/// The string made of the given characters.
pub fn string_of(v: &[char]) -> (r: String)
    ensures
        r@ == v@,
{
    let mut s = String::new();
    let mut i: usize = 0;
    while i < v.len()
        invariant
            i <= v.len(),
            s@ == v@.take(i as int),
        decreases v.len() - i,
    {
        push_char(&mut s, v[i]);
        assert(v@.take(i as int).push(v@[i as int]) == v@.take(i as int + 1));
        i += 1;
    }
    assert(v@.take(v.len() as int) == v@);
    s
}


/// The first index at or after `i` whose character is not white space, or
/// `s.len()`.
pub open spec fn skip_space(s: Seq<char>, i: int) -> int
    decreases s.len() - i,
{
    if i < 0 || i >= s.len() {
        if i < 0 { 0 } else { s.len() as int }
    } else if spec_is_whitespace(s[i]) {
        skip_space(s, i + 1)
    } else {
        i
    }
}

/// The end of `s.take(j)` once its trailing white space is dropped.
pub open spec fn back_space(s: Seq<char>, j: int) -> int
    decreases j,
{
    if j <= 0 || j > s.len() {
        if j <= 0 { 0 } else { s.len() as int }
    } else if spec_is_whitespace(s[j - 1]) {
        back_space(s, j - 1)
    } else {
        j
    }
}

/// `s` without its leading and trailing white space.
pub open spec fn trimmed(s: Seq<char>) -> Seq<char> {
    let a = skip_space(s, 0);
    let b = back_space(s, s.len() as int);
    if b <= a {
        seq![]
    } else {
        s.subrange(a, b)
    }
}

pub proof fn lemma_skip_space_bounds(s: Seq<char>, i: int)
    requires
        0 <= i <= s.len(),
    ensures
        i <= skip_space(s, i) <= s.len(),
        skip_space(s, i) < s.len() ==> !spec_is_whitespace(s[skip_space(s, i)]),
        forall|k: int| i <= k < skip_space(s, i) ==> spec_is_whitespace(s[k]),
    decreases s.len() - i,
{
    if i < s.len() && spec_is_whitespace(s[i]) {
        lemma_skip_space_bounds(s, i + 1);
    }
}

pub proof fn lemma_back_space_bounds(s: Seq<char>, j: int)
    requires
        0 <= j <= s.len(),
    ensures
        0 <= back_space(s, j) <= j,
        back_space(s, j) > 0 ==> !spec_is_whitespace(s[back_space(s, j) - 1]),
        forall|k: int| back_space(s, j) <= k < j ==> spec_is_whitespace(s[k]),
    decreases j,
{
    if j > 0 && spec_is_whitespace(s[j - 1]) {
        lemma_back_space_bounds(s, j - 1);
    }
}

/// Trimming twice trims no more than once.
pub proof fn lemma_trimmed_idempotent(s: Seq<char>)
    ensures
        trimmed(trimmed(s)) == trimmed(s),
{
    let a = skip_space(s, 0);
    let b = back_space(s, s.len() as int);
    lemma_skip_space_bounds(s, 0);
    lemma_back_space_bounds(s, s.len() as int);
    let t = trimmed(s);
    if b <= a {
        assert(t.len() == 0);
        assert(trimmed(t) =~= t);
    } else {
        assert(t[0] == s[a]);
        assert(t[t.len() - 1] == s[b - 1]);
        assert(skip_space(t, 0) == 0);
        assert(back_space(t, t.len() as int) == t.len());
        assert(trimmed(t) =~= t);
    }
}

/// Drops leading and trailing white space, as `str::trim` does.
pub fn trim(s: &[char]) -> (r: Vec<char>)
    ensures
        r@ == trimmed(s@),
{
    let n = s.len();
    let mut a: usize = 0;
    while a < n && is_whitespace(s[a])
        invariant
            n == s@.len(),
            a <= n,
            skip_space(s@, 0) == skip_space(s@, a as int),
        decreases n - a,
    {
        a += 1;
    }
    let mut b: usize = n;
    while b > 0 && is_whitespace(s[b - 1])
        invariant
            n == s@.len(),
            b <= n,
            back_space(s@, n as int) == back_space(s@, b as int),
        decreases b,
    {
        b -= 1;
    }
    let mut r: Vec<char> = Vec::new();
    if a < b {
        let mut k: usize = a;
        while k < b
            invariant
                a <= k <= b,
                b <= s@.len(),
                r@ == s@.subrange(a as int, k as int),
            decreases b - k,
        {
            r.push(s[k]);
            k += 1;
            assert(r@ =~= s@.subrange(a as int, k as int));
        }
    }
    assert(r@ =~= trimmed(s@));
    r
}

/// `l` without one trailing carriage return.
pub open spec fn strip_cr(l: Seq<char>) -> Seq<char> {
    if l.len() > 0 && l.last() == '\r' {
        l.drop_last()
    } else {
        l
    }
}

/// The first index at or after `i` holding a newline, or `s.len()`.
pub open spec fn next_newline(s: Seq<char>, i: int) -> int
    decreases s.len() - i,
{
    if i < 0 || i >= s.len() {
        if i < 0 { 0 } else { s.len() as int }
    } else if s[i] == '\n' {
        i
    } else {
        next_newline(s, i + 1)
    }
}

/// The lines of `s` from index `i` on, as `str::lines` gives them: split at
/// each `\n`, a `\r` just before the `\n` dropped, and no empty line after a
/// final `\n`.
pub open spec fn lines_from(s: Seq<char>, i: int) -> Seq<Seq<char>>
    decreases s.len() - i,
{
    if i < 0 || i >= s.len() {
        seq![]
    } else {
        let k = next_newline(s, i);
        proof { lemma_next_newline_bounds(s, i); }
        if k >= s.len() {
            seq![s.subrange(i, s.len() as int)]
        } else {
            seq![strip_cr(s.subrange(i, k))] + lines_from(s, k + 1)
        }
    }
}

/// The lines of `s`.
pub open spec fn lines(s: Seq<char>) -> Seq<Seq<char>> {
    lines_from(s, 0)
}

pub proof fn lemma_next_newline_bounds(s: Seq<char>, i: int)
    requires
        0 <= i <= s.len(),
    ensures
        i <= next_newline(s, i) <= s.len(),
        next_newline(s, i) < s.len() ==> s[next_newline(s, i)] == '\n',
        forall|k: int| i <= k < next_newline(s, i) ==> s[k] != '\n',
    decreases s.len() - i,
{
    if i < s.len() && s[i] != '\n' {
        lemma_next_newline_bounds(s, i + 1);
    }
}

pub open spec fn strings_view(v: Seq<String>) -> Seq<Seq<char>> {
    v.map_values(|x: String| x@)
}

/// A copy of a list of strings.
pub fn copy_strings(v: &[String]) -> (r: Vec<String>)
    ensures
        strings_view(r@) == strings_view(v@),
{
    let mut r: Vec<String> = Vec::new();
    let mut k: usize = 0;
    while k < v.len()
        invariant
            k <= v@.len(),
            r.len() == k,
            forall|j: int| 0 <= j < k ==> #[trigger] r@[j]@ == v@[j]@,
        decreases v@.len() - k,
    {
        r.push(v[k].clone());
        k += 1;
    }
    assert(strings_view(r@) =~= strings_view(v@));
    r
}

/// Splits text into its lines, as `str::lines` does.
pub fn split_lines(s: &str) -> (r: Vec<String>)
    ensures
        strings_view(r@) == lines(s@),
{
    let chars = chars_of(s);
    let n = chars.len();
    let mut out: Vec<String> = Vec::new();
    let mut i: usize = 0;
    assert(strings_view(out@) =~= Seq::<Seq<char>>::empty());
    assert(Seq::<Seq<char>>::empty() + lines_from(chars@, 0) =~= lines_from(chars@, 0));
    while i < n
        invariant
            n == chars@.len(),
            chars@ == s@,
            i <= n,
            lines(s@) == strings_view(out@) + lines_from(chars@, i as int),
        decreases n - i,
    {
        let mut line: Vec<char> = Vec::new();
        let mut k: usize = i;
        while k < n && chars[k] != '\n'
            invariant
                n == chars@.len(),
                i <= k <= n,
                line@ == chars@.subrange(i as int, k as int),
                next_newline(chars@, i as int) == next_newline(chars@, k as int),
            decreases n - k,
        {
            line.push(chars[k]);
            k += 1;
            assert(line@ =~= chars@.subrange(i as int, k as int));
        }
        let ghost before = strings_view(out@);
        if k < n {
            if line.len() > 0 && line[line.len() - 1] == '\r' {
                line.pop();
            }
            let l = string_of(line.as_slice());
            out.push(l);
            assert(strings_view(out@) =~= before.push(strip_cr(chars@.subrange(i as int, k as int))));
            assert(before + lines_from(chars@, i as int) =~= strings_view(out@) + lines_from(chars@, k as int + 1));
            i = k + 1;
        } else {
            let l = string_of(line.as_slice());
            out.push(l);
            assert(strings_view(out@) =~= before.push(chars@.subrange(i as int, n as int)));
            assert(before + lines_from(chars@, i as int) =~= strings_view(out@) + lines_from(chars@, n as int));
            i = n;
        }
    }
    assert(strings_view(out@) + lines_from(chars@, n as int) =~= strings_view(out@));
    out
}

/// The items joined with `sep` between each two.
pub open spec fn joined(items: Seq<Seq<char>>, sep: Seq<char>) -> Seq<char>
    decreases items.len(),
{
    if items.len() == 0 {
        seq![]
    } else if items.len() == 1 {
        items[0]
    } else {
        joined(items.drop_last(), sep) + sep + items.last()
    }
}

/// Joins strings with a separator, as `[String]::join` does.
pub fn join(items: &[String], sep: &str) -> (r: String)
    ensures
        r@ == joined(strings_view(items@), sep@),
{
    let mut r = String::new();
    let mut k: usize = 0;
    while k < items.len()
        invariant
            k <= items@.len(),
            r@ == joined(strings_view(items@).take(k as int), sep@),
        decreases items@.len() - k,
    {
        let ghost t = strings_view(items@).take(k as int + 1);
        assert(t.drop_last() =~= strings_view(items@).take(k as int));
        if k > 0 {
            r.append(sep);
        }
        r.append(items[k].as_str());
        k += 1;
        assert(r@ =~= joined(strings_view(items@).take(k as int), sep@));
    }
    assert(strings_view(items@).take(items@.len() as int) =~= strings_view(items@));
    r
}

/// `s` from `i` on and `u` from `j` on are the same sequence.
pub open spec fn same_from<A>(s: Seq<A>, i: int, u: Seq<A>, j: int) -> bool {
    &&& 0 <= i <= s.len()
    &&& 0 <= j <= u.len()
    &&& s.len() - i == u.len() - j
    &&& forall|d: int| 0 <= d < s.len() - i ==> #[trigger] s[i + d] == u[j + d]
}

pub proof fn lemma_same_from_step<A>(s: Seq<A>, i: int, u: Seq<A>, j: int, m: int)
    requires
        same_from(s, i, u, j),
        0 <= m <= s.len() - i,
    ensures
        same_from(s, i + m, u, j + m),
        m < s.len() - i ==> s[i + m] == u[j + m],
{
    assert forall|d: int| 0 <= d < s.len() - (i + m) implies #[trigger] s[(i + m) + d] == u[(j + m) + d] by {
        assert(s[i + (m + d)] == u[j + (m + d)]);
        assert(i + (m + d) == (i + m) + d);
        assert(j + (m + d) == (j + m) + d);
    }
    if m < s.len() - i {
        assert(s[i + m] == u[j + m]);
    }
}

pub proof fn lemma_same_from_subrange<A>(s: Seq<A>, i: int, u: Seq<A>, j: int, a: int, b: int)
    requires
        same_from(s, i, u, j),
        i <= a <= b <= s.len(),
    ensures
        s.subrange(a, b) == u.subrange(a - i + j, b - i + j),
{
    assert forall|e: int| 0 <= e < b - a implies #[trigger] s.subrange(a, b)[e] == u.subrange(a - i + j, b - i + j)[e] by {
        assert(s[i + (a - i + e)] == u[j + (a - i + e)]);
        assert(i + (a - i + e) == a + e);
        assert(j + (a - i + e) == a - i + j + e);
    }
    assert(s.subrange(a, b) =~= u.subrange(a - i + j, b - i + j));
}


pub proof fn lemma_next_newline_is(s: Seq<char>, a: int, k: int)
    requires
        0 <= a <= k <= s.len(),
        forall|j: int| a <= j < k ==> s[j] != '\n',
        k == s.len() || s[k] == '\n',
    ensures
        next_newline(s, a) == k,
    decreases k - a,
{
    if a < k {
        lemma_next_newline_is(s, a + 1, k);
    }
}

pub proof fn lemma_next_newline_suffix(s: Seq<char>, i: int, u: Seq<char>, j: int)
    requires
        same_from(s, i, u, j),
    ensures
        next_newline(s, i) - i == next_newline(u, j) - j,
    decreases s.len() - i,
{
    if i < s.len() {
        lemma_same_from_step(s, i, u, j, 0);
        lemma_same_from_step(s, i, u, j, 1);
        if s[i] != '\n' {
            lemma_next_newline_suffix(s, i + 1, u, j + 1);
        }
    }
}

/// The lines from an index on depend only on the text from there on.
pub proof fn lemma_lines_from_suffix(s: Seq<char>, i: int, u: Seq<char>, j: int)
    requires
        same_from(s, i, u, j),
    ensures
        lines_from(s, i) == lines_from(u, j),
    decreases s.len() - i,
{
    if i < s.len() {
        lemma_next_newline_suffix(s, i, u, j);
        lemma_next_newline_bounds(s, i);
        let k = next_newline(s, i);
        lemma_same_from_subrange(s, i, u, j, i, k);
        if k < s.len() {
            lemma_same_from_step(s, i, u, j, k + 1 - i);
            lemma_lines_from_suffix(s, k + 1, u, k + 1 - i + j);
        } else {
            lemma_same_from_subrange(s, i, u, j, i, s.len() as int);
        }
    }
}

pub proof fn lemma_joined_front(x: Seq<char>, e: Seq<Seq<char>>, sep: Seq<char>)
    requires
        e.len() > 0,
    ensures
        joined(seq![x] + e, sep) == x + sep + joined(e, sep),
    decreases e.len(),
{
    let xe = seq![x] + e;
    if e.len() == 1 {
        assert(xe.drop_last() =~= seq![x]);
        assert(xe.last() == e[0]);
        assert(joined(seq![x], sep) == x);
        assert(joined(xe, sep) == joined(xe.drop_last(), sep) + sep + xe.last());
        assert(joined(e, sep) == e[0]);
    } else {
        assert(xe.drop_last() =~= seq![x] + e.drop_last());
        lemma_joined_front(x, e.drop_last(), sep);
        assert(xe.last() == e.last());
        assert(joined(xe, sep) == joined(xe.drop_last(), sep) + sep + xe.last());
        assert(joined(e, sep) == joined(e.drop_last(), sep) + sep + e.last());
        assert(x + sep + joined(e.drop_last(), sep) + sep + e.last() =~= x + sep + (joined(e.drop_last(), sep) + sep + e.last()));
    }
}

/// Joining puts `sep` exactly between neighbouring items: nothing for no
/// items, the item itself for one, and joining two non-empty lists one
/// after the other is joining each, with `sep` between.
pub proof fn law_joined_between_items(a: Seq<Seq<char>>, b: Seq<Seq<char>>, x: Seq<char>, sep: Seq<char>)
    ensures
        joined(Seq::<Seq<char>>::empty(), sep) == Seq::<char>::empty(),
        joined(seq![x], sep) == x,
        a.len() > 0 && b.len() > 0 ==> joined(a + b, sep) == joined(a, sep) + sep + joined(b, sep),
    decreases b.len(),
{
    if a.len() > 0 && b.len() > 0 {
        if b.len() == 1 {
            assert((a + b).drop_last() =~= a);
            assert((a + b).last() == b[0]);
        } else {
            law_joined_between_items(a, b.drop_last(), x, sep);
            assert((a + b).drop_last() =~= a + b.drop_last());
            assert((a + b).last() == b.last());
            assert(joined(a, sep) + sep + joined(b.drop_last(), sep) + sep + b.last() =~= joined(a, sep) + sep
                + (joined(b.drop_last(), sep) + sep + b.last()));
        }
    }
}

// ---------------------------------------------------------------------------
// Numbers as text
// ---------------------------------------------------------------------------

/// The decimal digit for `d`, which is below ten.
pub open spec fn digit_char(d: int) -> char {
    if d == 0 { '0' } else if d == 1 { '1' } else if d == 2 { '2' } else if d == 3 { '3' }
    else if d == 4 { '4' } else if d == 5 { '5' } else if d == 6 { '6' } else if d == 7 { '7' }
    else if d == 8 { '8' } else { '9' }
}

/// The decimal numeral for `n`, without leading zeros.
pub open spec fn spec_decimal(n: nat) -> Seq<char>
    decreases n,
{
    if n < 10 {
        seq![digit_char(n as int)]
    } else {
        spec_decimal(n / 10).push(digit_char((n % 10) as int))
    }
}

/// The decimal numeral for `i`, with a `-` in front when it is negative.
pub open spec fn spec_signed_decimal(i: int) -> Seq<char> {
    if i < 0 {
        seq!['-'] + spec_decimal((-i) as nat)
    } else {
        spec_decimal(i as nat)
    }
}

fn digit(d: u128) -> (c: char)
    requires
        d < 10,
    ensures
        c == digit_char(d as int),
{
    if d == 0 { '0' } else if d == 1 { '1' } else if d == 2 { '2' } else if d == 3 { '3' }
    else if d == 4 { '4' } else if d == 5 { '5' } else if d == 6 { '6' } else if d == 7 { '7' }
    else if d == 8 { '8' } else { '9' }
}

/// The decimal numeral for `n`, as `to_string` writes an unsigned number.
pub fn decimal(n: u128) -> (r: Vec<char>)
    ensures
        r@ == spec_decimal(n as nat),
    decreases n,
{
    if n < 10 {
        let mut v: Vec<char> = Vec::new();
        v.push(digit(n));
        assert(v@ =~= seq![digit_char(n as int)]);
        v
    } else {
        let mut v = decimal(n / 10);
        v.push(digit(n % 10));
        v
    }
}

/// The decimal numeral for `i`, as `i64::to_string` writes it.
pub fn signed_decimal(i: i64) -> (r: Vec<char>)
    ensures
        r@ == spec_signed_decimal(i as int),
{
    if i < 0 {
        let magnitude: u64 = ((-(i + 1)) as u64) + 1;
        let mut r: Vec<char> = Vec::new();
        r.push('-');
        let mut d = decimal(magnitude as u128);
        r.append(&mut d);
        assert(r@ =~= seq!['-'] + spec_decimal((-i) as nat));
        r
    } else {
        decimal(i as u128)
    }
}

/// `s` with `c` added in front until it is `width` long.
pub open spec fn pad_left(s: Seq<char>, width: nat, c: char) -> Seq<char> {
    if s.len() >= width {
        s
    } else {
        Seq::new((width - s.len()) as nat, |k: int| c) + s
    }
}

/// `s` with `c` added at the end until it is `width` long.
pub open spec fn pad_right(s: Seq<char>, width: nat, c: char) -> Seq<char> {
    if s.len() >= width {
        s
    } else {
        s + Seq::new((width - s.len()) as nat, |k: int| c)
    }
}

/// Pads on the left, as the `{:>width$}` format does.
pub fn pad_left_exec(s: &[char], width: usize, c: char) -> (r: Vec<char>)
    ensures
        r@ == pad_left(s@, width as nat, c),
{
    let mut r: Vec<char> = Vec::new();
    if s.len() < width {
        let fill = width - s.len();
        let mut k: usize = 0;
        while k < fill
            invariant
                k <= fill,
                r@ == Seq::new(k as nat, |j: int| c),
            decreases fill - k,
        {
            r.push(c);
            k += 1;
            assert(r@ =~= Seq::new(k as nat, |j: int| c));
        }
    }
    let ghost front = r@;
    let mut k: usize = 0;
    while k < s.len()
        invariant
            k <= s@.len(),
            r@ == front + s@.take(k as int),
        decreases s@.len() - k,
    {
        r.push(s[k]);
        k += 1;
        assert(r@ =~= front + s@.take(k as int));
    }
    assert(s@.take(s@.len() as int) =~= s@);
    assert(r@ =~= pad_left(s@, width as nat, c));
    r
}

/// Pads on the right, as the `{:<width$}` format does.
pub fn pad_right_exec(s: &[char], width: usize, c: char) -> (r: Vec<char>)
    ensures
        r@ == pad_right(s@, width as nat, c),
{
    let mut r: Vec<char> = Vec::new();
    let mut k: usize = 0;
    while k < s.len()
        invariant
            k <= s@.len(),
            r@ == s@.take(k as int),
        decreases s@.len() - k,
    {
        r.push(s[k]);
        k += 1;
        assert(r@ =~= s@.take(k as int));
    }
    assert(s@.take(s@.len() as int) =~= s@);
    if s.len() < width {
        let fill = width - s.len();
        let mut k: usize = 0;
        while k < fill
            invariant
                k <= fill,
                r@ == s@ + Seq::new(k as nat, |j: int| c),
            decreases fill - k,
        {
            r.push(c);
            k += 1;
            assert(r@ =~= s@ + Seq::new(k as nat, |j: int| c));
        }
    }
    assert(r@ =~= pad_right(s@, width as nat, c));
    r
}

/// The length of `s` in UTF-8 bytes, which is what `str::len` counts.
pub open spec fn byte_len(s: Seq<char>) -> nat {
    vstd::utf8::encode_utf8(s).len()
}

/// The UTF-8 length of a string.
pub fn byte_len_exec(s: &String) -> (n: usize)
    ensures
        n == byte_len(s@) as usize,
{
    s.as_str().len()
}

/// Appends characters to a string.
pub fn push_chars(s: &mut String, v: &[char])
    ensures
        final(s)@ == old(s)@ + v@,
{
    let mut k: usize = 0;
    while k < v.len()
        invariant
            k <= v@.len(),
            s@ == old(s)@ + v@.take(k as int),
        decreases v@.len() - k,
    {
        push_char(s, v[k]);
        k += 1;
        assert(s@ =~= old(s)@ + v@.take(k as int));
    }
    assert(v@.take(v@.len() as int) =~= v@);
}

// ---------------------------------------------------------------------------
// Splitting and matching
// ---------------------------------------------------------------------------

/// The first index at or after `i` that holds `c`, or `s.len()`.
pub open spec fn next_char(s: Seq<char>, i: int, c: char) -> int
    decreases s.len() - i,
{
    if i < 0 || i >= s.len() {
        if i < 0 { 0 } else { s.len() as int }
    } else if s[i] == c {
        i
    } else {
        next_char(s, i + 1, c)
    }
}

pub proof fn lemma_next_char_bounds(s: Seq<char>, i: int, c: char)
    requires
        0 <= i <= s.len(),
    ensures
        i <= next_char(s, i, c) <= s.len(),
        next_char(s, i, c) < s.len() ==> s[next_char(s, i, c)] == c,
        forall|k: int| i <= k < next_char(s, i, c) ==> s[k] != c,
    decreases s.len() - i,
{
    if i < s.len() && s[i] != c {
        lemma_next_char_bounds(s, i + 1, c);
    }
}

pub proof fn lemma_next_char_is(s: Seq<char>, a: int, k: int, c: char)
    requires
        0 <= a <= k <= s.len(),
        forall|j: int| a <= j < k ==> s[j] != c,
        k == s.len() || s[k] == c,
    ensures
        next_char(s, a, c) == k,
    decreases k - a,
{
    if a < k {
        lemma_next_char_is(s, a + 1, k, c);
    }
}

/// The pieces of `s` from `i` on, split at each `c`, as `str::split` gives
/// them (an empty piece on each side of a separator at either end).
pub open spec fn split_from(s: Seq<char>, i: int, c: char) -> Seq<Seq<char>>
    decreases s.len() - i,
{
    if i < 0 || i > s.len() {
        seq![]
    } else {
        let k = next_char(s, i, c);
        proof { lemma_next_char_bounds(s, i, c); }
        if k >= s.len() {
            seq![s.subrange(i, s.len() as int)]
        } else {
            seq![s.subrange(i, k)] + split_from(s, k + 1, c)
        }
    }
}

/// The pieces of `s` split at each `c`.
pub open spec fn split_char(s: Seq<char>, c: char) -> Seq<Seq<char>> {
    split_from(s, 0, c)
}

/// Splits text at each occurrence of a character, as `str::split` does.
pub fn split_at_char(s: &[char], c: char) -> (r: Vec<Vec<char>>)
    ensures
        r@.map_values(|p: Vec<char>| p@) == split_char(s@, c),
{
    let n = s.len();
    let mut out: Vec<Vec<char>> = Vec::new();
    let mut i: usize = 0;
    assert(out@.map_values(|p: Vec<char>| p@) + split_from(s@, 0, c) =~= split_from(s@, 0, c));
    loop
        invariant
            n == s@.len(),
            i <= n,
            split_char(s@, c) == out@.map_values(|p: Vec<char>| p@) + split_from(s@, i as int, c),
        decreases n - i,
    {
        let mut piece: Vec<char> = Vec::new();
        let mut k: usize = i;
        while k < n && s[k] != c
            invariant
                n == s@.len(),
                i <= k <= n,
                piece@ == s@.subrange(i as int, k as int),
                next_char(s@, i as int, c) == next_char(s@, k as int, c),
            decreases n - k,
        {
            piece.push(s[k]);
            k += 1;
            assert(piece@ =~= s@.subrange(i as int, k as int));
        }
        let ghost before = out@.map_values(|p: Vec<char>| p@);
        let ghost pv = piece@;
        out.push(piece);
        assert(out@.map_values(|p: Vec<char>| p@) =~= before.push(pv));
        if k >= n {
            assert(split_from(s@, i as int, c) == seq![pv]);
            assert(out@.map_values(|p: Vec<char>| p@) =~= before + split_from(s@, i as int, c));
            return out;
        }
        assert(before + split_from(s@, i as int, c) =~= out@.map_values(|p: Vec<char>| p@) + split_from(s@, k as int + 1, c));
        i = k + 1;
    }
}

/// Whether `s` begins with `p`.
pub open spec fn starts_with(s: Seq<char>, p: Seq<char>) -> bool {
    p.len() <= s.len() && s.subrange(0, p.len() as int) == p
}

/// Tests whether a text begins with a prefix, as `str::starts_with` does.
pub fn starts_with_exec(s: &[char], p: &[char]) -> (b: bool)
    ensures
        b == starts_with(s@, p@),
{
    if p.len() > s.len() {
        return false;
    }
    let mut k: usize = 0;
    while k < p.len()
        invariant
            p@.len() <= s@.len(),
            k <= p@.len(),
            forall|j: int| 0 <= j < k ==> s@[j] == p@[j],
        decreases p@.len() - k,
    {
        if s[k] != p[k] {
            assert(s@.subrange(0, p@.len() as int)[k as int] != p@[k as int]);
            return false;
        }
        k += 1;
    }
    assert(s@.subrange(0, p@.len() as int) =~= p@);
    true
}

// ---------------------------------------------------------------------------
// Parsing numbers
// ---------------------------------------------------------------------------

/// The value of a string of decimal digits.
pub open spec fn digits_value(s: Seq<char>) -> nat
    decreases s.len(),
{
    if s.len() == 0 {
        0
    } else {
        digits_value(s.drop_last()) * 10 + ((s.last() as int) - ('0' as int)) as nat
    }
}

pub open spec fn all_digits(s: Seq<char>) -> bool {
    forall|k: int| 0 <= k < s.len() ==> '0' <= #[trigger] s[k] && s[k] <= '9'
}

/// The digits of an unsigned numeral: the text without one leading `+`.
pub open spec fn unsigned_digits(s: Seq<char>) -> Seq<char> {
    if s.len() > 0 && s[0] == '+' {
        s.drop_first()
    } else {
        s
    }
}

/// What `u32::from_str` gives: the value of an optional `+` followed by at
/// least one decimal digit, when it fits in a `u32`; `None` otherwise.
pub open spec fn spec_parse_u32(s: Seq<char>) -> Option<u32> {
    let d = unsigned_digits(s);
    if d.len() > 0 && all_digits(d) && digits_value(d) <= u32::MAX {
        Some(digits_value(d) as u32)
    } else {
        None
    }
}

proof fn lemma_digits_value_monotone(s: Seq<char>, k: int)
    requires
        0 <= k <= s.len(),
        all_digits(s),
    ensures
        digits_value(s.take(k)) <= digits_value(s),
    decreases s.len() - k,
{
    if k < s.len() {
        lemma_digits_value_monotone(s, k + 1);
        assert(s.take(k + 1).drop_last() =~= s.take(k));
        assert('0' <= s[k] && s[k] <= '9');
        assert(digits_value(s.take(k + 1)) == digits_value(s.take(k)) * 10 + ((s[k] as int) - ('0' as int)));
    } else {
        assert(s.take(k) =~= s);
    }
}

/// Parses a decimal `u32`, as `str::parse::<u32>` does.
pub fn parse_u32(s: &[char]) -> (r: Option<u32>)
    ensures
        r == spec_parse_u32(s@),
{
    let mut start: usize = 0;
    if s.len() > 0 && s[0] == '+' {
        start = 1;
    }
    let ghost d = unsigned_digits(s@);
    assert(d =~= s@.skip(start as int));
    if start >= s.len() {
        return None;
    }
    let mut value: u64 = 0;
    let mut k: usize = start;
    while k < s.len()
        invariant
            start <= k <= s@.len(),
            d == s@.skip(start as int),
            d == unsigned_digits(s@),
            d.len() > 0,
            all_digits(d.take(k - start)),
            value == digits_value(d.take(k - start)),
            value <= u32::MAX,
        decreases s@.len() - k,
    {
        let c = s[k];
        if !('0' <= c && c <= '9') {
            assert(!all_digits(d)) by {
                assert(d[k - start] == c);
            }
            return None;
        }
        let dv: u64 = (c as u32 - '0' as u32) as u64;
        let ghost prev = d.take(k - start);
        assert(d.take(k - start + 1).drop_last() =~= prev);
        assert(all_digits(d.take(k - start + 1)));
        if value > (u32::MAX as u64 - dv) / 10 {
            assert(digits_value(d.take(k - start + 1)) > u32::MAX) by (nonlinear_arith)
                requires
                    digits_value(d.take(k - start + 1)) == value * 10 + dv,
                    value > (u32::MAX - dv) / 10,
                    dv <= 9,
            {
            }
            proof {
                if all_digits(d) {
                    lemma_digits_value_monotone(d, k - start + 1);
                }
            }
            return None;
        }
        value = value * 10 + dv;
        k += 1;
    }
    assert(d.take(k - start) =~= d);
    Some(value as u32)
}

/// What `i32::from_str` gives: an optional sign followed by at least one
/// decimal digit, when the value fits in an `i32`; `None` otherwise.
pub open spec fn spec_parse_i32(s: Seq<char>) -> Option<i32> {
    if s.len() > 0 && s[0] == '-' {
        let d = s.drop_first();
        if d.len() > 0 && all_digits(d) && digits_value(d) <= 0x8000_0000 {
            Some((-digits_value(d)) as i32)
        } else {
            None
        }
    } else {
        let d = unsigned_digits(s);
        if d.len() > 0 && all_digits(d) && digits_value(d) <= i32::MAX {
            Some(digits_value(d) as i32)
        } else {
            None
        }
    }
}

/// Parses a decimal `i32`, as `str::parse::<i32>` does.
pub fn parse_i32(s: &[char]) -> (r: Option<i32>)
    ensures
        r == spec_parse_i32(s@),
{
    if s.len() > 0 && s[0] == '-' {
        if s.len() == 1 || s[1] == '+' {
            assert(s.len() > 1 ==> s@.drop_first()[0] == '+');
            return None;
        }
        let mut rest: Vec<char> = Vec::new();
        let mut k: usize = 1;
        while k < s.len()
            invariant
                1 <= k <= s@.len(),
                rest@ == s@.subrange(1, k as int),
            decreases s@.len() - k,
        {
            rest.push(s[k]);
            k += 1;
            assert(rest@ =~= s@.subrange(1, k as int));
        }
        assert(rest@ =~= s@.drop_first());
        assert(unsigned_digits(rest@) =~= rest@);
        match parse_u32(&rest) {
            Some(v) => {
                if v <= 0x8000_0000 {
                    let m: i64 = v as i64;
                    Some((-m) as i32)
                } else {
                    None
                }
            },
            None => None,
        }
    } else {
        match parse_u32(s) {
            Some(v) => {
                if v <= 0x7fff_ffff {
                    Some(v as i32)
                } else {
                    None
                }
            },
            None => None,
        }
    }
}

/// The lowercase mapping of `s`, as Unicode defines it for `str::to_lowercase`.
pub uninterp spec fn spec_lowercase(s: Seq<char>) -> Seq<char>;

/// Lowercases a text.
///
/// Calls `str::to_lowercase`; its result is named, since the Unicode case
/// tables it follows are not spelled out here.
#[verifier::external_body]
pub(crate) fn to_lowercase(s: &str) -> (r: String)
    ensures
        r@ == spec_lowercase(s@),
{
    s.to_lowercase()
}

/// Whether `a` sorts strictly before `b`: at the first character where they
/// differ, `a` has the smaller one, or `a` is a proper prefix of `b`. This is
/// the order of `String`, whose byte order is the order of code points.
pub open spec fn lex_less(a: Seq<char>, b: Seq<char>) -> bool
    decreases a.len(),
{
    if a.len() == 0 {
        b.len() > 0
    } else if b.len() == 0 {
        false
    } else if a[0] != b[0] {
        a[0] < b[0]
    } else {
        lex_less(a.drop_first(), b.drop_first())
    }
}

pub proof fn lemma_lex_less_irreflexive(a: Seq<char>)
    ensures
        !lex_less(a, a),
    decreases a.len(),
{
    if a.len() > 0 {
        lemma_lex_less_irreflexive(a.drop_first());
    }
}

pub proof fn lemma_lex_less_transitive(a: Seq<char>, b: Seq<char>, c: Seq<char>)
    requires
        lex_less(a, b),
        lex_less(b, c),
    ensures
        lex_less(a, c),
    decreases a.len(),
{
    if a.len() > 0 && b.len() > 0 && c.len() > 0 && a[0] == b[0] && b[0] == c[0] {
        lemma_lex_less_transitive(a.drop_first(), b.drop_first(), c.drop_first());
    }
}

pub proof fn lemma_lex_less_total(a: Seq<char>, b: Seq<char>)
    ensures
        a == b || lex_less(a, b) || lex_less(b, a),
    decreases a.len(),
{
    if a.len() > 0 && b.len() > 0 && a[0] == b[0] {
        lemma_lex_less_total(a.drop_first(), b.drop_first());
        if a.drop_first() == b.drop_first() {
            assert(a =~= seq![a[0]] + a.drop_first());
            assert(b =~= seq![b[0]] + b.drop_first());
        }
    } else if a.len() == 0 && b.len() == 0 {
        assert(a =~= b);
    }
}

pub proof fn lemma_lex_less_asymmetric(a: Seq<char>, b: Seq<char>)
    requires
        lex_less(a, b),
    ensures
        !lex_less(b, a),
{
    if lex_less(b, a) {
        lemma_lex_less_transitive(a, b, a);
        lemma_lex_less_irreflexive(a);
    }
}

/// `lex_less` is the order of `String`: where `i` is the first index at
/// which `a` and `b` differ (or the end of the shorter), `a` comes first
/// exactly when it has the smaller character there, or ends there while `b`
/// goes on. So "ab" comes before "b", whatever the lengths.
pub proof fn law_lex_less_is_string_order(a: Seq<char>, b: Seq<char>, i: int)
    requires
        0 <= i <= a.len(),
        i <= b.len(),
        a.take(i) == b.take(i),
        i == a.len() || i == b.len() || a[i] != b[i],
    ensures
        lex_less(a, b) <==> (i < b.len() && (i == a.len() || a[i] < b[i])),
    decreases i,
{
    if i > 0 {
        assert(a[0] == a.take(i)[0] && b[0] == b.take(i)[0]);
        let a1 = a.drop_first();
        let b1 = b.drop_first();
        assert(a1.take(i - 1) =~= a.take(i).drop_first());
        assert(b1.take(i - 1) =~= b.take(i).drop_first());
        law_lex_less_is_string_order(a1, b1, i - 1);
        assert(i < a.len() ==> a1[i - 1] == a[i]);
        assert(i < b.len() ==> b1[i - 1] == b[i]);
    }
}

/// Compares two texts in `String` order.
pub fn lex_less_exec(a: &[char], b: &[char]) -> (r: bool)
    ensures
        r == lex_less(a@, b@),
{
    let mut k: usize = 0;
    assert(a@.skip(0) =~= a@);
    assert(b@.skip(0) =~= b@);
    while k < a.len() && k < b.len() && a[k] == b[k]
        invariant
            k <= a@.len(),
            k <= b@.len(),
            lex_less(a@, b@) == lex_less(a@.skip(k as int), b@.skip(k as int)),
        decreases a@.len() - k,
    {
        assert(a@.skip(k as int).drop_first() =~= a@.skip(k as int + 1));
        assert(b@.skip(k as int).drop_first() =~= b@.skip(k as int + 1));
        k += 1;
    }
    if k == a.len() {
        k < b.len()
    } else if k == b.len() {
        false
    } else {
        a[k] < b[k]
    }
}
} // verus!
