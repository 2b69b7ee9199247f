//! Command-line parser.
//!
//! Turns a raw input line into a list of pipelines. The grammar supported is
//! deliberately small:
//!
//! ```text
//! list     := pipeline (';' pipeline)*
//! pipeline := command ('|' command)*
//! command  := word+ (redirection)*
//! ```
//!
//! Quoting rules follow the shell conventions: single quotes are literal,
//! double quotes allow `$VAR` expansion, and a backslash escapes the next
//! character. Globbing is intentionally not implemented. Variables are read
//! from an [`Environment`] handed in by the caller.

use vstd::prelude::*;
use crate::parser_laws::{law_parsed_commands_have_words, well_formed_pipelines};
use crate::text::{chars_of, is_whitespace, spec_is_whitespace, string_of};

verus! {

// ---------------------------------------------------------------------------
// The environment that `$NAME` reads from
// ---------------------------------------------------------------------------

/// A set of environment variables, as `(name, value)` pairs.
pub struct Environment {
    vars: Vec<(String, String)>,
}

/// The value of `name` in `env`: the value of its first pair with that name,
/// or the empty string when there is none (an unset variable expands to
/// nothing).
pub open spec fn env_lookup(env: Seq<(Seq<char>, Seq<char>)>, name: Seq<char>) -> Seq<char>
    decreases env.len(),
{
    if env.len() == 0 {
        seq![]
    } else if env[0].0 == name {
        env[0].1
    } else {
        env_lookup(env.drop_first(), name)
    }
}

impl View for Environment {
    type V = Seq<(Seq<char>, Seq<char>)>;

    closed spec fn view(&self) -> Seq<(Seq<char>, Seq<char>)> {
        self.vars@.map_values(|p: (String, String)| (p.0@, p.1@))
    }
}

impl Environment {
    /// An environment with no variables set.
    pub fn new() -> (r: Environment)
        ensures
            forall|name: Seq<char>| env_lookup(r@, name) == Seq::<char>::empty(),
    {
        let r = Environment { vars: Vec::new() };
        assert(r@ =~= Seq::<(Seq<char>, Seq<char>)>::empty());
        r
    }

    /// Sets `name` to `value`, replacing any earlier value.
    pub fn set(&mut self, name: String, value: String)
        ensures
            env_lookup(final(self)@, name@) == value@,
            forall|other: Seq<char>|
                other != name@ ==> env_lookup(final(self)@, other) == env_lookup(old(self)@, other),
    {
        let ghost n = name@;
        let ghost v = value@;
        self.vars.insert(0, (name, value));
        assert(self@.drop_first() =~= old(self)@);
        assert(self@[0] == (n, v));
    }

    /// The value of the variable whose name is `name`, empty when unset.
    pub fn lookup(&self, name: &[char]) -> (r: Vec<char>)
        ensures
            r@ == env_lookup(self@, name@),
    {
        let key = string_of(name);
        let mut k: usize = 0;
        assert(self@.skip(0) =~= self@);
        while k < self.vars.len()
            invariant
                k <= self.vars.len(),
                key@ == name@,
                env_lookup(self@, name@) == env_lookup(self@.skip(k as int), name@),
            decreases self.vars.len() - k,
        {
            assert(self@.skip(k as int).drop_first() =~= self@.skip(k as int + 1));
            if self.vars[k].0 == key {
                return chars_of(self.vars[k].1.as_str());
            }
            k += 1;
        }
        Vec::new()
    }
}

// ---------------------------------------------------------------------------
// Tokens
// ---------------------------------------------------------------------------

/// The token stream produced by the lexer.
#[derive(Debug, PartialEq)]
pub enum Token {
    Word(String),
    Semicolon,
    Pipe,
    /// `>`
    Great,
    /// `>>`
    DGreat,
    /// `<`
    Less,
}

/// A token with its word taken as a sequence of characters.
pub enum TokenView {
    Word(Seq<char>),
    Semicolon,
    Pipe,
    Great,
    DGreat,
    Less,
}

impl View for Token {
    type V = TokenView;

    open spec fn view(&self) -> TokenView {
        match self {
            Token::Word(w) => TokenView::Word(w@),
            Token::Semicolon => TokenView::Semicolon,
            Token::Pipe => TokenView::Pipe,
            Token::Great => TokenView::Great,
            Token::DGreat => TokenView::DGreat,
            Token::Less => TokenView::Less,
        }
    }
}

pub open spec fn tokens_view(t: Seq<Token>) -> Seq<TokenView> {
    t.map_values(|x: Token| x@)
}

/// Prepends `front` to the outcome `r`, keeping an error as it is.
pub open spec fn prepend<A>(front: Seq<A>, r: Result<Seq<A>, Seq<char>>) -> Result<Seq<A>, Seq<char>> {
    match r {
        Ok(rest) => Ok(front + rest),
        Err(e) => Err(e),
    }
}

// ---------------------------------------------------------------------------
// Messages
// ---------------------------------------------------------------------------

pub open spec fn msg_unmatched_single() -> Seq<char> {
    "unexpected EOF while looking for matching `'`"@
}

pub open spec fn msg_unmatched_double() -> Seq<char> {
    "unexpected EOF while looking for matching `\"`"@
}

pub open spec fn msg_empty_command() -> Seq<char> {
    "syntax error near unexpected token `|`"@
}

pub open spec fn msg_missing_target(op: Seq<char>) -> Seq<char> {
    "syntax error near unexpected token after `"@ + op + "`"@
}

// ---------------------------------------------------------------------------
// The lexer, as a specification
// ---------------------------------------------------------------------------

/// The first index at or after `i` that holds `c`, or `s.len()` if none does.
pub open spec fn find_char(s: Seq<char>, i: int, c: char) -> int
    decreases s.len() - i,
{
    if i >= s.len() {
        s.len() as int
    } else if s[i] == c {
        i
    } else {
        find_char(s, i + 1, c)
    }
}

/// A character that may appear in a variable name.
pub open spec fn is_name_char(c: char) -> bool {
    c == '_' || ('a' <= c && c <= 'z') || ('A' <= c && c <= 'Z') || ('0' <= c && c <= '9')
}

pub open spec fn is_digit(c: char) -> bool {
    '0' <= c && c <= '9'
}

/// The first index at or after `i` that does not hold a name character.
pub open spec fn name_run(s: Seq<char>, i: int) -> int
    decreases s.len() - i,
{
    if i >= s.len() {
        s.len() as int
    } else if is_name_char(s[i]) {
        name_run(s, i + 1)
    } else {
        i
    }
}

/// The end of the bare name `[A-Za-z_][A-Za-z0-9_]*` starting at `i`; `i`
/// itself when no name starts there.
pub open spec fn bare_name_end(s: Seq<char>, i: int) -> int {
    if 0 <= i < s.len() && is_name_char(s[i]) && !is_digit(s[i]) {
        name_run(s, i + 1)
    } else {
        i
    }
}

/// Reads the variable reference whose `$` stands at `i`: the index just past
/// it and the text it stands for. `${NAME}` and `$NAME` give the variable's
/// value; an unterminated `${` is kept literally with the rest of the input;
/// a `$` that no name follows is a literal `$`.
pub open spec fn read_var(s: Seq<char>, env: Seq<(Seq<char>, Seq<char>)>, i: int) -> (int, Seq<char>) {
    if i + 1 < s.len() && s[i + 1] == '{' {
        let k = find_char(s, i + 2, '}');
        if k < s.len() {
            (k + 1, env_lookup(env, s.subrange(i + 2, k)))
        } else {
            (s.len() as int, seq!['$', '{'] + s.subrange(i + 2, s.len() as int))
        }
    } else {
        let n = bare_name_end(s, i + 1);
        if n == i + 1 {
            (i + 1, seq!['$'])
        } else {
            (n, env_lookup(env, s.subrange(i + 1, n)))
        }
    }
}

/// Reads a double-quoted segment from `i` (just past the opening quote),
/// appending what it stands for to `acc`: the index just past the closing
/// quote and the extended text, or `None` when no closing quote follows.
/// Inside, `$` expands and a backslash escapes only `"`, `\` and `$`.
pub open spec fn read_double(s: Seq<char>, env: Seq<(Seq<char>, Seq<char>)>, i: int, acc: Seq<char>) -> Option<(int, Seq<char>)>
    decreases s.len() - i,
{
    if i < 0 || i >= s.len() {
        None
    } else if s[i] == '"' {
        Some((i + 1, acc))
    } else if s[i] == '$' {
        let (j, v) = read_var(s, env, i);
        proof { lemma_read_var_bounds(s, env, i); }
        read_double(s, env, j, acc + v)
    } else if s[i] == '\\' {
        if i + 1 < s.len() && (s[i + 1] == '"' || s[i + 1] == '\\' || s[i + 1] == '$') {
            read_double(s, env, i + 2, acc.push(s[i + 1]))
        } else {
            read_double(s, env, i + 1, acc.push('\\'))
        }
    } else {
        read_double(s, env, i + 1, acc.push(s[i]))
    }
}

/// The word collected so far, if any.
pub open spec fn word_of(pend: Option<Seq<char>>) -> Seq<char> {
    match pend {
        Some(w) => w,
        None => seq![],
    }
}

/// The token for the word collected so far, if any.
pub open spec fn flush(pend: Option<Seq<char>>) -> Seq<TokenView> {
    match pend {
        Some(w) => seq![TokenView::Word(w)],
        None => seq![],
    }
}

/// The tokens of `s` from index `i` on, given the word `pend` collected so
/// far (`None` when no word has started; `Some` of a possibly empty word once
/// a quote or any word character was seen).
pub open spec fn lex(s: Seq<char>, env: Seq<(Seq<char>, Seq<char>)>, i: int, pend: Option<Seq<char>>) -> Result<Seq<TokenView>, Seq<char>>
    decreases s.len() - i,
{
    if i < 0 || i >= s.len() {
        Ok(flush(pend))
    } else {
        let c = s[i];
        if spec_is_whitespace(c) {
            prepend(flush(pend), lex(s, env, i + 1, None))
        } else if c == ';' {
            prepend(flush(pend).push(TokenView::Semicolon), lex(s, env, i + 1, None))
        } else if c == '|' {
            prepend(flush(pend).push(TokenView::Pipe), lex(s, env, i + 1, None))
        } else if c == '<' {
            prepend(flush(pend).push(TokenView::Less), lex(s, env, i + 1, None))
        } else if c == '>' {
            if i + 1 < s.len() && s[i + 1] == '>' {
                prepend(flush(pend).push(TokenView::DGreat), lex(s, env, i + 2, None))
            } else {
                prepend(flush(pend).push(TokenView::Great), lex(s, env, i + 1, None))
            }
        } else if c == '\'' {
            let k = find_char(s, i + 1, '\'');
            if k >= s.len() {
                Err(msg_unmatched_single())
            } else {
                proof { lemma_find_char_bounds(s, i + 1, '\''); }
                lex(s, env, k + 1, Some(word_of(pend) + s.subrange(i + 1, k)))
            }
        } else if c == '"' {
            match read_double(s, env, i + 1, word_of(pend)) {
                None => Err(msg_unmatched_double()),
                Some((j, w)) => {
                    proof { lemma_read_double_bounds(s, env, i + 1, word_of(pend)); }
                    lex(s, env, j, Some(w))
                },
            }
        } else if c == '$' {
            let (j, v) = read_var(s, env, i);
            proof { lemma_read_var_bounds(s, env, i); }
            lex(s, env, j, Some(word_of(pend) + v))
        } else if c == '\\' {
            if i + 1 < s.len() {
                lex(s, env, i + 2, Some(word_of(pend).push(s[i + 1])))
            } else {
                lex(s, env, i + 1, Some(word_of(pend)))
            }
        } else {
            lex(s, env, i + 1, Some(word_of(pend).push(c)))
        }
    }
}

/// The tokens of a whole input line, or the message for an unterminated quote.
pub open spec fn spec_tokenize(s: Seq<char>, env: Seq<(Seq<char>, Seq<char>)>) -> Result<Seq<TokenView>, Seq<char>> {
    lex(s, env, 0, None)
}

pub proof fn lemma_find_char_bounds(s: Seq<char>, i: int, c: char)
    requires
        0 <= i,
    ensures
        i <= find_char(s, i, c) || (i > s.len() && find_char(s, i, c) == s.len()),
        find_char(s, i, c) <= s.len(),
        find_char(s, i, c) < s.len() ==> s[find_char(s, i, c)] == c,
        forall|k: int| i <= k < find_char(s, i, c) ==> s[k] != c,
    decreases s.len() - i,
{
    if i < s.len() && s[i] != c {
        lemma_find_char_bounds(s, i + 1, c);
    }
}

pub proof fn lemma_name_run_bounds(s: Seq<char>, i: int)
    requires
        0 <= i <= s.len(),
    ensures
        i <= name_run(s, i) <= s.len(),
    decreases s.len() - i,
{
    if i < s.len() && is_name_char(s[i]) {
        lemma_name_run_bounds(s, i + 1);
    }
}

pub proof fn lemma_read_var_bounds(s: Seq<char>, env: Seq<(Seq<char>, Seq<char>)>, i: int)
    requires
        0 <= i < s.len(),
    ensures
        i < read_var(s, env, i).0 <= s.len(),
{
    if i + 1 < s.len() && s[i + 1] == '{' {
        lemma_find_char_bounds(s, i + 2, '}');
    } else if 0 <= i + 1 < s.len() && is_name_char(s[i + 1]) && !is_digit(s[i + 1]) {
        lemma_name_run_bounds(s, i + 2);
    }
}

pub proof fn lemma_read_double_bounds(s: Seq<char>, env: Seq<(Seq<char>, Seq<char>)>, i: int, acc: Seq<char>)
    ensures
        read_double(s, env, i, acc) matches Some((j, w)) ==> i < j <= s.len(),
    decreases s.len() - i,
{
    if 0 <= i < s.len() && s[i] != '"' {
        if s[i] == '$' {
            lemma_read_var_bounds(s, env, i);
            let (j, v) = read_var(s, env, i);
            lemma_read_double_bounds(s, env, j, acc + v);
        } else if s[i] == '\\' {
            if i + 1 < s.len() && (s[i + 1] == '"' || s[i + 1] == '\\' || s[i + 1] == '$') {
                lemma_read_double_bounds(s, env, i + 2, acc.push(s[i + 1]));
            } else {
                lemma_read_double_bounds(s, env, i + 1, acc.push('\\'));
            }
        } else {
            lemma_read_double_bounds(s, env, i + 1, acc.push(s[i]));
        }
    }
}

pub proof fn lemma_find_char_is(s: Seq<char>, a: int, k: int, c: char)
    requires
        0 <= a <= k <= s.len(),
        forall|j: int| a <= j < k ==> s[j] != c,
        k == s.len() || s[k] == c,
    ensures
        find_char(s, a, c) == k,
    decreases k - a,
{
    if a < k {
        lemma_find_char_is(s, a + 1, k, c);
    }
}

pub proof fn lemma_name_run_is(s: Seq<char>, a: int, k: int)
    requires
        0 <= a <= k <= s.len(),
        forall|j: int| a <= j < k ==> is_name_char(s[j]),
        k == s.len() || !is_name_char(s[k]),
    ensures
        name_run(s, a) == k,
    decreases k - a,
{
    if a < k {
        lemma_name_run_is(s, a + 1, k);
    }
}

pub proof fn lemma_tokens_view_push(a: Seq<Token>, t: Token)
    ensures
        tokens_view(a.push(t)) == tokens_view(a).push(t@),
{
    assert(tokens_view(a.push(t)) =~= tokens_view(a).push(t@));
}

pub proof fn lemma_prepend_assoc<A>(a: Seq<A>, b: Seq<A>, r: Result<Seq<A>, Seq<char>>)
    ensures
        prepend(a, prepend(b, r)) == prepend(a + b, r),
{
    if let Ok(rest) = r {
        assert(a + (b + rest) =~= (a + b) + rest);
    }
}

// ---------------------------------------------------------------------------
// The lexer
// ---------------------------------------------------------------------------

/// The word being collected, as the specification sees it.
pub open spec fn pending(has_word: bool, word: Seq<char>) -> Option<Seq<char>> {
    if has_word {
        Some(word)
    } else {
        None
    }
}

fn is_name_char_exec(c: char) -> (b: bool)
    ensures
        b == is_name_char(c),
{
    c == '_' || ('a' <= c && c <= 'z') || ('A' <= c && c <= 'Z') || ('0' <= c && c <= '9')
}

/// Converts the input string into a token stream, performing quote handling
/// and `$VAR` expansion along the way. Fails on an unterminated quote.
pub fn tokenize(input: &str, env: &Environment) -> (r: Result<Vec<Token>, String>)
    ensures
        match r {
            Ok(t) => spec_tokenize(input@, env@) == Ok::<Seq<TokenView>, Seq<char>>(tokens_view(t@)),
            Err(e) => spec_tokenize(input@, env@) == Err::<Seq<TokenView>, Seq<char>>(e@),
        },
{
    let chars: Vec<char> = chars_of(input);
    let ghost s = chars@;
    let mut tokens: Vec<Token> = Vec::new();
    let mut word: Vec<char> = Vec::new();
    let mut has_word = false;
    let mut i: usize = 0;
    assert(tokens_view(tokens@) =~= Seq::<TokenView>::empty());
    assert(prepend(Seq::<TokenView>::empty(), lex(s, env@, 0, None)) == lex(s, env@, 0, None)) by {
        if let Ok(rest) = lex(s, env@, 0, None) {
            assert(Seq::<TokenView>::empty() + rest =~= rest);
        }
    }

    while i < chars.len()
        invariant
            chars@ == s,
            s == input@,
            i <= s.len(),
            !has_word ==> word@ == Seq::<char>::empty(),
            spec_tokenize(s, env@) == prepend(tokens_view(tokens@), lex(s, env@, i as int, pending(has_word, word@))),
        decreases s.len() - i,
    {
        let ghost pend = pending(has_word, word@);
        let ghost before = tokens_view(tokens@);
        let c = chars[i];
        if is_whitespace(c) {
            flush_word(&mut tokens, &mut word, &mut has_word);
            proof { lemma_prepend_assoc(before, flush(pend), lex(s, env@, i + 1, None)); }
            i += 1;
        } else if c == ';' || c == '|' || c == '<' || (c == '>' && !(i + 1 < chars.len() && chars[i + 1] == '>')) {
            flush_word(&mut tokens, &mut word, &mut has_word);
            let t = if c == ';' {
                Token::Semicolon
            } else if c == '|' {
                Token::Pipe
            } else if c == '<' {
                Token::Less
            } else {
                Token::Great
            };
            let ghost tv = t@;
            let ghost mid = tokens@;
            tokens.push(t);
            proof {
                lemma_tokens_view_push(mid, t);
                lemma_prepend_assoc(before, flush(pend).push(tv), lex(s, env@, i + 1, None));
                assert(tokens_view(tokens@) =~= before + flush(pend).push(tv));
            }
            i += 1;
        } else if c == '>' {
            flush_word(&mut tokens, &mut word, &mut has_word);
            let ghost mid = tokens@;
            tokens.push(Token::DGreat);
            proof {
                lemma_tokens_view_push(mid, Token::DGreat);
                lemma_prepend_assoc(before, flush(pend).push(TokenView::DGreat), lex(s, env@, i + 2, None));
                assert(tokens_view(tokens@) =~= before + flush(pend).push(TokenView::DGreat));
            }
            i += 2;
        } else if c == '\'' {
            has_word = true;
            i += 1;
            proof { lemma_find_char_bounds(s, i as int, '\''); }
            let closed = read_single_quoted(&chars, &mut i, &mut word);
            if !closed {
                return Err("unexpected EOF while looking for matching `'`".to_owned());
            }
        } else if c == '"' {
            has_word = true;
            i += 1;
            proof { lemma_read_double_bounds(s, env@, i as int, word@); }
            let closed = read_double_quoted(&chars, &mut i, &mut word, env);
            if !closed {
                return Err("unexpected EOF while looking for matching `\"`".to_owned());
            }
        } else if c == '$' {
            has_word = true;
            let ghost before_i = i as int;
            let mut v = read_variable(&chars, &mut i, env);
            proof { lemma_read_var_bounds(s, env@, before_i); }
            word.append(&mut v);
        } else if c == '\\' {
            has_word = true;
            // A backslash quotes the following character literally.
            if i + 1 < chars.len() {
                word.push(chars[i + 1]);
                i += 2;
            } else {
                i += 1;
            }
        } else {
            has_word = true;
            word.push(c);
            i += 1;
        }
    }

    let ghost pend = pending(has_word, word@);
    let ghost before = tokens_view(tokens@);
    flush_word(&mut tokens, &mut word, &mut has_word);
    Ok(tokens)
}

/// Emits the accumulated word as a token, if a word was started.
fn flush_word(tokens: &mut Vec<Token>, word: &mut Vec<char>, has_word: &mut bool)
    ensures
        tokens_view(final(tokens)@) == tokens_view(old(tokens)@) + flush(pending(*old(has_word), old(word)@)),
        final(word)@ == (if *old(has_word) { Seq::<char>::empty() } else { old(word)@ }),
        !*final(has_word),
{
    if *has_word {
        let w = string_of(word.as_slice());
        let ghost wv = w@;
        tokens.push(Token::Word(w));
        *word = Vec::new();
        *has_word = false;
        assert(tokens_view(tokens@) =~= tokens_view(old(tokens)@) + seq![TokenView::Word(wv)]);
    } else {
        assert(tokens_view(old(tokens)@) + Seq::<TokenView>::empty() =~= tokens_view(old(tokens)@));
    }
}

/// Reads a single-quoted segment verbatim. Returns whether the closing quote
/// was found. `i` points just past the opening quote on entry.
fn read_single_quoted(chars: &Vec<char>, i: &mut usize, word: &mut Vec<char>) -> (closed: bool)
    requires
        *old(i) <= chars@.len(),
    ensures
        closed == (find_char(chars@, *old(i) as int, '\'') < chars@.len()),
        closed ==> *final(i) == find_char(chars@, *old(i) as int, '\'') + 1,
        closed ==> final(word)@ == old(word)@ + chars@.subrange(*old(i) as int, find_char(chars@, *old(i) as int, '\'') as int),
{
    let ghost start = *i as int;
    while *i < chars.len()
        invariant
            start == *old(i) as int,
            start <= *i <= chars@.len(),
            forall|j: int| start <= j < *i ==> chars@[j] != '\'',
            word@ == old(word)@ + chars@.subrange(start, *i as int),
        decreases chars@.len() - *i,
    {
        let c = chars[*i];
        if c == '\'' {
            proof { lemma_find_char_is(chars@, start, *i as int, '\''); }
            *i += 1;
            return true;
        }
        word.push(c);
        *i += 1;
        assert(word@ =~= old(word)@ + chars@.subrange(start, *i as int));
    }
    proof { lemma_find_char_is(chars@, start, chars@.len() as int, '\''); }
    false
}

/// Reads a double-quoted segment, expanding `$VAR` and honouring backslash
/// escapes for `"`, `\` and `$`. `i` points just past the opening quote.
fn read_double_quoted(chars: &Vec<char>, i: &mut usize, word: &mut Vec<char>, env: &Environment) -> (closed: bool)
    requires
        *old(i) <= chars@.len(),
    ensures
        closed == read_double(chars@, env@, *old(i) as int, old(word)@) is Some,
        closed ==> read_double(chars@, env@, *old(i) as int, old(word)@) == Some((*final(i) as int, final(word)@)),
{
    let ghost start = *i as int;
    while *i < chars.len()
        invariant
            start == *old(i) as int,
            start <= *i <= chars@.len(),
            read_double(chars@, env@, start, old(word)@) == read_double(chars@, env@, *i as int, word@),
        decreases chars@.len() - *i,
    {
        let c = chars[*i];
        if c == '"' {
            *i += 1;
            return true;
        } else if c == '$' {
            let ghost before_i = *i as int;
            let mut v = read_variable(chars, i, env);
            proof { lemma_read_var_bounds(chars@, env@, before_i); }
            word.append(&mut v);
        } else if c == '\\' {
            if *i + 1 < chars.len() {
                let next = chars[*i + 1];
                if next == '"' || next == '\\' || next == '$' {
                    word.push(next);
                    *i += 2;
                    continue;
                }
            }
            word.push('\\');
            *i += 1;
        } else {
            word.push(c);
            *i += 1;
        }
    }
    false
}

/// Reads a variable reference beginning at `chars[i] == '$'` and returns its
/// value from the environment. Supports `$NAME` and `${NAME}`; a lone `$`, or
/// `$` followed by an invalid name, is treated as a literal `$`.
fn read_variable(chars: &Vec<char>, i: &mut usize, env: &Environment) -> (r: Vec<char>)
    requires
        *old(i) < chars@.len(),
        chars@[*old(i) as int] == '$',
    ensures
        (*final(i) as int, r@) == read_var(chars@, env@, *old(i) as int),
{
    let ghost start = *i as int;
    let ghost s = chars@;
    let n = chars.len();
    *i += 1;

    // Braced form: ${NAME}
    if *i < chars.len() && chars[*i] == '{' {
        *i += 1;
        let mut name: Vec<char> = Vec::new();
        while *i < chars.len()
            invariant
                start == *old(i) as int,
                start + 1 < s.len(),
                s[start + 1] == '{',
                start + 2 <= *i <= s.len(),
                chars@ == s,
                forall|j: int| start + 2 <= j < *i ==> s[j] != '}',
                name@ == s.subrange(start + 2, *i as int),
            decreases s.len() - *i,
        {
            let c = chars[*i];
            if c == '}' {
                proof { lemma_find_char_is(s, start + 2, *i as int, '}'); }
                *i += 1;
                return env.lookup(name.as_slice());
            }
            name.push(c);
            *i += 1;
            assert(name@ =~= s.subrange(start + 2, *i as int));
        }
        // Unterminated brace: treat what we saw literally.
        proof { lemma_find_char_is(s, start + 2, s.len() as int, '}'); }
        let mut r: Vec<char> = Vec::new();
        r.push('$');
        r.push('{');
        r.append(&mut name);
        assert(r@ =~= seq!['$', '{'] + s.subrange(start + 2, s.len() as int));
        return r;
    }

    // Bare form: $NAME where NAME is [A-Za-z_][A-Za-z0-9_]*
    let mut name: Vec<char> = Vec::new();
    while *i < chars.len()
        invariant
            start == *old(i) as int,
            !(start + 1 < s.len() && s[start + 1] == '{'),
            start + 1 <= *i <= s.len(),
            chars@ == s,
            name@ == s.subrange(start + 1, *i as int),
            forall|j: int| start + 1 <= j < *i ==> is_name_char(s[j]),
            *i > start + 1 ==> !is_digit(s[start + 1]),
        ensures
            start + 1 <= *i <= s.len(),
            *i == s.len() || !is_name_char(s[*i as int]) || (*i == start + 1 && is_digit(s[*i as int])),
        decreases s.len() - *i,
    {
        let c = chars[*i];
        let valid = is_name_char_exec(c);
        let first = name.len() == 0;
        if valid && !(first && '0' <= c && c <= '9') {
            name.push(c);
            *i += 1;
            assert(name@ =~= s.subrange(start + 1, *i as int));
        } else {
            break;
        }
    }

    if name.len() == 0 {
        let mut r: Vec<char> = Vec::new();
        r.push('$');
        assert(r@ =~= seq!['$']);
        r
    } else {
        proof { lemma_name_run_is(s, start + 2, *i as int); }
        env.lookup(name.as_slice())
    }
}


// ---------------------------------------------------------------------------
// Commands and pipelines
// ---------------------------------------------------------------------------

/// A single command with its arguments and optional redirections.
#[derive(Debug, PartialEq)]
pub struct Command {
    pub argv: Vec<String>,
    /// Input redirection target (`< file`).
    pub stdin: Option<String>,
    /// Output redirection: `(path, append)` where `append` is `>>`.
    pub stdout: Option<(String, bool)>,
}

/// A command with its strings taken as sequences of characters.
pub struct CommandView {
    pub argv: Seq<Seq<char>>,
    pub stdin: Option<Seq<char>>,
    pub stdout: Option<(Seq<char>, bool)>,
}

impl View for Command {
    type V = CommandView;

    open spec fn view(&self) -> CommandView {
        CommandView {
            argv: self.argv@.map_values(|a: String| a@),
            stdin: match self.stdin {
                Some(f) => Some(f@),
                None => None,
            },
            stdout: match self.stdout {
                Some((f, append)) => Some((f@, append)),
                None => None,
            },
        }
    }
}

/// A sequence of commands connected by pipes.
#[derive(Debug, PartialEq)]
pub struct Pipeline {
    pub commands: Vec<Command>,
}

impl View for Pipeline {
    type V = Seq<CommandView>;

    open spec fn view(&self) -> Seq<CommandView> {
        self.commands@.map_values(|c: Command| c@)
    }
}

pub open spec fn pipelines_view(p: Seq<Pipeline>) -> Seq<Seq<CommandView>> {
    p.map_values(|x: Pipeline| x@)
}

pub open spec fn empty_command() -> CommandView {
    CommandView { argv: seq![], stdin: None, stdout: None }
}

/// Ends the current command of a pipeline; a command without words is an
/// error (it comes from `| |` or a leading or trailing pipe).
pub open spec fn finish(done: Seq<CommandView>, cur: CommandView) -> Result<Seq<CommandView>, Seq<char>> {
    if cur.argv.len() == 0 {
        Err(msg_empty_command())
    } else {
        Ok(done.push(cur))
    }
}

/// The word after the redirection operator at `k`, if there is one.
pub open spec fn redirect_target(t: Seq<TokenView>, k: int) -> Option<Seq<char>> {
    if 0 <= k + 1 < t.len() {
        match t[k + 1] {
            TokenView::Word(f) => Some(f),
            _ => None,
        }
    } else {
        None
    }
}

/// The commands of a statement from token `k` on, given the commands `done`
/// so far and the command `cur` being built. A redirection sets the target
/// of the current command (a later one replaces an earlier one).
pub open spec fn pipeline_from(t: Seq<TokenView>, k: int, done: Seq<CommandView>, cur: CommandView) -> Result<Seq<CommandView>, Seq<char>>
    decreases t.len() - k,
{
    if k < 0 || k >= t.len() {
        finish(done, cur)
    } else {
        match t[k] {
            TokenView::Word(w) => pipeline_from(t, k + 1, done, CommandView { argv: cur.argv.push(w), stdin: cur.stdin, stdout: cur.stdout }),
            TokenView::Pipe => match finish(done, cur) {
                Ok(d) => pipeline_from(t, k + 1, d, empty_command()),
                Err(e) => Err(e),
            },
            TokenView::Less => match redirect_target(t, k) {
                Some(f) => pipeline_from(t, k + 2, done, CommandView { argv: cur.argv, stdin: Some(f), stdout: cur.stdout }),
                None => Err(msg_missing_target(seq!['<'])),
            },
            TokenView::Great => match redirect_target(t, k) {
                Some(f) => pipeline_from(t, k + 2, done, CommandView { argv: cur.argv, stdin: cur.stdin, stdout: Some((f, false)) }),
                None => Err(msg_missing_target(seq!['>'])),
            },
            TokenView::DGreat => match redirect_target(t, k) {
                Some(f) => pipeline_from(t, k + 2, done, CommandView { argv: cur.argv, stdin: cur.stdin, stdout: Some((f, true)) }),
                None => Err(msg_missing_target(seq!['>', '>'])),
            },
            // Statements never hold a `;`: they are split on it first.
            TokenView::Semicolon => Err(msg_empty_command()),
        }
    }
}

/// The pipeline of one statement (a token sequence without `;`).
pub open spec fn spec_pipeline(stmt: Seq<TokenView>) -> Result<Seq<CommandView>, Seq<char>> {
    pipeline_from(stmt, 0, seq![], empty_command())
}

/// The pipelines of the tokens from `k` on, given the tokens `stmt` of the
/// statement being collected. Statements are split on `;`; empty ones are
/// skipped; the first statement in error gives the error.
pub open spec fn pipelines_from(t: Seq<TokenView>, k: int, stmt: Seq<TokenView>) -> Result<Seq<Seq<CommandView>>, Seq<char>>
    decreases t.len() - k,
{
    if k < 0 || k >= t.len() {
        if stmt.len() == 0 {
            Ok(seq![])
        } else {
            match spec_pipeline(stmt) {
                Ok(p) => Ok(seq![p]),
                Err(e) => Err(e),
            }
        }
    } else if t[k] is Semicolon {
        if stmt.len() == 0 {
            pipelines_from(t, k + 1, seq![])
        } else {
            match spec_pipeline(stmt) {
                Ok(p) => prepend(seq![p], pipelines_from(t, k + 1, seq![])),
                Err(e) => Err(e),
            }
        }
    } else {
        pipelines_from(t, k + 1, stmt.push(t[k]))
    }
}

/// The pipelines of a token sequence.
pub open spec fn spec_pipelines(t: Seq<TokenView>) -> Result<Seq<Seq<CommandView>>, Seq<char>> {
    pipelines_from(t, 0, seq![])
}

/// The pipelines of an input line, or the message for a syntax error.
pub open spec fn spec_parse(input: Seq<char>, env: Seq<(Seq<char>, Seq<char>)>) -> Result<Seq<Seq<CommandView>>, Seq<char>> {
    match spec_tokenize(input, env) {
        Ok(t) => spec_pipelines(t),
        Err(e) => Err(e),
    }
}

/// Parses a full input line into a list of pipelines.
///
/// Empty statements (e.g. a trailing `;`) are skipped. Returns a syntax-error
/// message on malformed input such as an unterminated quote or a redirection
/// without a target.
pub fn parse(input: &str, env: &Environment) -> (r: Result<Vec<Pipeline>, String>)
    ensures
        match r {
            Ok(p) => spec_parse(input@, env@) == Ok::<Seq<Seq<CommandView>>, Seq<char>>(pipelines_view(p@)),
            Err(e) => spec_parse(input@, env@) == Err::<Seq<Seq<CommandView>>, Seq<char>>(e@),
        },
        r matches Ok(p) ==> well_formed_pipelines(pipelines_view(p@)),
{
    proof { law_parsed_commands_have_words(input@, env@); }
    match tokenize(input, env) {
        Ok(tokens) => build_pipelines(&tokens),
        Err(e) => Err(e),
    }
}

fn copy_token(t: &Token) -> (r: Token)
    ensures
        r@ == t@,
{
    match t {
        Token::Word(w) => Token::Word(w.clone()),
        Token::Semicolon => Token::Semicolon,
        Token::Pipe => Token::Pipe,
        Token::Great => Token::Great,
        Token::DGreat => Token::DGreat,
        Token::Less => Token::Less,
    }
}

/// Splits the tokens on `;` and builds one pipeline per statement.
fn build_pipelines(tokens: &Vec<Token>) -> (r: Result<Vec<Pipeline>, String>)
    ensures
        match r {
            Ok(p) => spec_pipelines(tokens_view(tokens@)) == Ok::<Seq<Seq<CommandView>>, Seq<char>>(pipelines_view(p@)),
            Err(e) => spec_pipelines(tokens_view(tokens@)) == Err::<Seq<Seq<CommandView>>, Seq<char>>(e@),
        },
{
    let ghost t = tokens_view(tokens@);
    let mut pipelines: Vec<Pipeline> = Vec::new();
    let mut statement: Vec<Token> = Vec::new();
    let mut k: usize = 0;
    assert(pipelines_view(pipelines@) =~= Seq::<Seq<CommandView>>::empty());
    assert(tokens_view(statement@) =~= Seq::<TokenView>::empty());
    proof { lemma_prepend_empty(pipelines_from(t, 0, seq![])); }

    while k < tokens.len()
        invariant
            t == tokens_view(tokens@),
            k <= tokens.len(),
            forall|j: int| 0 <= j < statement@.len() ==> !(statement@[j]@ is Semicolon),
            spec_pipelines(t) == prepend(pipelines_view(pipelines@), pipelines_from(t, k as int, tokens_view(statement@))),
        decreases tokens.len() - k,
    {
        let ghost before = pipelines_view(pipelines@);
        let ghost stmt = tokens_view(statement@);
        match &tokens[k] {
            Token::Semicolon => {
                if statement.len() > 0 {
                    let built = build_pipeline(&statement);
                    match built {
                        Ok(p) => {
                            let ghost pv = p@;
                            pipelines.push(p);
                            statement = Vec::new();
                            proof {
                                lemma_prepend_assoc(before, seq![pv], pipelines_from(t, k + 1, seq![]));
                                assert(pipelines_view(pipelines@) =~= before + seq![pv]);
                                assert(tokens_view(statement@) =~= Seq::<TokenView>::empty());
                            }
                        },
                        Err(e) => {
                            return Err(e);
                        },
                    }
                } else {
                    assert(stmt =~= Seq::<TokenView>::empty());
                }
            },
            other => {
                let c = copy_token(other);
                let ghost mid = statement@;
                statement.push(c);
                proof { lemma_tokens_view_push(mid, c); }
            },
        }
        k += 1;
    }

    let ghost before = pipelines_view(pipelines@);
    if statement.len() > 0 {
        match build_pipeline(&statement) {
            Ok(p) => {
                let ghost pv = p@;
                pipelines.push(p);
                assert(pipelines_view(pipelines@) =~= before + seq![pv]);
            },
            Err(e) => {
                return Err(e);
            },
        }
    } else {
        assert(before + Seq::<Seq<CommandView>>::empty() =~= before);
    }
    Ok(pipelines)
}

pub proof fn lemma_prepend_empty<A>(r: Result<Seq<A>, Seq<char>>)
    ensures
        prepend(Seq::<A>::empty(), r) == r,
{
    if let Ok(rest) = r {
        assert(Seq::<A>::empty() + rest =~= rest);
    }
}

fn new_command() -> (c: Command)
    ensures
        c@ == empty_command(),
{
    let c = Command { argv: Vec::new(), stdin: None, stdout: None };
    assert(c@.argv =~= Seq::<Seq<char>>::empty());
    c
}

/// Builds a single pipeline, splitting on `|` and attaching redirections.
fn build_pipeline(tokens: &Vec<Token>) -> (r: Result<Pipeline, String>)
    requires
        forall|j: int| 0 <= j < tokens@.len() ==> !(tokens@[j]@ is Semicolon),
    ensures
        match r {
            Ok(p) => spec_pipeline(tokens_view(tokens@)) == Ok::<Seq<CommandView>, Seq<char>>(p@),
            Err(e) => spec_pipeline(tokens_view(tokens@)) == Err::<Seq<CommandView>, Seq<char>>(e@),
        },
{
    let ghost t = tokens_view(tokens@);
    let mut pipeline = Pipeline { commands: Vec::new() };
    let mut current = new_command();
    let mut k: usize = 0;
    assert(pipeline@ =~= Seq::<CommandView>::empty());

    while k < tokens.len()
        invariant
            t == tokens_view(tokens@),
            k <= tokens.len(),
            forall|j: int| 0 <= j < tokens@.len() ==> !(tokens@[j]@ is Semicolon),
            spec_pipeline(t) == pipeline_from(t, k as int, pipeline@, current@),
        decreases tokens.len() - k,
    {
        let ghost done = pipeline@;
        let ghost cur = current@;
        assert(t[k as int] == tokens@[k as int]@);
        match &tokens[k] {
            Token::Word(w) => {
                let ghost old_argv = current.argv@;
                current.argv.push(w.clone());
                assert(current@.argv =~= cur.argv.push(w@));
                k += 1;
            },
            Token::Pipe => {
                let cmd = current;
                current = new_command();
                match finish_command(&mut pipeline, cmd) {
                    Ok(()) => {},
                    Err(e) => {
                        return Err(e);
                    },
                }
                k += 1;
            },
            Token::Less => {
                let target = if k + 1 < tokens.len() { Some(&tokens[k + 1]) } else { None };
                match expect_filename(target, "<") {
                    Ok(name) => {
                        current.stdin = Some(name);
                    },
                    Err(e) => {
                        proof { reveal_strlit("<"); }
                        assert("<"@ =~= seq!['<']);
                        return Err(e);
                    },
                }
                k += 2;
            },
            Token::Great => {
                let target = if k + 1 < tokens.len() { Some(&tokens[k + 1]) } else { None };
                match expect_filename(target, ">") {
                    Ok(name) => {
                        current.stdout = Some((name, false));
                    },
                    Err(e) => {
                        proof { reveal_strlit(">"); }
                        assert(">"@ =~= seq!['>']);
                        return Err(e);
                    },
                }
                k += 2;
            },
            Token::DGreat => {
                let target = if k + 1 < tokens.len() { Some(&tokens[k + 1]) } else { None };
                match expect_filename(target, ">>") {
                    Ok(name) => {
                        current.stdout = Some((name, true));
                    },
                    Err(e) => {
                        proof { reveal_strlit(">>"); }
                        assert(">>"@ =~= seq!['>', '>']);
                        return Err(e);
                    },
                }
                k += 2;
            },
            Token::Semicolon => {
                assert(false);
                k += 1;
            },
        }
    }

    match finish_command(&mut pipeline, current) {
        Ok(()) => Ok(pipeline),
        Err(e) => Err(e),
    }
}

/// Pushes a completed command onto the pipeline, rejecting empty commands
/// (which would come from `| |` or a leading/trailing pipe).
fn finish_command(pipeline: &mut Pipeline, command: Command) -> (r: Result<(), String>)
    ensures
        match r {
            Ok(()) => finish(old(pipeline)@, command@) == Ok::<Seq<CommandView>, Seq<char>>(final(pipeline)@),
            Err(e) => finish(old(pipeline)@, command@) == Err::<Seq<CommandView>, Seq<char>>(e@),
        },
{
    if command.argv.len() == 0 {
        return Err("syntax error near unexpected token `|`".to_owned());
    }
    let ghost cv = command@;
    pipeline.commands.push(command);
    assert(pipeline@ =~= old(pipeline)@.push(cv));
    Ok(())
}

/// Extracts the filename that must follow a redirection operator.
fn expect_filename(token: Option<&Token>, op: &str) -> (r: Result<String, String>)
    ensures
        match token {
            Some(Token::Word(name)) => r matches Ok(f) && f@ == name@,
            _ => r matches Err(e) && e@ == msg_missing_target(op@),
        },
{
    match token {
        Some(Token::Word(name)) => Ok(name.clone()),
        _ => {
            let mut m = "syntax error near unexpected token after `".to_owned();
            m.append(op);
            m.append("`");
            Err(m)
        },
    }
}

} // verus!
