//! Properties of the command-line parser that hold for every input.

use vstd::prelude::*;
use crate::parser::{
    env_lookup, find_char, flush, lemma_find_char_is, lemma_prepend_empty, lemma_read_var_bounds,
    lex, msg_missing_target, msg_unmatched_double, msg_unmatched_single, pipeline_from,
    pipelines_from, prepend, read_double, read_var, spec_parse, spec_pipeline, spec_pipelines,
    spec_tokenize, word_of, is_name_char, is_digit, name_run, CommandView, TokenView,
};
use crate::text::{lemma_same_from_step, lemma_same_from_subrange, same_from, spec_is_whitespace};

verus! {

/// Every pipeline holds at least one command, and every command at least one
/// word.
pub open spec fn well_formed_pipelines(ps: Seq<Seq<CommandView>>) -> bool {
    forall|i: int| 0 <= i < ps.len() ==> {
        &&& ps[i].len() > 0
        &&& forall|j: int| 0 <= j < ps[i].len() ==> #[trigger] ps[i][j].argv.len() > 0
    }
}

pub open spec fn commands_have_words(cs: Seq<CommandView>) -> bool {
    forall|j: int| 0 <= j < cs.len() ==> #[trigger] cs[j].argv.len() > 0
}

proof fn lemma_pipeline_from_wf(t: Seq<TokenView>, k: int, done: Seq<CommandView>, cur: CommandView)
    requires
        commands_have_words(done),
    ensures
        pipeline_from(t, k, done, cur) matches Ok(cs) ==> cs.len() > 0 && commands_have_words(cs),
    decreases t.len() - k,
{
    if k < 0 || k >= t.len() {
        if cur.argv.len() > 0 {
            assert(commands_have_words(done.push(cur)));
        }
    } else {
        match t[k] {
            TokenView::Word(w) => {
                lemma_pipeline_from_wf(t, k + 1, done, CommandView { argv: cur.argv.push(w), stdin: cur.stdin, stdout: cur.stdout });
            },
            TokenView::Pipe => {
                if cur.argv.len() > 0 {
                    assert(commands_have_words(done.push(cur)));
                    lemma_pipeline_from_wf(t, k + 1, done.push(cur), CommandView { argv: seq![], stdin: None, stdout: None });
                }
            },
            TokenView::Less => {
                if let Some(f) = crate::parser::redirect_target(t, k) {
                    lemma_pipeline_from_wf(t, k + 2, done, CommandView { argv: cur.argv, stdin: Some(f), stdout: cur.stdout });
                }
            },
            TokenView::Great => {
                if let Some(f) = crate::parser::redirect_target(t, k) {
                    lemma_pipeline_from_wf(t, k + 2, done, CommandView { argv: cur.argv, stdin: cur.stdin, stdout: Some((f, false)) });
                }
            },
            TokenView::DGreat => {
                if let Some(f) = crate::parser::redirect_target(t, k) {
                    lemma_pipeline_from_wf(t, k + 2, done, CommandView { argv: cur.argv, stdin: cur.stdin, stdout: Some((f, true)) });
                }
            },
            TokenView::Semicolon => {},
        }
    }
}

proof fn lemma_pipelines_from_wf(t: Seq<TokenView>, k: int, stmt: Seq<TokenView>)
    ensures
        pipelines_from(t, k, stmt) matches Ok(ps) ==> well_formed_pipelines(ps),
    decreases t.len() - k,
{
    lemma_pipeline_from_wf(stmt, 0, seq![], CommandView { argv: seq![], stdin: None, stdout: None });
    if k < 0 || k >= t.len() {
    } else if t[k] is Semicolon {
        lemma_pipelines_from_wf(t, k + 1, seq![]);
        if let Ok(p) = spec_pipeline(stmt) {
            if let Ok(rest) = pipelines_from(t, k + 1, seq![]) {
                let all = seq![p] + rest;
                assert forall|i: int| 0 <= i < all.len() implies {
                    &&& all[i].len() > 0
                    &&& forall|j: int| 0 <= j < all[i].len() ==> #[trigger] all[i][j].argv.len() > 0
                } by {
                    if i > 0 {
                        assert(all[i] == rest[i - 1]);
                    }
                }
            }
        }
    } else {
        lemma_pipelines_from_wf(t, k + 1, stmt.push(t[k]));
    }
}

/// Every pipeline that parsing yields has at least one command, and every
/// command at least one word.
pub proof fn law_parsed_commands_have_words(input: Seq<char>, env: Seq<(Seq<char>, Seq<char>)>)
    ensures
        spec_parse(input, env) matches Ok(ps) ==> well_formed_pipelines(ps),
{
    if let Ok(t) = spec_tokenize(input, env) {
        lemma_pipelines_from_wf(t, 0, seq![]);
    }
}

proof fn lemma_lex_blank(s: Seq<char>, env: Seq<(Seq<char>, Seq<char>)>, i: int)
    requires
        0 <= i,
        forall|j: int| i <= j < s.len() ==> spec_is_whitespace(#[trigger] s[j]),
    ensures
        lex(s, env, i, None) == Ok::<Seq<TokenView>, Seq<char>>(seq![]),
    decreases s.len() - i,
{
    if i < s.len() {
        lemma_lex_blank(s, env, i + 1);
        assert(flush(None) + Seq::<TokenView>::empty() =~= Seq::<TokenView>::empty());
    }
}

/// A line of nothing but white space (or nothing at all) holds no pipeline.
pub proof fn law_blank_line_is_empty(s: Seq<char>, env: Seq<(Seq<char>, Seq<char>)>)
    requires
        forall|j: int| 0 <= j < s.len() ==> spec_is_whitespace(#[trigger] s[j]),
    ensures
        spec_parse(s, env) == Ok::<Seq<Seq<CommandView>>, Seq<char>>(seq![]),
{
    lemma_lex_blank(s, env, 0);
}

/// Single quotes are fully literal: a single-quoted text without a quote of
/// its own is one word holding exactly that text, whatever it contains
/// (`$`, `;`, `|`, `>`, backslashes, white space).
pub proof fn law_single_quotes_are_literal(body: Seq<char>, env: Seq<(Seq<char>, Seq<char>)>)
    requires
        forall|j: int| 0 <= j < body.len() ==> body[j] != '\'',
    ensures
        spec_tokenize(seq!['\''] + body + seq!['\''], env) == Ok::<Seq<TokenView>, Seq<char>>(seq![TokenView::Word(body)]),
{
    let s = seq!['\''] + body + seq!['\''];
    let k = body.len() + 1int;
    assert forall|j: int| 1 <= j < k implies s[j] != '\'' by {
        assert(s[j] == body[j - 1]);
    }
    lemma_find_char_is(s, 1, k, '\'');
    assert(find_char(s, 1, '\'') == k);
    assert(s.subrange(1, k) =~= body);
    assert(Seq::<char>::empty() + body =~= body);
    assert(lex(s, env, k + 1, Some(body)) == Ok::<Seq<TokenView>, Seq<char>>(flush(Some(body))));
}

/// A single quote that no other single quote follows is an error.
pub proof fn law_unterminated_single_quote(body: Seq<char>, env: Seq<(Seq<char>, Seq<char>)>)
    requires
        forall|j: int| 0 <= j < body.len() ==> body[j] != '\'',
    ensures
        spec_tokenize(seq!['\''] + body, env) == Err::<Seq<TokenView>, Seq<char>>(msg_unmatched_single()),
{
    let s = seq!['\''] + body;
    assert forall|j: int| 1 <= j < s.len() implies s[j] != '\'' by {
        assert(s[j] == body[j - 1]);
    }
    lemma_find_char_is(s, 1, s.len() as int, '\'');
}

proof fn lemma_read_double_unclosed(s: Seq<char>, env: Seq<(Seq<char>, Seq<char>)>, i: int, acc: Seq<char>)
    requires
        0 <= i,
        forall|j: int| i <= j < s.len() ==> s[j] != '"',
    ensures
        read_double(s, env, i, acc) is None,
    decreases s.len() - i,
{
    if i < s.len() {
        if s[i] == '$' {
            lemma_read_var_bounds(s, env, i);
            let (j, v) = read_var(s, env, i);
            lemma_read_double_unclosed(s, env, j, acc + v);
        } else if s[i] == '\\' {
            if i + 1 < s.len() && (s[i + 1] == '"' || s[i + 1] == '\\' || s[i + 1] == '$') {
                lemma_read_double_unclosed(s, env, i + 2, acc.push(s[i + 1]));
            } else {
                lemma_read_double_unclosed(s, env, i + 1, acc.push('\\'));
            }
        } else {
            lemma_read_double_unclosed(s, env, i + 1, acc.push(s[i]));
        }
    }
}

/// A double quote that no other double quote follows is an error.
pub proof fn law_unterminated_double_quote(body: Seq<char>, env: Seq<(Seq<char>, Seq<char>)>)
    requires
        forall|j: int| 0 <= j < body.len() ==> body[j] != '"',
    ensures
        spec_tokenize(seq!['"'] + body, env) == Err::<Seq<TokenView>, Seq<char>>(msg_unmatched_double()),
{
    let s = seq!['"'] + body;
    assert forall|j: int| 1 <= j < s.len() implies s[j] != '"' by {
        assert(s[j] == body[j - 1]);
    }
    lemma_read_double_unclosed(s, env, 1, seq![]);
}

/// A character with no special meaning outside quotes.
pub open spec fn is_plain(c: char) -> bool {
    &&& !spec_is_whitespace(c)
    &&& c != ';' && c != '|' && c != '<' && c != '>'
    &&& c != '\'' && c != '"' && c != '$' && c != '\\'
}

proof fn lemma_lex_plain_run(s: Seq<char>, env: Seq<(Seq<char>, Seq<char>)>, i: int, n: int, w: Seq<char>)
    requires
        0 <= i <= n <= s.len(),
        forall|j: int| i <= j < n ==> is_plain(#[trigger] s[j]),
    ensures
        lex(s, env, i, Some(w)) == lex(s, env, n, Some(w + s.subrange(i, n))),
    decreases n - i,
{
    if i < n {
        lemma_lex_plain_run(s, env, i + 1, n, w.push(s[i]));
        assert(w.push(s[i]) + s.subrange(i + 1, n) =~= w + s.subrange(i, n));
    } else {
        assert(w + s.subrange(i, n) =~= w);
    }
}

/// Outside quotes, white space only separates words: a word of plain
/// characters followed by a white-space character gives that word as a token,
/// followed by the tokens of the rest of the line.
pub proof fn law_whitespace_separates_words(word: Seq<char>, sep: char, rest: Seq<char>, env: Seq<(Seq<char>, Seq<char>)>)
    requires
        word.len() > 0,
        forall|j: int| 0 <= j < word.len() ==> is_plain(#[trigger] word[j]),
        spec_is_whitespace(sep),
    ensures
        spec_tokenize(word + seq![sep] + rest, env) == prepend(seq![TokenView::Word(word)], spec_tokenize(rest, env)),
{
    let s = word + seq![sep] + rest;
    let n = word.len() as int;
    assert forall|j: int| 1 <= j < n implies is_plain(#[trigger] s[j]) by {
        assert(s[j] == word[j]);
    }
    assert(s[0] == word[0]);
    lemma_lex_plain_run(s, env, 1, n, seq![s[0]]);
    assert(seq![s[0]] + s.subrange(1, n) =~= word);
    assert(s[n] == sep);
    assert forall|d: int| 0 <= d < s.len() - (n + 1) implies #[trigger] s[(n + 1) + d] == rest[0 + d] by {
        assert(s[(n + 1) + d] == rest[d]);
    }
    lemma_lex_suffix(s, rest, env, n + 1, 0);
}

/// The tokens from an index on depend only on the text from there on.
pub proof fn lemma_lex_suffix(s: Seq<char>, u: Seq<char>, env: Seq<(Seq<char>, Seq<char>)>, i: int, j: int)
    requires
        same_from(s, i, u, j),
    ensures
        lex(s, env, i, None) == lex(u, env, j, None),
{
    lemma_lex_suffix_pend(s, u, env, i, j, None);
}

proof fn lemma_find_char_suffix(s: Seq<char>, u: Seq<char>, i: int, j: int, c: char)
    requires
        same_from(s, i, u, j),
    ensures
        find_char(s, i, c) - i == find_char(u, j, c) - j,
    decreases s.len() - i,
{
    if i < s.len() {
        lemma_same_from_step(s, i, u, j, 0);
        lemma_same_from_step(s, i, u, j, 1);
        if s[i] != c {
            lemma_find_char_suffix(s, u, i + 1, j + 1, c);
        }
    }
}

proof fn lemma_name_run_suffix(s: Seq<char>, u: Seq<char>, i: int, j: int)
    requires
        same_from(s, i, u, j),
    ensures
        crate::parser::name_run(s, i) - i == crate::parser::name_run(u, j) - j,
    decreases s.len() - i,
{
    if i < s.len() {
        lemma_same_from_step(s, i, u, j, 0);
        lemma_same_from_step(s, i, u, j, 1);
        if crate::parser::is_name_char(s[i]) {
            lemma_name_run_suffix(s, u, i + 1, j + 1);
        }
    }
}

proof fn lemma_read_var_suffix(s: Seq<char>, u: Seq<char>, env: Seq<(Seq<char>, Seq<char>)>, i: int, j: int)
    requires
        same_from(s, i, u, j),
        i < s.len(),
    ensures
        read_var(s, env, i).0 - i == read_var(u, env, j).0 - j,
        read_var(s, env, i).1 == read_var(u, env, j).1,
{
    lemma_same_from_step(s, i, u, j, 0);
    lemma_same_from_step(s, i, u, j, 1);
    if i + 2 <= s.len() {
        lemma_same_from_step(s, i, u, j, 2);
        lemma_find_char_suffix(s, u, i + 2, j + 2, '}');
        crate::parser::lemma_find_char_bounds(s, i + 2, '}');
        let k = find_char(s, i + 2, '}');
        lemma_same_from_subrange(s, i, u, j, i + 2, k);
        lemma_same_from_subrange(s, i, u, j, i + 2, s.len() as int);
        lemma_name_run_suffix(s, u, i + 2, j + 2);
        crate::parser::lemma_name_run_bounds(s, i + 2);
        let n = crate::parser::name_run(s, i + 2);
        lemma_same_from_subrange(s, i, u, j, i + 1, n);
    }
}

proof fn lemma_read_double_suffix(s: Seq<char>, u: Seq<char>, env: Seq<(Seq<char>, Seq<char>)>, i: int, j: int, acc: Seq<char>)
    requires
        same_from(s, i, u, j),
    ensures
        match read_double(s, env, i, acc) {
            Some((a, w)) => read_double(u, env, j, acc) == Some((a - i + j, w)),
            None => read_double(u, env, j, acc) is None,
        },
    decreases s.len() - i,
{
    if i < s.len() {
        lemma_same_from_step(s, i, u, j, 0);
        lemma_same_from_step(s, i, u, j, 1);
        if s[i] == '"' {
        } else if s[i] == '$' {
            lemma_read_var_suffix(s, u, env, i, j);
            lemma_read_var_bounds(s, env, i);
            let (a, v) = read_var(s, env, i);
            lemma_same_from_step(s, i, u, j, a - i);
            lemma_read_double_suffix(s, u, env, a, a - i + j, acc + v);
        } else if s[i] == '\\' {
            if i + 1 < s.len() && (s[i + 1] == '"' || s[i + 1] == '\\' || s[i + 1] == '$') {
                lemma_same_from_step(s, i, u, j, 2);
                lemma_read_double_suffix(s, u, env, i + 2, j + 2, acc.push(s[i + 1]));
            } else {
                lemma_read_double_suffix(s, u, env, i + 1, j + 1, acc.push('\\'));
            }
        } else {
            lemma_read_double_suffix(s, u, env, i + 1, j + 1, acc.push(s[i]));
        }
    }
}

proof fn lemma_lex_suffix_pend(s: Seq<char>, u: Seq<char>, env: Seq<(Seq<char>, Seq<char>)>, i: int, j: int, pend: Option<Seq<char>>)
    requires
        same_from(s, i, u, j),
    ensures
        lex(s, env, i, pend) == lex(u, env, j, pend),
    decreases s.len() - i,
{
    if i < s.len() {
        lemma_same_from_step(s, i, u, j, 0);
        lemma_same_from_step(s, i, u, j, 1);
        let c = s[i];
        if i + 2 <= s.len() {
            lemma_same_from_step(s, i, u, j, 2);
        }
        if spec_is_whitespace(c) || c == ';' || c == '|' || c == '<' {
            lemma_lex_suffix_pend(s, u, env, i + 1, j + 1, None);
        } else if c == '>' {
            if i + 1 < s.len() && s[i + 1] == '>' {
                lemma_lex_suffix_pend(s, u, env, i + 2, j + 2, None);
            } else {
                lemma_lex_suffix_pend(s, u, env, i + 1, j + 1, None);
            }
        } else if c == '\'' {
            lemma_find_char_suffix(s, u, i + 1, j + 1, '\'');
            crate::parser::lemma_find_char_bounds(s, i + 1, '\'');
            let k = find_char(s, i + 1, '\'');
            if k < s.len() {
                lemma_same_from_subrange(s, i, u, j, i + 1, k);
                lemma_same_from_step(s, i, u, j, k + 1 - i);
                lemma_lex_suffix_pend(s, u, env, k + 1, k + 1 - i + j, Some(crate::parser::word_of(pend) + s.subrange(i + 1, k)));
            }
        } else if c == '"' {
            let acc = crate::parser::word_of(pend);
            lemma_read_double_suffix(s, u, env, i + 1, j + 1, acc);
            crate::parser::lemma_read_double_bounds(s, env, i + 1, acc);
            if let Some((a, w)) = read_double(s, env, i + 1, acc) {
                lemma_same_from_step(s, i, u, j, a - i);
                lemma_lex_suffix_pend(s, u, env, a, a - i + j, Some(w));
            }
        } else if c == '$' {
            lemma_read_var_suffix(s, u, env, i, j);
            lemma_read_var_bounds(s, env, i);
            let (a, v) = read_var(s, env, i);
            lemma_same_from_step(s, i, u, j, a - i);
            lemma_lex_suffix_pend(s, u, env, a, a - i + j, Some(crate::parser::word_of(pend) + v));
        } else if c == '\\' {
            if i + 1 < s.len() {
                lemma_lex_suffix_pend(s, u, env, i + 2, j + 2, Some(crate::parser::word_of(pend).push(s[i + 1])));
            } else {
                lemma_lex_suffix_pend(s, u, env, i + 1, j + 1, Some(crate::parser::word_of(pend)));
            }
        } else {
            lemma_lex_suffix_pend(s, u, env, i + 1, j + 1, Some(crate::parser::word_of(pend).push(c)));
        }
    }
}

/// A variable that the environment does not set expands to nothing.
pub proof fn law_unset_variable_is_empty(env: Seq<(Seq<char>, Seq<char>)>, name: Seq<char>)
    requires
        forall|k: int| 0 <= k < env.len() ==> env[k].0 != name,
    ensures
        env_lookup(env, name) == Seq::<char>::empty(),
    decreases env.len(),
{
    if env.len() > 0 {
        assert forall|k: int| 0 <= k < env.drop_first().len() implies env.drop_first()[k].0 != name by {
            assert(env.drop_first()[k] == env[k + 1]);
        }
        law_unset_variable_is_empty(env.drop_first(), name);
    }
}

proof fn lemma_pipelines_from_suffix(t: Seq<TokenView>, u: Seq<TokenView>, i: int, j: int, stmt: Seq<TokenView>)
    requires
        same_from(t, i, u, j),
    ensures
        pipelines_from(t, i, stmt) == pipelines_from(u, j, stmt),
    decreases t.len() - i,
{
    if i < t.len() {
        lemma_same_from_step(t, i, u, j, 0);
        lemma_same_from_step(t, i, u, j, 1);
        if t[i] is Semicolon {
            lemma_pipelines_from_suffix(t, u, i + 1, j + 1, seq![]);
        } else {
            lemma_pipelines_from_suffix(t, u, i + 1, j + 1, stmt.push(t[i]));
        }
    }
}

proof fn lemma_trailing_semicolon(t: Seq<TokenView>, k: int, stmt: Seq<TokenView>)
    requires
        0 <= k <= t.len(),
    ensures
        pipelines_from(t.push(TokenView::Semicolon), k, stmt) == pipelines_from(t, k, stmt),
    decreases t.len() - k,
{
    let t2 = t.push(TokenView::Semicolon);
    if k < t.len() {
        assert(t2[k] == t[k]);
        if t[k] is Semicolon {
            lemma_trailing_semicolon(t, k + 1, seq![]);
        } else {
            lemma_trailing_semicolon(t, k + 1, stmt.push(t[k]));
        }
    } else {
        assert(t2[k] == TokenView::Semicolon);
        assert(pipelines_from(t2, k + 1, seq![]) == Ok::<Seq<Seq<CommandView>>, Seq<char>>(seq![]));
        if let Ok(p) = spec_pipeline(stmt) {
            assert(seq![p] + Seq::<Seq<CommandView>>::empty() =~= seq![p]);
        }
    }
}

/// A trailing `;` changes nothing.
pub proof fn law_trailing_semicolon_ignored(t: Seq<TokenView>)
    ensures
        spec_pipelines(t.push(TokenView::Semicolon)) == spec_pipelines(t),
{
    lemma_trailing_semicolon(t, 0, seq![]);
}

proof fn lemma_doubled_semicolon(a: Seq<TokenView>, b: Seq<TokenView>, k: int, stmt: Seq<TokenView>)
    requires
        0 <= k <= a.len(),
    ensures
        pipelines_from(a + seq![TokenView::Semicolon, TokenView::Semicolon] + b, k, stmt)
            == pipelines_from(a + seq![TokenView::Semicolon] + b, k, stmt),
    decreases a.len() - k,
{
    let x = a + seq![TokenView::Semicolon, TokenView::Semicolon] + b;
    let y = a + seq![TokenView::Semicolon] + b;
    let n = a.len() as int;
    if k < n {
        assert(x[k] == a[k]);
        assert(y[k] == a[k]);
        if a[k] is Semicolon {
            lemma_doubled_semicolon(a, b, k + 1, seq![]);
        } else {
            lemma_doubled_semicolon(a, b, k + 1, stmt.push(a[k]));
        }
    } else {
        assert(x[n] is Semicolon);
        assert(x[n + 1] is Semicolon);
        assert(y[n] is Semicolon);
        assert forall|d: int| 0 <= d < x.len() - (n + 2) implies #[trigger] x[(n + 2) + d] == y[(n + 1) + d] by {
            assert(x[(n + 2) + d] == b[d]);
            assert(y[(n + 1) + d] == b[d]);
        }
        lemma_pipelines_from_suffix(x, y, n + 2, n + 1, seq![]);
        assert(pipelines_from(x, n + 1, seq![]) == pipelines_from(x, n + 2, seq![]));
    }
}

/// A doubled `;` acts as a single one: the empty statement between them is
/// skipped.
pub proof fn law_doubled_semicolon_ignored(a: Seq<TokenView>, b: Seq<TokenView>)
    ensures
        spec_pipelines(a + seq![TokenView::Semicolon, TokenView::Semicolon] + b)
            == spec_pipelines(a + seq![TokenView::Semicolon] + b),
{
    lemma_doubled_semicolon(a, b, 0, seq![]);
}

proof fn lemma_redirect_at_end(t: Seq<TokenView>, op: TokenView, k: int, done: Seq<CommandView>, cur: CommandView)
    requires
        0 <= k <= t.len(),
        op is Less || op is Great || op is DGreat,
    ensures
        pipeline_from(t.push(op), k, done, cur) is Err,
    decreases t.len() + 1 - k,
{
    let t2 = t.push(op);
    if k < t.len() {
        assert(t2[k] == t[k]);
        match t[k] {
            TokenView::Word(w) => {
                lemma_redirect_at_end(t, op, k + 1, done, CommandView { argv: cur.argv.push(w), stdin: cur.stdin, stdout: cur.stdout });
            },
            TokenView::Pipe => {
                if cur.argv.len() > 0 {
                    lemma_redirect_at_end(t, op, k + 1, done.push(cur), CommandView { argv: seq![], stdin: None, stdout: None });
                }
            },
            TokenView::Less => {
                if let Some(f) = crate::parser::redirect_target(t2, k) {
                    if k + 2 <= t.len() {
                        lemma_redirect_at_end(t, op, k + 2, done, CommandView { argv: cur.argv, stdin: Some(f), stdout: cur.stdout });
                    } else {
                        assert(t2[k + 1] == op);
                    }
                }
            },
            TokenView::Great => {
                if let Some(f) = crate::parser::redirect_target(t2, k) {
                    if k + 2 <= t.len() {
                        lemma_redirect_at_end(t, op, k + 2, done, CommandView { argv: cur.argv, stdin: cur.stdin, stdout: Some((f, false)) });
                    } else {
                        assert(t2[k + 1] == op);
                    }
                }
            },
            TokenView::DGreat => {
                if let Some(f) = crate::parser::redirect_target(t2, k) {
                    if k + 2 <= t.len() {
                        lemma_redirect_at_end(t, op, k + 2, done, CommandView { argv: cur.argv, stdin: cur.stdin, stdout: Some((f, true)) });
                    } else {
                        assert(t2[k + 1] == op);
                    }
                }
            },
            TokenView::Semicolon => {},
        }
    } else {
        assert(t2[k] == op);
    }
}

/// A redirection operator with no file name after it is a syntax error.
pub proof fn law_redirection_needs_target(stmt: Seq<TokenView>, op: TokenView)
    requires
        op is Less || op is Great || op is DGreat,
    ensures
        spec_pipeline(stmt.push(op)) is Err,
{
    lemma_redirect_at_end(stmt, op, 0, seq![], CommandView { argv: seq![], stdin: None, stdout: None });
}


/// The number of `;`-separated statements holding at least one token, from
/// token `k` on, when the statement being collected already holds one
/// (`open`) or not.
pub open spec fn statement_count(t: Seq<TokenView>, k: int, open: bool) -> nat
    decreases t.len() - k,
{
    if k < 0 || k >= t.len() {
        if open { 1 } else { 0 }
    } else if t[k] is Semicolon {
        (if open { 1nat } else { 0nat }) + statement_count(t, k + 1, false)
    } else {
        statement_count(t, k + 1, true)
    }
}

proof fn lemma_statement_count(t: Seq<TokenView>, k: int, stmt: Seq<TokenView>)
    requires
        0 <= k <= t.len(),
    ensures
        pipelines_from(t, k, stmt) matches Ok(ps) ==> ps.len() == statement_count(t, k, stmt.len() > 0),
    decreases t.len() - k,
{
    if k < t.len() {
        if t[k] is Semicolon {
            lemma_statement_count(t, k + 1, seq![]);
        } else {
            lemma_statement_count(t, k + 1, stmt.push(t[k]));
        }
    }
}

/// Parsing gives one pipeline for each `;`-separated statement that holds a
/// token: the empty statements of a trailing or doubled `;` are dropped.
pub proof fn law_one_pipeline_per_statement(input: Seq<char>, env: Seq<(Seq<char>, Seq<char>)>)
    ensures
        spec_parse(input, env) matches Ok(ps) ==> spec_tokenize(input, env) matches Ok(t) && ps.len()
            == statement_count(t, 0, false),
{
    if let Ok(t) = spec_tokenize(input, env) {
        lemma_statement_count(t, 0, seq![]);
    }
}

/// The words of `s` from index `i` on, given the word `cur` begun before it:
/// the maximal runs of characters that are not white space, in order.
pub open spec fn words_from(s: Seq<char>, i: int, cur: Option<Seq<char>>) -> Seq<Seq<char>>
    decreases s.len() - i,
{
    if i < 0 || i >= s.len() {
        match cur {
            Some(w) => seq![w],
            None => seq![],
        }
    } else if spec_is_whitespace(s[i]) {
        (match cur {
            Some(w) => seq![w],
            None => seq![],
        }) + words_from(s, i + 1, None)
    } else {
        words_from(s, i + 1, Some(word_of(cur).push(s[i])))
    }
}

/// The words of `s`, as `str::split_whitespace` gives them.
pub open spec fn whitespace_words(s: Seq<char>) -> Seq<Seq<char>> {
    words_from(s, 0, None)
}

pub open spec fn as_word_tokens(ws: Seq<Seq<char>>) -> Seq<TokenView> {
    ws.map_values(|w: Seq<char>| TokenView::Word(w))
}

proof fn lemma_plain_words(s: Seq<char>, env: Seq<(Seq<char>, Seq<char>)>, i: int, cur: Option<Seq<char>>)
    requires
        0 <= i <= s.len(),
        forall|j: int| 0 <= j < s.len() ==> spec_is_whitespace(#[trigger] s[j]) || is_plain(s[j]),
    ensures
        lex(s, env, i, cur) == Ok::<Seq<TokenView>, Seq<char>>(as_word_tokens(words_from(s, i, cur))),
    decreases s.len() - i,
{
    if i < s.len() {
        let c = s[i];
        if spec_is_whitespace(c) {
            lemma_plain_words(s, env, i + 1, None);
            let front = match cur {
                Some(w) => seq![w],
                None => seq![],
            };
            assert(as_word_tokens(front + words_from(s, i + 1, None)) =~= flush(cur) + as_word_tokens(
                words_from(s, i + 1, None),
            ));
        } else {
            assert(is_plain(c));
            lemma_plain_words(s, env, i + 1, Some(word_of(cur).push(c)));
        }
    } else {
        assert(as_word_tokens(match cur {
            Some(w) => seq![w],
            None => seq![],
        }) =~= flush(cur));
    }
}

/// On a line without quotes, backslashes, `$`, `;`, `|`, `<` or `>`, the
/// tokens are its white-space-separated words: a run of white space only
/// separates arguments.
pub proof fn law_plain_line_is_its_words(s: Seq<char>, env: Seq<(Seq<char>, Seq<char>)>)
    requires
        forall|j: int| 0 <= j < s.len() ==> spec_is_whitespace(#[trigger] s[j]) || is_plain(s[j]),
    ensures
        spec_tokenize(s, env) == Ok::<Seq<TokenView>, Seq<char>>(as_word_tokens(whitespace_words(s))),
{
    lemma_plain_words(s, env, 0, None);
}

proof fn lemma_name_run_to_end(s: Seq<char>, i: int)
    requires
        0 <= i <= s.len(),
        forall|j: int| i <= j < s.len() ==> is_name_char(#[trigger] s[j]),
    ensures
        name_run(s, i) == s.len(),
    decreases s.len() - i,
{
    if i < s.len() {
        lemma_name_run_to_end(s, i + 1);
    }
}

/// A word that is just `$NAME` (a letter or `_`, then letters, digits and
/// `_`) or `${NAME}` becomes the variable's value: that of the first setting
/// of `NAME` in the environment.
pub proof fn law_variable_expands_to_its_value(name: Seq<char>, env: Seq<(Seq<char>, Seq<char>)>)
    requires
        name.len() > 0,
        forall|j: int| 0 <= j < name.len() ==> #[trigger] name[j] != '}',
    ensures
        (forall|j: int| 0 <= j < name.len() ==> is_name_char(#[trigger] name[j])) && !is_digit(name[0]) ==> spec_tokenize(
            seq!['$'] + name,
            env,
        ) == Ok::<Seq<TokenView>, Seq<char>>(seq![TokenView::Word(env_lookup(env, name))]),
        spec_tokenize(seq!['$', '{'] + name + seq!['}'], env) == Ok::<Seq<TokenView>, Seq<char>>(
            seq![TokenView::Word(env_lookup(env, name))],
        ),
{
    let s = seq!['$'] + name;
    if (forall|j: int| 0 <= j < name.len() ==> is_name_char(#[trigger] name[j])) && !is_digit(name[0]) {
        assert(s[1] == name[0]);
        assert forall|j: int| 2 <= j < s.len() implies is_name_char(#[trigger] s[j]) by {
            assert(s[j] == name[j - 1]);
        }
        lemma_name_run_to_end(s, 2);
        assert(s.subrange(1, s.len() as int) =~= name);
        assert(lex(s, env, 0, None) == lex(s, env, s.len() as int, Some(Seq::<char>::empty() + env_lookup(env, name))));
        assert(Seq::<char>::empty() + env_lookup(env, name) =~= env_lookup(env, name));
    }
    let b = seq!['$', '{'] + name + seq!['}'];
    let k = b.len() - 1;
    assert forall|j: int| 2 <= j < k implies b[j] != '}' by {
        assert(b[j] == name[j - 2]);
    }
    lemma_find_char_is(b, 2, k, '}');
    assert(b.subrange(2, k) =~= name);
    assert(lex(b, env, 0, None) == lex(b, env, b.len() as int, Some(Seq::<char>::empty() + env_lookup(env, name))));
    assert(Seq::<char>::empty() + env_lookup(env, name) =~= env_lookup(env, name));
}

/// A variable's value is that of its first setting in the environment.
pub proof fn law_lookup_finds_first_setting(env: Seq<(Seq<char>, Seq<char>)>, name: Seq<char>, k: int)
    requires
        0 <= k < env.len(),
        env[k].0 == name,
        forall|j: int| 0 <= j < k ==> #[trigger] env[j].0 != name,
    ensures
        env_lookup(env, name) == env[k].1,
    decreases k,
{
    if k > 0 {
        let rest = env.drop_first();
        assert(env[0].0 != name);
        assert forall|j: int| 0 <= j < k - 1 implies #[trigger] rest[j].0 != name by {
            assert(rest[j] == env[j + 1]);
        }
        law_lookup_finds_first_setting(rest, name, k - 1);
    }
}
} // verus!
