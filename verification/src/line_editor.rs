//! A small line editor for interactive use, driven one input byte at a time.
//! It provides cursor movement, command history (Up/Down) and Tab
//! completion, and treats Ctrl+C and Ctrl+D the way a shell should.
//!
//! The editor decides; the caller reads the terminal, writes what the editor
//! answers, and lists directories for path completion. Only single-line
//! editing is supported, which keeps the rendering simple and predictable.

use vstd::prelude::*;
use vstd::string::StringExecFns;
use crate::sorting::{is_sorted_order, keys_view, sorted_order, spec_sorted_order};
use crate::text::{chars_of, is_whitespace, push_char, push_chars, spec_decimal, spec_is_whitespace, string_of, strings_view};

verus! {

/// The result of reading one line of input.
pub enum Line {
    /// A completed line (without its trailing newline).
    Input(String),
    /// The user pressed Ctrl+C; the current line was abandoned.
    Interrupted,
    /// End of input (Ctrl+D on an empty line).
    Eof,
}

pub enum LineView {
    Input(Seq<char>),
    Interrupted,
    Eof,
}

impl View for Line {
    type V = LineView;

    open spec fn view(&self) -> LineView {
        match self {
            Line::Input(s) => LineView::Input(s@),
            Line::Interrupted => LineView::Interrupted,
            Line::Eof => LineView::Eof,
        }
    }
}

/// `s` without the line breaks (`\r` and `\n`, in any number) at its end.
pub open spec fn without_line_end(s: Seq<char>) -> Seq<char>
    decreases s.len(),
{
    if s.len() > 0 && (s.last() == '\r' || s.last() == '\n') {
        without_line_end(s.drop_last())
    } else {
        s
    }
}

/// The line that a plain read of `count` bytes, giving the text `raw`,
/// amounts to: nothing read is the end of input; otherwise the text without
/// its line ending.
pub fn read_result_line(raw: &str, count: usize) -> (l: Line)
    ensures
        l@ == if count == 0 {
            LineView::Eof
        } else {
            LineView::Input(without_line_end(raw@))
        },
{
    if count == 0 {
        return Line::Eof;
    }
    let chars = chars_of(raw);
    let mut end: usize = chars.len();
    assert(chars@.take(end as int) =~= raw@);
    while end > 0 && (chars[end - 1] == '\r' || chars[end - 1] == '\n')
        invariant
            end <= chars@.len(),
            without_line_end(chars@.take(end as int)) == without_line_end(raw@),
        decreases end,
    {
        assert(chars@.take(end as int).drop_last() =~= chars@.take(end - 1));
        end -= 1;
    }
    let mut text = String::new();
    let mut k: usize = 0;
    while k < end
        invariant
            end <= chars@.len(),
            k <= end,
            text@ == chars@.take(k as int),
        decreases end - k,
    {
        push_char(&mut text, chars[k]);
        k += 1;
        assert(text@ =~= chars@.take(k as int));
    }
    Line::Input(text)
}

/// Bytes of a key that the editor has started but not finished reading.
#[derive(Clone, Debug, PartialEq, Eq)]
pub enum Pending {
    /// Nothing: the next byte starts a key.
    Ready,
    /// After an escape byte: `[` or `O` may follow.
    Escape,
    /// After `ESC [` or `ESC O`: the key code follows.
    EscapeCode,
    /// Within `ESC [ digits ~`, with the number read so far.
    EscapeNumber(u32),
    /// Within a multi-byte character: the bytes so far and how many remain.
    Char(Vec<u8>, usize),
}

pub enum PendingView {
    Ready,
    Escape,
    EscapeCode,
    EscapeNumber(u32),
    Char(Seq<u8>, int),
}

impl View for Pending {
    type V = PendingView;

    open spec fn view(&self) -> PendingView {
        match self {
            Pending::Ready => PendingView::Ready,
            Pending::Escape => PendingView::Escape,
            Pending::EscapeCode => PendingView::EscapeCode,
            Pending::EscapeNumber(n) => PendingView::EscapeNumber(*n),
            Pending::Char(b, k) => PendingView::Char(b@, *k as int),
        }
    }
}

/// The state of the line being edited.
pub struct EditState {
    /// The characters of the line.
    pub buf: Seq<char>,
    /// The cursor, as an index into `buf`.
    pub cursor: int,
    /// The history entry shown; the number of entries means a fresh line.
    pub hist_pos: int,
    /// The fresh line, kept while browsing the history.
    pub stash: Seq<char>,
    /// Bytes of a key still being read.
    pub pending: PendingView,
}

/// What the editor answers to one byte: text to write to the terminal, the
/// line when reading ends, and whether Tab completion was asked for.
pub struct Reaction {
    pub output: String,
    pub line: Option<Line>,
    pub wants_completion: bool,
}

/// A line editor for one prompt.
pub struct Editor {
    prompt: String,
    prompt_width: usize,
    buf: Vec<char>,
    cursor: usize,
    hist_len: usize,
    hist_pos: usize,
    stash: Vec<char>,
    pending: Pending,
}

// ---------------------------------------------------------------------------
// Editing, as a specification
// ---------------------------------------------------------------------------

pub open spec fn with_line(s: EditState, buf: Seq<char>, cursor: int) -> EditState {
    EditState { buf, cursor, hist_pos: s.hist_pos, stash: s.stash, pending: s.pending }
}

pub open spec fn with_pending(s: EditState, p: PendingView) -> EditState {
    EditState { buf: s.buf, cursor: s.cursor, hist_pos: s.hist_pos, stash: s.stash, pending: p }
}

/// Inserts a character at the cursor and moves past it.
pub open spec fn insert_char(s: EditState, c: char) -> EditState {
    with_line(s, s.buf.insert(s.cursor, c), s.cursor + 1)
}

/// Deletes the character before the cursor, if any.
pub open spec fn backspace(s: EditState) -> EditState {
    if s.cursor > 0 {
        with_line(s, s.buf.remove(s.cursor - 1), s.cursor - 1)
    } else {
        s
    }
}

/// Deletes the character under the cursor, if any.
pub open spec fn delete_char(s: EditState) -> EditState {
    if s.cursor < s.buf.len() {
        with_line(s, s.buf.remove(s.cursor), s.cursor)
    } else {
        s
    }
}

pub open spec fn move_left(s: EditState) -> EditState {
    if s.cursor > 0 { with_line(s, s.buf, s.cursor - 1) } else { s }
}

pub open spec fn move_right(s: EditState) -> EditState {
    if s.cursor < s.buf.len() { with_line(s, s.buf, s.cursor + 1) } else { s }
}

pub open spec fn move_home(s: EditState) -> EditState {
    with_line(s, s.buf, 0)
}

pub open spec fn move_end(s: EditState) -> EditState {
    with_line(s, s.buf, s.buf.len() as int)
}

/// Replaces the line with the previous history entry, if any; leaving the
/// fresh line stashes it.
pub open spec fn spec_history_prev(s: EditState, history: Seq<Seq<char>>) -> EditState {
    if s.hist_pos == 0 {
        s
    } else {
        let stash = if s.hist_pos == history.len() { s.buf } else { s.stash };
        let pos = s.hist_pos - 1;
        EditState { buf: history[pos], cursor: history[pos].len() as int, hist_pos: pos, stash, pending: s.pending }
    }
}

/// Moves forward through history, restoring the stashed line at the end.
pub open spec fn spec_history_next(s: EditState, history: Seq<Seq<char>>) -> EditState {
    if s.hist_pos >= history.len() {
        s
    } else {
        let pos = s.hist_pos + 1;
        let buf = if pos == history.len() { s.stash } else { history[pos] };
        EditState { buf, cursor: buf.len() as int, hist_pos: pos, stash: s.stash, pending: s.pending }
    }
}

/// What redraws the line: return to column 0, clear the line, print the
/// prompt and the line, return to column 0 again and move right by the
/// prompt's width plus the cursor.
pub open spec fn spec_render(prompt: Seq<char>, prompt_width: nat, buf: Seq<char>, cursor: nat) -> Seq<char> {
    let target = prompt_width + cursor;
    "\r\x1b[K"@ + prompt + buf + "\r"@ + if target > 0 {
        "\x1b["@ + spec_decimal(target) + "C"@
    } else {
        seq![]
    }
}

/// How many continuation bytes follow a leading byte; `None` for a byte
/// that cannot lead a character.
pub open spec fn utf8_extra(b: u8) -> Option<int> {
    if b < 0x80 {
        Some(0)
    } else if 0xc0 <= b && b < 0xe0 {
        Some(1)
    } else if 0xe0 <= b && b < 0xf0 {
        Some(2)
    } else if 0xf0 <= b && b < 0xf8 {
        Some(3)
    } else {
        None
    }
}

/// The character that a complete sequence of bytes encodes, if they are one
/// valid UTF-8 character.
pub open spec fn decode_char(bytes: Seq<u8>) -> Option<char> {
    if vstd::utf8::valid_utf8(bytes) && vstd::utf8::decode_utf8(bytes).len() > 0 {
        Some(vstd::utf8::decode_utf8(bytes)[0])
    } else {
        None
    }
}

/// The action of an extended key `ESC [ n ~`: Home (1, 7), End (4, 8) or
/// Delete (3); other numbers do nothing.
pub open spec fn numbered_key(s: EditState, n: u32) -> EditState {
    if n == 1 || n == 7 {
        move_home(s)
    } else if n == 4 || n == 8 {
        move_end(s)
    } else if n == 3 {
        delete_char(s)
    } else {
        s
    }
}

/// The outcome of a byte: the new state, the text written, the line when
/// reading ends, and whether completion is asked for.
pub struct Step {
    pub state: EditState,
    pub output: Seq<char>,
    pub line: Option<LineView>,
    pub wants_completion: bool,
}

pub open spec fn quiet(s: EditState) -> Step {
    Step { state: s, output: seq![], line: None, wants_completion: false }
}

pub open spec fn redraw(prompt: Seq<char>, pw: nat, s: EditState) -> Step {
    Step { state: s, output: spec_render(prompt, pw, s.buf, s.cursor as nat), line: None, wants_completion: false }
}

pub open spec fn ready(s: EditState) -> EditState {
    with_pending(s, PendingView::Ready)
}

/// What one input byte does.
pub open spec fn spec_step(prompt: Seq<char>, pw: nat, s: EditState, b: u8, history: Seq<Seq<char>>) -> Step {
    match s.pending {
        PendingView::Ready => {
            if b == 0x0d || b == 0x0a {
                Step { state: s, output: "\r\n"@, line: Some(LineView::Input(s.buf)), wants_completion: false }
            } else if b == 0x03 {
                // Ctrl+C: abandon the line and let the shell reprompt.
                Step { state: s, output: "^C\r\n"@, line: Some(LineView::Interrupted), wants_completion: false }
            } else if b == 0x04 {
                // Ctrl+D: end of input only when the line is empty.
                if s.buf.len() == 0 {
                    Step { state: s, output: "\r\n"@, line: Some(LineView::Eof), wants_completion: false }
                } else {
                    quiet(s)
                }
            } else if b == 0x7f || b == 0x08 {
                if s.cursor > 0 { redraw(prompt, pw, backspace(s)) } else { quiet(s) }
            } else if b == 0x01 {
                redraw(prompt, pw, move_home(s))
            } else if b == 0x05 {
                redraw(prompt, pw, move_end(s))
            } else if b == 0x09 {
                Step { state: s, output: seq![], line: None, wants_completion: true }
            } else if b == 0x1b {
                quiet(with_pending(s, PendingView::Escape))
            } else if b >= 0x20 {
                match utf8_extra(b) {
                    Some(extra) => if extra == 0 {
                        redraw(prompt, pw, insert_char(s, b as char))
                    } else {
                        quiet(with_pending(s, PendingView::Char(seq![b], extra)))
                    },
                    None => quiet(s),
                }
            } else {
                quiet(s)
            }
        },
        PendingView::Escape => {
            if b == 0x5b || b == 0x4f {
                quiet(with_pending(s, PendingView::EscapeCode))
            } else {
                quiet(ready(s))
            }
        },
        PendingView::EscapeCode => {
            let r = ready(s);
            if b == 0x41 {
                redraw(prompt, pw, spec_history_prev(r, history))
            } else if b == 0x42 {
                redraw(prompt, pw, spec_history_next(r, history))
            } else if b == 0x43 {
                redraw(prompt, pw, move_right(r))
            } else if b == 0x44 {
                redraw(prompt, pw, move_left(r))
            } else if b == 0x48 {
                redraw(prompt, pw, move_home(r))
            } else if b == 0x46 {
                redraw(prompt, pw, move_end(r))
            } else if 0x30 <= b && b <= 0x39 {
                quiet(with_pending(s, PendingView::EscapeNumber((b - 0x30) as u32)))
            } else {
                redraw(prompt, pw, r)
            }
        },
        PendingView::EscapeNumber(n) => {
            if 0x30 <= b && b <= 0x39 {
                quiet(with_pending(s, PendingView::EscapeNumber(n.wrapping_mul(10).wrapping_add((b - 0x30) as u32))))
            } else {
                redraw(prompt, pw, numbered_key(ready(s), n))
            }
        },
        PendingView::Char(bytes, remaining) => {
            let all = bytes.push(b);
            if remaining > 1 {
                quiet(with_pending(s, PendingView::Char(all, remaining - 1)))
            } else {
                match decode_char(all) {
                    Some(c) => redraw(prompt, pw, insert_char(ready(s), c)),
                    None => quiet(ready(s)),
                }
            }
        },
    }
}

/// What the end of input does: a pending `ESC [ n` takes effect, then
/// reading ends as for Ctrl+D, with a newline only when the line is empty.
pub open spec fn spec_end(prompt: Seq<char>, pw: nat, s: EditState) -> Step {
    let (t, out) = match s.pending {
        PendingView::EscapeNumber(n) => {
            let t = numbered_key(ready(s), n);
            (t, spec_render(prompt, pw, t.buf, t.cursor as nat))
        },
        _ => (ready(s), seq![]),
    };
    Step {
        state: t,
        output: out + if t.buf.len() == 0 { "\r\n"@ } else { seq![] },
        line: Some(LineView::Eof),
        wants_completion: false,
    }
}

/// A state the editor can be in: the cursor within the line, the history
/// position within the history, and a sane partial character.
pub open spec fn state_wf(s: EditState, hist_len: int) -> bool {
    &&& 0 <= s.cursor <= s.buf.len()
    &&& 0 <= s.hist_pos <= hist_len
    &&& s.pending matches PendingView::Char(bytes, remaining) ==> 1 <= bytes.len() && 1 <= remaining && bytes.len() + remaining <= 4
}


// ---------------------------------------------------------------------------
// The editor
// ---------------------------------------------------------------------------

pub open spec fn line_view(l: Option<Line>) -> Option<LineView> {
    match l {
        Some(x) => Some(x@),
        None => None,
    }
}

/// Decodes bytes as UTF-8.
///
/// Calls `std::str::from_utf8`, which accepts exactly the well-formed UTF-8
/// sequences; the text it gives is what the bytes encode.
#[verifier::external_body]
fn utf8_text(bytes: &[u8]) -> (r: Option<String>)
    ensures
        match r {
            Some(t) => vstd::utf8::valid_utf8(bytes@) && t@ == vstd::utf8::decode_utf8(bytes@),
            None => !vstd::utf8::valid_utf8(bytes@),
        },
{
    match std::str::from_utf8(bytes) {
        Ok(t) => Some(t.to_owned()),
        Err(_) => None,
    }
}

/// Assembles a full (possibly multi-byte UTF-8) character from its bytes.
fn read_char(bytes: &[u8]) -> (r: Option<char>)
    ensures
        r == decode_char(bytes@),
{
    match utf8_text(bytes) {
        Some(t) => {
            let cs = chars_of(t.as_str());
            if cs.len() > 0 {
                Some(cs[0])
            } else {
                None
            }
        },
        None => None,
    }
}

fn render_text(prompt: &String, prompt_width: usize, buf: &Vec<char>, cursor: usize) -> (r: String)
    ensures
        r@ == spec_render(prompt@, prompt_width as nat, buf@, cursor as nat),
{
    let mut out = "\r\x1b[K".to_owned();
    out.append(prompt.as_str());
    push_chars(&mut out, buf.as_slice());
    out.append("\r");
    // Move the cursor to the correct column: carriage-return to column 0,
    // then forward by prompt width plus the cursor offset.
    let target: u128 = prompt_width as u128 + cursor as u128;
    if target > 0 {
        out.append("\x1b[");
        push_chars(&mut out, crate::text::decimal(target).as_slice());
        out.append("C");
    }
    out
}

fn text(s: &'static str) -> (r: String)
    ensures
        r@ == s@,
{
    s.to_owned()
}

impl Editor {
    /// The state of the line being edited.
    pub closed spec fn state(&self) -> EditState {
        EditState {
            buf: self.buf@,
            cursor: self.cursor as int,
            hist_pos: self.hist_pos as int,
            stash: self.stash@,
            pending: self.pending@,
        }
    }

    /// The prompt shown before the line.
    pub closed spec fn prompt(&self) -> Seq<char> {
        self.prompt@
    }

    /// The visible width of the prompt, in columns.
    pub closed spec fn prompt_width(&self) -> nat {
        self.prompt_width as nat
    }

    /// The number of history entries the editor browses.
    pub closed spec fn history_len(&self) -> nat {
        self.hist_len as nat
    }

    /// The editor's state is one it can be in.
    pub open spec fn wf(&self) -> bool {
        state_wf(self.state(), self.history_len() as int)
    }

    /// A fresh, empty line after `prompt` (whose visible width is
    /// `prompt_width` columns, excluding any colour escapes), with
    /// `history_len` history entries to browse.
    pub fn new(prompt: String, prompt_width: usize, history_len: usize) -> (e: Editor)
        ensures
            e.wf(),
            e.prompt() == prompt@,
            e.prompt_width() == prompt_width,
            e.history_len() == history_len,
            e.state() == (EditState {
                buf: seq![],
                cursor: 0,
                hist_pos: history_len as int,
                stash: seq![],
                pending: PendingView::Ready,
            }),
    {
        let e = Editor {
            prompt,
            prompt_width,
            buf: Vec::new(),
            cursor: 0,
            hist_len: history_len,
            hist_pos: history_len,
            stash: Vec::new(),
            pending: Pending::Ready,
        };
        assert(e.state().buf =~= Seq::<char>::empty());
        assert(e.state().stash =~= Seq::<char>::empty());
        e
    }

    /// The characters of the line.
    pub fn line(&self) -> (r: String)
        ensures
            r@ == self.state().buf,
    {
        string_of(self.buf.as_slice())
    }

    /// The cursor position within the line.
    pub fn cursor(&self) -> (r: usize)
        ensures
            r == self.state().cursor,
    {
        self.cursor
    }

    /// What redraws the current line.
    pub fn render(&self) -> (r: String)
        ensures
            r@ == spec_render(self.prompt(), self.prompt_width(), self.state().buf, self.state().cursor as nat),
    {
        render_text(&self.prompt, self.prompt_width, &self.buf, self.cursor)
    }

    fn reply(&self, redraw: bool) -> (r: Reaction)
        ensures
            r.output@ == (if redraw { spec_render(self.prompt(), self.prompt_width(), self.state().buf, self.state().cursor as nat) } else { Seq::<char>::empty() }),
            r.line is None,
            !r.wants_completion,
    {
        Reaction { output: if redraw { self.render() } else { String::new() }, line: None, wants_completion: false }
    }

    fn insert(&mut self, c: char)
        requires
            old(self).wf(),
            old(self).state().pending is Ready,
        ensures
            final(self).state() == insert_char(old(self).state(), c),
            final(self).wf(),
            final(self).prompt() == old(self).prompt(),
            final(self).prompt_width() == old(self).prompt_width(),
            final(self).history_len() == old(self).history_len(),
    {
        self.buf.insert(self.cursor, c);
        let n = self.buf.len();
        self.cursor = self.cursor + 1;
    }

    fn backspace(&mut self)
        requires
            old(self).wf(),
        ensures
            final(self).state() == backspace(old(self).state()),
            final(self).wf(),
            final(self).prompt() == old(self).prompt(),
            final(self).prompt_width() == old(self).prompt_width(),
            final(self).history_len() == old(self).history_len(),
    {
        if self.cursor > 0 {
            self.buf.remove(self.cursor - 1);
            self.cursor = self.cursor - 1;
        }
    }

    fn delete(&mut self)
        requires
            old(self).wf(),
        ensures
            final(self).state() == delete_char(old(self).state()),
            final(self).wf(),
            final(self).prompt() == old(self).prompt(),
            final(self).prompt_width() == old(self).prompt_width(),
            final(self).history_len() == old(self).history_len(),
    {
        if self.cursor < self.buf.len() {
            self.buf.remove(self.cursor);
        }
    }

    fn numbered_key(&mut self, n: u32)
        requires
            old(self).wf(),
        ensures
            final(self).state() == numbered_key(old(self).state(), n),
            final(self).wf(),
            final(self).prompt() == old(self).prompt(),
            final(self).prompt_width() == old(self).prompt_width(),
            final(self).history_len() == old(self).history_len(),
    {
        if n == 1 || n == 7 {
            self.cursor = 0;
        } else if n == 4 || n == 8 {
            self.cursor = self.buf.len();
        } else if n == 3 {
            self.delete();
        }
    }

    /// Replaces the edit buffer with the previous history entry, if any.
    fn history_prev(&mut self, history: &[String])
        requires
            old(self).wf(),
            history@.len() == old(self).history_len(),
        ensures
            final(self).state() == spec_history_prev(old(self).state(), strings_view(history@)),
            final(self).wf(),
            final(self).prompt() == old(self).prompt(),
            final(self).prompt_width() == old(self).prompt_width(),
            final(self).history_len() == old(self).history_len(),
    {
        if self.hist_pos == 0 {
            return;
        }
        if self.hist_pos == history.len() {
            self.stash = self.buf.clone();
        }
        self.hist_pos = self.hist_pos - 1;
        self.buf = chars_of(history[self.hist_pos].as_str());
        self.cursor = self.buf.len();
    }

    /// Moves forward through history, restoring the stashed line at the end.
    fn history_next(&mut self, history: &[String])
        requires
            old(self).wf(),
            history@.len() == old(self).history_len(),
        ensures
            final(self).state() == spec_history_next(old(self).state(), strings_view(history@)),
            final(self).wf(),
            final(self).prompt() == old(self).prompt(),
            final(self).prompt_width() == old(self).prompt_width(),
            final(self).history_len() == old(self).history_len(),
    {
        if self.hist_pos >= history.len() {
            return;
        }
        self.hist_pos = self.hist_pos + 1;
        self.buf = if self.hist_pos == history.len() {
            self.stash.clone()
        } else {
            chars_of(history[self.hist_pos].as_str())
        };
        self.cursor = self.buf.len();
    }

    /// Answers one input byte.
    pub fn feed(&mut self, b: u8, history: &[String]) -> (r: Reaction)
        requires
            old(self).wf(),
            history@.len() == old(self).history_len(),
        ensures
            final(self).wf(),
            final(self).prompt() == old(self).prompt(),
            final(self).prompt_width() == old(self).prompt_width(),
            final(self).history_len() == old(self).history_len(),
            ({
                let st = spec_step(old(self).prompt(), old(self).prompt_width(), old(self).state(), b, strings_view(history@));
                &&& final(self).state() == st.state
                &&& r.output@ == st.output
                &&& line_view(r.line) == st.line
                &&& r.wants_completion == st.wants_completion
            }),
    {
        match self.pending {
            Pending::Ready => self.feed_ready(b),
            Pending::Escape => {
                if b == 0x5b || b == 0x4f {
                    self.pending = Pending::EscapeCode;
                } else {
                    self.pending = Pending::Ready;
                }
                self.reply(false)
            },
            Pending::EscapeCode => self.feed_code(b, history),
            Pending::EscapeNumber(n) => {
                if 0x30 <= b && b <= 0x39 {
                    self.pending = Pending::EscapeNumber(n.wrapping_mul(10).wrapping_add((b - 0x30) as u32));
                    self.reply(false)
                } else {
                    self.pending = Pending::Ready;
                    self.numbered_key(n);
                    self.reply(true)
                }
            },
            Pending::Char(_, _) => self.feed_char(b),
        }
    }

    fn feed_ready(&mut self, b: u8) -> (r: Reaction)
        requires
            old(self).wf(),
            old(self).state().pending is Ready,
        ensures
            final(self).wf(),
            final(self).prompt() == old(self).prompt(),
            final(self).prompt_width() == old(self).prompt_width(),
            final(self).history_len() == old(self).history_len(),
            ({
                let st = spec_step(old(self).prompt(), old(self).prompt_width(), old(self).state(), b, seq![]);
                &&& final(self).state() == st.state
                &&& r.output@ == st.output
                &&& line_view(r.line) == st.line
                &&& r.wants_completion == st.wants_completion
            }),
    {
        if b == 0x0d || b == 0x0a {
            let l = string_of(self.buf.as_slice());
            Reaction { output: text("\r\n"), line: Some(Line::Input(l)), wants_completion: false }
        } else if b == 0x03 {
            Reaction { output: text("^C\r\n"), line: Some(Line::Interrupted), wants_completion: false }
        } else if b == 0x04 {
            if self.buf.len() == 0 {
                Reaction { output: text("\r\n"), line: Some(Line::Eof), wants_completion: false }
            } else {
                self.reply(false)
            }
        } else if b == 0x7f || b == 0x08 {
            if self.cursor > 0 {
                self.backspace();
                self.reply(true)
            } else {
                self.reply(false)
            }
        } else if b == 0x01 {
            self.cursor = 0;
            self.reply(true)
        } else if b == 0x05 {
            self.cursor = self.buf.len();
            self.reply(true)
        } else if b == 0x09 {
            Reaction { output: String::new(), line: None, wants_completion: true }
        } else if b == 0x1b {
            self.pending = Pending::Escape;
            self.reply(false)
        } else if b >= 0x20 {
            if b < 0x80 {
                self.insert(b as char);
                self.reply(true)
            } else if 0xc0 <= b && b < 0xe0 {
                self.start_char(b, 1)
            } else if 0xe0 <= b && b < 0xf0 {
                self.start_char(b, 2)
            } else if 0xf0 <= b && b < 0xf8 {
                self.start_char(b, 3)
            } else {
                self.reply(false)
            }
        } else {
            self.reply(false)
        }
    }

    fn start_char(&mut self, b: u8, extra: usize) -> (r: Reaction)
        requires
            old(self).wf(),
            1 <= extra <= 3,
        ensures
            final(self).wf(),
            final(self).prompt() == old(self).prompt(),
            final(self).prompt_width() == old(self).prompt_width(),
            final(self).history_len() == old(self).history_len(),
            final(self).state() == with_pending(old(self).state(), PendingView::Char(seq![b], extra as int)),
            r.output@ == Seq::<char>::empty(),
            r.line is None,
            !r.wants_completion,
    {
        let mut v: Vec<u8> = Vec::new();
        v.push(b);
        assert(v@ =~= seq![b]);
        self.pending = Pending::Char(v, extra);
        self.reply(false)
    }

    fn feed_code(&mut self, b: u8, history: &[String]) -> (r: Reaction)
        requires
            old(self).wf(),
            old(self).state().pending is EscapeCode,
            history@.len() == old(self).history_len(),
        ensures
            final(self).wf(),
            final(self).prompt() == old(self).prompt(),
            final(self).prompt_width() == old(self).prompt_width(),
            final(self).history_len() == old(self).history_len(),
            ({
                let st = spec_step(old(self).prompt(), old(self).prompt_width(), old(self).state(), b, strings_view(history@));
                &&& final(self).state() == st.state
                &&& r.output@ == st.output
                &&& line_view(r.line) == st.line
                &&& r.wants_completion == st.wants_completion
            }),
    {
        if 0x30 <= b && b <= 0x39 {
            self.pending = Pending::EscapeNumber((b - 0x30) as u32);
            return self.reply(false);
        }
        self.pending = Pending::Ready;
        if b == 0x41 {
            self.history_prev(history);
        } else if b == 0x42 {
            self.history_next(history);
        } else if b == 0x43 {
            if self.cursor < self.buf.len() {
                self.cursor = self.cursor + 1;
            }
        } else if b == 0x44 {
            if self.cursor > 0 {
                self.cursor = self.cursor - 1;
            }
        } else if b == 0x48 {
            self.cursor = 0;
        } else if b == 0x46 {
            self.cursor = self.buf.len();
        }
        self.reply(true)
    }

    fn feed_char(&mut self, b: u8) -> (r: Reaction)
        requires
            old(self).wf(),
            old(self).state().pending is Char,
        ensures
            final(self).wf(),
            final(self).prompt() == old(self).prompt(),
            final(self).prompt_width() == old(self).prompt_width(),
            final(self).history_len() == old(self).history_len(),
            ({
                let st = spec_step(old(self).prompt(), old(self).prompt_width(), old(self).state(), b, seq![]);
                &&& final(self).state() == st.state
                &&& r.output@ == st.output
                &&& line_view(r.line) == st.line
                &&& r.wants_completion == st.wants_completion
            }),
    {
        let mut p = Pending::Ready;
        std::mem::swap(&mut p, &mut self.pending);
        match p {
            Pending::Char(mut bytes, remaining) => {
                bytes.push(b);
                if remaining > 1 {
                    self.pending = Pending::Char(bytes, remaining - 1);
                    self.reply(false)
                } else {
                    match read_char(bytes.as_slice()) {
                        Some(c) => {
                            self.insert(c);
                            self.reply(true)
                        },
                        None => self.reply(false),
                    }
                }
            },
            _ => {
                self.pending = p;
                self.reply(false)
            },
        }
    }

    /// Answers the end of input: reading ends as for Ctrl+D.
    pub fn end_of_input(&mut self) -> (r: Reaction)
        requires
            old(self).wf(),
        ensures
            final(self).wf(),
            final(self).prompt() == old(self).prompt(),
            final(self).prompt_width() == old(self).prompt_width(),
            final(self).history_len() == old(self).history_len(),
            ({
                let st = spec_end(old(self).prompt(), old(self).prompt_width(), old(self).state());
                &&& final(self).state() == st.state
                &&& r.output@ == st.output
                &&& line_view(r.line) == st.line
                &&& r.wants_completion == st.wants_completion
            }),
    {
        let mut out = String::new();
        match self.pending {
            Pending::EscapeNumber(n) => {
                self.pending = Pending::Ready;
                self.numbered_key(n);
                out = self.render();
            },
            _ => {
                self.pending = Pending::Ready;
            },
        }
        finish_eof(&mut out, &self.buf);
        Reaction { output: out, line: Some(Line::Eof), wants_completion: false }
    }
}

/// Emits the closing newline for an end of input, which is only needed when
/// the line is empty.
fn finish_eof(out: &mut String, buf: &Vec<char>)
    ensures
        final(out)@ == old(out)@ + if buf@.len() == 0 { "\r\n"@ } else { Seq::<char>::empty() },
{
    if buf.len() == 0 {
        out.append("\r\n");
    } else {
        assert(old(out)@ + Seq::<char>::empty() =~= old(out)@);
    }
}

// ---------------------------------------------------------------------------
// Completion
// ---------------------------------------------------------------------------

/// The names of every built-in command, for dispatch and completion.
pub open spec fn builtin_names() -> Seq<Seq<char>> {
    seq!["echo"@, "cd"@, "pwd"@, "ls"@, "cat"@, "cp"@, "rm"@, "mv"@, "mkdir"@, "help"@, "exit"@]
}

/// The names of every built-in command.
pub fn builtins() -> (r: Vec<&'static str>)
    ensures
        r@.map_values(|s: &str| s@) == builtin_names(),
{
    let r = vec!["echo", "cd", "pwd", "ls", "cat", "cp", "rm", "mv", "mkdir", "help", "exit"];
    assert(r@.map_values(|s: &str| s@) =~= builtin_names());
    r
}

/// The index just past the last white space before `j`, or 0.
pub open spec fn word_start(buf: Seq<char>, j: int) -> int
    decreases j,
{
    if j <= 0 || j > buf.len() {
        0
    } else if spec_is_whitespace(buf[j - 1]) {
        j
    } else {
        word_start(buf, j - 1)
    }
}

proof fn lemma_word_start(buf: Seq<char>, j: int)
    requires
        0 <= j <= buf.len(),
    ensures
        0 <= word_start(buf, j) <= j,
        forall|k: int| word_start(buf, j) <= k < j ==> !spec_is_whitespace(#[trigger] buf[k]),
    decreases j,
{
    if j > 0 && !spec_is_whitespace(buf[j - 1]) {
        lemma_word_start(buf, j - 1);
    }
}

/// The word ending at the cursor, and whether it is in command position
/// (nothing but white space before it).
pub open spec fn spec_completion_target(s: EditState) -> (Seq<char>, bool) {
    let start = word_start(s.buf, s.cursor);
    (s.buf.subrange(start, s.cursor), forall|k: int| 0 <= k < start ==> spec_is_whitespace(#[trigger] s.buf[k]))
}

/// Built-in names that begin with `word`, in the order they are listed.
pub open spec fn builtin_matches(names: Seq<Seq<char>>, word: Seq<char>) -> Seq<Seq<char>>
    decreases names.len(),
{
    if names.len() == 0 {
        seq![]
    } else {
        let front = builtin_matches(names.drop_last(), word);
        if crate::text::starts_with(names.last(), word) { front.push(names.last()) } else { front }
    }
}

/// Completion candidates for a word in command position: the built-ins that
/// begin with it.
pub fn builtin_candidates(word: &str) -> (r: Vec<String>)
    ensures
        strings_view(r@) == builtin_matches(builtin_names(), word@),
{
    let names = builtins();
    let ghost nv = names@.map_values(|s: &str| s@);
    let w = chars_of(word);
    let mut out: Vec<String> = Vec::new();
    let mut k: usize = 0;
    assert(nv.take(0) =~= Seq::<Seq<char>>::empty());
    assert(strings_view(out@) =~= Seq::<Seq<char>>::empty());
    while k < names.len()
        invariant
            nv == names@.map_values(|s: &str| s@),
            nv == builtin_names(),
            w@ == word@,
            k <= names@.len(),
            strings_view(out@) == builtin_matches(nv.take(k as int), word@),
        decreases names@.len() - k,
    {
        assert(nv.take(k as int + 1).drop_last() =~= nv.take(k as int));
        assert(nv.take(k as int + 1).last() == names@[k as int]@);
        let name = chars_of(names[k]);
        if crate::text::starts_with_exec(name.as_slice(), w.as_slice()) {
            let ghost before = strings_view(out@);
            out.push(names[k].to_owned());
            assert(strings_view(out@) =~= before.push(names@[k as int]@));
        }
        k += 1;
    }
    assert(nv.take(names@.len() as int) =~= nv);
    out
}

/// The index just past the last `/` of `w`, or 0.
pub open spec fn after_last_slash(w: Seq<char>, j: int) -> int
    decreases j,
{
    if j <= 0 || j > w.len() {
        0
    } else if w[j - 1] == '/' {
        j
    } else {
        after_last_slash(w, j - 1)
    }
}

proof fn lemma_after_last_slash(w: Seq<char>, j: int)
    requires
        0 <= j <= w.len(),
    ensures
        0 <= after_last_slash(w, j) <= j,
        after_last_slash(w, j) > 0 ==> w[after_last_slash(w, j) - 1] == '/',
        forall|k: int| after_last_slash(w, j) <= k < j ==> #[trigger] w[k] != '/',
    decreases j,
{
    if j > 0 && w[j - 1] != '/' {
        lemma_after_last_slash(w, j - 1);
    }
}

/// The directory part of a partial path (up to and including its last `/`).
pub open spec fn dir_part(word: Seq<char>) -> Seq<char> {
    word.take(after_last_slash(word, word.len() as int))
}

/// The file-name part of a partial path (after its last `/`).
pub open spec fn name_part(word: Seq<char>) -> Seq<char> {
    word.skip(after_last_slash(word, word.len() as int))
}

fn split_path_word(word: &[char]) -> (r: (Vec<char>, Vec<char>))
    ensures
        r.0@ == dir_part(word@),
        r.1@ == name_part(word@),
{
    let mut j: usize = word.len();
    while j > 0 && word[j - 1] != '/'
        invariant
            j <= word@.len(),
            after_last_slash(word@, word@.len() as int) == after_last_slash(word@, j as int),
        decreases j,
    {
        j -= 1;
    }
    let mut d: Vec<char> = Vec::new();
    let mut n: Vec<char> = Vec::new();
    let mut k: usize = 0;
    while k < word.len()
        invariant
            j <= word@.len(),
            k <= word@.len(),
            d@ == word@.take(if k < j { k as int } else { j as int }),
            n@ == (if k <= j { Seq::<char>::empty() } else { word@.subrange(j as int, k as int) }),
        decreases word@.len() - k,
    {
        if k < j {
            d.push(word[k]);
        } else {
            n.push(word[k]);
        }
        k += 1;
        assert(d@ =~= word@.take(if k < j { k as int } else { j as int }));
        assert(n@ =~= (if k <= j { Seq::<char>::empty() } else { word@.subrange(j as int, k as int) }));
    }
    assert(n@ =~= word@.skip(j as int));
    (d, n)
}

/// The directory that path completion lists for a word: its directory part,
/// or `.` when it has none.
pub open spec fn spec_completion_dir(word: Seq<char>) -> Seq<char> {
    if dir_part(word).len() == 0 { seq!['.'] } else { dir_part(word) }
}

/// The directory that path completion lists for a word.
pub fn completion_dir(word: &str) -> (r: String)
    ensures
        r@ == spec_completion_dir(word@),
{
    let w = chars_of(word);
    let (d, _) = split_path_word(w.as_slice());
    if d.len() == 0 {
        proof { reveal_strlit("."); }
        let r = ".".to_owned();
        assert(r@ =~= seq!['.']);
        r
    } else {
        string_of(d.as_slice())
    }
}

/// The candidates among the directory's entries `(name, is a directory)`:
/// those that begin with the word's name part, each as the directory part,
/// the name and, for a directory, a `/`.
pub open spec fn path_matches(word: Seq<char>, entries: Seq<(Seq<char>, bool)>) -> Seq<Seq<char>>
    decreases entries.len(),
{
    if entries.len() == 0 {
        seq![]
    } else {
        let front = path_matches(word, entries.drop_last());
        let (name, is_dir) = entries.last();
        if crate::text::starts_with(name, name_part(word)) {
            front.push(dir_part(word) + name + if is_dir { seq!['/'] } else { seq![] })
        } else {
            front
        }
    }
}

pub open spec fn dir_entries_view(e: Seq<(String, bool)>) -> Seq<(Seq<char>, bool)> {
    e.map_values(|x: (String, bool)| (x.0@, x.1))
}

/// Produces filesystem completion candidates for a partial path, from the
/// entries of the directory that `completion_dir` names.
pub fn path_candidates(word: &str, entries: &Vec<(String, bool)>) -> (r: Vec<String>)
    ensures
        strings_view(r@) == path_matches(word@, dir_entries_view(entries@)),
{
    let w = chars_of(word);
    let (dir, prefix) = split_path_word(w.as_slice());
    let ghost ev = dir_entries_view(entries@);
    let mut out: Vec<String> = Vec::new();
    let mut k: usize = 0;
    assert(ev.take(0) =~= Seq::<(Seq<char>, bool)>::empty());
    assert(strings_view(out@) =~= Seq::<Seq<char>>::empty());
    while k < entries.len()
        invariant
            ev == dir_entries_view(entries@),
            dir@ == dir_part(word@),
            prefix@ == name_part(word@),
            k <= entries@.len(),
            strings_view(out@) == path_matches(word@, ev.take(k as int)),
        decreases entries@.len() - k,
    {
        assert(ev.take(k as int + 1).drop_last() =~= ev.take(k as int));
        assert(ev.take(k as int + 1).last() == ev[k as int]);
        let name = chars_of(entries[k].0.as_str());
        if crate::text::starts_with_exec(name.as_slice(), prefix.as_slice()) {
            let mut full = string_of(dir.as_slice());
            full.append(entries[k].0.as_str());
            if entries[k].1 {
                push_char(&mut full, '/');
            }
            let ghost before = strings_view(out@);
            let ghost fv = full@;
            assert(fv =~= dir_part(word@) + ev[k as int].0 + if ev[k as int].1 { seq!['/'] } else { Seq::<char>::empty() });
            out.push(full);
            assert(strings_view(out@) =~= before.push(fv));
        }
        k += 1;
    }
    assert(ev.take(entries@.len() as int) =~= ev);
    out
}

/// The length of the longest common prefix of `a` and `b`.
pub open spec fn common_len(a: Seq<char>, b: Seq<char>) -> nat
    decreases a.len(),
{
    if a.len() == 0 || b.len() == 0 || a[0] != b[0] {
        0
    } else {
        1 + common_len(a.drop_first(), b.drop_first())
    }
}

/// The shortest common length of `first` with each of `items` from index 1 on.
pub open spec fn min_common_len(items: Seq<Seq<char>>, k: int) -> nat
    decreases items.len() - k,
{
    if k < 1 || k >= items.len() {
        items[0].len()
    } else {
        let rest = min_common_len(items, k + 1);
        let here = common_len(items[0], items[k]);
        if here < rest { here } else { rest }
    }
}

/// The longest common prefix of a set of strings (empty for none).
pub open spec fn spec_common_prefix(items: Seq<Seq<char>>) -> Seq<char> {
    if items.len() == 0 {
        seq![]
    } else {
        items[0].take(min_common_len(items, 1) as int)
    }
}

proof fn lemma_common_len(a: Seq<char>, b: Seq<char>)
    ensures
        common_len(a, b) <= a.len(),
        common_len(a, b) <= b.len(),
        forall|i: int| 0 <= i < common_len(a, b) ==> a[i] == b[i],
        common_len(a, b) < a.len() && common_len(a, b) < b.len() ==> a[common_len(a, b) as int] != b[common_len(a, b) as int],
    decreases a.len(),
{
    if !(a.len() == 0 || b.len() == 0 || a[0] != b[0]) {
        lemma_common_len(a.drop_first(), b.drop_first());
        assert forall|i: int| 0 <= i < common_len(a, b) implies a[i] == b[i] by {
            if i > 0 {
                assert(a[i] == a.drop_first()[i - 1]);
                assert(b[i] == b.drop_first()[i - 1]);
            }
        }
        let n = common_len(a, b);
        if n < a.len() && n < b.len() {
            assert(a[n as int] == a.drop_first()[n - 1]);
            assert(b[n as int] == b.drop_first()[n - 1]);
        }
    }
}

proof fn lemma_min_common_len(items: Seq<Seq<char>>, k: int)
    requires
        1 <= k <= items.len(),
    ensures
        min_common_len(items, k) <= items[0].len(),
        forall|j: int| k <= j < items.len() ==> min_common_len(items, k) <= common_len(items[0], #[trigger] items[j]),
        min_common_len(items, k) == items[0].len() || exists|j: int| k <= j < items.len() && min_common_len(items, k) == common_len(items[0], #[trigger] items[j]),
    decreases items.len() - k,
{
    if k < items.len() {
        lemma_min_common_len(items, k + 1);
        lemma_common_len(items[0], items[k]);
    }
}

/// The result of completion is a prefix of every candidate.
pub proof fn law_common_prefix_is_prefix(items: Seq<Seq<char>>, j: int)
    requires
        0 <= j < items.len(),
    ensures
        crate::text::starts_with(items[j], spec_common_prefix(items)),
{
    lemma_min_common_len(items, 1);
    let n = min_common_len(items, 1);
    let p = spec_common_prefix(items);
    if j > 0 {
        lemma_common_len(items[0], items[j]);
        assert(items[j].subrange(0, p.len() as int) =~= p);
    } else {
        assert(items[0].subrange(0, p.len() as int) =~= p);
    }
}

/// No longer text is a prefix of every candidate.
pub proof fn law_common_prefix_is_longest(items: Seq<Seq<char>>, q: Seq<char>)
    requires
        items.len() > 0,
        forall|j: int| 0 <= j < items.len() ==> crate::text::starts_with(#[trigger] items[j], q),
    ensures
        q.len() <= spec_common_prefix(items).len(),
{
    lemma_min_common_len(items, 1);
    let n = min_common_len(items, 1);
    if q.len() > n {
        assert(crate::text::starts_with(items[0], q));
        if n < items[0].len() {
            let j = choose|j: int| 1 <= j < items.len() && n == common_len(items[0], #[trigger] items[j]);
            lemma_common_len(items[0], items[j]);
            assert(crate::text::starts_with(items[j], q));
            assert(items[0][n as int] == q[n as int]) by {
                assert(items[0].subrange(0, q.len() as int)[n as int] == q[n as int]);
            }
            assert(items[j][n as int] == q[n as int]) by {
                assert(items[j].subrange(0, q.len() as int)[n as int] == q[n as int]);
            }
        }
    }
}

fn common_len_exec(a: &Vec<char>, b: &Vec<char>) -> (n: usize)
    ensures
        n == common_len(a@, b@),
{
    let mut k: usize = 0;
    assert(a@.skip(0) =~= a@);
    assert(b@.skip(0) =~= b@);
    while k < a.len() && k < b.len() && a[k] == b[k]
        invariant
            k <= a@.len(),
            k <= b@.len(),
            common_len(a@, b@) == k + common_len(a@.skip(k as int), b@.skip(k as int)),
        decreases a@.len() - k,
    {
        assert(a@.skip(k as int).drop_first() =~= a@.skip(k as int + 1));
        assert(b@.skip(k as int).drop_first() =~= b@.skip(k as int + 1));
        k += 1;
    }
    k
}

/// Longest common prefix of a set of strings.
pub fn common_prefix(items: &Vec<String>) -> (r: String)
    ensures
        r@ == spec_common_prefix(strings_view(items@)),
{
    let ghost iv = strings_view(items@);
    if items.len() == 0 {
        return String::new();
    }
    let first = chars_of(items[0].as_str());
    let mut end: usize = first.len();
    let mut k: usize = items.len();
    while k > 1
        invariant
            iv == strings_view(items@),
            iv.len() > 0,
            first@ == iv[0],
            1 <= k <= iv.len(),
            end == min_common_len(iv, k as int),
        decreases k,
    {
        k -= 1;
        let other = chars_of(items[k].as_str());
        let n = common_len_exec(&first, &other);
        if n < end {
            end = n;
        }
    }
    let mut out: Vec<char> = Vec::new();
    let mut i: usize = 0;
    proof { lemma_min_common_len(iv, 1); }
    while i < end
        invariant
            end <= first@.len(),
            i <= end,
            out@ == first@.take(i as int),
        decreases end - i,
    {
        out.push(first[i]);
        i += 1;
        assert(out@ =~= first@.take(i as int));
    }
    string_of(out.as_slice())
}

/// The end of `s` once its trailing `/` characters are dropped.
pub open spec fn trailing_slashes_start(s: Seq<char>, j: int) -> int
    decreases j,
{
    if j <= 0 || j > s.len() {
        if j <= 0 { 0 } else { s.len() as int }
    } else if s[j - 1] == '/' {
        trailing_slashes_start(s, j - 1)
    } else {
        j
    }
}

/// The last component of a candidate: without trailing `/`, after the last
/// remaining `/`.
pub open spec fn basename(s: Seq<char>) -> Seq<char> {
    let t = s.take(trailing_slashes_start(s, s.len() as int));
    t.skip(after_last_slash(t, t.len() as int))
}

fn basename_exec(s: &Vec<char>) -> (r: Vec<char>)
    ensures
        r@ == basename(s@),
{
    let mut j: usize = s.len();
    while j > 0 && s[j - 1] == '/'
        invariant
            j <= s@.len(),
            trailing_slashes_start(s@, s@.len() as int) == trailing_slashes_start(s@, j as int),
        decreases j,
    {
        j -= 1;
    }
    let ghost t = s@.take(j as int);
    let mut a: usize = j;
    while a > 0 && s[a - 1] != '/'
        invariant
            a <= j <= s@.len(),
            t == s@.take(j as int),
            after_last_slash(t, t.len() as int) == after_last_slash(t, a as int),
        decreases a,
    {
        a -= 1;
    }
    let mut r: Vec<char> = Vec::new();
    let mut k: usize = a;
    while k < j
        invariant
            a <= k <= j <= s@.len(),
            r@ == s@.subrange(a as int, k as int),
        decreases j - k,
    {
        r.push(s[k]);
        k += 1;
        assert(r@ =~= s@.subrange(a as int, k as int));
    }
    assert(r@ =~= t.skip(a as int));
    r
}

/// Lays candidate names out on one line, showing just their basenames,
/// two spaces apart.
pub open spec fn spec_format_columns(items: Seq<Seq<char>>) -> Seq<char> {
    crate::text::joined(items.map_values(|i: Seq<char>| basename(i)), "  "@)
}

/// Lays candidate names out on one line, showing just their basenames.
pub fn format_columns(items: &Vec<String>) -> (r: String)
    ensures
        r@ == spec_format_columns(strings_view(items@)),
{
    let mut names: Vec<String> = Vec::new();
    let mut k: usize = 0;
    while k < items.len()
        invariant
            k <= items@.len(),
            strings_view(names@) == strings_view(items@).map_values(|i: Seq<char>| basename(i)).take(k as int),
        decreases items@.len() - k,
    {
        let b = basename_exec(&chars_of(items[k].as_str()));
        let ghost before = strings_view(names@);
        names.push(string_of(b.as_slice()));
        assert(strings_view(names@) =~= before.push(basename(strings_view(items@)[k as int])));
        k += 1;
        assert(strings_view(names@) =~= strings_view(items@).map_values(|i: Seq<char>| basename(i)).take(k as int));
    }
    assert(strings_view(names@) =~= strings_view(items@).map_values(|i: Seq<char>| basename(i)));
    crate::text::join(names.as_slice(), "  ")
}

/// `s` without adjacent repeats, as `Vec::dedup` leaves it.
pub open spec fn dedup(s: Seq<Seq<char>>) -> Seq<Seq<char>>
    decreases s.len(),
{
    if s.len() == 0 {
        s
    } else {
        let d = dedup(s.drop_last());
        if d.len() > 0 && d.last() == s.last() { d } else { d.push(s.last()) }
    }
}

/// The candidates sorted, each kept once.
pub open spec fn sorted_candidates(c: Seq<Seq<char>>) -> Seq<Seq<char>> {
    dedup(spec_sorted_order(c).map_values(|i: usize| c[i as int]))
}

/// What completing with `candidates` does: nothing without candidates; with
/// one, the word becomes it, followed by a space unless it ends in `/`; with
/// several, the word becomes their longest common prefix and they are listed
/// on a line of their own.
pub open spec fn spec_complete(prompt: Seq<char>, pw: nat, s: EditState, candidates: Seq<Seq<char>>) -> (EditState, Seq<char>) {
    let list = sorted_candidates(candidates);
    if list.len() == 0 {
        (s, seq![])
    } else {
        let start = word_start(s.buf, s.cursor);
        let single = list.len() == 1;
        let replacement = if single { list[0] } else { spec_common_prefix(list) };
        let trailing = if single && !(list[0].len() > 0 && list[0].last() == '/') { seq![' '] } else { seq![] };
        let new_word = replacement + trailing;
        let t = with_line(s, s.buf.take(start) + new_word + s.buf.skip(s.cursor), start + new_word.len());
        let listing = if single { seq![] } else { "\r\n"@ + spec_format_columns(list) + "\r\n"@ };
        (t, listing + spec_render(prompt, pw, t.buf, t.cursor as nat))
    }
}

fn sort_dedup(candidates: &Vec<String>) -> (r: Vec<String>)
    ensures
        strings_view(r@) == sorted_candidates(strings_view(candidates@)),
{
    let ghost cv = strings_view(candidates@);
    let mut keys: Vec<Vec<char>> = Vec::new();
    let mut k: usize = 0;
    while k < candidates.len()
        invariant
            cv == strings_view(candidates@),
            k <= candidates@.len(),
            keys_view(keys@) == cv.take(k as int),
        decreases candidates@.len() - k,
    {
        let ghost before = keys_view(keys@);
        keys.push(chars_of(candidates[k].as_str()));
        assert(keys_view(keys@) =~= before.push(cv[k as int]));
        k += 1;
        assert(keys_view(keys@) =~= cv.take(k as int));
    }
    assert(keys_view(keys@) =~= cv);
    let order = sorted_order(&keys);
    let ghost sorted = order@.map_values(|i: usize| cv[i as int]);
    let mut out: Vec<String> = Vec::new();
    let mut j: usize = 0;
    assert(sorted.take(0) =~= Seq::<Seq<char>>::empty());
    assert(strings_view(out@) =~= Seq::<Seq<char>>::empty());
    while j < order.len()
        invariant
            cv == strings_view(candidates@),
            is_sorted_order(cv, order@),
            sorted == order@.map_values(|i: usize| cv[i as int]),
            j <= order@.len(),
            strings_view(out@) == dedup(sorted.take(j as int)),
        decreases order@.len() - j,
    {
        assert(sorted.take(j as int + 1).drop_last() =~= sorted.take(j as int));
        let item = &candidates[order[j]];
        assert(item@ == sorted[j as int]);
        let n = out.len();
        if n > 0 && out[n - 1] == *item {
        } else {
            let ghost before = strings_view(out@);
            out.push(item.clone());
            assert(strings_view(out@) =~= before.push(sorted[j as int]));
        }
        j += 1;
    }
    assert(sorted.take(order@.len() as int) =~= sorted);
    out
}

impl Editor {
    /// The word ending at the cursor, and whether it is in command position
    /// (only white space before it).
    pub fn completion_target(&self) -> (r: (String, bool))
        requires
            self.wf(),
        ensures
            (r.0@, r.1) == spec_completion_target(self.state()),
    {
        let mut start: usize = self.cursor;
        while start > 0 && !is_whitespace(self.buf[start - 1])
            invariant
                start <= self.cursor <= self.buf@.len(),
                word_start(self.buf@, self.cursor as int) == word_start(self.buf@, start as int),
            decreases start,
        {
            start -= 1;
        }
        proof { crate::line_editor::lemma_word_start(self.buf@, self.cursor as int); }
        let mut word: Vec<char> = Vec::new();
        let mut k: usize = start;
        while k < self.cursor
            invariant
                start <= k <= self.cursor <= self.buf@.len(),
                word@ == self.buf@.subrange(start as int, k as int),
            decreases self.cursor - k,
        {
            word.push(self.buf[k]);
            k += 1;
            assert(word@ =~= self.buf@.subrange(start as int, k as int));
        }
        let mut is_command = true;
        let mut i: usize = 0;
        while i < start
            invariant
                i <= start <= self.buf@.len(),
                is_command == forall|j: int| 0 <= j < i ==> spec_is_whitespace(#[trigger] self.buf@[j]),
            decreases start - i,
        {
            if !is_whitespace(self.buf[i]) {
                is_command = false;
            }
            i += 1;
        }
        (string_of(word.as_slice()), is_command)
    }

    /// Completes the word at the cursor from the given candidates and answers
    /// what to write.
    pub fn complete(&mut self, candidates: &Vec<String>) -> (out: String)
        requires
            old(self).wf(),
        ensures
            final(self).wf(),
            final(self).prompt() == old(self).prompt(),
            final(self).prompt_width() == old(self).prompt_width(),
            final(self).history_len() == old(self).history_len(),
            (final(self).state(), out@) == spec_complete(old(self).prompt(), old(self).prompt_width(), old(self).state(), strings_view(candidates@)),
    {
        let list = sort_dedup(candidates);
        if list.len() == 0 {
            return String::new();
        }
        let ghost lv = strings_view(list@);
        let mut start: usize = self.cursor;
        while start > 0 && !is_whitespace(self.buf[start - 1])
            invariant
                start <= self.cursor <= self.buf@.len(),
                word_start(self.buf@, self.cursor as int) == word_start(self.buf@, start as int),
            decreases start,
        {
            start -= 1;
        }
        let single = list.len() == 1;
        let mut new_word: Vec<char> = if single {
            chars_of(list[0].as_str())
        } else {
            chars_of(common_prefix(&list).as_str())
        };
        if single {
            let n = new_word.len();
            if !(n > 0 && new_word[n - 1] == '/') {
                new_word.push(' ');
            }
        }
        let ghost trailing: Seq<char> = if single && !(lv[0].len() > 0 && lv[0].last() == '/') { seq![' '] } else { seq![] };
        assert(new_word@ =~= (if single { lv[0] } else { spec_common_prefix(lv) }) + trailing);

        // Rewrite the word in the buffer.
        let mut buf: Vec<char> = Vec::new();
        let mut k: usize = 0;
        while k < start
            invariant
                k <= start <= self.buf@.len(),
                buf@ == self.buf@.take(k as int),
            decreases start - k,
        {
            buf.push(self.buf[k]);
            k += 1;
            assert(buf@ =~= self.buf@.take(k as int));
        }
        let mut w: usize = 0;
        while w < new_word.len()
            invariant
                w <= new_word@.len(),
                buf@ == self.buf@.take(start as int) + new_word@.take(w as int),
            decreases new_word@.len() - w,
        {
            buf.push(new_word[w]);
            w += 1;
            assert(buf@ =~= self.buf@.take(start as int) + new_word@.take(w as int));
        }
        assert(new_word@.take(new_word@.len() as int) =~= new_word@);
        let new_cursor = buf.len();
        let mut k: usize = self.cursor;
        while k < self.buf.len()
            invariant
                self.cursor <= k <= self.buf@.len(),
                new_cursor <= buf@.len(),
                buf@ == self.buf@.take(start as int) + new_word@ + self.buf@.subrange(self.cursor as int, k as int),
            decreases self.buf@.len() - k,
        {
            buf.push(self.buf[k]);
            k += 1;
            assert(buf@ =~= self.buf@.take(start as int) + new_word@ + self.buf@.subrange(self.cursor as int, k as int));
        }
        assert(self.buf@.subrange(self.cursor as int, self.buf@.len() as int) =~= self.buf@.skip(self.cursor as int));
        self.buf = buf;
        self.cursor = new_cursor;

        let mut out = String::new();
        if !single {
            out.append("\r\n");
            out.append(format_columns(&list).as_str());
            out.append("\r\n");
        }
        let r = self.render();
        out.append(r.as_str());
        out
    }
}

// ---------------------------------------------------------------------------
// Properties
// ---------------------------------------------------------------------------

/// Up then Down, on a fresh line with some history, gives back the line
/// that was being typed, with the cursor at its end.
pub proof fn law_up_then_down_restores_line(s: EditState, history: Seq<Seq<char>>)
    requires
        history.len() > 0,
        s.hist_pos == history.len(),
    ensures
        spec_history_next(spec_history_prev(s, history), history).buf == s.buf,
        spec_history_next(spec_history_prev(s, history), history).cursor == s.buf.len(),
        spec_history_next(spec_history_prev(s, history), history).hist_pos == s.hist_pos,
{
}

/// Typing a character and deleting it with Backspace leaves the line and
/// cursor as they were.
pub proof fn law_backspace_undoes_typing(s: EditState, c: char)
    requires
        0 <= s.cursor <= s.buf.len(),
    ensures
        backspace(insert_char(s, c)) == s,
{
    assert(s.buf.insert(s.cursor, c).remove(s.cursor) =~= s.buf);
}

/// Every key keeps the editor in a state it can be in: the cursor stays
/// within the line and the history position within the history.
pub proof fn law_keys_keep_state_sane(prompt: Seq<char>, pw: nat, s: EditState, b: u8, history: Seq<Seq<char>>)
    requires
        state_wf(s, history.len() as int),
    ensures
        state_wf(spec_step(prompt, pw, s, b, history).state, history.len() as int),
{
    match s.pending {
        PendingView::Char(bytes, remaining) => {
            if remaining <= 1 {
                if let Some(c) = decode_char(bytes.push(b)) {
                    assert(state_wf(insert_char(ready(s), c), history.len() as int));
                }
            }
        },
        _ => {},
    }
}

/// Enter ends reading with the line as typed.
pub proof fn law_enter_returns_line(prompt: Seq<char>, pw: nat, s: EditState, history: Seq<Seq<char>>)
    requires
        s.pending is Ready,
    ensures
        spec_step(prompt, pw, s, 0x0d, history).line == Some(LineView::Input(s.buf)),
        spec_step(prompt, pw, s, 0x0a, history).line == Some(LineView::Input(s.buf)),
{
}

/// Ctrl+D ends reading only on an empty line; Ctrl+C always abandons it.
pub proof fn law_control_keys(prompt: Seq<char>, pw: nat, s: EditState, history: Seq<Seq<char>>)
    requires
        s.pending is Ready,
    ensures
        spec_step(prompt, pw, s, 0x04, history).line == (if s.buf.len() == 0 { Some(LineView::Eof) } else { None::<LineView> }),
        spec_step(prompt, pw, s, 0x03, history).line == Some(LineView::Interrupted),
{
}

/// The state after the bytes `bytes`, fed one after the other.
pub open spec fn after_keys(prompt: Seq<char>, pw: nat, s: EditState, bytes: Seq<u8>, history: Seq<Seq<char>>) -> EditState
    decreases bytes.len(),
{
    if bytes.len() == 0 {
        s
    } else {
        after_keys(prompt, pw, spec_step(prompt, pw, s, bytes[0], history).state, bytes.drop_first(), history)
    }
}

proof fn lemma_keys_2(prompt: Seq<char>, pw: nat, s: EditState, a: u8, b: u8, history: Seq<Seq<char>>)
    ensures
        after_keys(prompt, pw, s, seq![a, b], history) == spec_step(
            prompt,
            pw,
            spec_step(prompt, pw, s, a, history).state,
            b,
            history,
        ).state,
{
    reveal_with_fuel(after_keys, 3);
    assert(seq![a, b].drop_first() =~= seq![b]);
    assert(seq![b].drop_first() =~= Seq::<u8>::empty());
}

proof fn lemma_keys_3(prompt: Seq<char>, pw: nat, s: EditState, a: u8, b: u8, c: u8, history: Seq<Seq<char>>)
    ensures
        after_keys(prompt, pw, s, seq![a, b, c], history) == after_keys(
            prompt,
            pw,
            spec_step(prompt, pw, s, a, history).state,
            seq![b, c],
            history,
        ),
{
    assert(seq![a, b, c].drop_first() =~= seq![b, c]);
}

proof fn lemma_keys_4(prompt: Seq<char>, pw: nat, s: EditState, a: u8, b: u8, c: u8, d: u8, history: Seq<Seq<char>>)
    ensures
        after_keys(prompt, pw, s, seq![a, b, c, d], history) == after_keys(
            prompt,
            pw,
            spec_step(prompt, pw, s, a, history).state,
            seq![b, c, d],
            history,
        ),
{
    assert(seq![a, b, c, d].drop_first() =~= seq![b, c, d]);
}

/// After an escape byte and `[` (or `O`), the editor waits for the key code.
proof fn lemma_escape_intro(prompt: Seq<char>, pw: nat, s: EditState, intro: u8, code: u8, history: Seq<Seq<char>>)
    requires
        s.pending is Ready,
        intro == 0x5b || intro == 0x4f,
    ensures
        after_keys(prompt, pw, s, seq![0x1bu8, intro, code], history) == spec_step(
            prompt,
            pw,
            with_pending(s, PendingView::EscapeCode),
            code,
            history,
        ).state,
{
    lemma_keys_3(prompt, pw, s, 0x1b, intro, code, history);
    let e = with_pending(s, PendingView::Escape);
    assert(spec_step(prompt, pw, s, 0x1b, history).state == e);
    lemma_keys_2(prompt, pw, e, intro, code, history);
}

/// The arrow keys and the short Home and End keys: Right and Left
/// (`ESC [ C`, `ESC [ D`) move the cursor one place within the line, Home
/// (`ESC [ H`, `ESC O H`) and End (`ESC [ F`, `ESC O F`) go to its start and
/// end. Each leaves the editor ready for the next key.
pub proof fn law_arrow_keys(prompt: Seq<char>, pw: nat, s: EditState, history: Seq<Seq<char>>, intro: u8)
    requires
        s.pending is Ready,
        intro == 0x5b || intro == 0x4f,
    ensures
        after_keys(prompt, pw, s, seq![0x1bu8, intro, 0x43u8], history) == with_line(s, s.buf, if s.cursor < s.buf.len() { s.cursor + 1 } else { s.cursor }),
        after_keys(prompt, pw, s, seq![0x1bu8, intro, 0x44u8], history) == with_line(s, s.buf, if s.cursor > 0 { s.cursor - 1 } else { s.cursor }),
        after_keys(prompt, pw, s, seq![0x1bu8, intro, 0x48u8], history) == with_line(s, s.buf, 0),
        after_keys(prompt, pw, s, seq![0x1bu8, intro, 0x46u8], history) == with_line(s, s.buf, s.buf.len() as int),
{
    assert(with_pending(s, PendingView::Ready) == s);
    lemma_escape_intro(prompt, pw, s, intro, 0x43, history);
    lemma_escape_intro(prompt, pw, s, intro, 0x44, history);
    lemma_escape_intro(prompt, pw, s, intro, 0x48, history);
    lemma_escape_intro(prompt, pw, s, intro, 0x46, history);
}

/// The numbered keys `ESC [ n ~`: Home (1, 7) and End (4, 8) go to the start
/// and end of the line, and Delete (3) removes the character under the
/// cursor. Each leaves the editor ready for the next key.
pub proof fn law_numbered_keys(prompt: Seq<char>, pw: nat, s: EditState, history: Seq<Seq<char>>, d: u8)
    requires
        s.pending is Ready,
        0x30 <= d <= 0x39,
    ensures
        after_keys(prompt, pw, s, seq![0x1bu8, 0x5bu8, d, 0x7eu8], history) == numbered_key(s, (d - 0x30) as u32),
        d == 0x31 || d == 0x37 ==> numbered_key(s, (d - 0x30) as u32) == with_line(s, s.buf, 0),
        d == 0x34 || d == 0x38 ==> numbered_key(s, (d - 0x30) as u32) == with_line(s, s.buf, s.buf.len() as int),
        d == 0x33 ==> numbered_key(s, (d - 0x30) as u32) == (if s.cursor < s.buf.len() {
            with_line(s, s.buf.remove(s.cursor), s.cursor)
        } else {
            s
        }),
{
    lemma_keys_4(prompt, pw, s, 0x1b, 0x5b, d, 0x7e, history);
    let e = with_pending(s, PendingView::Escape);
    let c = with_pending(s, PendingView::EscapeCode);
    let n = with_pending(s, PendingView::EscapeNumber((d - 0x30) as u32));
    assert(spec_step(prompt, pw, s, 0x1b, history).state == e);
    lemma_keys_3(prompt, pw, e, 0x5b, d, 0x7e, history);
    assert(spec_step(prompt, pw, e, 0x5b, history).state == c);
    lemma_keys_2(prompt, pw, c, d, 0x7e, history);
    assert(spec_step(prompt, pw, c, d, history).state == n);
    assert(ready(n) == s);
}

/// An escape byte followed by anything but `[` or `O` changes nothing.
pub proof fn law_unknown_escape(prompt: Seq<char>, pw: nat, s: EditState, history: Seq<Seq<char>>, other: u8)
    requires
        s.pending is Ready,
        other != 0x5b && other != 0x4f,
    ensures
        after_keys(prompt, pw, s, seq![0x1bu8, other], history) == s,
{
    lemma_keys_2(prompt, pw, s, 0x1b, other, history);
    assert(with_pending(s, PendingView::Ready) == s);
}

/// Printable characters typed at the end of the line are added to it, and
/// Enter then ends reading with the line so typed.
pub proof fn law_typed_text_is_returned(prompt: Seq<char>, pw: nat, s: EditState, text: Seq<u8>, history: Seq<Seq<char>>)
    requires
        s.pending is Ready,
        s.cursor == s.buf.len(),
        forall|k: int| 0 <= k < text.len() ==> 0x20 <= #[trigger] text[k] && text[k] < 0x7f,
    ensures
        after_keys(prompt, pw, s, text, history) == with_line(
            s,
            s.buf + text.map_values(|b: u8| b as char),
            s.buf.len() + text.len() as int,
        ),
        spec_step(prompt, pw, after_keys(prompt, pw, s, text, history), 0x0d, history).line
            == Some(LineView::Input(s.buf + text.map_values(|b: u8| b as char))),
    decreases text.len(),
{
    if text.len() == 0 {
        assert(s.buf + text.map_values(|b: u8| b as char) =~= s.buf);
    } else {
        let b = text[0];
        let t = insert_char(s, b as char);
        assert(spec_step(prompt, pw, s, b, history).state == t);
        assert(s.buf.insert(s.cursor, b as char) =~= s.buf.push(b as char));
        let rest = text.drop_first();
        assert forall|k: int| 0 <= k < rest.len() implies 0x20 <= #[trigger] rest[k] && rest[k] < 0x7f by {
            assert(rest[k] == text[k + 1]);
        }
        law_typed_text_is_returned(prompt, pw, t, rest, history);
        assert(t.buf + rest.map_values(|b: u8| b as char) =~= s.buf + text.map_values(|b: u8| b as char));
    }
}

/// Ctrl+D on a line that is not empty changes nothing; the end of input, on
/// an empty line, ends reading with a newline.
pub proof fn law_end_of_input(prompt: Seq<char>, pw: nat, s: EditState, history: Seq<Seq<char>>)
    requires
        s.pending is Ready,
    ensures
        s.buf.len() > 0 ==> spec_step(prompt, pw, s, 0x04, history) == quiet(s),
        spec_end(prompt, pw, s).line == Some(LineView::Eof),
        s.buf.len() == 0 ==> spec_end(prompt, pw, s).output == "\r\n"@,
{
    assert(with_pending(s, PendingView::Ready) == s);
    assert(Seq::<char>::empty() + "\r\n"@ =~= "\r\n"@);
}

proof fn lemma_after_keys_concat(prompt: Seq<char>, pw: nat, s: EditState, a: Seq<u8>, b: Seq<u8>, history: Seq<Seq<char>>)
    ensures
        after_keys(prompt, pw, s, a + b, history) == after_keys(prompt, pw, after_keys(prompt, pw, s, a, history), b, history),
    decreases a.len(),
{
    if a.len() == 0 {
        assert(a + b =~= b);
    } else {
        assert((a + b).drop_first() =~= a.drop_first() + b);
        assert((a + b)[0] == a[0]);
        lemma_after_keys_concat(prompt, pw, spec_step(prompt, pw, s, a[0], history).state, a.drop_first(), b, history);
    }
}

/// Pressing Up then Down, on a fresh line with some history, gives back the
/// line that was being typed, with the cursor at its end.
pub proof fn law_up_then_down_keys(prompt: Seq<char>, pw: nat, s: EditState, history: Seq<Seq<char>>)
    requires
        s.pending is Ready,
        history.len() > 0,
        s.hist_pos == history.len(),
    ensures
        ({
            let t = after_keys(prompt, pw, s, seq![0x1bu8, 0x5bu8, 0x41u8, 0x1bu8, 0x5bu8, 0x42u8], history);
            &&& t.buf == s.buf
            &&& t.cursor == s.buf.len()
            &&& t.hist_pos == s.hist_pos
            &&& t.pending is Ready
        }),
{
    let up = seq![0x1bu8, 0x5bu8, 0x41u8];
    let down = seq![0x1bu8, 0x5bu8, 0x42u8];
    assert(up + down =~= seq![0x1bu8, 0x5bu8, 0x41u8, 0x1bu8, 0x5bu8, 0x42u8]);
    lemma_after_keys_concat(prompt, pw, s, up, down, history);
    lemma_escape_intro(prompt, pw, s, 0x5b, 0x41, history);
    assert(ready(with_pending(s, PendingView::EscapeCode)) == s);
    let s1 = spec_history_prev(s, history);
    assert(after_keys(prompt, pw, s, up, history) == s1);
    lemma_escape_intro(prompt, pw, s1, 0x5b, 0x42, history);
    assert(ready(with_pending(s1, PendingView::EscapeCode)) == s1);
    law_up_then_down_restores_line(s, history);
}

/// Up (`ESC [ A`) shows the next older history entry, with the cursor at its
/// end, and Down (`ESC [ B`) the next newer one, or, past the newest, the
/// line that was being typed when browsing began.
pub proof fn law_up_down_keys_step_through_history(prompt: Seq<char>, pw: nat, s: EditState, history: Seq<Seq<char>>)
    requires
        s.pending is Ready,
        0 <= s.hist_pos <= history.len(),
    ensures
        ({
            let up = after_keys(prompt, pw, s, seq![0x1bu8, 0x5bu8, 0x41u8], history);
            s.hist_pos > 0 ==> up.buf == history[s.hist_pos - 1] && up.hist_pos == s.hist_pos - 1
                && up.cursor == up.buf.len() && up.pending is Ready
        }),
        ({
            let down = after_keys(prompt, pw, s, seq![0x1bu8, 0x5bu8, 0x42u8], history);
            &&& s.hist_pos + 1 < history.len() ==> down.buf == history[s.hist_pos + 1]
                && down.hist_pos == s.hist_pos + 1
            &&& s.hist_pos + 1 == history.len() ==> down.buf == s.stash && down.hist_pos == history.len()
            &&& s.hist_pos < history.len() ==> down.cursor == down.buf.len() && down.pending is Ready
        }),
{
    lemma_escape_intro(prompt, pw, s, 0x5b, 0x41, history);
    lemma_escape_intro(prompt, pw, s, 0x5b, 0x42, history);
    assert(ready(with_pending(s, PendingView::EscapeCode)) == s);
}
} // verus!
