//! In-memory command history, with the text that is kept in the history file.

use vstd::prelude::*;
use crate::text::{lemma_trimmed_idempotent, chars_of, join, joined, lines, split_lines, string_of, strings_view, trim, trimmed};

verus! {

/// The name of the history file, inside `$HOME`.
pub const HISTORY_FILE: &'static str = ".0-shell_history";

/// The most entries the history keeps.
pub const MAX_ENTRIES: usize = 1000;

/// The command history. Entries are ordered oldest-first.
pub struct History {
    entries: Vec<String>,
    path: Option<String>,
}

/// What recording `line` does to the entries `e`: the line is trimmed; a
/// blank line or a repeat of the newest entry is not recorded; otherwise the
/// line becomes the newest entry and, past `MAX_ENTRIES`, the oldest entries
/// are dropped.
pub open spec fn added(e: Seq<Seq<char>>, line: Seq<char>) -> Seq<Seq<char>> {
    let t = trimmed(line);
    if t.len() == 0 || (e.len() > 0 && e.last() == t) {
        e
    } else {
        let p = e.push(t);
        if p.len() > MAX_ENTRIES {
            p.subrange(p.len() - MAX_ENTRIES, p.len() as int)
        } else {
            p
        }
    }
}

impl View for History {
    type V = Seq<Seq<char>>;

    closed spec fn view(&self) -> Seq<Seq<char>> {
        strings_view(self.entries@)
    }
}

impl History {
    /// Builds the history that `contents`, the text of the history file at
    /// `path`, holds: one entry per line. With no file, the history is empty.
    pub fn load(path: Option<String>, contents: Option<&str>) -> (h: History)
        ensures
            h@ == match contents {
                Some(c) => lines(c@),
                None => Seq::<Seq<char>>::empty(),
            },
            h.path() == path,
    {
        let entries = match contents {
            Some(c) => split_lines(c),
            None => Vec::new(),
        };
        let h = History { entries, path };
        assert(contents is None ==> h@ =~= Seq::<Seq<char>>::empty());
        h
    }

    /// The file the history is kept in, if any.
    pub closed spec fn path(&self) -> Option<String> {
        self.path
    }

    /// The file the history is kept in, if any.
    pub fn file_path(&self) -> (p: &Option<String>)
        ensures
            *p == self.path(),
    {
        &self.path
    }

    /// Returns the recorded entries, oldest first.
    pub fn entries(&self) -> (r: &[String])
        ensures
            strings_view(r@) == self@,
    {
        self.entries.as_slice()
    }

    /// Records a command line, ignoring blanks and immediate duplicates.
    pub fn add(&mut self, line: &str)
        ensures
            final(self)@ == added(old(self)@, line@),
            final(self).path() == old(self).path(),
    {
        let chars = chars_of(line);
        let t = trim(chars.as_slice());
        if t.len() == 0 {
            return;
        }
        let ts = string_of(t.as_slice());
        let n = self.entries.len();
        if n > 0 && self.entries[n - 1] == ts {
            return;
        }
        let ghost e = self@;
        self.entries.push(ts);
        assert(self@ =~= e.push(trimmed(line@)));
        if self.entries.len() > MAX_ENTRIES {
            let overflow = self.entries.len() - MAX_ENTRIES;
            let ghost p = self@;
            let mut kept: Vec<String> = Vec::new();
            let mut k: usize = overflow;
            while k < self.entries.len()
                invariant
                    overflow <= k <= self.entries@.len(),
                    p == strings_view(self.entries@),
                    strings_view(kept@) == p.subrange(overflow as int, k as int),
                decreases self.entries@.len() - k,
            {
                let ghost before = strings_view(kept@);
                let item = self.entries[k].clone();
                assert(item@ == p[k as int]);
                kept.push(item);
                assert(strings_view(kept@) =~= before.push(p[k as int]));
                k += 1;
                assert(strings_view(kept@) =~= p.subrange(overflow as int, k as int));
            }
            self.entries = kept;
        }
    }

    /// The text that saving writes to the history file: the entries, one per
    /// line.
    pub fn contents(&self) -> (r: String)
        ensures
            r@ == joined(self@, "\n"@),
    {
        join(self.entries.as_slice(), "\n")
    }
}


/// Recording the same line twice in a row records it once.
pub proof fn law_add_twice_is_add_once(e: Seq<Seq<char>>, line: Seq<char>)
    ensures
        added(added(e, line), line) == added(e, line),
{
}

/// A line that is blank once trimmed leaves the history as it was.
pub proof fn law_blank_line_not_recorded(e: Seq<Seq<char>>, line: Seq<char>)
    requires
        trimmed(line).len() == 0,
    ensures
        added(e, line) == e,
{
}

/// After a line that is not blank is recorded, the newest entry is that line,
/// trimmed.
pub proof fn law_newest_entry_is_line(e: Seq<Seq<char>>, line: Seq<char>)
    requires
        trimmed(line).len() > 0,
    ensures
        added(e, line).len() > 0,
        added(e, line).last() == trimmed(line),
{
}

/// What the history keeps true: at most `MAX_ENTRIES` entries, none blank
/// or with white space at either end, and no entry repeating the one before.
pub open spec fn well_kept(e: Seq<Seq<char>>) -> bool {
    &&& e.len() <= MAX_ENTRIES
    &&& forall|i: int| 0 <= i < e.len() ==> #[trigger] e[i].len() > 0 && trimmed(e[i]) == e[i]
    &&& forall|i: int, j: int| 0 <= i < e.len() && j == i + 1 && j < e.len() ==> #[trigger] e[i] != #[trigger] e[j]
}

/// Recording any line keeps the history well kept.
pub proof fn law_add_keeps_history_well_kept(e: Seq<Seq<char>>, line: Seq<char>)
    requires
        well_kept(e),
    ensures
        well_kept(added(e, line)),
{
    let t = trimmed(line);
    lemma_trimmed_idempotent(line);
    if !(t.len() == 0 || (e.len() > 0 && e.last() == t)) {
        let p = e.push(t);
        assert forall|i: int, j: int| 0 <= i < p.len() && j == i + 1 && j < p.len() implies #[trigger] p[i] != #[trigger] p[j] by {
            if j == p.len() - 1 {
                assert(p[i] == e.last());
            } else {
                assert(p[i] == e[i] && p[j] == e[j]);
            }
        }
        assert forall|i: int| 0 <= i < p.len() implies #[trigger] p[i].len() > 0 && trimmed(p[i]) == p[i] by {
            if i < e.len() {
                assert(p[i] == e[i]);
            }
        }
        if p.len() > MAX_ENTRIES {
            let q = p.subrange(p.len() - MAX_ENTRIES, p.len() as int);
            let off = p.len() - MAX_ENTRIES;
            assert forall|i: int, j: int| 0 <= i < q.len() && j == i + 1 && j < q.len() implies #[trigger] q[i] != #[trigger] q[j] by {
                assert(q[i] == p[i + off] && q[j] == p[j + off]);
            }
            assert forall|i: int| 0 <= i < q.len() implies #[trigger] q[i].len() > 0 && trimmed(q[i]) == q[i] by {
                assert(q[i] == p[i + off]);
            }
        }
    }
}

/// The history never grows past `MAX_ENTRIES`.
pub proof fn law_size_is_bounded(e: Seq<Seq<char>>, line: Seq<char>)
    requires
        e.len() <= MAX_ENTRIES,
    ensures
        added(e, line).len() <= MAX_ENTRIES,
{
}

/// Entries that the history file can hold: none holds a newline or ends in a
/// carriage return, and the newest is not empty.
pub open spec fn storable(e: Seq<Seq<char>>) -> bool {
    &&& forall|i: int, k: int| 0 <= i < e.len() && 0 <= k < e[i].len() ==> #[trigger] e[i][k] != '\n'
    &&& forall|i: int| 0 <= i < e.len() && e[i].len() > 0 ==> #[trigger] e[i].last() != '\r'
    &&& e.len() > 0 ==> e.last().len() > 0
}

/// What saving writes, loading reads back.
pub proof fn law_saved_history_loads_back(e: Seq<Seq<char>>)
    requires
        storable(e),
    ensures
        lines(joined(e, "\n"@)) == e,
    decreases e.len(),
{
    reveal_strlit("\n");
    let nl: Seq<char> = "\n"@;
    assert(nl =~= seq!['\n']);
    if e.len() == 0 {
        assert(lines(joined(e, nl)) =~= e);
    } else if e.len() == 1 {
        let x = e[0];
        assert(joined(e, nl) == x);
        crate::text::lemma_next_newline_is(x, 0, x.len() as int);
        assert(x.subrange(0, x.len() as int) =~= x);
        assert(lines(x) =~= e);
    } else {
        let x = e[0];
        let r = e.drop_first();
        assert(seq![x] + r =~= e);
        crate::text::lemma_joined_front(x, r, nl);
        let j = joined(r, nl);
        let s = x + nl + j;
        assert(storable(r)) by {
            assert forall|i: int, k: int| 0 <= i < r.len() && 0 <= k < r[i].len() implies #[trigger] r[i][k] != '\n' by {
                assert(r[i] == e[i + 1]);
            }
            assert forall|i: int| 0 <= i < r.len() && r[i].len() > 0 implies #[trigger] r[i].last() != '\r' by {
                assert(r[i] == e[i + 1]);
            }
        }
        law_saved_history_loads_back(r);
        assert forall|k: int| 0 <= k < x.len() implies s[k] != '\n' by {
            assert(s[k] == x[k]);
            assert(e[0][k] != '\n');
        }
        assert(s[x.len() as int] == '\n');
        crate::text::lemma_next_newline_is(s, 0, x.len() as int);
        assert(s.subrange(0, x.len() as int) =~= x);
        assert(x.len() > 0 ==> e[0].last() != '\r');
        assert(crate::text::strip_cr(x) == x);
        assert forall|d: int| 0 <= d < s.len() - (x.len() + 1) implies #[trigger] s[(x.len() + 1) + d] == j[0 + d] by {
            assert(s[(x.len() + 1) + d] == j[d]);
        }
        crate::text::lemma_lines_from_suffix(s, x.len() + 1int, j, 0);
        assert(lines(s) =~= seq![x] + r);
    }
}

/// Recording a line without a newline keeps the history storable.
pub proof fn law_recorded_history_is_storable(e: Seq<Seq<char>>, line: Seq<char>)
    requires
        storable(e),
        forall|k: int| 0 <= k < line.len() ==> line[k] != '\n',
    ensures
        storable(added(e, line)),
{
    let t = trimmed(line);
    let a = crate::text::skip_space(line, 0);
    let b = crate::text::back_space(line, line.len() as int);
    crate::text::lemma_back_space_bounds(line, line.len() as int);
    crate::text::lemma_skip_space_bounds(line, 0);
    if t.len() > 0 && !(e.len() > 0 && e.last() == t) {
        assert(t.last() == line[b - 1]);
        assert(t.last() != '\r');
        let p = e.push(t);
        assert forall|i: int, k: int| 0 <= i < p.len() && 0 <= k < p[i].len() implies #[trigger] p[i][k] != '\n' by {
            if i == e.len() {
                assert(p[i][k] == line[a + k]);
            } else {
                assert(p[i] == e[i]);
            }
        }
        assert forall|i: int| 0 <= i < p.len() && p[i].len() > 0 implies #[trigger] p[i].last() != '\r' by {
            if i < e.len() {
                assert(p[i] == e[i]);
            }
        }
        if p.len() > MAX_ENTRIES {
            let q = p.subrange(p.len() - MAX_ENTRIES, p.len() as int);
            assert forall|i: int, k: int| 0 <= i < q.len() && 0 <= k < q[i].len() implies #[trigger] q[i][k] != '\n' by {
                assert(q[i] == p[i + p.len() - MAX_ENTRIES]);
            }
            assert forall|i: int| 0 <= i < q.len() && q[i].len() > 0 implies #[trigger] q[i].last() != '\r' by {
                assert(q[i] == p[i + p.len() - MAX_ENTRIES]);
            }
        }
    }
}
} // verus!
