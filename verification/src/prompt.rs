//! The prompt: the working directory, with the home directory shown as `~`.

use vstd::prelude::*;
use crate::color::{paint, painted, CYAN};
use crate::text::{chars_of, starts_with, starts_with_exec, string_of};

verus! {

/// How the working directory `cwd` is shown: `~` for the home directory
/// itself, `~/...` for a place below it, and the full path otherwise.
pub open spec fn shown_dir(cwd: Seq<char>, home: Option<Seq<char>>) -> Seq<char> {
    match home {
        Some(h) => if h.len() > 0 && cwd == h {
            seq!['~']
        } else if h.len() > 0 && starts_with(cwd, h.push('/')) {
            seq!['~'] + cwd.skip(h.len() as int)
        } else {
            cwd
        },
        None => cwd,
    }
}

/// The home directory is shown as `~`, and a place below it as `~` followed
/// by the rest of its path.
pub proof fn law_home_is_tilde(home: Seq<char>, rest: Seq<char>)
    requires
        home.len() > 0,
    ensures
        shown_dir(home, Some(home)) == seq!['~'],
        shown_dir(home.push('/') + rest, Some(home)) == seq!['~', '/'] + rest,
{
    let cwd = home.push('/') + rest;
    assert(cwd.subrange(0, home.len() + 1int) =~= home.push('/'));
    if cwd == home {
        assert(cwd.len() != home.len());
    }
    assert(seq!['~'] + cwd.skip(home.len() as int) =~= seq!['~', '/'] + rest);
}

/// A directory outside the home directory is shown in full.
pub proof fn law_outside_home_is_unchanged(cwd: Seq<char>, home: Seq<char>)
    requires
        cwd != home,
        !starts_with(cwd, home.push('/')),
    ensures
        shown_dir(cwd, Some(home)) == cwd,
{
}

/// The prompt text: the shown directory (in cyan when `colored`) and `$ `.
pub open spec fn prompt_text(cwd: Seq<char>, home: Option<Seq<char>>, colored: bool) -> Seq<char> {
    painted(colored, CYAN@, shown_dir(cwd, home)) + " $ "@
}

/// Builds the prompt for the working directory `cwd` and the home directory
/// `home`, with its visible width in columns (colour codes take none).
pub fn prompt(cwd: &str, home: Option<&str>, colored: bool) -> (r: (String, usize))
    requires
        cwd@.len() + 3 <= usize::MAX,
    ensures
        r.0@ == prompt_text(cwd@, match home {
            Some(h) => Some(h@),
            None => None,
        }, colored),
        r.1 == shown_dir(cwd@, match home {
            Some(h) => Some(h@),
            None => None,
        }).len() + 3,
{
    let c = chars_of(cwd);
    let mut shown: Vec<char> = c.clone();
    match home {
        Some(h) => {
            let mut hs = chars_of(h);
            if hs.len() > 0 {
                if c.len() == hs.len() && starts_with_exec(&c, &hs) {
                    assert(c@ =~= hs@) by {
                        assert(c@.subrange(0, hs@.len() as int) =~= c@);
                    }
                    shown = vec!['~'];
                } else {
                    assert(c@.len() == hs@.len() ==> c@ != hs@) by {
                        if c@.len() == hs@.len() && c@ == hs@ {
                            assert(c@.subrange(0, hs@.len() as int) =~= c@);
                        }
                    }
                    let n = hs.len();
                    hs.push('/');
                    if c.len() >= hs.len() && starts_with_exec(&c, &hs) {
                        let mut v: Vec<char> = vec!['~'];
                        let mut k: usize = n;
                        while k < c.len()
                            invariant
                                n <= k <= c@.len(),
                                v@ == seq!['~'] + c@.subrange(n as int, k as int),
                            decreases c@.len() - k,
                        {
                            v.push(c[k]);
                            k += 1;
                            assert(v@ =~= seq!['~'] + c@.subrange(n as int, k as int));
                        }
                        assert(c@.subrange(n as int, k as int) =~= c@.skip(n as int));
                        shown = v;
                    }
                }
            }
        },
        None => {},
    }
    let dir = string_of(&shown);
    let mut text = paint(colored, CYAN, dir.as_str());
    text.append(" $ ");
    proof {
        reveal_strlit(" $ ");
    }
    (text, shown.len() + 3)
}

} // verus!
