//! `rm` — which paths to remove, and how.

use vstd::prelude::*;
use crate::text::{chars_of, copy_strings, strings_view};

verus! {

/// Whether an argument is an option cluster: a `-` and at least one more
/// character.
pub open spec fn is_flag_word(a: Seq<char>) -> bool {
    a.len() > 1 && a[0] == '-'
}

/// Whether every character after the leading `-` is one of `r`, `R`, `f`.
pub open spec fn known_flags(a: Seq<char>) -> bool {
    forall|k: int| 1 <= k < a.len() ==> (#[trigger] a[k] == 'r' || a[k] == 'R' || a[k] == 'f')
}

/// Whether an option cluster asks for recursive removal.
pub open spec fn asks_recursive(a: Seq<char>) -> bool {
    a.contains('r') || a.contains('R')
}

pub open spec fn msg_invalid_option(a: Seq<char>) -> Seq<char> {
    "invalid option '"@ + a + "'"@
}

/// Reads the option clusters from `k` on, up to the first argument that is
/// not one: whether they ask for recursion and where the operands start, or
/// the error for the first cluster with an unknown letter.
pub open spec fn flag_scan(args: Seq<Seq<char>>, k: int) -> Result<(bool, int), Seq<char>>
    decreases args.len() - k,
{
    if 0 <= k < args.len() && is_flag_word(args[k]) {
        if !known_flags(args[k]) {
            Err(msg_invalid_option(args[k]))
        } else {
            match flag_scan(args, k + 1) {
                Ok((r, n)) => Ok((r || asks_recursive(args[k]), n)),
                Err(e) => Err(e),
            }
        }
    } else {
        Ok((false, k))
    }
}

/// The options and operands of `rm`: a leading run of clusters of `r`, `R`
/// and `f` (`r` or `R` asks for directories to be removed too), then at
/// least one path. Once a path is seen, later arguments are paths too.
pub open spec fn spec_rm_args(args: Seq<Seq<char>>) -> Result<(bool, Seq<Seq<char>>), Seq<char>> {
    match flag_scan(args, 0) {
        Err(e) => Err(e),
        Ok((r, n)) => if n >= args.len() {
            Err("missing operand"@)
        } else {
            Ok((r, args.skip(n)))
        },
    }
}

pub open spec fn or_recursive(rec: bool, res: Result<(bool, int), Seq<char>>) -> Result<(bool, int), Seq<char>> {
    match res {
        Ok((r, n)) => Ok((rec || r, n)),
        Err(e) => Err(e),
    }
}

proof fn lemma_flag_scan_end(args: Seq<Seq<char>>, k: int)
    requires
        0 <= k <= args.len(),
    ensures
        flag_scan(args, k) matches Ok((_, n)) ==> k <= n <= args.len(),
    decreases args.len() - k,
{
    if k < args.len() && is_flag_word(args[k]) && known_flags(args[k]) {
        lemma_flag_scan_end(args, k + 1);
    }
}

proof fn lemma_flag_scan_ok(args: Seq<Seq<char>>, k: int)
    requires
        0 <= k <= args.len(),
    ensures
        flag_scan(args, k) matches Ok((r, n)) ==> {
            &&& k <= n <= args.len()
            &&& (r <==> exists|j: int| k <= j < n && #[trigger] asks_recursive(args[j]))
            &&& forall|j: int| k <= j < n ==> #[trigger] is_flag_word(args[j])
        },
    decreases args.len() - k,
{
    if k < args.len() && is_flag_word(args[k]) && known_flags(args[k]) {
        lemma_flag_scan_ok(args, k + 1);
        if let Ok((r, n)) = flag_scan(args, k + 1) {
            if asks_recursive(args[k]) {
                assert(asks_recursive(args[k]));
            }
            if exists|j: int| k <= j < n && #[trigger] asks_recursive(args[j]) {
                let j = choose|j: int| k <= j < n && #[trigger] asks_recursive(args[j]);
                if j > k {
                    assert(exists|j2: int| k + 1 <= j2 < n && #[trigger] asks_recursive(args[j2]));
                }
            }
        }
    }
}

/// `rm` removes directories exactly when one of its leading option
/// arguments holds `r` or `R` (see `asks_recursive`; `-f` alone does not), and its operands are all
/// the arguments after the leading options, in order.
pub proof fn law_rm_recursive_only_with_r(args: Seq<Seq<char>>)
    ensures
        spec_rm_args(args) matches Ok((rec, ops)) ==> {
            let n = args.len() - ops.len();
            &&& 0 <= n < args.len()
            &&& ops == args.skip(n)
            &&& forall|j: int| 0 <= j < n ==> #[trigger] is_flag_word(args[j])
            &&& (rec <==> exists|j: int| 0 <= j < n && #[trigger] asks_recursive(args[j]))
        },
        forall|a: Seq<char>| #[trigger] asks_recursive(a) <==> exists|k: int| 0 <= k < a.len() && (#[trigger] a[k] == 'r' || a[k] == 'R'),
{
    assert forall|a: Seq<char>| #[trigger] asks_recursive(a) implies exists|k: int| 0 <= k < a.len() && (#[trigger] a[k] == 'r' || a[k] == 'R') by {
        if a.contains('r') {
            let k = choose|k: int| 0 <= k < a.len() && a[k] == 'r';
            assert(a[k] == 'r');
        } else {
            let k = choose|k: int| 0 <= k < a.len() && a[k] == 'R';
            assert(a[k] == 'R');
        }
    }
    assert forall|a: Seq<char>| (exists|k: int| 0 <= k < a.len() && (#[trigger] a[k] == 'r' || a[k] == 'R')) implies #[trigger] asks_recursive(a) by {
        let k = choose|k: int| 0 <= k < a.len() && (#[trigger] a[k] == 'r' || a[k] == 'R');
        if a[k] == 'r' {
            assert(a.contains('r'));
        } else {
            assert(a.contains('R'));
        }
    }
    lemma_flag_scan_ok(args, 0);
    if let Ok((rec, ops)) = spec_rm_args(args) {
        let (r, n) = flag_scan(args, 0)->Ok_0;
        assert(ops.len() == args.len() - n);
    }
}

/// Reads one option cluster: `None` when it has a letter other than `r`,
/// `R`, `f`, otherwise whether it asks for recursion.
fn read_cluster(a: &[char]) -> (r: Option<bool>)
    requires
        a@.len() > 1,
        a@[0] == '-',
    ensures
        match r {
            Some(rec) => known_flags(a@) && rec == asks_recursive(a@),
            None => !known_flags(a@),
        },
{
    let mut rec = false;
    let mut k: usize = 1;
    while k < a.len()
        invariant
            1 <= k <= a@.len(),
            a@[0] == '-',
            forall|j: int| 1 <= j < k ==> (#[trigger] a@[j] == 'r' || a@[j] == 'R' || a@[j] == 'f'),
            rec == exists|j: int| 1 <= j < k && (#[trigger] a@[j] == 'r' || a@[j] == 'R'),
        decreases a@.len() - k,
    {
        let c = a[k];
        if !(c == 'r' || c == 'R' || c == 'f') {
            return None;
        }
        if c == 'r' || c == 'R' {
            rec = true;
        }
        k += 1;
    }
    proof {
        if rec {
            let j = choose|j: int| 1 <= j < k && (#[trigger] a@[j] == 'r' || a@[j] == 'R');
            assert(a@.contains(a@[j]));
        }
        if asks_recursive(a@) {
            if a@.contains('r') {
                let j = choose|j: int| 0 <= j < a@.len() && a@[j] == 'r';
                assert(j != 0);
            } else {
                let j = choose|j: int| 0 <= j < a@.len() && a@[j] == 'R';
                assert(j != 0);
            }
        }
    }
    Some(rec)
}

/// Reads the arguments of `rm`: whether directories are removed too, and
/// the paths to remove.
pub fn parse_args(args: &[String]) -> (r: Result<(bool, Vec<String>), String>)
    ensures
        match (r, spec_rm_args(strings_view(args@))) {
            (Ok((rec, ops)), Ok((rr, oo))) => rec == rr && strings_view(ops@) == oo,
            (Err(e), Err(ee)) => e@ == ee,
            _ => false,
        },
{
    let ghost av = strings_view(args@);
    let mut recursive = false;
    let mut k: usize = 0;
    while k < args.len()
        invariant
            k <= args@.len(),
            av == strings_view(args@),
            flag_scan(av, 0) == or_recursive(recursive, flag_scan(av, k as int)),
        ensures
            k <= args@.len(),
            av == strings_view(args@),
            flag_scan(av, 0) == or_recursive(recursive, flag_scan(av, k as int)),
            k < args@.len() ==> !is_flag_word(av[k as int]),
        decreases args@.len() - k,
    {
        let word = chars_of(args[k].as_str());
        assert(word@ == av[k as int]);
        if !(word.len() > 1 && word[0] == '-') {
            break;
        }
        match read_cluster(&word) {
            None => {
                let mut e = String::new();
                e.append("invalid option '");
                e.append(args[k].as_str());
                e.append("'");
                return Err(e);
            },
            Some(rec) => {
                recursive = recursive || rec;
            },
        }
        k += 1;
    }
    proof {
        lemma_flag_scan_end(av, k as int);
    }
    if k >= args.len() {
        return Err("missing operand".to_owned());
    }
    let operands = copy_strings(&args[k..args.len()]);
    assert(strings_view(operands@) =~= av.skip(k as int));
    Ok((recursive, operands))
}

/// How a path is removed.
#[derive(Clone, Copy, Debug, PartialEq, Eq, Structural)]
pub enum Removal {
    /// Remove the file (or link) itself.
    File,
    /// Remove the directory and everything under it.
    Tree,
    /// A directory, without `-r`: left in place.
    Refused,
}

/// Decides how a path is removed: a directory only with `-r`, and then with
/// all it holds.
pub fn removal(is_dir: bool, recursive: bool) -> (r: Removal)
    ensures
        r == if !is_dir {
            Removal::File
        } else if recursive {
            Removal::Tree
        } else {
            Removal::Refused
        },
{
    if is_dir {
        if recursive {
            Removal::Tree
        } else {
            Removal::Refused
        }
    } else {
        Removal::File
    }
}

} // verus!
