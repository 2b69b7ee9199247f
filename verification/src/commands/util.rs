//! Helpers shared between built-ins: path names, and where `cp` and `mv` put
//! each source.

use vstd::prelude::*;

verus! {

/// The final component of the path `p`, as `Path::file_name` finds it.
pub uninterp spec fn path_file_name(p: Seq<char>) -> Option<Seq<char>>;

/// Returns the final component of a path (its file name), if any.
///
/// Calls `Path::file_name`, whose result is named: it is `None` when the path
/// ends in `..` or is a root, and otherwise the last component, which is
/// never empty and holds no `/`.
#[verifier::external_body]
pub fn file_name(path: &str) -> (r: Option<String>)
    ensures
        match r {
            Some(n) => path_file_name(path@) == Some(n@) && n@.len() > 0 && !n@.contains('/'),
            None => path_file_name(path@) is None,
        },
{
    match std::path::Path::new(path).file_name() {
        Some(n) => Some(n.to_string_lossy().into_owned()),
        None => None,
    }
}

/// The path `Path::join` makes of `base` and `name`.
pub uninterp spec fn path_joined(base: Seq<char>, name: Seq<char>) -> Seq<char>;

/// Adds the path `name` below `base`.
///
/// Calls `Path::join`, whose result is named: how it separates the two parts
/// (with the platform's separator, and not after a bare drive) is not
/// spelled out here.
#[verifier::external_body]
fn join_path(base: &str, name: &str) -> (r: String)
    ensures
        r@ == path_joined(base@, name@),
{
    std::path::Path::new(base).join(name).to_string_lossy().into_owned()
}

/// Where a source goes: inside `dest` under its own file name when `dest` is
/// a directory, otherwise `dest` itself.
pub open spec fn spec_resolve_target(src: Seq<char>, dest: Seq<char>, dest_is_dir: bool) -> Seq<char> {
    if dest_is_dir {
        match path_file_name(src) {
            Some(n) => path_joined(dest, n),
            None => dest,
        }
    } else {
        dest
    }
}

/// Computes the concrete destination path for a source.
pub fn resolve_target(src: &str, dest: &str, dest_is_dir: bool) -> (r: String)
    ensures
        r@ == spec_resolve_target(src@, dest@, dest_is_dir),
{
    if dest_is_dir {
        match file_name(src) {
            Some(name) => join_path(dest, name.as_str()),
            None => dest.to_owned(),
        }
    } else {
        dest.to_owned()
    }
}

/// The error when `cp` or `mv` is given fewer than two operands.
pub open spec fn msg_missing_file_operand() -> Seq<char> {
    "missing file operand"@
}

/// The error when several sources go to a destination that is not a
/// directory.
pub open spec fn msg_not_a_directory(dest: Seq<char>) -> Seq<char> {
    "target '"@ + dest + "' is not a directory"@
}

/// The sources and the destination of `cp` or `mv`: every operand but the
/// last, and the last.
pub open spec fn spec_transfer_operands(args: Seq<Seq<char>>) -> Result<(Seq<Seq<char>>, Seq<char>), Seq<char>> {
    if args.len() < 2 {
        Err(msg_missing_file_operand())
    } else {
        Ok((args.drop_last(), args.last()))
    }
}

/// Splits the operands of `cp` or `mv` into the sources and the destination.
pub fn transfer_operands(args: &[String]) -> (r: Result<(Vec<String>, String), String>)
    ensures
        match (r, spec_transfer_operands(args@.map_values(|a: String| a@))) {
            (Ok((s, d)), Ok((ss, dd))) => s@.map_values(|a: String| a@) == ss && d@ == dd,
            (Err(e), Err(ee)) => e@ == ee,
            _ => false,
        },
{
    if args.len() < 2 {
        return Err("missing file operand".to_owned());
    }
    let (sources, dest) = args.split_at(args.len() - 1);
    let mut v: Vec<String> = Vec::new();
    let mut k: usize = 0;
    while k < sources.len()
        invariant
            k <= sources@.len(),
            sources@ == args@.subrange(0, args@.len() - 1),
            v.len() == k,
            forall|j: int| 0 <= j < k ==> #[trigger] v@[j]@ == sources@[j]@,
        decreases sources@.len() - k,
    {
        v.push(sources[k].clone());
        k += 1;
    }
    assert(v@.map_values(|a: String| a@) =~= args@.map_values(|a: String| a@).drop_last());
    Ok((v, dest[0].clone()))
}

/// Where each source goes, in order, or the error when several sources go
/// to a destination that is not a directory.
pub open spec fn spec_transfer_targets(sources: Seq<Seq<char>>, dest: Seq<char>, dest_is_dir: bool) -> Result<Seq<(Seq<char>, Seq<char>)>, Seq<char>> {
    if sources.len() > 1 && !dest_is_dir {
        Err(msg_not_a_directory(dest))
    } else {
        Ok(sources.map_values(|s: Seq<char>| (s, spec_resolve_target(s, dest, dest_is_dir))))
    }
}

pub open spec fn pairs_view(v: Seq<(String, String)>) -> Seq<(Seq<char>, Seq<char>)> {
    v.map_values(|p: (String, String)| (p.0@, p.1@))
}

/// Pairs each source of `cp` or `mv` with the path it goes to.
pub fn transfer_targets(sources: &[String], dest: &str, dest_is_dir: bool) -> (r: Result<Vec<(String, String)>, String>)
    ensures
        match (r, spec_transfer_targets(sources@.map_values(|a: String| a@), dest@, dest_is_dir)) {
            (Ok(v), Ok(vv)) => pairs_view(v@) == vv,
            (Err(e), Err(ee)) => e@ == ee,
            _ => false,
        },
{
    if sources.len() > 1 && !dest_is_dir {
        let mut e = String::new();
        e.append("target '");
        e.append(dest);
        e.append("' is not a directory");
        return Err(e);
    }
    let ghost sv = sources@.map_values(|a: String| a@);
    let mut v: Vec<(String, String)> = Vec::new();
    let mut k: usize = 0;
    while k < sources.len()
        invariant
            k <= sources@.len(),
            sv == sources@.map_values(|a: String| a@),
            v.len() == k,
            forall|j: int|
                #![trigger v@[j]]
                0 <= j < k ==> v@[j].0@ == sv[j] && v@[j].1@ == spec_resolve_target(
                    sv[j],
                    dest@,
                    dest_is_dir,
                ),
        decreases sources@.len() - k,
    {
        let target = resolve_target(sources[k].as_str(), dest, dest_is_dir);
        assert(sv[k as int] == sources@[k as int]@);
        v.push((sources[k].clone(), target));
        k += 1;
    }
    assert(pairs_view(v@) =~= sv.map_values(
        |s: Seq<char>| (s, spec_resolve_target(s, dest@, dest_is_dir)),
    ));
    Ok(v)
}

/// The report for one operand that could not be handled:
/// `name: what 'operand': error`.
pub open spec fn spec_operand_failure(name: Seq<char>, what: Seq<char>, operand: Seq<char>, error: Seq<char>) -> Seq<char> {
    name + ": "@ + what + " '"@ + operand + "': "@ + error
}

/// Builds the report for one operand that could not be handled, such as
/// `rm: cannot remove 'x': No such file or directory`.
pub fn operand_failure(name: &str, what: &str, operand: &str, error: &str) -> (r: String)
    ensures
        r@ == spec_operand_failure(name@, what@, operand@, error@),
{
    let mut s = String::new();
    s.append(name);
    s.append(": ");
    s.append(what);
    s.append(" '");
    s.append(operand);
    s.append("': ");
    s.append(error);
    s
}

} // verus!
