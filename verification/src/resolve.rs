//! Paths against a working directory: the canonical form of a path, and
//! the form relative to the working directory.

use vstd::prelude::*;
use crate::component::Part;
use crate::home::{expand_tilde_with, expanded, fold_home_dir_with, folded, home_dir, parts_of_home};
use crate::normalize::{lexical, normal_form_of, normalize};
use crate::path::{Path, is_absolute, join, prefix_of, strip_prefix};

verus! {

/// What is normalised to find the canonical form of `parts`: `parts` with a
/// leading `~` expanded and then taken relative to the working directory.
/// Joining leaves a path with a root directory as it is, but for the prefix
/// of the working directory that it may lack.
pub open spec fn based(parts: Seq<Part>, cwd: Seq<Part>, home: Option<Seq<Part>>) -> Seq<Part> {
    join(cwd, expanded(parts, home))
}

/// Whether `out` is a canonical form of `parts` under `cwd` and `home`: a
/// normal form of [`based`], and the lexical one where that has no prefix.
pub open spec fn canonical_form_of(
    out: Seq<Part>,
    parts: Seq<Part>,
    cwd: Seq<Part>,
    home: Option<Seq<Part>>,
) -> bool {
    let target = based(parts, cwd, home);
    &&& normal_form_of(out, target)
    &&& !(target.len() > 0 && target[0] is Prefix) ==> out == lexical(target)
}

/// The relative form of `parts`, given the normal forms of `parts` and of
/// the working directory: for a path with a root directory, what follows
/// the working directory in its normal form, or `parts` unchanged where it
/// does not lie under the working directory; for any other path, `parts`
/// unchanged. The home directory is folded into the result.
pub open spec fn relative_given(
    parts: Seq<Part>,
    normal: Seq<Part>,
    normal_cwd: Seq<Part>,
    home: Option<Seq<Part>>,
) -> Seq<Part> {
    let short = if is_absolute(parts) {
        match strip_prefix(normal, normal_cwd) {
            Some(rest) => rest,
            None => parts,
        }
    } else {
        parts
    };
    folded(short, home)
}

/// Whether `out` is a relative form of `parts` under `cwd` and `home`: what
/// [`relative_given`] makes of some normal forms of `parts` and `cwd`.
pub open spec fn relative_form_of(
    out: Seq<Part>,
    parts: Seq<Part>,
    cwd: Seq<Part>,
    home: Option<Seq<Part>>,
) -> bool {
    exists|normal: Seq<Part>, normal_cwd: Seq<Part>|
        normal_form_of(normal, parts) && normal_form_of(normal_cwd, cwd) && out
            == #[trigger] relative_given(parts, normal, normal_cwd, home)
}

/// A path with a root directory is not moved by joining it onto a working
/// directory without a prefix, nor is a path with a prefix by any.
pub proof fn lemma_join_keeps_absolute(cwd: Seq<Part>, parts: Seq<Part>)
    requires
        is_absolute(parts),
        parts[0] is Prefix || prefix_of(cwd).len() == 0,
    ensures
        join(cwd, parts) == parts,
{
    if !(parts[0] is Prefix) {
        assert(prefix_of(cwd) + parts =~= parts);
    }
}

/// The canonical form of `path` under the working directory `cwd`, with
/// `home` as home directory: a leading `~` is expanded, the result is taken
/// relative to `cwd`, and that is normalised.
pub fn canonicalize_with(path: &Path, cwd: &Path, home: Option<&Path>) -> (out: Path)
    ensures
        canonical_form_of(out@, path@, cwd@, parts_of_home(home)),
{
    let long = expand_tilde_with(path, home);
    let target = cwd.join(&long);
    normalize(&target)
}

/// The canonical, absolute form of `path` under the working directory
/// `cwd`. The home directory is looked up; the result is what
/// [`canonicalize_with`] gives for the outcome of that lookup. Whether the
/// path exists is not asked.
pub fn canonicalize(path: &Path, cwd: &Path) -> (out: Path)
    ensures
        exists|home: Option<Seq<Part>>| #[trigger] canonical_form_of(out@, path@, cwd@, home),
{
    let home = home_dir();
    let known: Option<&Path> = match &home {
        Some(h) => Some(h),
        None => None,
    };
    let out = canonicalize_with(path, cwd, known);
    proof {
        assert(canonical_form_of(out@, path@, cwd@, parts_of_home(known)));
    }
    out
}

/// The canonical form of `path` under the working directory `cwd`.
pub fn get_canonicalized_path(path: &Path, cwd: &Path) -> (out: Path)
    ensures
        exists|home: Option<Seq<Part>>| #[trigger] canonical_form_of(out@, path@, cwd@, home),
{
    canonicalize(path, cwd)
}

/// The relative form of `path`, given its normal form `normal`, the normal
/// form `normal_cwd` of the working directory, and the home directory.
pub fn relative_from(path: &Path, normal: &Path, normal_cwd: &Path, home: Option<&Path>) -> (out:
    Path)
    ensures
        out@ == relative_given(path@, normal@, normal_cwd@, parts_of_home(home)),
{
    if path.is_absolute() {
        match normal.strip_prefix(normal_cwd) {
            Some(rest) => fold_home_dir_with(&rest, home),
            None => fold_home_dir_with(path, home),
        }
    } else {
        fold_home_dir_with(path, home)
    }
}

/// The form of `path` relative to the working directory `cwd`, with `home`
/// as home directory: a path with a root directory is normalised and loses
/// the normalised working directory from its front, where it lies under it;
/// the home directory is then folded into `~`.
pub fn get_relative_path_with(path: &Path, cwd: &Path, home: Option<&Path>) -> (out: Path)
    ensures
        relative_form_of(out@, path@, cwd@, parts_of_home(home)),
        !(path@.len() > 0 && path@[0] is Prefix) && !(cwd@.len() > 0 && cwd@[0] is Prefix)
            ==> out@ == relative_given(path@, lexical(path@), lexical(cwd@), parts_of_home(home)),
{
    if path.is_absolute() {
        let normal_cwd = normalize(cwd);
        let normal = normalize(path);
        let out = relative_from(path, &normal, &normal_cwd, home);
        proof {
            assert(out@ == relative_given(path@, normal@, normal_cwd@, parts_of_home(home)));
        }
        out
    } else {
        let out = fold_home_dir_with(path, home);
        proof {
            assert(out@ == relative_given(path@, lexical(path@), lexical(cwd@), parts_of_home(home)));
        }
        out
    }
}

/// The form of `path` relative to the working directory `cwd`. The home
/// directory is looked up; the result is what [`get_relative_path_with`]
/// gives for the outcome of that lookup.
pub fn get_relative_path(path: &Path, cwd: &Path) -> (out: Path)
    ensures
        exists|home: Option<Seq<Part>>| #[trigger] relative_form_of(out@, path@, cwd@, home),
{
    let home = home_dir();
    let known: Option<&Path> = match &home {
        Some(h) => Some(h),
        None => None,
    };
    let out = get_relative_path_with(path, cwd, known);
    proof {
        assert(relative_form_of(out@, path@, cwd@, parts_of_home(known)));
    }
    out
}

} // verus!
