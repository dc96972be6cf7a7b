//! The home directory and its shorthand `~`: folding a path onto it and
//! expanding it again.

use vstd::prelude::*;
use crate::component::{Component, Part};
use crate::path::{
    Path,
    floating,
    join,
    lemma_relative_is_floating,
    lemma_skip_well_formed,
    parts_of,
    prefix_of,
    starts_with,
    strip_prefix,
    well_formed,
};
use crate::text::{legible, parse};

verus! {

/// The component that stands for the home directory: the entry named `~`.
pub open spec fn tilde() -> Part {
    Part::Normal(seq!['~'])
}

/// `parts` with the home directory folded into `~`: where a home directory
/// is known and `parts` begins with it, `~` joined with what follows it;
/// otherwise `parts` itself.
pub open spec fn folded(parts: Seq<Part>, home: Option<Seq<Part>>) -> Seq<Part> {
    match home {
        Some(h) => match strip_prefix(parts, h) {
            Some(rest) => join(seq![tilde()], rest),
            None => parts,
        },
        None => parts,
    }
}

/// `parts` with a leading `~` expanded: where a home directory is known and
/// the first component is the entry `~`, the home directory joined with what
/// follows it; otherwise `parts` itself.
pub open spec fn expanded(parts: Seq<Part>, home: Option<Seq<Part>>) -> Seq<Part> {
    match home {
        Some(h) => if parts.len() > 0 && parts[0] == tilde() {
            join(h, parts.skip(1))
        } else {
            parts
        },
        None => parts,
    }
}

/// The view of an optional path.
pub open spec fn parts_of_home(home: Option<&Path>) -> Option<Seq<Part>> {
    match home {
        Some(h) => Some(h@),
        None => None,
    }
}

/// Calls `etcetera::home_dir` and hands back the text of the directory it
/// found, or nothing where it found none or the directory's name is not
/// Unicode. What it finds depends on the environment: nothing is claimed
/// of it.
#[verifier::external_body]
fn home_dir_text() -> (home: Option<String>) {
    match etcetera::home_dir() {
        Ok(found) => found.into_os_string().into_string().ok(),
        Err(_) => None,
    }
}

/// The home directory of the user, where one can be found. Whether one is
/// found depends on the environment. The directory is read from its text
/// form, with `/` as separator: the result is the path that some text
/// denotes, and so has the shape of a path read from text.
pub fn home_dir() -> (home: Option<Path>)
    ensures
        home matches Some(h) ==> exists|text: Seq<char>| h@ == #[trigger] parse(text),
        home matches Some(h) ==> legible(h@),
{
    match home_dir_text() {
        Some(text) => {
            let found = Path::from_text(text.as_str());
            proof {
                assert(found@ == parse(text@));
            }
            Some(found)
        },
        None => None,
    }
}

/// The path that consists of the entry `~` alone.
pub fn tilde_path() -> (path: Path)
    ensures
        path@ == seq![tilde()],
{
    proof {
        reveal_strlit("~");
        assert("~"@ =~= seq!['~']);
    }
    let mut parts: Vec<Component> = Vec::new();
    parts.push(Component::Normal(String::from_str("~")));
    proof {
        assert(parts_of(parts@) =~= seq![tilde()]);
        assert(seq!['~'] != seq!['.']) by {
            assert(seq!['~'][0] != seq!['.'][0]);
        }
        assert(seq!['~'] != seq!['.', '.']) by {
            assert(seq!['~'].len() != seq!['.', '.'].len());
        }
    }
    Path::from_checked(parts)
}

/// Folds `home` into `~` at the front of `path`: where `home` is given and
/// `path` begins with it, component by component, the result is `~` joined
/// with the rest; otherwise it is `path`.
pub fn fold_home_dir_with(path: &Path, home: Option<&Path>) -> (out: Path)
    ensures
        out@ == folded(path@, parts_of_home(home)),
{
    match home {
        Some(h) => match path.strip_prefix(h) {
            Some(rest) => tilde_path().join(&rest),
            None => path.clone(),
        },
        None => path.clone(),
    }
}

/// Expands a leading `~` of `path` into `home`: where `home` is given and
/// the first component of `path` is the entry `~`, the result is `home`
/// joined with the rest; otherwise it is `path`.
pub fn expand_tilde_with(path: &Path, home: Option<&Path>) -> (out: Path)
    ensures
        out@ == expanded(path@, parts_of_home(home)),
{
    match home {
        Some(h) => {
            let front = tilde_path();
            match path.strip_prefix(&front) {
                Some(rest) => {
                    proof {
                        assert(path@[0] == front@[0]);
                    }
                    h.join(&rest)
                },
                None => {
                    proof {
                        if path@.len() > 0 && path@[0] == tilde() {
                            assert(path@.subrange(0, 1) =~= front@);
                        }
                    }
                    path.clone()
                },
            }
        },
        None => path.clone(),
    }
}

/// Replaces the user's home directory at the front of `path` with `~`. The
/// home directory is looked up; the result is what
/// [`fold_home_dir_with`] gives for the outcome of that lookup.
pub fn fold_home_dir(path: &Path) -> (out: Path)
    ensures
        exists|home: Option<Seq<Part>>| out@ == #[trigger] folded(path@, home),
{
    let home = home_dir();
    let known: Option<&Path> = match &home {
        Some(h) => Some(h),
        None => None,
    };
    let out = fold_home_dir_with(path, known);
    proof {
        assert(out@ == folded(path@, parts_of_home(known)));
    }
    out
}

/// Expands a leading `~` of `path` into the user's home directory. The home
/// directory is looked up; the result is what [`expand_tilde_with`] gives
/// for the outcome of that lookup.
pub fn expand_tilde(path: &Path) -> (out: Path)
    ensures
        exists|home: Option<Seq<Part>>| out@ == #[trigger] expanded(path@, home),
{
    let home = home_dir();
    let known: Option<&Path> = match &home {
        Some(h) => Some(h),
        None => None,
    };
    let out = expand_tilde_with(path, known);
    proof {
        assert(out@ == expanded(path@, parts_of_home(known)));
    }
    out
}

/// Folding and then expanding gives the path back: where `path` begins with
/// the home directory, expanding the folded path restores it. The one
/// exception is a home directory that is a bare prefix, under a path with a
/// root directory behind that prefix.
pub proof fn lemma_expand_after_fold(path: Seq<Part>, home: Seq<Part>)
    requires
        well_formed(path),
        well_formed(home),
        starts_with(path, home),
        !(home.len() == 1 && home[0] is Prefix && path.len() > 1 && path[1] is RootDir),
    ensures
        expanded(folded(path, Some(home)), Some(home)) == path,
{
    let rest = path.skip(home.len() as int);
    let short = folded(path, Some(home));
    lemma_skip_well_formed(path, home.len() as int);
    assert(home =~= path.take(home.len() as int));
    if rest.len() == 0 {
        assert(short == seq![tilde()]);
        assert(short.skip(1) =~= Seq::<Part>::empty());
        assert(path =~= home);
    } else if home.len() == 0 {
        assert(rest =~= path);
        if path[0] is Prefix {
        } else if path[0] is RootDir {
            assert(prefix_of(seq![tilde()]) =~= Seq::<Part>::empty());
            assert(short =~= path);
        } else {
            assert(short == seq![tilde()] + path);
            assert(short.skip(1) =~= path);
        }
    } else {
        if home.len() == 1 && home[0] is Prefix {
            assert(path[0] == home[0]);
            assert(rest[0] == path[1]);
            assert(!(rest[0] is RootDir));
            assert(!(rest[0] is Prefix));
            lemma_relative_is_floating(rest);
        } else {
            assert(path[0] == home[0]);
        }
        assert(floating(rest));
        assert(!(rest[0] is Prefix) && !(rest[0] is RootDir));
        assert(short == seq![tilde()] + rest);
        assert(short.skip(1) =~= rest);
        assert(home + rest =~= path);
    }
}

/// Expanding and then folding gives the path back: where the first
/// component of `path` is the entry `~`, folding the expanded path restores
/// it.
pub proof fn lemma_fold_after_expand(path: Seq<Part>, home: Seq<Part>)
    requires
        well_formed(path),
        well_formed(home),
        path.len() > 0,
        path[0] == tilde(),
    ensures
        folded(expanded(path, Some(home)), Some(home)) == path,
{
    let rest = path.skip(1);
    lemma_skip_well_formed(path, 1);
    assert(floating(rest));
    let long = expanded(path, Some(home));
    if rest.len() == 0 {
        assert(long == home);
        assert(home.skip(home.len() as int) =~= Seq::<Part>::empty());
        assert(path =~= seq![tilde()]);
    } else {
        assert(!(rest[0] is Prefix) && !(rest[0] is RootDir));
        assert(long == home + rest);
        assert(long.skip(home.len() as int) =~= rest);
        assert(seq![tilde()] + rest =~= path);
    }
}

} // verus!
