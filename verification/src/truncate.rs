//! Display truncation: every directory of a path cut down to its first
//! character, the file name kept whole.

use vstd::prelude::*;
use crate::component::{Component, Part, valid_part};
use crate::path::{
    Path,
    file_name,
    lemma_parts_of_push,
    lemma_push_part_well_formed,
    lemma_take_well_formed,
    parent,
    parts_of,
    prefix_of,
    push_part,
    strip_prefix,
    well_formed,
};

verus! {

/// What stands for a directory in a truncated path: the root directory for
/// itself, and for every other component the first character of its text,
/// read as a component. Nothing stands for a component without text.
pub open spec fn abbreviation(part: Part) -> Option<Part> {
    match part {
        Part::RootDir => Some(Part::RootDir),
        Part::CurDir => Some(Part::CurDir),
        Part::ParentDir => Some(Part::CurDir),
        Part::Prefix(text) => initial(text),
        Part::Normal(name) => initial(name),
    }
}

/// The first character of `text`, read as a component.
pub open spec fn initial(text: Seq<char>) -> Option<Part> {
    if text.len() == 0 {
        None
    } else if text[0] == '.' {
        Some(Part::CurDir)
    } else {
        Some(Part::Normal(seq![text[0]]))
    }
}

/// The abbreviations of `base`, pushed one after the other.
pub open spec fn abbreviated(base: Seq<Part>) -> Seq<Part>
    decreases base.len(),
{
    if base.len() == 0 {
        Seq::empty()
    } else {
        match abbreviation(base.last()) {
            Some(short) => push_part(abbreviated(base.drop_last()), short),
            None => abbreviated(base.drop_last()),
        }
    }
}

/// The truncated form of `parts`: the abbreviated directories, then the
/// file name in full. A sequence that ends in no entry has no file name, and
/// one that ends in a root directory or a prefix has no directories either.
pub open spec fn truncated(parts: Seq<Part>) -> Seq<Part> {
    let base = match parent(parts) {
        Some(up) => up,
        None => Seq::empty(),
    };
    match file_name(parts) {
        Some(name) => abbreviated(base).push(Part::Normal(name)),
        None => abbreviated(base),
    }
}

/// What is shown for `parts` under the working directory `cwd`: the
/// truncated form of what follows `cwd`, or of `parts` where it does not
/// begin with `cwd`.
pub open spec fn truncated_under(parts: Seq<Part>, cwd: Seq<Part>) -> Seq<Part> {
    match strip_prefix(parts, cwd) {
        Some(rest) => truncated(rest),
        None => truncated(parts),
    }
}

/// The abbreviation of a valid component is valid.
pub proof fn lemma_abbreviation_valid(part: Part)
    requires
        valid_part(part),
    ensures
        abbreviation(part) is Some ==> valid_part(abbreviation(part)->0),
{
    match part {
        Part::Prefix(text) => {
            lemma_initial_valid(text);
        },
        Part::Normal(name) => {
            lemma_initial_valid(name);
        },
        _ => {},
    }
}

/// The first character of a text without separators is a valid component.
pub proof fn lemma_initial_valid(text: Seq<char>)
    requires
        forall|i: int| 0 <= i < text.len() ==> text[i] != '/',
    ensures
        initial(text) is Some ==> valid_part(initial(text)->0),
{
    if text.len() > 0 && text[0] != '.' {
        let one = seq![text[0]];
        assert(one != seq!['.']) by {
            assert(one[0] != seq!['.'][0]);
        }
        assert(one != seq!['.', '.']) by {
            assert(one.len() != seq!['.', '.'].len());
        }
    }
}

/// The abbreviated form of a well-formed sequence is well formed.
pub proof fn lemma_abbreviated_well_formed(base: Seq<Part>)
    requires
        well_formed(base),
    ensures
        well_formed(abbreviated(base)),
    decreases base.len(),
{
    if base.len() > 0 {
        lemma_take_well_formed(base, base.len() - 1);
        assert(base.take(base.len() - 1) =~= base.drop_last());
        lemma_abbreviated_well_formed(base.drop_last());
        lemma_abbreviation_valid(base.last());
        if abbreviation(base.last()) is Some {
            lemma_push_part_well_formed(abbreviated(base.drop_last()), abbreviation(base.last())->0);
        }
    }
}

/// Whether every component of `base` is its own abbreviation: a root
/// directory, `.`, or an entry named by one character other than `.`.
pub open spec fn brief(base: Seq<Part>) -> bool {
    forall|i: int|
        0 <= i < base.len() ==> match #[trigger] base[i] {
            Part::RootDir => true,
            Part::CurDir => true,
            Part::Normal(name) => name.len() == 1 && name[0] != '.',
            _ => false,
        }
}

/// Directories that are their own abbreviations are left as they are.
pub proof fn lemma_abbreviated_fixes_brief(base: Seq<Part>)
    requires
        well_formed(base),
        brief(base),
    ensures
        abbreviated(base) == base,
    decreases base.len(),
{
    if base.len() > 0 {
        let front = base.drop_last();
        let last = base.last();
        assert(last == base[base.len() - 1]);
        lemma_take_well_formed(base, base.len() - 1);
        assert(base.take(base.len() - 1) =~= front);
        assert forall|i: int| 0 <= i < front.len() implies match #[trigger] front[i] {
            Part::RootDir => true,
            Part::CurDir => true,
            Part::Normal(name) => name.len() == 1 && name[0] != '.',
            _ => false,
        } by {
            assert(front[i] == base[i]);
        }
        lemma_abbreviated_fixes_brief(front);
        match last {
            Part::RootDir => {
                assert(base.len() == 1) by {
                    if base.len() > 1 {
                        assert(base[0] is Prefix);
                    }
                }
                assert(prefix_of(front) =~= Seq::<Part>::empty());
                assert(prefix_of(front).push(last) =~= base);
            },
            Part::Normal(name) => {
                assert(seq![name[0]] =~= name);
                assert(front.push(last) =~= base);
            },
            _ => {
                assert(front.push(last) =~= base);
            },
        }
    }
}

/// A truncated path is left as it is: where a path ends in an entry and
/// every directory before it is its own abbreviation, truncating changes
/// nothing.
pub proof fn lemma_truncated_fixes_brief(parts: Seq<Part>)
    requires
        well_formed(parts),
        file_name(parts) is Some,
        brief(parts.drop_last()),
    ensures
        truncated(parts) == parts,
{
    let base = parts.drop_last();
    lemma_take_well_formed(parts, parts.len() - 1);
    assert(parts.take(parts.len() - 1) =~= base);
    lemma_abbreviated_fixes_brief(base);
    assert(base.push(parts.last()) =~= parts);
}

/// The first character of `text`, read as a component.
fn initial_of(text: &str) -> (short: Option<Component>)
    ensures
        short is Some <==> initial(text@) is Some,
        short is Some ==> short->0@ == initial(text@)->0,
{
    if text.unicode_len() == 0 {
        None
    } else if text.get_char(0) == '.' {
        Some(Component::CurDir)
    } else {
        let one = text.substring_char(0, 1);
        proof {
            assert(one@ =~= seq![text@[0]]);
        }
        Some(Component::Normal(String::from_str(one)))
    }
}

/// What stands for `component` in a truncated path.
fn abbreviate(component: &Component) -> (short: Option<Component>)
    ensures
        short is Some <==> abbreviation(component@) is Some,
        short is Some ==> short->0@ == abbreviation(component@)->0,
{
    match component {
        Component::RootDir => Some(Component::RootDir),
        Component::CurDir => Some(Component::CurDir),
        Component::ParentDir => Some(Component::CurDir),
        Component::Prefix(text) => initial_of(text.as_str()),
        Component::Normal(name) => initial_of(name.as_str()),
    }
}

/// The truncated form of `path`: every directory cut down to its first
/// character, the file name kept whole.
pub fn truncate(path: &Path) -> (out: Path)
    ensures
        out@ == truncated(path@),
{
    let parts = path.parts();
    let n = parts.len();
    if n == 0 || matches!(&parts[n - 1], Component::Prefix(_) | Component::RootDir) {
        proof {
            assert(parent(path@) is None);
            assert(file_name(path@) is None);
        }
        return Path::new();
    }
    let ghost base = path@.drop_last();
    proof {
        lemma_take_well_formed(path@, n - 1);
        assert(path@.take(n - 1) =~= base);
        assert(base.take(0) =~= Seq::<Part>::empty());
    }
    let mut out: Vec<Component> = Vec::new();
    let mut i: usize = 0;
    proof {
        assert(parts_of(out@) =~= Seq::<Part>::empty());
    }
    while i < n - 1
        invariant
            n == parts.len(),
            n > 0,
            i <= n - 1,
            parts_of(parts@) == path@,
            base == path@.drop_last(),
            well_formed(base),
            well_formed(parts_of(out@)),
            parts_of(out@) == abbreviated(base.take(i as int)),
        decreases n - 1 - i,
    {
        let ghost before = out@;
        proof {
            assert(base.take(i + 1).drop_last() =~= base.take(i as int));
            assert(base.take(i + 1).last() == parts@[i as int]@);
            assert(base[i as int] == parts@[i as int]@);
            lemma_abbreviation_valid(base[i as int]);
        }
        match abbreviate(&parts[i]) {
            Some(Component::RootDir) => {
                let keep: usize = if out.len() > 0 && matches!(&out[0], Component::Prefix(_)) {
                    1
                } else {
                    0
                };
                out.truncate(keep);
                out.push(Component::RootDir);
                proof {
                    assert(parts_of(out@) =~= prefix_of(parts_of(before)).push(Part::RootDir));
                    lemma_push_part_well_formed(parts_of(before), Part::RootDir);
                }
            },
            Some(short) => {
                proof {
                    assert(!(short@ is Prefix));
                    lemma_parts_of_push(before, short);
                    lemma_push_part_well_formed(parts_of(before), short@);
                }
                out.push(short);
            },
            None => {},
        }
        i += 1;
    }
    proof {
        assert(base.take(n - 1) =~= base);
    }
    match &parts[n - 1] {
        Component::Normal(_) => {
            let ghost before = out@;
            let last = parts[n - 1].clone();
            proof {
                lemma_parts_of_push(before, last);
                assert(path@.last() == parts@[n - 1]@);
                lemma_push_part_well_formed(parts_of(before), last@);
            }
            out.push(last);
        },
        _ => {
            proof {
                assert(path@.last() == parts@[n - 1]@);
            }
        },
    }
    Path::from_checked(out)
}

/// The path to show for `path` where space is short: what follows the
/// working directory `cwd`, or all of `path` where it does not begin with
/// `cwd`, with every directory cut down to its first character and the file
/// name kept whole.
pub fn get_truncated_path(path: &Path, cwd: &Path) -> (out: Path)
    ensures
        out@ == truncated_under(path@, cwd@),
{
    match path.strip_prefix(cwd) {
        Some(rest) => truncate(&rest),
        None => truncate(path),
    }
}

} // verus!
