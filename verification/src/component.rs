//! Path components and the names they may carry.

use vstd::prelude::*;

verus! {

/// The mathematical value of a component: what contracts speak of.
pub enum Part {
    /// A volume or drive marker such as `C:`; only ever first in a path.
    Prefix(Seq<char>),
    /// The root directory.
    RootDir,
    /// The directory itself, `.`.
    CurDir,
    /// The directory above, `..`.
    ParentDir,
    /// A named entry.
    Normal(Seq<char>),
}

/// One component of a path.
#[derive(Debug, PartialEq, Eq)]
pub enum Component {
    /// A volume or drive marker such as `C:`; only ever first in a path.
    Prefix(String),
    /// The root directory.
    RootDir,
    /// The directory itself, `.`.
    CurDir,
    /// The directory above, `..`.
    ParentDir,
    /// A named entry.
    Normal(String),
}

impl View for Component {
    type V = Part;

    open spec fn view(&self) -> Part {
        match self {
            Component::Prefix(t) => Part::Prefix(t@),
            Component::RootDir => Part::RootDir,
            Component::CurDir => Part::CurDir,
            Component::ParentDir => Part::ParentDir,
            Component::Normal(n) => Part::Normal(n@),
        }
    }
}

/// A text that can stand for one entry: not empty, free of separators, and
/// neither `.` nor `..`.
pub open spec fn valid_name(name: Seq<char>) -> bool {
    &&& name.len() > 0
    &&& forall|i: int| 0 <= i < name.len() ==> name[i] != '/'
    &&& name != seq!['.']
    &&& name != seq!['.', '.']
}

/// A text that can stand for a prefix: not empty and free of separators.
pub open spec fn valid_prefix(text: Seq<char>) -> bool {
    &&& text.len() > 0
    &&& forall|i: int| 0 <= i < text.len() ==> text[i] != '/'
}

/// A component whose text, if it carries one, is valid for its kind.
pub open spec fn valid_part(part: Part) -> bool {
    match part {
        Part::Prefix(t) => valid_prefix(t),
        Part::Normal(n) => valid_name(n),
        _ => true,
    }
}

/// The component that one separator-free piece of text denotes, if any:
/// nothing for the empty text, `.` and `..` for themselves, a name otherwise.
pub open spec fn part_of_segment(segment: Seq<char>) -> Option<Part> {
    if segment.len() == 0 {
        None
    } else if segment == seq!['.'] {
        Some(Part::CurDir)
    } else if segment == seq!['.', '.'] {
        Some(Part::ParentDir)
    } else {
        Some(Part::Normal(segment))
    }
}

/// Whether `text` is free of separators.
fn separator_free(text: &str) -> (free: bool)
    ensures
        free == (forall|i: int| 0 <= i < text@.len() ==> text@[i] != '/'),
{
    let n: usize = text.unicode_len();
    let mut i: usize = 0;
    while i < n
        invariant
            n == text@.len(),
            i <= n,
            forall|k: int| 0 <= k < i ==> text@[k] != '/',
        decreases n - i,
    {
        if text.get_char(i) == '/' {
            return false;
        }
        i += 1;
    }
    true
}

/// Whether `text` is exactly `.`.
fn is_dot(text: &str) -> (dot: bool)
    ensures
        dot == (text@ == seq!['.']),
{
    let n: usize = text.unicode_len();
    let dot = n == 1 && text.get_char(0) == '.';
    proof {
        if dot {
            assert(text@ =~= seq!['.']);
        }
    }
    dot
}

/// Whether `text` is exactly `..`.
fn is_dot_dot(text: &str) -> (dots: bool)
    ensures
        dots == (text@ == seq!['.', '.']),
{
    let n: usize = text.unicode_len();
    let dots = n == 2 && text.get_char(0) == '.' && text.get_char(1) == '.';
    proof {
        if dots {
            assert(text@ =~= seq!['.', '.']);
        }
    }
    dots
}

impl Component {
    /// A named entry, if `name` is valid for one.
    pub fn normal(name: &str) -> (made: Option<Component>)
        ensures
            valid_name(name@) ==> made is Some && made->0@ == Part::Normal(name@),
            !valid_name(name@) ==> made is None,
    {
        let made = Component::Normal(String::from_str(name));
        if made.is_valid() {
            Some(made)
        } else {
            None
        }
    }

    /// A prefix, if `text` is valid for one.
    pub fn prefix(text: &str) -> (made: Option<Component>)
        ensures
            valid_prefix(text@) ==> made is Some && made->0@ == Part::Prefix(text@),
            !valid_prefix(text@) ==> made is None,
    {
        let made = Component::Prefix(String::from_str(text));
        if made.is_valid() {
            Some(made)
        } else {
            None
        }
    }

    /// The component that one separator-free piece of text denotes.
    pub(crate) fn of_segment(segment: &str) -> (made: Option<Component>)
        requires
            forall|i: int| 0 <= i < segment@.len() ==> segment@[i] != '/',
        ensures
            made is Some <==> part_of_segment(segment@) is Some,
            made is Some ==> made->0@ == part_of_segment(segment@)->0,
            made is Some ==> valid_part(made->0@),
    {
        if segment.unicode_len() == 0 {
            None
        } else if is_dot(segment) {
            Some(Component::CurDir)
        } else if is_dot_dot(segment) {
            Some(Component::ParentDir)
        } else {
            Some(Component::Normal(String::from_str(segment)))
        }
    }

    /// Whether the text that this component carries, if any, is valid for
    /// its kind.
    pub fn is_valid(&self) -> (valid: bool)
        ensures
            valid == valid_part(self@),
    {
        match self {
            Component::Prefix(t) => t.as_str().unicode_len() > 0 && separator_free(t.as_str()),
            Component::Normal(n) => {
                let name = n.as_str();
                name.unicode_len() > 0 && separator_free(name) && !is_dot(name) && !is_dot_dot(
                    name,
                )
            },
            _ => true,
        }
    }

    /// The text of this component in a path's text form.
    pub fn text(&self) -> (text: String)
        ensures
            text@ == part_text(self@),
    {
        match self {
            Component::Prefix(t) => t.clone(),
            Component::RootDir => {
                proof {
                    reveal_strlit("/");
                }
                assert("/"@ =~= seq!['/']);
                String::from_str("/")
            },
            Component::CurDir => {
                proof {
                    reveal_strlit(".");
                }
                assert("."@ =~= seq!['.']);
                String::from_str(".")
            },
            Component::ParentDir => {
                proof {
                    reveal_strlit("..");
                }
                assert(".."@ =~= seq!['.', '.']);
                String::from_str("..")
            },
            Component::Normal(n) => n.clone(),
        }
    }

    /// Whether two components are the same.
    pub fn same(&self, other: &Component) -> (same: bool)
        ensures
            same == (self@ == other@),
    {
        match self {
            Component::Prefix(a) => match other {
                Component::Prefix(b) => *a == *b,
                _ => false,
            },
            Component::RootDir => matches!(other, Component::RootDir),
            Component::CurDir => matches!(other, Component::CurDir),
            Component::ParentDir => matches!(other, Component::ParentDir),
            Component::Normal(a) => match other {
                Component::Normal(b) => *a == *b,
                _ => false,
            },
        }
    }
}

impl Clone for Component {
    fn clone(&self) -> (copy: Component)
        ensures
            copy@ == self@,
    {
        match self {
            Component::Prefix(t) => Component::Prefix(t.clone()),
            Component::RootDir => Component::RootDir,
            Component::CurDir => Component::CurDir,
            Component::ParentDir => Component::ParentDir,
            Component::Normal(n) => Component::Normal(n.clone()),
        }
    }
}

/// The text of a component in a path's text form.
pub open spec fn part_text(part: Part) -> Seq<char> {
    match part {
        Part::Prefix(t) => t,
        Part::RootDir => seq!['/'],
        Part::CurDir => seq!['.'],
        Part::ParentDir => seq!['.', '.'],
        Part::Normal(n) => n,
    }
}

} // verus!
