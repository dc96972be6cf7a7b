//! The text form of a path: reading it and writing it.

use vstd::prelude::*;
use crate::component::{Component, Part, part_of_segment, part_text, valid_part};
use crate::path::{
    Path,
    floating,
    lemma_parts_of_push,
    lemma_push_part_well_formed,
    lemma_relative_is_floating,
    lemma_skip_well_formed,
    parts_of,
    well_formed,
};

verus! {

/// The length of the piece of `text` that ends before its first separator.
pub open spec fn segment_len(text: Seq<char>) -> nat
    decreases text.len(),
{
    if text.len() == 0 || text[0] == '/' {
        0
    } else {
        1 + segment_len(text.skip(1))
    }
}

/// A segment is no longer than its text, and not empty where the text
/// begins with something other than a separator.
pub proof fn lemma_segment_len_bounds(text: Seq<char>)
    ensures
        segment_len(text) <= text.len(),
        text.len() > 0 && text[0] != '/' ==> segment_len(text) > 0,
    decreases text.len(),
{
    if text.len() > 0 && text[0] != '/' {
        lemma_segment_len_bounds(text.skip(1));
    }
}

/// The components that the pieces of `text` between separators denote.
/// Empty pieces denote nothing, and `.` only counts where `leading` says
/// that nothing came before it.
pub open spec fn scan(text: Seq<char>, leading: bool) -> Seq<Part>
    decreases text.len(),
    via scan_decreases
{
    if text.len() == 0 {
        Seq::empty()
    } else if text[0] == '/' {
        scan(text.skip(1), false)
    } else {
        let n = segment_len(text) as int;
        let rest = scan(text.skip(n), false);
        match part_of_segment(text.take(n)) {
            Some(Part::CurDir) => if leading {
                seq![Part::CurDir] + rest
            } else {
                rest
            },
            Some(part) => seq![part] + rest,
            None => rest,
        }
    }
}

#[via_fn]
proof fn scan_decreases(text: Seq<char>, leading: bool) {
    lemma_segment_len_bounds(text);
}

/// The components that `text` denotes: a root directory where it begins
/// with a separator, then what its pieces denote.
pub open spec fn parse(text: Seq<char>) -> Seq<Part> {
    if text.len() > 0 && text[0] == '/' {
        seq![Part::RootDir] + scan(text.skip(1), false)
    } else {
        scan(text, true)
    }
}

/// Whether a separator is written between `before` and what follows it.
pub open spec fn separated(before: Part) -> bool {
    !(before is RootDir) && !(before is Prefix)
}

/// The text of one component, with `mark` for the root directory.
pub open spec fn piece(part: Part, mark: char) -> Seq<char> {
    if part is RootDir {
        seq![mark]
    } else {
        part_text(part)
    }
}

/// The text form of `parts` with `mark` as separator: the texts of the
/// components in order, separated except behind a prefix or a root directory.
pub open spec fn render(parts: Seq<Part>, mark: char) -> Seq<char>
    decreases parts.len(),
{
    if parts.len() == 0 {
        Seq::empty()
    } else if parts.len() == 1 {
        piece(parts[0], mark)
    } else {
        let head = render(parts.drop_last(), mark);
        let gap = if separated(parts[parts.len() - 2]) {
            seq![mark]
        } else {
            Seq::empty()
        };
        head + gap + piece(parts.last(), mark)
    }
}

/// A piece of text that holds no separator up to `n`, and ends or meets a
/// separator there, has a first segment of length `n`.
pub proof fn lemma_segment_len_is(text: Seq<char>, n: int)
    requires
        0 <= n <= text.len(),
        forall|k: int| 0 <= k < n ==> text[k] != '/',
        n == text.len() || text[n] == '/',
    ensures
        segment_len(text) == n,
    decreases n,
{
    if n > 0 {
        let rest = text.skip(1);
        assert forall|k: int| 0 <= k < n - 1 implies rest[k] != '/' by {
            assert(rest[k] == text[k + 1]);
        }
        lemma_segment_len_is(rest, n - 1);
    }
}

impl Path {
    /// Reads a path from its text form, with `/` as separator. Repeated
    /// separators and a separator at the end count for nothing, and `.`
    /// counts only at the very beginning.
    pub fn from_text(text: &str) -> (path: Path)
        ensures
            path@ == parse(text@),
            legible(path@),
    {
        proof {
            lemma_parse_is_legible(text@);
        }
        let n: usize = text.unicode_len();
        let mut parts: Vec<Component> = Vec::new();
        let mut i: usize = 0;
        let mut leading = true;
        proof {
            assert(parts_of(parts@) =~= Seq::<Part>::empty());
            assert(text@.skip(0) =~= text@);
            assert(Seq::<Part>::empty() + scan(text@, true) =~= scan(text@, true));
        }
        if n > 0 && text.get_char(0) == '/' {
            parts.push(Component::RootDir);
            i = 1;
            leading = false;
            proof {
                assert(parts_of(parts@) =~= seq![Part::RootDir]);
            }
        }
        while i < n
            invariant
                n == text@.len(),
                i <= n,
                well_formed(parts_of(parts@)),
                parts_of(parts@) + scan(text@.skip(i as int), leading) == parse(text@),
            decreases n - i,
        {
            let ghost here = text@.skip(i as int);
            let ghost so_far = parts_of(parts@);
            if text.get_char(i) == '/' {
                proof {
                    assert(here[0] == '/');
                    assert(here.skip(1) =~= text@.skip(i + 1));
                }
                i += 1;
                leading = false;
            } else {
                let mut j: usize = i + 1;
                while j < n && text.get_char(j) != '/'
                    invariant
                        n == text@.len(),
                        i < j <= n,
                        forall|k: int| i <= k < j ==> text@[k] != '/',
                    decreases n - j,
                {
                    j += 1;
                }
                let segment = text.substring_char(i, j);
                proof {
                    assert(here[0] != '/');
                    assert forall|k: int| 0 <= k < j - i implies here[k] != '/' by {
                        assert(here[k] == text@[k + i]);
                    }
                    lemma_segment_len_is(here, j - i);
                    assert(here.take(j - i) =~= segment@);
                    assert(here.skip(j - i) =~= text@.skip(j as int));
                }
                let ghost before = parts@;
                match Component::of_segment(segment) {
                    Some(component) => {
                        if leading || !matches!(&component, Component::CurDir) {
                            proof {
                                lemma_parts_of_push(before, component);
                                lemma_push_part_well_formed(so_far, component@);
                                assert(so_far.push(component@) + scan(
                                    text@.skip(j as int),
                                    false,
                                ) =~= so_far + (seq![component@] + scan(
                                    text@.skip(j as int),
                                    false,
                                )));
                            }
                            parts.push(component);
                        }
                    },
                    None => {},
                }
                i = j;
                leading = false;
            }
        }
        proof {
            assert(text@.skip(n as int) =~= Seq::<char>::empty());
            assert(parts_of(parts@) + Seq::<Part>::empty() =~= parts_of(parts@));
        }
        Path::from_checked(parts)
    }

    /// Writes this path in its text form with `/` or, where `backslash`
    /// says so, with `\\` as separator.
    fn written(&self, backslash: bool) -> (text: String)
        ensures
            text@ == render(
                self@,
                if backslash {
                    '\\'
                } else {
                    '/'
                },
            ),
    {
        let parts = self.parts();
        let ghost mark = if backslash {
            '\\'
        } else {
            '/'
        };
        let sign: &str = if backslash {
            "\\"
        } else {
            "/"
        };
        proof {
            reveal_strlit("\\");
            reveal_strlit("/");
            assert(sign@ =~= seq![mark]);
        }
        let mut text = String::new();
        let mut i: usize = 0;
        while i < parts.len()
            invariant
                i <= parts.len(),
                parts_of(parts@) == self@,
                sign@ == seq![mark],
                text@ == render(self@.take(i as int), mark),
            decreases parts.len() - i,
        {
            let ghost grown = self@.take(i + 1);
            proof {
                assert(grown.drop_last() =~= self@.take(i as int));
                assert(grown.last() == parts@[i as int]@);
                if i > 0 {
                    assert(grown[grown.len() - 2] == parts@[i - 1]@);
                }
            }
            if i > 0 && !matches!(&parts[i - 1], Component::RootDir | Component::Prefix(_)) {
                text.append(sign);
            }
            match &parts[i] {
                Component::RootDir => {
                    text.append(sign);
                },
                component => {
                    let piece = component.text();
                    text.append(piece.as_str());
                },
            }
            proof {
                assert(text@ =~= render(grown, mark));
            }
            i += 1;
        }
        proof {
            assert(self@.take(parts.len() as int) =~= self@);
        }
        text
    }

    /// The text form of this path, with `/` as separator.
    pub fn to_text(&self) -> (text: String)
        ensures
            text@ == render(self@, '/'),
    {
        self.written(false)
    }

    /// The text form of this path with `\\` as separator, as volumes with a
    /// prefix write it.
    pub fn to_backslash_text(&self) -> (text: String)
        ensures
            text@ == render(self@, '\\'),
    {
        self.written(true)
    }
}

/// The shape of a path as it is read from text: well formed, without a
/// prefix, and with `.` nowhere but at the very beginning.
pub open spec fn legible(parts: Seq<Part>) -> bool {
    &&& well_formed(parts)
    &&& forall|i: int| 0 <= i < parts.len() ==> !(#[trigger] parts[i] is Prefix)
    &&& forall|i: int| 0 <= i < parts.len() && #[trigger] parts[i] is CurDir ==> i == 0
}

/// No separator stands inside the first segment of a text.
pub proof fn lemma_segment_free(text: Seq<char>)
    ensures
        forall|k: int| 0 <= k < segment_len(text) ==> text[k] != '/',
        segment_len(text) < text.len() ==> text[segment_len(text) as int] == '/',
    decreases text.len(),
{
    if text.len() > 0 && text[0] != '/' {
        let rest = text.skip(1);
        lemma_segment_free(rest);
        lemma_segment_len_bounds(rest);
        assert forall|k: int| 0 <= k < segment_len(text) implies text[k] != '/' by {
            if k > 0 {
                assert(text[k] == rest[k - 1]);
            }
        }
        if segment_len(text) < text.len() {
            assert(text[segment_len(text) as int] == rest[segment_len(rest) as int]);
        }
    }
}

/// What one segment of a text denotes is valid, holds no anchor, and is `.`
/// only for the text `.`.
pub proof fn lemma_segment_part_valid(segment: Seq<char>)
    requires
        forall|k: int| 0 <= k < segment.len() ==> segment[k] != '/',
    ensures
        part_of_segment(segment) is Some ==> valid_part(part_of_segment(segment)->0) && !(
        part_of_segment(segment)->0 is Prefix) && !(part_of_segment(segment)->0 is RootDir),
{
}

/// The components read from the pieces of a text are valid, hold neither
/// prefix nor root directory, and hold `.` at the very beginning or nowhere.
pub proof fn lemma_scan_shape(text: Seq<char>, leading: bool)
    ensures
        floating(scan(text, leading)),
        forall|i: int|
            0 <= i < scan(text, leading).len() ==> valid_part(#[trigger] scan(text, leading)[i]),
        forall|i: int|
            0 <= i < scan(text, leading).len() && #[trigger] scan(text, leading)[i] is CurDir
                ==> i == 0 && leading,
    decreases text.len(),
{
    let all = scan(text, leading);
    if text.len() == 0 {
    } else if text[0] == '/' {
        lemma_scan_shape(text.skip(1), false);
    } else {
        lemma_segment_len_bounds(text);
        lemma_segment_free(text);
        let n = segment_len(text) as int;
        let segment = text.take(n);
        let rest = scan(text.skip(n), false);
        lemma_scan_shape(text.skip(n), false);
        lemma_segment_part_valid(segment);
        let first = part_of_segment(segment);
        if first is Some && (leading || !(first->0 is CurDir)) {
            assert(all == seq![first->0] + rest);
            assert forall|i: int| 0 <= i < all.len() implies valid_part(#[trigger] all[i]) && !(
            all[i] is Prefix) && !(all[i] is RootDir) && (all[i] is CurDir ==> i == 0 && leading) by {
                if i > 0 {
                    assert(all[i] == rest[i - 1]);
                }
            }
        } else {
            assert(all == rest);
        }
    }
}

/// Whatever the text, what is read from it has the shape of a path as it
/// is read from text.
pub proof fn lemma_parse_is_legible(text: Seq<char>)
    ensures
        legible(parse(text)),
{
    let all = parse(text);
    if text.len() > 0 && text[0] == '/' {
        let rest = scan(text.skip(1), false);
        lemma_scan_shape(text.skip(1), false);
        assert forall|i: int| 0 <= i < all.len() implies valid_part(#[trigger] all[i]) && !(
        all[i] is Prefix) && (all[i] is RootDir ==> i == 0) && (all[i] is CurDir ==> i == 0) by {
            if i > 0 {
                assert(all[i] == rest[i - 1]);
            }
        }
    } else {
        lemma_scan_shape(text, true);
    }
}

/// The text form of two or more components, taken from the front: the
/// text of the first, a separator where one is due, and the text form of
/// the rest.
pub proof fn lemma_render_front(parts: Seq<Part>, mark: char)
    requires
        parts.len() >= 2,
    ensures
        render(parts, mark) == piece(parts[0], mark) + (if separated(parts[0]) {
            seq![mark]
        } else {
            Seq::empty()
        }) + render(parts.skip(1), mark),
    decreases parts.len(),
{
    let gap = if separated(parts[0]) {
        seq![mark]
    } else {
        Seq::<char>::empty()
    };
    let tail = parts.skip(1);
    if parts.len() == 2 {
        assert(parts.drop_last().len() == 1);
        assert(parts.drop_last()[0] == parts[0]);
        assert(tail[0] == parts[1]);
        assert(render(parts.drop_last(), mark) == piece(parts[0], mark));
        assert(render(tail, mark) == piece(parts[1], mark));
        assert(parts.last() == parts[1]);
        assert(render(parts, mark) =~= piece(parts[0], mark) + gap + render(tail, mark));
    } else {
        let front = parts.drop_last();
        lemma_render_front(front, mark);
        assert(front[0] == parts[0]);
        assert(front.skip(1) =~= tail.drop_last());
        assert(tail.last() == parts.last());
        assert(tail[tail.len() - 2] == parts[parts.len() - 2]);
        let join = if separated(parts[parts.len() - 2]) {
            seq![mark]
        } else {
            Seq::<char>::empty()
        };
        let inner = render(tail.drop_last(), mark);
        let end = piece(parts.last(), mark);
        assert(render(front, mark) == piece(parts[0], mark) + gap + inner);
        assert(render(parts, mark) == render(front, mark) + join + end);
        assert(render(tail, mark) == inner + join + end);
        assert(piece(parts[0], mark) + gap + inner + join + end =~= piece(parts[0], mark) + gap + (
        inner + join + end));
    }
}

/// Reading the text form of components without an anchor gives them back,
/// where `.` stands at the very beginning or nowhere.
pub proof fn lemma_scan_of_render(parts: Seq<Part>, leading: bool)
    requires
        well_formed(parts),
        floating(parts),
        forall|i: int| 0 <= i < parts.len() && #[trigger] parts[i] is CurDir ==> i == 0 && leading,
    ensures
        scan(render(parts, '/'), leading) == parts,
        parts.len() > 0 ==> render(parts, '/').len() > 0 && render(parts, '/')[0] != '/',
    decreases parts.len(),
{
    if parts.len() > 0 {
        let first = parts[0];
        let word = part_text(first);
        let tail = parts.skip(1);
        let text = render(parts, '/');
        assert(valid_part(first));
        assert(!(first is Prefix) && !(first is RootDir));
        assert(word.len() > 0);
        assert(forall|k: int| 0 <= k < word.len() ==> word[k] != '/');
        assert(part_of_segment(word) == Some(first));
        assert(piece(first, '/') == word);
        lemma_skip_well_formed(parts, 1);
        assert forall|i: int| 0 <= i < tail.len() implies !(#[trigger] tail[i] is Prefix) && !(
        tail[i] is RootDir) && !(tail[i] is CurDir) by {
            assert(tail[i] == parts[i + 1]);
        }
        lemma_scan_of_render(tail, false);
        let n = word.len() as int;
        if parts.len() == 1 {
            assert(text == word);
            lemma_segment_len_is(text, n);
            assert(text.take(n) =~= word);
            assert(text.skip(n) =~= Seq::<char>::empty());
            assert(scan(text.skip(n), false) =~= Seq::<Part>::empty());
            assert(tail =~= Seq::<Part>::empty());
        } else {
            lemma_render_front(parts, '/');
            let after = render(tail, '/');
            assert(text == word + seq!['/'] + after);
            assert forall|k: int| 0 <= k < n implies text[k] != '/' by {
                assert(text[k] == word[k]);
            }
            assert(text[n] == '/');
            lemma_segment_len_is(text, n);
            assert(text.take(n) =~= word);
            let behind = text.skip(n);
            assert(behind[0] == '/');
            assert(behind.skip(1) =~= after);
            assert(scan(behind, false) == scan(after, false));
        }
        assert(text[0] == word[0]);
        assert(seq![first] + tail =~= parts);
    }
}

/// Reading what was written gives the path back: the text form of a path
/// in the shape of one read from text denotes that very path.
pub proof fn lemma_parse_of_render(parts: Seq<Part>)
    requires
        legible(parts),
    ensures
        parse(render(parts, '/')) == parts,
{
    if parts.len() > 0 {
        let text = render(parts, '/');
        if parts[0] is RootDir {
            let tail = parts.skip(1);
            lemma_skip_well_formed(parts, 1);
            assert forall|i: int| 0 <= i < tail.len() implies !(#[trigger] tail[i] is Prefix) && !(
            tail[i] is RootDir) && !(tail[i] is CurDir) by {
                assert(tail[i] == parts[i + 1]);
            }
            lemma_scan_of_render(tail, false);
            if parts.len() == 1 {
                assert(text.skip(1) =~= Seq::<char>::empty());
                assert(tail =~= Seq::<Part>::empty());
            } else {
                lemma_render_front(parts, '/');
                assert(text.skip(1) =~= render(tail, '/'));
            }
            assert(text[0] == '/');
            assert(seq![Part::RootDir] + tail =~= parts);
        } else {
            lemma_relative_is_floating(parts);
            lemma_scan_of_render(parts, true);
        }
    }
}

/// Writing what was read and reading it again changes nothing more: the
/// text form of a path read from text is read as that path.
pub proof fn lemma_parse_settles(text: Seq<char>)
    ensures
        parse(render(parse(text), '/')) == parse(text),
{
    lemma_parse_is_legible(text);
    lemma_parse_of_render(parse(text));
}

} // verus!
