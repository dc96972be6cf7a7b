//! Lexical normalisation: collapsing `.` and `..` by the look of a path
//! alone, and the closing pass that shortens a verbatim prefix.

use vstd::prelude::*;
use crate::component::{Component, Part, valid_part};
use crate::path::{
    Path,
    anchor,
    anchored,
    is_absolute,
    lemma_parts_of_push,
    lemma_push_part_well_formed,
    lemma_take_well_formed,
    parts_of,
    prefix_of,
    push_part,
    well_formed,
};
use crate::text::render;

verus! {

/// `out` after `..`: without its last component, where that is an entry,
/// `.` or `..`; unchanged where nothing is left to go up from.
pub open spec fn pop(out: Seq<Part>) -> Seq<Part> {
    if out.len() > 0 && !(out.last() is Prefix) && !(out.last() is RootDir) {
        out.drop_last()
    } else {
        out
    }
}

/// What one more component makes of the output so far: `.` changes nothing,
/// `..` removes the last entry, anything else is pushed.
pub open spec fn lexical_step(out: Seq<Part>, part: Part) -> Seq<Part> {
    match part {
        Part::CurDir => out,
        Part::ParentDir => pop(out),
        _ => push_part(out, part),
    }
}

/// The lexical normal form of `parts`: the steps of its components, taken in
/// order from the empty output.
pub open spec fn lexical(parts: Seq<Part>) -> Seq<Part>
    decreases parts.len(),
{
    if parts.len() == 0 {
        Seq::empty()
    } else {
        lexical_step(lexical(parts.drop_last()), parts.last())
    }
}

/// Whether `parts` holds neither `.` nor `..`.
pub open spec fn collapsed(parts: Seq<Part>) -> bool {
    forall|i: int|
        0 <= i < parts.len() ==> !(#[trigger] parts[i] is CurDir) && !(parts[i] is ParentDir)
}

/// The four characters that open a verbatim prefix.
pub open spec fn verbatim_marker() -> Seq<char> {
    seq!['\\', '\\', '?', '\\']
}

/// Whether `text` opens with the verbatim marker and goes on behind it.
pub open spec fn is_verbatim(text: Seq<char>) -> bool {
    text.len() > 4 && text.take(4) == verbatim_marker()
}

/// `parts` with the verbatim marker taken off its prefix, where it has one.
pub open spec fn shortened(parts: Seq<Part>) -> Seq<Part> {
    if parts.len() > 0 && parts[0] is Prefix && is_verbatim(parts[0]->Prefix_0) {
        parts.update(0, Part::Prefix(parts[0]->Prefix_0.skip(4)))
    } else {
        parts
    }
}

/// Whether `out` is a normal form of `parts`: its lexical normal form, with
/// the verbatim marker of its prefix kept or taken off.
pub open spec fn normal_form_of(out: Seq<Part>, parts: Seq<Part>) -> bool {
    out == lexical(parts) || out == shortened(lexical(parts))
}

/// A step keeps the output well formed.
pub proof fn lemma_lexical_step_well_formed(out: Seq<Part>, part: Part)
    requires
        well_formed(out),
        valid_part(part),
    ensures
        well_formed(lexical_step(out, part)),
{
    match part {
        Part::CurDir => {},
        Part::ParentDir => {
            if out.len() > 0 {
                lemma_take_well_formed(out, out.len() - 1);
                assert(out.take(out.len() - 1) =~= out.drop_last());
            }
        },
        _ => {
            lemma_push_part_well_formed(out, part);
        },
    }
}

/// The lexical normal form of a well-formed sequence is well formed.
pub proof fn lemma_lexical_well_formed(parts: Seq<Part>)
    requires
        well_formed(parts),
    ensures
        well_formed(lexical(parts)),
    decreases parts.len(),
{
    if parts.len() > 0 {
        lemma_take_well_formed(parts, parts.len() - 1);
        assert(parts.take(parts.len() - 1) =~= parts.drop_last());
        lemma_lexical_well_formed(parts.drop_last());
        lemma_lexical_step_well_formed(lexical(parts.drop_last()), parts.last());
    }
}

/// Whether `parts` holds no prefix.
pub open spec fn prefix_free(parts: Seq<Part>) -> bool {
    forall|i: int| 0 <= i < parts.len() ==> !(#[trigger] parts[i] is Prefix)
}

/// The lexical normal form of a sequence without a prefix has none.
pub proof fn lemma_lexical_prefix_free(parts: Seq<Part>)
    requires
        prefix_free(parts),
    ensures
        prefix_free(lexical(parts)),
    decreases parts.len(),
{
    if parts.len() > 0 {
        let front = parts.drop_last();
        assert forall|i: int| 0 <= i < front.len() implies !(#[trigger] front[i] is Prefix) by {
            assert(front[i] == parts[i]);
        }
        lemma_lexical_prefix_free(front);
        let out = lexical(front);
        let next = lexical_step(out, parts.last());
        assert(!(parts.last() is Prefix)) by {
            assert(parts.last() == parts[parts.len() - 1]);
        }
        assert forall|i: int| 0 <= i < next.len() implies !(#[trigger] next[i] is Prefix) by {
            match parts.last() {
                Part::CurDir => {},
                Part::ParentDir => {
                    if next != out {
                        assert(next[i] == out[i]);
                    }
                },
                Part::RootDir => {
                    assert(prefix_of(out) =~= Seq::<Part>::empty()) by {
                        if out.len() > 0 {
                            assert(!(out[0] is Prefix));
                        }
                    }
                },
                _ => {
                    if i < out.len() {
                        assert(next[i] == out[i]);
                    }
                },
            }
        }
    }
}

/// A well-formed sequence that does not begin with a prefix holds none, and
/// neither does its lexical normal form.
pub proof fn lemma_lexical_keeps_prefix(parts: Seq<Part>)
    requires
        well_formed(parts),
        !(parts.len() > 0 && parts[0] is Prefix),
    ensures
        prefix_free(lexical(parts)),
        shortened(lexical(parts)) == lexical(parts),
{
    assert forall|i: int| 0 <= i < parts.len() implies !(#[trigger] parts[i] is Prefix) by {}
    lemma_lexical_prefix_free(parts);
    if lexical(parts).len() > 0 {
        assert(!(lexical(parts)[0] is Prefix));
    }
}

/// The lexical normal form of `path`.
pub fn collapse(path: &Path) -> (out: Path)
    ensures
        out@ == lexical(path@),
{
    let parts = path.parts();
    let mut out: Vec<Component> = Vec::new();
    let mut i: usize = 0;
    proof {
        assert(path@.take(0) =~= Seq::<Part>::empty());
        assert(parts_of(out@) =~= Seq::<Part>::empty());
    }
    while i < parts.len()
        invariant
            i <= parts.len(),
            parts_of(parts@) == path@,
            well_formed(path@),
            well_formed(parts_of(out@)),
            parts_of(out@) == lexical(path@.take(i as int)),
        decreases parts.len() - i,
    {
        let ghost before = out@;
        let ghost part = parts@[i as int]@;
        proof {
            assert(path@.take(i + 1).drop_last() =~= path@.take(i as int));
            assert(path@.take(i + 1).last() == part);
            assert(part == path@[i as int]);
            lemma_lexical_step_well_formed(parts_of(before), part);
        }
        match &parts[i] {
            Component::CurDir => {},
            Component::ParentDir => {
                let n = out.len();
                if n > 0 && !matches!(&out[n - 1], Component::Prefix(_) | Component::RootDir) {
                    out.pop();
                    proof {
                        assert(parts_of(out@) =~= parts_of(before).drop_last());
                    }
                }
            },
            Component::Prefix(_) => {
                out.clear();
                out.push(parts[i].clone());
                proof {
                    assert(parts_of(out@) =~= seq![part]);
                }
            },
            Component::RootDir => {
                let keep: usize = if out.len() > 0 && matches!(&out[0], Component::Prefix(_)) {
                    1
                } else {
                    0
                };
                out.truncate(keep);
                out.push(Component::RootDir);
                proof {
                    assert(parts_of(out@) =~= prefix_of(parts_of(before)).push(part));
                }
            },
            Component::Normal(_) => {
                out.push(parts[i].clone());
                proof {
                    lemma_parts_of_push(before, out@.last());
                }
            },
        }
        i += 1;
    }
    proof {
        assert(path@.take(parts.len() as int) =~= path@);
    }
    Path::from_checked(out)
}

/// Taking the verbatim marker off the prefix keeps a sequence well formed.
pub proof fn lemma_shortened_well_formed(parts: Seq<Part>)
    requires
        well_formed(parts),
    ensures
        well_formed(shortened(parts)),
{
    let short = shortened(parts);
    if short != parts {
        let text = parts[0]->Prefix_0;
        let rest = text.skip(4);
        assert forall|k: int| 0 <= k < rest.len() implies rest[k] != '/' by {
            assert(rest[k] == text[k + 4]);
        }
        assert forall|i: int| 0 <= i < short.len() implies valid_part(#[trigger] short[i]) by {
            if i > 0 {
                assert(short[i] == parts[i]);
            }
        }
        assert forall|i: int| 0 <= i < short.len() implies match #[trigger] short[i] {
            Part::Prefix(_) => i == 0,
            Part::RootDir => i == 0 || (i == 1 && short[0] is Prefix),
            _ => true,
        } by {
            if i > 0 {
                assert(short[i] == parts[i]);
            }
        }
    }
}

/// Calls `dunce::simplified` on the path that `text` spells and hands back
/// the text of what it returns. That function returns its argument, or,
/// where the text opens with the verbatim marker, the text behind the
/// marker; this contract claims no more than that.
#[verifier::external_body]
fn simplified_text(text: &str) -> (out: String)
    ensures
        out@ == text@ || (is_verbatim(text@) && out@ == text@.skip(4)),
{
    dunce::simplified(std::path::Path::new(text)).to_string_lossy().into_owned()
}

/// Whether `text` opens with the verbatim marker and goes on behind it.
pub fn opens_verbatim(text: &str) -> (verbatim: bool)
    ensures
        verbatim == is_verbatim(text@),
{
    let n = text.unicode_len();
    let verbatim = n > 4 && text.get_char(0) == '\\' && text.get_char(1) == '\\' && text.get_char(
        2,
    ) == '?' && text.get_char(3) == '\\';
    proof {
        if verbatim {
            assert(text@.take(4) =~= verbatim_marker());
        } else if n > 4 {
            assert(text@.take(4)[0] == text@[0]);
            assert(text@.take(4)[1] == text@[1]);
            assert(text@.take(4)[2] == text@[2]);
            assert(text@.take(4)[3] == text@[3]);
        }
    }
    verbatim
}

/// The text that the closing pass looks at: the text form of `path`, with
/// backslashes where the path has a prefix.
pub open spec fn native_text(parts: Seq<Part>) -> Seq<char> {
    if parts.len() > 0 && parts[0] is Prefix {
        render(parts, '\\')
    } else {
        render(parts, '/')
    }
}

/// What the closing pass makes of `parts`, given the text it looked at and
/// the text that came back: where the text came back changed, the verbatim
/// marker is taken off the prefix.
pub open spec fn simplified_as(parts: Seq<Part>, text: Seq<char>, outcome: Seq<char>) -> Seq<
    Part,
> {
    if outcome == text {
        parts
    } else {
        shortened(parts)
    }
}

/// Finishes the closing pass on `path`: `text` is what was looked at,
/// `outcome` what came back for it.
pub fn apply_simplified(path: Path, text: &str, outcome: &str) -> (out: Path)
    ensures
        out@ == simplified_as(path@, text@, outcome@),
{
    let same = String::from_str(text) == String::from_str(outcome);
    if same {
        return path;
    }
    let parts = path.parts();
    if parts.len() == 0 {
        return path;
    }
    match &parts[0] {
        Component::Prefix(prefix) => {
            if opens_verbatim(prefix.as_str()) {
                let n = prefix.as_str().unicode_len();
                let short = String::from_str(prefix.as_str().substring_char(4, n));
                let mut out: Vec<Component> = Vec::new();
                out.push(Component::Prefix(short));
                crate::path::extend_from(&mut out, parts, 1);
                proof {
                    assert(prefix@.subrange(4, n as int) =~= prefix@.skip(4));
                    assert(parts_of(out@) =~= shortened(path@));
                    lemma_shortened_well_formed(path@);
                }
                Path::from_checked(out)
            } else {
                path
            }
        },
        _ => path,
    }
}

/// The text of `path` that the closing pass looks at.
fn native_text_of(path: &Path) -> (text: String)
    ensures
        text@ == native_text(path@),
{
    let parts = path.parts();
    if parts.len() > 0 && matches!(&parts[0], Component::Prefix(_)) {
        path.to_backslash_text()
    } else {
        path.to_text()
    }
}

/// The closing pass: hands the text of `path` to the simplifier and takes
/// the verbatim marker off the prefix where the text comes back without it.
pub fn simplify(path: Path) -> (out: Path)
    ensures
        out@ == path@ || out@ == shortened(path@),
{
    let text = native_text_of(&path);
    let outcome = simplified_text(text.as_str());
    apply_simplified(path, text.as_str(), outcome.as_str())
}

/// A step keeps the output anchored, whatever the component.
pub proof fn lemma_lexical_step_anchored(out: Seq<Part>, part: Part)
    requires
        anchored(out),
    ensures
        anchored(lexical_step(out, part)),
{
    let next = lexical_step(out, part);
    assert forall|i: int| 0 <= i < next.len() implies match #[trigger] next[i] {
        Part::Prefix(_) => i == 0,
        Part::RootDir => i == 0 || (i == 1 && next[0] is Prefix),
        _ => true,
    } by {
        match part {
            Part::CurDir => {},
            Part::ParentDir => {
                if next != out {
                    assert(next[i] == out[i]);
                    assert(next[0] == out[0]);
                }
            },
            Part::Prefix(_) => {},
            Part::RootDir => {
                if i < prefix_of(out).len() {
                    assert(next[i] == out[0]);
                }
            },
            _ => {
                if i < out.len() {
                    assert(next[i] == out[i]);
                    assert(next[0] == out[0]);
                }
            },
        }
    }
}

/// A step on collapsed output gives collapsed output.
pub proof fn lemma_lexical_step_collapsed(out: Seq<Part>, part: Part)
    requires
        collapsed(out),
    ensures
        collapsed(lexical_step(out, part)),
{
    let next = lexical_step(out, part);
    assert forall|i: int| 0 <= i < next.len() implies !(#[trigger] next[i] is CurDir) && !(
    next[i] is ParentDir) by {
        match part {
            Part::CurDir => {},
            Part::ParentDir => {
                if next != out {
                    assert(next[i] == out[i]);
                }
            },
            Part::Prefix(_) => {},
            Part::RootDir => {
                if i < prefix_of(out).len() {
                    assert(next[i] == out[0]);
                }
            },
            _ => {
                if i < out.len() {
                    assert(next[i] == out[i]);
                }
            },
        }
    }
}

/// The output of normalisation holds neither `.` nor `..`, and is anchored:
/// its prefix stands first and its root directory directly behind.
pub proof fn lemma_lexical_is_settled(parts: Seq<Part>)
    ensures
        collapsed(lexical(parts)),
        anchored(lexical(parts)),
    decreases parts.len(),
{
    if parts.len() > 0 {
        lemma_lexical_is_settled(parts.drop_last());
        lemma_lexical_step_collapsed(lexical(parts.drop_last()), parts.last());
        lemma_lexical_step_anchored(lexical(parts.drop_last()), parts.last());
    }
}

/// Normalising a path that is already normal changes nothing: an anchored
/// sequence without `.` and `..` is its own lexical normal form.
pub proof fn lemma_lexical_fixes_normal(parts: Seq<Part>)
    requires
        anchored(parts),
        collapsed(parts),
    ensures
        lexical(parts) == parts,
    decreases parts.len(),
{
    if parts.len() > 0 {
        let front = parts.drop_last();
        let last = parts.last();
        assert(last == parts[parts.len() - 1]);
        assert forall|i: int| 0 <= i < front.len() implies !(#[trigger] front[i] is CurDir) && !(
        front[i] is ParentDir) by {
            assert(front[i] == parts[i]);
        }
        assert forall|i: int| 0 <= i < front.len() implies match #[trigger] front[i] {
            Part::Prefix(_) => i == 0,
            Part::RootDir => i == 0 || (i == 1 && front[0] is Prefix),
            _ => true,
        } by {
            assert(front[i] == parts[i]);
            assert(front[0] == parts[0]);
        }
        lemma_lexical_fixes_normal(front);
        match last {
            Part::Prefix(_) => {
                assert(parts =~= seq![last]);
            },
            Part::RootDir => {
                if parts.len() == 1 {
                    assert(prefix_of(front) =~= Seq::<Part>::empty());
                } else {
                    assert(front[0] == parts[0]);
                    assert(prefix_of(front) =~= front);
                }
                assert(prefix_of(front).push(last) =~= parts);
            },
            _ => {
                assert(front.push(last) =~= parts);
            },
        }
    }
}

/// Normalising twice is normalising once.
pub proof fn lemma_lexical_idempotent(parts: Seq<Part>)
    ensures
        lexical(lexical(parts)) == lexical(parts),
{
    lemma_lexical_is_settled(parts);
    lemma_lexical_fixes_normal(lexical(parts));
}

/// Normalisation never climbs above the anchor: the normal form of a path
/// has the prefix and the root directory of the path, and no other.
pub proof fn lemma_lexical_keeps_anchor(parts: Seq<Part>)
    requires
        well_formed(parts),
    ensures
        anchor(lexical(parts)) == anchor(parts),
        is_absolute(lexical(parts)) == is_absolute(parts),
    decreases parts.len(),
{
    if parts.len() > 0 {
        let front = parts.drop_last();
        let last = parts.last();
        assert(last == parts[parts.len() - 1]);
        lemma_take_well_formed(parts, parts.len() - 1);
        assert(parts.take(parts.len() - 1) =~= front);
        lemma_lexical_keeps_anchor(front);
        let out = lexical(front);
        if last is Prefix || last is RootDir {
            assert(collapsed(parts)) by {
                if parts.len() == 2 {
                    assert(parts[0] is Prefix);
                }
            }
            lemma_lexical_fixes_normal(parts);
        } else {
            assert(anchor(front) =~= anchor(parts)) by {
                if front.len() > 0 {
                    assert(front[0] == parts[0]);
                }
                if front.len() > 1 {
                    assert(front[1] == parts[1]);
                }
            }
            let next = lexical_step(out, last);
            if next != out {
                if last is ParentDir {
                    assert(next == out.drop_last());
                    assert(!(out.last() is Prefix) && !(out.last() is RootDir));
                    assert(out.last() == out[out.len() - 1]);
                } else {
                    assert(next == out.push(last));
                }
                assert(anchor(next) =~= anchor(out));
            }
        }
    }
}

/// Taking the verbatim marker off the prefix of a normal form leaves a
/// normal form.
pub proof fn lemma_shortened_stays_normal(parts: Seq<Part>)
    requires
        anchored(parts),
        collapsed(parts),
    ensures
        anchored(shortened(parts)),
        collapsed(shortened(parts)),
{
    let short = shortened(parts);
    if short != parts {
        assert forall|i: int| 0 <= i < short.len() implies !(#[trigger] short[i] is CurDir) && !(
        short[i] is ParentDir) by {
            if i > 0 {
                assert(short[i] == parts[i]);
            }
        }
        assert forall|i: int| 0 <= i < short.len() implies match #[trigger] short[i] {
            Part::Prefix(_) => i == 0,
            Part::RootDir => i == 0 || (i == 1 && short[0] is Prefix),
            _ => true,
        } by {
            if i > 0 {
                assert(short[i] == parts[i]);
            }
        }
    }
}

/// Normalises `path` by its look alone: `.` is dropped, `..` removes the
/// entry before it and never climbs above the root, and the closing pass
/// may take the verbatim marker off the prefix. The result is normal:
/// normalising it again changes nothing.
pub fn normalize(path: &Path) -> (out: Path)
    ensures
        normal_form_of(out@, path@),
        !(path@.len() > 0 && path@[0] is Prefix) ==> out@ == lexical(path@),
        collapsed(out@),
        lexical(out@) == out@,
{
    path.know_well_formed();
    proof {
        if !(path@.len() > 0 && path@[0] is Prefix) {
            lemma_lexical_keeps_prefix(path@);
        }
        lemma_lexical_is_settled(path@);
        lemma_shortened_stays_normal(lexical(path@));
        lemma_lexical_fixes_normal(lexical(path@));
        lemma_lexical_fixes_normal(shortened(lexical(path@)));
    }
    simplify(collapse(path))
}

} // verus!
