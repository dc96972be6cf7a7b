//! Normalisation that minds symbolic links. Behind a link, `..` does not
//! lead back to where the link stands, so the walk asks before it collapses.
//! It never touches the disk itself: it says what it needs to know about the
//! next component, and is told what was found.

use vstd::prelude::*;
use crate::component::{Component, Part, valid_part};
use crate::normalize::{
    collapsed,
    lemma_lexical_step_collapsed,
    lexical,
    lexical_step,
    shortened,
    simplify,
};
use crate::path::{
    Path,
    join,
    lemma_join_well_formed,
    lemma_parts_of_push,
    lemma_push_part_well_formed,
    lemma_skip_well_formed,
    lemma_take_well_formed,
    parts_of,
    prefix_of,
    push_part,
    strip_prefix,
    well_formed,
};

verus! {

/// What was found on disk for one component: the mathematical value.
pub enum Found {
    /// Nothing of note: no link, and no canonical forms to go by.
    Plain,
    /// The path asked about is a symbolic link.
    Symlink,
    /// The path asked about is no link, and the disk gave canonical forms
    /// for it and for the output before it.
    Canonical { joined: Seq<Part>, base: Seq<Part> },
}

/// What was found on disk for one component.
#[derive(Debug, PartialEq, Eq)]
pub enum Finding {
    /// Nothing of note: no link, and no canonical forms to go by. This is
    /// also the answer where the disk could not be asked.
    Plain,
    /// The path asked about is a symbolic link.
    Symlink,
    /// The path asked about is no link, and the disk gave canonical forms
    /// for it (`joined`) and for the output before it (`base`).
    Canonical { joined: Path, base: Path },
}

impl View for Finding {
    type V = Found;

    open spec fn view(&self) -> Found {
        match self {
            Finding::Plain => Found::Plain,
            Finding::Symlink => Found::Symlink,
            Finding::Canonical { joined, base } => Found::Canonical { joined: joined@, base: base@ },
        }
    }
}

/// What the walk needs to know before its next step: the mathematical value.
pub enum Question {
    /// The walk is over.
    Finished,
    /// The next component needs no look at the disk.
    Nothing,
    /// Is this path a symbolic link?
    Link(Seq<Part>),
    /// Is `joined` a symbolic link, and if not, what are the canonical
    /// forms of `joined` and of `base`?
    Entry { joined: Seq<Part>, base: Seq<Part> },
}

/// What the walk needs to know before its next step.
#[derive(Debug, PartialEq, Eq)]
pub enum Lookup {
    /// The walk is over.
    Finished,
    /// The next component needs no look at the disk: any finding will do.
    Nothing,
    /// Is this path a symbolic link?
    Link(Path),
    /// Is `joined` a symbolic link, and if not, what are the canonical
    /// forms of `joined` and of `base`?
    Entry { joined: Path, base: Path },
}

impl View for Lookup {
    type V = Question;

    open spec fn view(&self) -> Question {
        match self {
            Lookup::Finished => Question::Finished,
            Lookup::Nothing => Question::Nothing,
            Lookup::Link(path) => Question::Link(path@),
            Lookup::Entry { joined, base } => Question::Entry { joined: joined@, base: base@ },
        }
    }
}

/// What one more component makes of the output so far, given what was
/// found for it.
///
/// `.` changes nothing. `..` changes nothing where the output is empty or
/// ends in a prefix or a root directory; it removes a last entry that is no
/// link; and it is kept as it stands behind a link, and behind a `..` that
/// was kept before. An entry is appended as it stands, unless canonical
/// forms were found and the one lies under the other: then what the
/// canonical form adds is joined on instead.
pub open spec fn aware_step(out: Seq<Part>, part: Part, found: Found) -> Seq<Part> {
    match part {
        Part::CurDir => out,
        Part::ParentDir => if out.len() == 0 {
            out
        } else {
            match out.last() {
                Part::Prefix(_) => out,
                Part::RootDir => out,
                Part::Normal(_) => if found is Symlink {
                    out.push(part)
                } else {
                    out.drop_last()
                },
                _ => out.push(part),
            }
        },
        Part::Normal(_) => match found {
            Found::Canonical { joined, base } => match strip_prefix(joined, base) {
                Some(suffix) => join(out, suffix),
                None => out.push(part),
            },
            _ => out.push(part),
        },
        _ => push_part(out, part),
    }
}

/// What has to be known before `aware_step` is taken on `part`.
pub open spec fn question_for(out: Seq<Part>, part: Part) -> Question {
    match part {
        Part::ParentDir => if out.len() > 0 && out.last() is Normal {
            Question::Link(out)
        } else {
            Question::Nothing
        },
        Part::Normal(_) => Question::Entry { joined: out.push(part), base: out },
        _ => Question::Nothing,
    }
}

/// What has to be known before the next step of a walk with output `out`
/// and the components `rest` ahead of it.
pub open spec fn question_at(out: Seq<Part>, rest: Seq<Part>) -> Question {
    if rest.len() == 0 {
        Question::Finished
    } else {
        question_for(out, rest[0])
    }
}

/// The output of a whole walk over `parts`, where `findings[i]` is what was
/// found for `parts[i]`.
pub open spec fn aware(parts: Seq<Part>, findings: Seq<Found>) -> Seq<Part>
    decreases parts.len(),
{
    if parts.len() == 0 {
        Seq::empty()
    } else {
        aware_step(
            aware(parts.drop_last(), findings),
            parts.last(),
            finding_at(findings, parts.len() - 1),
        )
    }
}

/// The finding at `i`, or `Plain` where the findings do not reach that far.
pub open spec fn finding_at(findings: Seq<Found>, i: int) -> Found {
    if 0 <= i < findings.len() {
        findings[i]
    } else {
        Found::Plain
    }
}

/// Whether a finding is well formed: its canonical forms are.
pub open spec fn valid_found(found: Found) -> bool {
    match found {
        Found::Canonical { joined, base } => well_formed(joined) && well_formed(base),
        _ => true,
    }
}

/// A step keeps the output well formed.
pub proof fn lemma_aware_step_well_formed(out: Seq<Part>, part: Part, found: Found)
    requires
        well_formed(out),
        valid_part(part),
        valid_found(found),
    ensures
        well_formed(aware_step(out, part, found)),
{
    match part {
        Part::CurDir => {},
        Part::ParentDir => {
            if out.len() > 0 {
                lemma_take_well_formed(out, out.len() - 1);
                assert(out.take(out.len() - 1) =~= out.drop_last());
                lemma_push_part_well_formed(out, part);
            }
        },
        Part::Normal(_) => {
            lemma_push_part_well_formed(out, part);
            match found {
                Found::Canonical { joined, base } => {
                    if strip_prefix(joined, base) is Some {
                        lemma_skip_well_formed(joined, base.len() as int);
                        lemma_join_well_formed(out, joined.skip(base.len() as int));
                    }
                },
                _ => {},
            }
        },
        _ => {
            lemma_push_part_well_formed(out, part);
        },
    }
}

/// Where nothing was found, a step of the walk is the lexical step, as long
/// as the output holds neither `.` nor `..`.
pub proof fn lemma_plain_step_is_lexical(out: Seq<Part>, part: Part)
    requires
        collapsed(out),
    ensures
        aware_step(out, part, Found::Plain) == lexical_step(out, part),
{
    if part is ParentDir && out.len() > 0 {
        assert(out.last() == out[out.len() - 1]);
    }
}

/// Where no link and no canonical form was found anywhere, the walk gives
/// the lexical normal form.
pub proof fn lemma_plain_walk_is_lexical(parts: Seq<Part>, findings: Seq<Found>)
    requires
        forall|i: int| 0 <= i < parts.len() ==> finding_at(findings, i) is Plain,
    ensures
        aware(parts, findings) == lexical(parts),
        collapsed(aware(parts, findings)),
    decreases parts.len(),
{
    if parts.len() > 0 {
        let front = parts.drop_last();
        assert forall|i: int| 0 <= i < front.len() implies finding_at(findings, i) is Plain by {}
        lemma_plain_walk_is_lexical(front, findings);
        assert(finding_at(findings, parts.len() - 1) is Plain);
        lemma_plain_step_is_lexical(aware(front, findings), parts.last());
        lemma_lexical_step_collapsed(lexical(front), parts.last());
    }
}

/// A walk over one more component is the walk so far and one more step.
pub proof fn lemma_aware_unfolds(parts: Seq<Part>, findings: Seq<Found>, part: Part, found: Found)
    requires
        findings.len() == parts.len(),
    ensures
        aware(parts.push(part), findings.push(found)) == aware_step(
            aware(parts, findings),
            part,
            found,
        ),
{
    let longer = parts.push(part);
    assert(longer.drop_last() =~= parts);
    lemma_aware_ignores_later(parts, findings, findings.push(found));
}

/// A walk looks only at the findings for its own components.
pub proof fn lemma_aware_ignores_later(parts: Seq<Part>, first: Seq<Found>, second: Seq<Found>)
    requires
        forall|i: int| 0 <= i < parts.len() ==> finding_at(first, i) == finding_at(second, i),
    ensures
        aware(parts, first) == aware(parts, second),
    decreases parts.len(),
{
    if parts.len() > 0 {
        lemma_aware_ignores_later(parts.drop_last(), first, second);
    }
}

/// Whether a finding holds `.` or `..` nowhere in its canonical forms.
pub open spec fn collapsed_found(found: Found) -> bool {
    match found {
        Found::Canonical { joined, base } => collapsed(joined),
        _ => true,
    }
}

/// Where no link was found, a step on output without `.` and `..` gives
/// output without them: `..` is kept behind links only.
pub proof fn lemma_step_without_link_collapsed(out: Seq<Part>, part: Part, found: Found)
    requires
        collapsed(out),
        !(found is Symlink),
        collapsed_found(found),
    ensures
        collapsed(aware_step(out, part, found)),
{
    let next = aware_step(out, part, found);
    if out.len() > 0 {
        assert(out.last() == out[out.len() - 1]);
    }
    assert forall|i: int| 0 <= i < next.len() implies !(#[trigger] next[i] is CurDir) && !(
    next[i] is ParentDir) by {
        match part {
            Part::CurDir => {},
            Part::ParentDir => {
                if next != out {
                    assert(next == out.drop_last());
                    assert(next[i] == out[i]);
                }
            },
            Part::Normal(_) => {
                match found {
                    Found::Canonical { joined, base } => {
                        if strip_prefix(joined, base) is Some {
                            let suffix = joined.skip(base.len() as int);
                            assert forall|k: int| 0 <= k < suffix.len() implies !(
                            #[trigger] suffix[k] is CurDir) && !(suffix[k] is ParentDir) by {
                                assert(suffix[k] == joined[k + base.len()]);
                            }
                            if suffix.len() == 0 {
                            } else if suffix[0] is Prefix {
                            } else if suffix[0] is RootDir {
                                if i < prefix_of(out).len() {
                                    assert(next[i] == out[0]);
                                } else {
                                    assert(next[i] == suffix[i - prefix_of(out).len()]);
                                }
                            } else {
                                if i < out.len() {
                                    assert(next[i] == out[i]);
                                } else {
                                    assert(next[i] == suffix[i - out.len()]);
                                }
                            }
                        } else {
                            if i < out.len() {
                                assert(next[i] == out[i]);
                            }
                        }
                    },
                    _ => {
                        if i < out.len() {
                            assert(next[i] == out[i]);
                        }
                    },
                }
            },
            Part::Prefix(_) => {},
            Part::RootDir => {
                if i < prefix_of(out).len() {
                    assert(next[i] == out[0]);
                }
            },
        }
    }
}

/// Where no link was found anywhere, the output of a walk holds neither
/// `.` nor `..`.
pub proof fn lemma_walk_without_link_collapsed(parts: Seq<Part>, findings: Seq<Found>)
    requires
        forall|i: int|
            0 <= i < parts.len() ==> !(finding_at(findings, i) is Symlink) && collapsed_found(
                finding_at(findings, i),
            ),
    ensures
        collapsed(aware(parts, findings)),
    decreases parts.len(),
{
    if parts.len() > 0 {
        let front = parts.drop_last();
        assert forall|i: int| 0 <= i < front.len() implies !(finding_at(findings, i) is Symlink)
            && collapsed_found(finding_at(findings, i)) by {}
        lemma_walk_without_link_collapsed(front, findings);
        lemma_step_without_link_collapsed(
            aware(front, findings),
            parts.last(),
            finding_at(findings, parts.len() - 1),
        );
    }
}

/// Behind a symbolic link `..` is kept: the entry before it stays, and the
/// `..` stands behind it.
pub proof fn lemma_link_keeps_parent(out: Seq<Part>)
    requires
        out.len() > 0,
        out.last() is Normal,
    ensures
        aware_step(out, Part::ParentDir, Found::Symlink) == out.push(Part::ParentDir),
        aware_step(out, Part::ParentDir, Found::Plain) == out.drop_last(),
{
}

/// Behind a `..` that was kept, every further `..` is kept too, whatever
/// was found.
pub proof fn lemma_kept_parent_stays(out: Seq<Part>, found: Found)
    requires
        out.len() > 0,
        out.last() is ParentDir,
    ensures
        aware_step(out, Part::ParentDir, found) == out.push(Part::ParentDir),
{
}

/// A walk in progress: the output so far and the components still ahead.
pub struct LinkWalk {
    out: Path,
    input: Path,
    next: usize,
}

impl LinkWalk {
    #[verifier::type_invariant]
    spec fn in_range(&self) -> bool {
        self.next <= self.input@.len()
    }

    /// The output so far.
    pub closed spec fn output(&self) -> Seq<Part> {
        self.out@
    }

    /// The components still ahead.
    pub closed spec fn remaining(&self) -> Seq<Part> {
        self.input@.skip(self.next as int)
    }

    /// Starts a walk over `path`, and says what it needs to know first.
    pub fn begin(path: &Path) -> (start: (LinkWalk, Lookup))
        ensures
            start.0.output() == Seq::<Part>::empty(),
            start.0.remaining() == path@,
            start.1@ == question_at(start.0.output(), start.0.remaining()),
    {
        let walk = LinkWalk { out: Path::new(), input: path.clone(), next: 0 };
        proof {
            assert(path@.skip(0) =~= path@);
        }
        let lookup = walk.lookup();
        (walk, lookup)
    }

    /// Whether the walk is over.
    pub fn is_finished(&self) -> (over: bool)
        ensures
            over == (self.remaining().len() == 0),
    {
        proof {
            use_type_invariant(self);
        }
        self.next == self.input.len()
    }

    /// What the walk needs to know before its next step.
    pub fn lookup(&self) -> (lookup: Lookup)
        ensures
            lookup@ == question_at(self.output(), self.remaining()),
    {
        proof {
            use_type_invariant(self);
        }
        let input = self.input.parts();
        if self.next == input.len() {
            return Lookup::Finished;
        }
        proof {
            assert(self.remaining()[0] == input@[self.next as int]@);
        }
        let out = self.out.parts();
        match &input[self.next] {
            Component::ParentDir => {
                let n = out.len();
                if n > 0 && matches!(&out[n - 1], Component::Normal(_)) {
                    proof {
                        assert(self.output().last() == out@[n - 1]@);
                    }
                    Lookup::Link(self.out.clone())
                } else {
                    proof {
                        if n > 0 {
                            assert(self.output().last() == out@[n - 1]@);
                        }
                    }
                    Lookup::Nothing
                }
            },
            Component::Normal(_) => {
                let mut parts = self.out.components();
                let ghost before = parts@;
                let entry = input[self.next].clone();
                proof {
                    lemma_parts_of_push(before, entry);
                    assert(self.input@[self.next as int] == entry@);
                    lemma_push_part_well_formed(self.output(), entry@);
                }
                parts.push(entry);
                Lookup::Entry { joined: Path::from_checked(parts), base: self.out.clone() }
            },
            _ => Lookup::Nothing,
        }
    }

    /// Takes the next step, given what was found for it, and says what the
    /// walk needs to know for the step after. A walk that is over stays as
    /// it is.
    pub fn step(self, finding: &Finding) -> (next: (LinkWalk, Lookup))
        ensures
            self.remaining().len() == 0 ==> next.0.output() == self.output() && next.0.remaining()
                == self.remaining(),
            self.remaining().len() > 0 ==> next.0.output() == aware_step(
                self.output(),
                self.remaining()[0],
                finding@,
            ) && next.0.remaining() == self.remaining().skip(1),
            next.1@ == question_at(next.0.output(), next.0.remaining()),
    {
        proof {
            use_type_invariant(&self);
        }
        if self.next == self.input.len() {
            let lookup = self.lookup();
            return (self, lookup);
        }
        let ghost old_out = self.output();
        let ghost old_rest = self.remaining();
        let LinkWalk { out, input, next } = self;
        let component = input.parts()[next].clone();
        let ghost part = component@;
        proof {
            assert(old_rest[0] == part);
            assert(old_rest.skip(1) =~= input@.skip(next + 1));
            assert(input@[next as int] == part);
        }
        let moved = take_step(out, component, finding);
        let walk = LinkWalk { out: moved, input, next: next + 1 };
        let lookup = walk.lookup();
        (walk, lookup)
    }

    /// Ends the walk: the output so far, after the closing pass that may
    /// take the verbatim marker off its prefix.
    pub fn finish(self) -> (out: Path)
        ensures
            out@ == self.output() || out@ == shortened(self.output()),
    {
        let LinkWalk { out, input, next } = self;
        simplify(out)
    }
}

/// The view of a finding with paths in it is well formed.
fn know_valid(finding: &Finding)
    ensures
        valid_found(finding@),
{
    match finding {
        Finding::Canonical { joined, base } => {
            joined.know_well_formed();
            base.know_well_formed();
        },
        _ => {},
    }
}

/// One step of the walk on the output `out`.
fn take_step(out: Path, component: Component, finding: &Finding) -> (moved: Path)
    requires
        valid_part(component@),
    ensures
        moved@ == aware_step(out@, component@, finding@),
{
    know_valid(finding);
    let ghost before = out@;
    out.know_well_formed();
    match &component {
        Component::CurDir => out,
        Component::ParentDir => {
            let mut parts = out.into_parts();
            let n = parts.len();
            if n == 0 {
                return Path::from_checked(parts);
            }
            proof {
                assert(before.last() == parts@[n - 1]@);
                lemma_aware_step_well_formed(before, component@, finding@);
            }
            let ghost held = parts@;
            match &parts[n - 1] {
                Component::Prefix(_) => {},
                Component::RootDir => {},
                Component::Normal(_) => {
                    if matches!(finding, Finding::Symlink) {
                        proof {
                            lemma_parts_of_push(held, component);
                        }
                        parts.push(component);
                    } else {
                        parts.pop();
                        proof {
                            assert(parts_of(parts@) =~= before.drop_last());
                        }
                    }
                },
                _ => {
                    proof {
                        lemma_parts_of_push(held, component);
                    }
                    parts.push(component);
                },
            }
            Path::from_checked(parts)
        },
        Component::Normal(_) => {
            match finding {
                Finding::Canonical { joined, base } => {
                    match joined.strip_prefix(base) {
                        Some(suffix) => {
                            return out.join(&suffix);
                        },
                        None => {},
                    }
                },
                _ => {},
            }
            let mut parts = out.into_parts();
            proof {
                lemma_parts_of_push(parts@, component);
                lemma_push_part_well_formed(before, component@);
            }
            parts.push(component);
            Path::from_checked(parts)
        },
        Component::Prefix(_) => {
            let mut parts: Vec<Component> = Vec::new();
            proof {
                lemma_push_part_well_formed(before, component@);
                lemma_parts_of_push(parts@, component);
                assert(parts_of(parts@) =~= Seq::<Part>::empty());
                assert(Seq::<Part>::empty().push(component@) =~= seq![component@]);
            }
            parts.push(component);
            Path::from_checked(parts)
        },
        Component::RootDir => {
            let mut parts = out.into_parts();
            let keep: usize = if parts.len() > 0 && matches!(&parts[0], Component::Prefix(_)) {
                1
            } else {
                0
            };
            parts.truncate(keep);
            parts.push(Component::RootDir);
            proof {
                assert(parts_of(parts@) =~= prefix_of(before).push(Part::RootDir));
                lemma_push_part_well_formed(before, Part::RootDir);
            }
            Path::from_checked(parts)
        },
    }
}

/// The values of a list of findings.
pub open spec fn founds_of(findings: Seq<Finding>) -> Seq<Found> {
    findings.map_values(|f: Finding| f@)
}

/// Walks all of `path` with findings that are known beforehand:
/// `findings[i]` is taken for the component at `i`, and `Plain` where the
/// list is too short. The closing pass follows.
pub fn walk_with(path: &Path, findings: &Vec<Finding>) -> (out: Path)
    ensures
        out@ == aware(path@, founds_of(findings@)) || out@ == shortened(
            aware(path@, founds_of(findings@)),
        ),
{
    let parts = path.parts();
    let plain = Finding::Plain;
    let mut out = Path::new();
    let mut i: usize = 0;
    proof {
        assert(path@.take(0) =~= Seq::<Part>::empty());
    }
    while i < parts.len()
        invariant
            i <= parts.len(),
            parts_of(parts@) == path@,
            well_formed(path@),
            plain@ is Plain,
            out@ == aware(path@.take(i as int), founds_of(findings@)),
        decreases parts.len() - i,
    {
        proof {
            assert(path@.take(i + 1).drop_last() =~= path@.take(i as int));
            assert(path@.take(i + 1).last() == parts@[i as int]@);
            assert(path@[i as int] == parts@[i as int]@);
        }
        let finding = if i < findings.len() {
            &findings[i]
        } else {
            &plain
        };
        out = take_step(out, parts[i].clone(), finding);
        i += 1;
    }
    proof {
        assert(path@.take(parts.len() as int) =~= path@);
    }
    simplify(out)
}

} // verus!
