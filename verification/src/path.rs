//! Paths as sequences of components.

use vstd::prelude::*;
use crate::component::{Component, Part, valid_part};

verus! {

/// A prefix stands first or nowhere, and a root directory stands first or
/// directly behind the prefix.
pub open spec fn anchored(parts: Seq<Part>) -> bool {
    forall|i: int|
        0 <= i < parts.len() ==> match #[trigger] parts[i] {
            Part::Prefix(_) => i == 0,
            Part::RootDir => i == 0 || (i == 1 && parts[0] is Prefix),
            _ => true,
        }
}

/// The shape every path has: anchored, with valid texts throughout.
pub open spec fn well_formed(parts: Seq<Part>) -> bool {
    &&& anchored(parts)
    &&& forall|i: int| 0 <= i < parts.len() ==> valid_part(#[trigger] parts[i])
}

/// Whether `parts` holds neither a prefix nor a root directory.
pub open spec fn floating(parts: Seq<Part>) -> bool {
    forall|i: int|
        0 <= i < parts.len() ==> !(#[trigger] parts[i] is Prefix) && !(parts[i] is RootDir)
}

/// The prefix of `parts` as a sequence of its own: one component or none.
pub open spec fn prefix_of(parts: Seq<Part>) -> Seq<Part> {
    if parts.len() > 0 && parts[0] is Prefix {
        seq![parts[0]]
    } else {
        Seq::empty()
    }
}

/// The anchor of `parts`: its prefix and its root directory, as far as it
/// has them.
pub open spec fn anchor(parts: Seq<Part>) -> Seq<Part> {
    if parts.len() > 1 && parts[0] is Prefix && parts[1] is RootDir {
        parts.take(2)
    } else if parts.len() > 0 && (parts[0] is Prefix || parts[0] is RootDir) {
        parts.take(1)
    } else {
        Seq::empty()
    }
}

/// Whether `parts` has a root directory.
pub open spec fn is_absolute(parts: Seq<Part>) -> bool {
    ||| parts.len() > 0 && parts[0] is RootDir
    ||| parts.len() > 1 && parts[0] is Prefix && parts[1] is RootDir
}

/// `base` with one more component: a prefix replaces everything, a root
/// directory replaces everything but the prefix, anything else is appended.
pub open spec fn push_part(base: Seq<Part>, part: Part) -> Seq<Part> {
    match part {
        Part::Prefix(_) => seq![part],
        Part::RootDir => prefix_of(base).push(part),
        _ => base.push(part),
    }
}

/// `other` taken relative to `base`: a path with a prefix replaces `base`,
/// a rooted path keeps only the prefix of `base`, any other is appended.
pub open spec fn join(base: Seq<Part>, other: Seq<Part>) -> Seq<Part> {
    if other.len() == 0 {
        base
    } else if other[0] is Prefix {
        other
    } else if other[0] is RootDir {
        prefix_of(base) + other
    } else {
        base + other
    }
}

/// Whether `parts` begins with all of `base`, component by component.
pub open spec fn starts_with(parts: Seq<Part>, base: Seq<Part>) -> bool {
    base.is_prefix_of(parts)
}

/// What is left of `parts` behind `base`, where `parts` begins with it.
pub open spec fn strip_prefix(parts: Seq<Part>, base: Seq<Part>) -> Option<Seq<Part>> {
    if starts_with(parts, base) {
        Some(parts.skip(base.len() as int))
    } else {
        None
    }
}

/// `parts` without its last component, where that is an entry, `.` or `..`.
pub open spec fn parent(parts: Seq<Part>) -> Option<Seq<Part>> {
    if parts.len() > 0 && !(parts.last() is Prefix) && !(parts.last() is RootDir) {
        Some(parts.drop_last())
    } else {
        None
    }
}

/// The name of the entry that `parts` ends in, if it ends in one.
pub open spec fn file_name(parts: Seq<Part>) -> Option<Seq<char>> {
    if parts.len() > 0 && parts.last() is Normal {
        Some(parts.last()->Normal_0)
    } else {
        None
    }
}

/// The values of a sequence of components.
pub open spec fn parts_of(components: Seq<Component>) -> Seq<Part> {
    components.map_values(|c: Component| c@)
}

/// The values of `components` with one more are the values with one more.
pub proof fn lemma_parts_of_push(components: Seq<Component>, component: Component)
    ensures
        parts_of(components.push(component)) == parts_of(components).push(component@),
{
    assert(parts_of(components.push(component)) =~= parts_of(components).push(component@));
}

/// A well-formed sequence stays well formed when it is cut at the end.
pub proof fn lemma_take_well_formed(parts: Seq<Part>, n: int)
    requires
        well_formed(parts),
        0 <= n <= parts.len(),
    ensures
        well_formed(parts.take(n)),
{
    let cut = parts.take(n);
    assert forall|i: int| 0 <= i < cut.len() implies valid_part(#[trigger] cut[i]) by {
        assert(cut[i] == parts[i]);
    }
    assert forall|i: int| 0 <= i < cut.len() implies match #[trigger] cut[i] {
        Part::Prefix(_) => i == 0,
        Part::RootDir => i == 0 || (i == 1 && cut[0] is Prefix),
        _ => true,
    } by {
        assert(cut[i] == parts[i]);
        assert(cut[0] == parts[0]);
    }
}

/// A well-formed sequence stays well formed when it is cut at the front.
/// Behind its first component it holds neither a prefix nor, unless the
/// prefix alone was cut, a root directory.
pub proof fn lemma_skip_well_formed(parts: Seq<Part>, n: int)
    requires
        well_formed(parts),
        0 <= n <= parts.len(),
    ensures
        well_formed(parts.skip(n)),
        n > 0 ==> floating(parts.skip(n)) || (n == 1 && parts[0] is Prefix),
{
    let rest = parts.skip(n);
    assert forall|i: int| 0 <= i < rest.len() implies valid_part(#[trigger] rest[i]) by {
        assert(rest[i] == parts[i + n]);
    }
    assert forall|i: int| 0 <= i < rest.len() implies match #[trigger] rest[i] {
        Part::Prefix(_) => i == 0,
        Part::RootDir => i == 0 || (i == 1 && rest[0] is Prefix),
        _ => true,
    } by {
        assert(rest[i] == parts[i + n]);
    }
    if n > 0 && !(n == 1 && parts[0] is Prefix) {
        assert forall|i: int| 0 <= i < rest.len() implies !(#[trigger] rest[i] is Prefix)
            && !(rest[i] is RootDir) by {
            assert(rest[i] == parts[i + n]);
        }
    }
}

/// A well-formed sequence that begins with neither a prefix nor a root
/// directory holds none at all.
pub proof fn lemma_relative_is_floating(parts: Seq<Part>)
    requires
        well_formed(parts),
        parts.len() > 0 ==> !(parts[0] is Prefix) && !(parts[0] is RootDir),
    ensures
        floating(parts),
{
    assert forall|i: int| 0 <= i < parts.len() implies !(#[trigger] parts[i] is Prefix)
        && !(parts[i] is RootDir) by {
        if i > 0 {
            assert(!(parts[0] is Prefix));
        }
    }
}

/// Appending a floating well-formed sequence keeps well-formedness.
pub proof fn lemma_append_well_formed(base: Seq<Part>, tail: Seq<Part>)
    requires
        well_formed(base),
        well_formed(tail),
        floating(tail),
    ensures
        well_formed(base + tail),
{
    let all = base + tail;
    assert forall|i: int| 0 <= i < all.len() implies valid_part(#[trigger] all[i]) by {
        if i < base.len() {
            assert(all[i] == base[i]);
        } else {
            assert(all[i] == tail[i - base.len()]);
        }
    }
    assert forall|i: int| 0 <= i < all.len() implies match #[trigger] all[i] {
        Part::Prefix(_) => i == 0,
        Part::RootDir => i == 0 || (i == 1 && all[0] is Prefix),
        _ => true,
    } by {
        if i < base.len() {
            assert(all[i] == base[i]);
            assert(all[0] == base[0]);
        } else {
            assert(all[i] == tail[i - base.len()]);
        }
    }
}

/// Joining two well-formed sequences gives a well-formed sequence.
pub proof fn lemma_join_well_formed(base: Seq<Part>, other: Seq<Part>)
    requires
        well_formed(base),
        well_formed(other),
    ensures
        well_formed(join(base, other)),
{
    if other.len() == 0 || other[0] is Prefix {
    } else if other[0] is RootDir {
        let all = prefix_of(base) + other;
        assert forall|i: int| 0 <= i < all.len() implies valid_part(#[trigger] all[i]) by {
            if i < prefix_of(base).len() {
                assert(all[i] == base[0]);
            } else {
                assert(all[i] == other[i - prefix_of(base).len()]);
            }
        }
        assert forall|i: int| 0 <= i < all.len() implies match #[trigger] all[i] {
            Part::Prefix(_) => i == 0,
            Part::RootDir => i == 0 || (i == 1 && all[0] is Prefix),
            _ => true,
        } by {
            if i < prefix_of(base).len() {
                assert(all[i] == base[0]);
            } else {
                let k = i - prefix_of(base).len();
                assert(all[i] == other[k]);
                if k > 0 {
                    assert(!(other[k] is Prefix));
                    assert(!(other[k] is RootDir));
                }
            }
        }
    } else {
        lemma_relative_is_floating(other);
        lemma_append_well_formed(base, other);
    }
}

/// Pushing a valid component onto a well-formed sequence gives a
/// well-formed sequence.
pub proof fn lemma_push_part_well_formed(base: Seq<Part>, part: Part)
    requires
        well_formed(base),
        valid_part(part),
    ensures
        well_formed(push_part(base, part)),
        push_part(base, part) == join(base, seq![part]),
{
    let single = seq![part];
    assert(well_formed(single));
    lemma_join_well_formed(base, single);
    assert(push_part(base, part) =~= join(base, single));
}

/// A path: a well-formed sequence of components.
#[derive(Debug, PartialEq, Eq)]
pub struct Path {
    parts: Vec<Component>,
}

impl View for Path {
    type V = Seq<Part>;

    closed spec fn view(&self) -> Seq<Part> {
        parts_of(self.parts@)
    }
}

/// Copies `source[from..to]`.
pub(crate) fn copy_range(source: &Vec<Component>, from: usize, to: usize) -> (copy: Vec<Component>)
    requires
        from <= to <= source.len(),
    ensures
        parts_of(copy@) == parts_of(source@).subrange(from as int, to as int),
{
    let mut copy: Vec<Component> = Vec::new();
    let mut i: usize = from;
    while i < to
        invariant
            from <= i <= to <= source.len(),
            parts_of(copy@) == parts_of(source@).subrange(from as int, i as int),
        decreases to - i,
    {
        let ghost before = copy@;
        let component = source[i].clone();
        copy.push(component);
        proof {
            assert(copy@ == before.push(component));
            assert(parts_of(copy@) =~= parts_of(before).push(component@));
            assert(parts_of(copy@) =~= parts_of(source@).subrange(from as int, i + 1));
        }
        i += 1;
    }
    copy
}

/// Appends copies of `source[from..]` to `target`.
pub(crate) fn extend_from(target: &mut Vec<Component>, source: &Vec<Component>, from: usize)
    requires
        from <= source.len(),
    ensures
        parts_of(final(target)@) == parts_of(old(target)@) + parts_of(source@).skip(from as int),
{
    let mut i: usize = from;
    while i < source.len()
        invariant
            from <= i <= source.len(),
            parts_of(target@) == parts_of(old(target)@) + parts_of(source@).subrange(
                from as int,
                i as int,
            ),
        decreases source.len() - i,
    {
        let ghost before = target@;
        let component = source[i].clone();
        target.push(component);
        proof {
            assert(parts_of(target@) =~= parts_of(before).push(component@));
            assert(parts_of(target@) =~= parts_of(old(target)@) + parts_of(source@).subrange(
                from as int,
                i + 1,
            ));
        }
        i += 1;
    }
    proof {
        assert(parts_of(source@).subrange(from as int, source.len() as int) =~= parts_of(
            source@,
        ).skip(from as int));
    }
}

impl Path {
    #[verifier::type_invariant]
    spec fn shaped(&self) -> bool {
        well_formed(parts_of(self.parts@))
    }

    /// Every path is well formed: a call of this makes the fact known
    /// where it is needed. It computes nothing.
    pub fn know_well_formed(&self)
        ensures
            well_formed(self@),
    {
        proof {
            use_type_invariant(self);
        }
    }

    /// The path made of `parts`, which are known to be well formed.
    pub(crate) fn from_checked(parts: Vec<Component>) -> (path: Path)
        requires
            well_formed(parts_of(parts@)),
        ensures
            path@ == parts_of(parts@),
    {
        Path { parts }
    }

    /// The components of this path, taken out of it.
    pub(crate) fn into_parts(self) -> (parts: Vec<Component>)
        ensures
            parts_of(parts@) == self@,
            well_formed(self@),
    {
        proof {
            use_type_invariant(&self);
        }
        self.parts
    }

    /// The components of this path, borrowed.
    pub(crate) fn parts(&self) -> (parts: &Vec<Component>)
        ensures
            parts_of(parts@) == self@,
            well_formed(self@),
    {
        proof {
            use_type_invariant(self);
        }
        &self.parts
    }

    /// The empty path.
    pub fn new() -> (path: Path)
        ensures
            path@ == Seq::<Part>::empty(),
    {
        let parts: Vec<Component> = Vec::new();
        proof {
            assert(parts_of(parts@) =~= Seq::<Part>::empty());
        }
        Path { parts }
    }

    /// The path made of `components`, where they are well formed.
    pub fn from_components(components: Vec<Component>) -> (made: Option<Path>)
        ensures
            well_formed(parts_of(components@)) ==> made is Some && made->0@ == parts_of(
                components@,
            ),
            !well_formed(parts_of(components@)) ==> made is None,
    {
        let ghost parts = parts_of(components@);
        let mut i: usize = 0;
        while i < components.len()
            invariant
                i <= components.len(),
                parts == parts_of(components@),
                well_formed(parts.take(i as int)),
            decreases components.len() - i,
        {
            let fits = match &components[i] {
                Component::Prefix(_) => i == 0,
                Component::RootDir => i == 0 || (i == 1 && matches!(
                    &components[0],
                    Component::Prefix(_)
                )),
                _ => true,
            };
            if !fits || !components[i].is_valid() {
                proof {
                    assert(parts[i as int] == components[i as int]@);
                }
                return None;
            }
            proof {
                let grown = parts.take(i + 1);
                assert forall|k: int| 0 <= k < grown.len() implies valid_part(
                    #[trigger] grown[k],
                ) by {
                    if k < i {
                        assert(grown[k] == parts.take(i as int)[k]);
                    }
                }
                assert forall|k: int| 0 <= k < grown.len() implies match #[trigger] grown[k] {
                    Part::Prefix(_) => k == 0,
                    Part::RootDir => k == 0 || (k == 1 && grown[0] is Prefix),
                    _ => true,
                } by {
                    if k < i {
                        assert(grown[k] == parts.take(i as int)[k]);
                        assert(grown[0] == parts.take(i as int)[0]);
                    }
                }
            }
            i += 1;
        }
        proof {
            assert(parts.take(components.len() as int) =~= parts);
        }
        Some(Path { parts: components })
    }

    /// The components of this path, in order.
    pub fn components(&self) -> (components: Vec<Component>)
        ensures
            parts_of(components@) == self@,
    {
        let copy = copy_range(&self.parts, 0, self.parts.len());
        proof {
            assert(parts_of(self.parts@).subrange(0, self.parts.len() as int) =~= parts_of(
                self.parts@,
            ));
        }
        copy
    }

    /// The number of components.
    pub fn len(&self) -> (n: usize)
        ensures
            n == self@.len(),
    {
        self.parts.len()
    }

    /// Whether this is the empty path.
    pub fn is_empty(&self) -> (empty: bool)
        ensures
            empty == (self@.len() == 0),
    {
        self.parts.len() == 0
    }

    /// Whether this path has a root directory.
    pub fn is_absolute(&self) -> (absolute: bool)
        ensures
            absolute == is_absolute(self@),
    {
        let n = self.parts.len();
        (n > 0 && matches!(&self.parts[0], Component::RootDir)) || (n > 1 && matches!(
            &self.parts[0],
            Component::Prefix(_)
        ) && matches!(&self.parts[1], Component::RootDir))
    }

    /// Whether this path begins with all of `base`, component by component.
    pub fn starts_with(&self, base: &Path) -> (begins: bool)
        ensures
            begins == starts_with(self@, base@),
    {
        if base.parts.len() > self.parts.len() {
            return false;
        }
        let mut i: usize = 0;
        while i < base.parts.len()
            invariant
                i <= base.parts.len() <= self.parts.len(),
                forall|k: int| 0 <= k < i ==> self@[k] == base@[k],
            decreases base.parts.len() - i,
        {
            if !self.parts[i].same(&base.parts[i]) {
                proof {
                    assert(self@[i as int] != base@[i as int]);
                }
                return false;
            }
            i += 1;
        }
        proof {
            assert(self@.subrange(0, base@.len() as int) =~= base@);
        }
        true
    }

    /// What is left of this path behind `base`, where it begins with `base`.
    pub fn strip_prefix(&self, base: &Path) -> (rest: Option<Path>)
        ensures
            rest is Some <==> starts_with(self@, base@),
            rest is Some ==> Some(rest->0@) == strip_prefix(self@, base@),
    {
        if self.starts_with(base) {
            let parts = copy_range(&self.parts, base.parts.len(), self.parts.len());
            proof {
                use_type_invariant(self);
                lemma_skip_well_formed(self@, base@.len() as int);
                assert(self@.subrange(base@.len() as int, self@.len() as int) =~= self@.skip(
                    base@.len() as int,
                ));
            }
            Some(Path { parts })
        } else {
            None
        }
    }

    /// `other` taken relative to this path.
    pub fn join(&self, other: &Path) -> (joined: Path)
        ensures
            joined@ == join(self@, other@),
    {
        proof {
            use_type_invariant(self);
            use_type_invariant(other);
            lemma_join_well_formed(self@, other@);
        }
        if other.parts.len() == 0 {
            self.clone()
        } else if matches!(&other.parts[0], Component::Prefix(_)) {
            other.clone()
        } else if matches!(&other.parts[0], Component::RootDir) {
            let keep: usize = if self.parts.len() > 0 && matches!(
                &self.parts[0],
                Component::Prefix(_)
            ) {
                1
            } else {
                0
            };
            let mut parts = copy_range(&self.parts, 0, keep);
            extend_from(&mut parts, &other.parts, 0);
            proof {
                assert(self@.subrange(0, keep as int) =~= prefix_of(self@));
                assert(other@.skip(0) =~= other@);
            }
            Path { parts }
        } else {
            let mut parts = copy_range(&self.parts, 0, self.parts.len());
            extend_from(&mut parts, &other.parts, 0);
            proof {
                assert(self@.subrange(0, self@.len() as int) =~= self@);
                assert(other@.skip(0) =~= other@);
            }
            Path { parts }
        }
    }

    /// This path without its last component, where that is an entry, `.`
    /// or `..`.
    pub fn parent(&self) -> (up: Option<Path>)
        ensures
            up is Some <==> parent(self@) is Some,
            up is Some ==> Some(up->0@) == parent(self@),
    {
        let n = self.parts.len();
        if n == 0 {
            return None;
        }
        match &self.parts[n - 1] {
            Component::Prefix(_) => None,
            Component::RootDir => None,
            _ => {
                let parts = copy_range(&self.parts, 0, n - 1);
                proof {
                    use_type_invariant(self);
                    lemma_take_well_formed(self@, n - 1);
                    assert(self@.subrange(0, n - 1) =~= self@.drop_last());
                    assert(self@.take(n - 1) =~= self@.drop_last());
                }
                Some(Path { parts })
            },
        }
    }

    /// The name of the entry that this path ends in, if it ends in one.
    pub fn file_name(&self) -> (name: Option<String>)
        ensures
            name is Some <==> file_name(self@) is Some,
            name is Some ==> Some(name->0@) == file_name(self@),
    {
        let n = self.parts.len();
        if n == 0 {
            return None;
        }
        match &self.parts[n - 1] {
            Component::Normal(name) => Some(name.clone()),
            _ => None,
        }
    }
}

impl Clone for Path {
    fn clone(&self) -> (copy: Path)
        ensures
            copy@ == self@,
    {
        proof {
            use_type_invariant(self);
        }
        let parts = copy_range(&self.parts, 0, self.parts.len());
        proof {
            assert(parts_of(self.parts@).subrange(0, self.parts.len() as int) =~= parts_of(
                self.parts@,
            ));
        }
        Path { parts }
    }
}

} // verus!
