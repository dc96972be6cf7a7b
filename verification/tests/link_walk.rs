use tidy_path::component::Component;
use tidy_path::normalize::normalize;
use tidy_path::path::Path;
use tidy_path::walk::{walk_with, Finding, LinkWalk, Lookup};

fn name(text: &str) -> Component {
    Component::normal(text).unwrap()
}

#[test]
fn behind_a_link_the_parent_is_kept() {
    let path = Path::from_text("link/../x");
    let out = walk_with(&path, &vec![Finding::Symlink, Finding::Symlink, Finding::Plain]);
    assert_eq!(out.to_text(), "link/../x");
    assert_ne!(out, Path::from_text("x"));
}

#[test]
fn without_a_link_the_parent_collapses() {
    let path = Path::from_text("link/../x");
    assert_eq!(walk_with(&path, &vec![]).to_text(), "x");
    assert_eq!(walk_with(&path, &vec![Finding::Plain, Finding::Plain]).to_text(), "x");
}

#[test]
fn a_plain_walk_is_lexical_normalisation() {
    for text in ["/a/../b/./c", "../x/y/..", "a//b/../../..", "/", "", "/../../x"] {
        let path = Path::from_text(text);
        assert_eq!(walk_with(&path, &vec![]), normalize(&path));
    }
}

#[test]
fn a_kept_parent_keeps_those_behind_it() {
    let path = Path::from_text("link/../../x");
    let out = walk_with(&path, &vec![Finding::Plain, Finding::Symlink]);
    assert_eq!(out.to_text(), "link/../../x");
}

#[test]
fn canonical_forms_correct_the_entry() {
    let path = Path::from_text("/data/PROGRA~1");
    let found = Finding::Canonical {
        joined: Path::from_text("/data/Program Files"),
        base: Path::from_text("/data"),
    };
    let out = walk_with(&path, &vec![Finding::Plain, Finding::Plain, found]);
    assert_eq!(out.to_text(), "/data/Program Files");
}

#[test]
fn canonical_forms_that_do_not_nest_are_ignored() {
    let path = Path::from_text("/data/x");
    let found = Finding::Canonical {
        joined: Path::from_text("/elsewhere/x"),
        base: Path::from_text("/data"),
    };
    let out = walk_with(&path, &vec![Finding::Plain, Finding::Plain, found]);
    assert_eq!(out.to_text(), "/data/x");
}

#[test]
fn the_walk_asks_before_each_step() {
    let (walk, lookup) = LinkWalk::begin(&Path::from_text("/link/../x"));
    assert_eq!(lookup, Lookup::Nothing);
    assert!(!walk.is_finished());
    let (walk, lookup) = walk.step(&Finding::Plain);
    assert_eq!(
        lookup,
        Lookup::Entry { joined: Path::from_text("/link"), base: Path::from_text("/") }
    );
    let (walk, lookup) = walk.step(&Finding::Symlink);
    assert_eq!(lookup, Lookup::Link(Path::from_text("/link")));
    assert_eq!(walk.lookup(), Lookup::Link(Path::from_text("/link")));
    let (walk, lookup) = walk.step(&Finding::Symlink);
    assert_eq!(
        lookup,
        Lookup::Entry { joined: Path::from_text("/link/../x"), base: Path::from_text("/link/..") }
    );
    let (walk, lookup) = walk.step(&Finding::Plain);
    assert_eq!(lookup, Lookup::Finished);
    assert!(walk.is_finished());
    let (walk, lookup) = walk.step(&Finding::Symlink);
    assert_eq!(lookup, Lookup::Finished);
    assert_eq!(walk.finish().to_text(), "/link/../x");
}

#[test]
fn the_walk_of_the_empty_path_is_over_at_once() {
    let (walk, lookup) = LinkWalk::begin(&Path::new());
    assert_eq!(lookup, Lookup::Finished);
    assert!(walk.is_finished());
    assert!(walk.finish().is_empty());
}

#[test]
fn parent_needs_no_lookup_at_the_root_or_at_the_start() {
    let (walk, lookup) = LinkWalk::begin(&Path::from_text("../.."));
    assert_eq!(lookup, Lookup::Nothing);
    let (walk, lookup) = walk.step(&Finding::Symlink);
    assert_eq!(lookup, Lookup::Nothing);
    let (walk, _) = walk.step(&Finding::Symlink);
    assert!(walk.finish().is_empty());
    assert_eq!(walk_with(&Path::from_text("/.."), &vec![Finding::Symlink, Finding::Symlink]).to_text(), "/");
}

fn stepped(components: Vec<Component>, last: Finding) -> Path {
    let path = Path::from_components(components).unwrap();
    let mut findings: Vec<Finding> = Vec::new();
    for _ in 1..path.len() {
        findings.push(Finding::Plain);
    }
    findings.push(last);
    walk_with(&path, &findings)
}

#[test]
fn single_steps_follow_the_rules() {
    let start = || vec![Component::RootDir, name("a")];
    let with = |component: Component| {
        let mut all = start();
        all.push(component);
        all
    };
    assert_eq!(stepped(with(Component::CurDir), Finding::Symlink).to_text(), "/a");
    assert_eq!(stepped(with(Component::ParentDir), Finding::Plain).to_text(), "/");
    assert_eq!(stepped(with(Component::ParentDir), Finding::Symlink).to_text(), "/a/..");
    assert_eq!(stepped(with(name("b")), Finding::Symlink).to_text(), "/a/b");
    let rooted = vec![Component::prefix("C:").unwrap(), Component::RootDir, Component::ParentDir];
    assert_eq!(stepped(rooted, Finding::Symlink).to_backslash_text(), "C:\\");
}
