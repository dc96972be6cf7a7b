use tidy_path::component::Component;
use tidy_path::normalize::{apply_simplified, collapse, normalize, opens_verbatim, simplify};
use tidy_path::path::Path;

fn normal(text: &str) -> String {
    normalize(&Path::from_text(text)).to_text()
}

#[test]
fn parent_never_climbs_above_the_root() {
    assert_eq!(normal("/../../x"), "/x");
    assert_eq!(normal("/.."), "/");
    assert_eq!(normal("/"), "/");
}

#[test]
fn dot_is_dropped_and_parent_removes_the_entry_before_it() {
    assert_eq!(normal("./a/./b"), "a/b");
    assert_eq!(normal("a/b/../c"), "a/c");
    assert_eq!(normal("/a/b/../../c/"), "/c");
    assert_eq!(normal("a/.."), "");
    assert_eq!(normal("."), "");
}

#[test]
fn a_leading_parent_of_a_relative_path_is_dropped() {
    assert_eq!(normal("../a"), "a");
    assert_eq!(normal("../../a/../b"), "b");
}

#[test]
fn redundant_separators_do_not_survive() {
    assert_eq!(normal("//a///b//"), "/a/b");
}

#[test]
fn the_empty_path_normalises_to_itself() {
    assert_eq!(normal(""), "");
    assert!(normalize(&Path::new()).is_empty());
}

#[test]
fn normalising_twice_is_normalising_once() {
    for text in ["/a/../b/./c", "../x/y/..", "a//b/../../..", "/", "", "~/a/.."] {
        let once = normalize(&Path::from_text(text));
        assert_eq!(normalize(&once), once);
    }
}

#[test]
fn a_normal_path_is_left_alone() {
    for text in ["/usr/local/bin", "src/main.rs", "/", "", "~/notes"] {
        let path = Path::from_text(text);
        assert_eq!(normalize(&path), path);
        assert_eq!(normal(text), text);
    }
}

#[test]
fn without_links_the_same_input_collapses() {
    assert_eq!(normal("link/../x"), "x");
}

#[test]
fn collapse_is_normalisation_without_the_closing_pass() {
    let path = Path::from_text("/a/b/../c");
    assert_eq!(collapse(&path), normalize(&path));
    assert_eq!(collapse(&path).to_text(), "/a/c");
}

#[test]
fn a_prefix_is_kept_as_the_seed_of_the_output() {
    let path = Path::from_components(vec![
        Component::prefix("C:").unwrap(),
        Component::RootDir,
        Component::normal("Users").unwrap(),
        Component::ParentDir,
        Component::ParentDir,
        Component::normal("Temp").unwrap(),
    ])
    .unwrap();
    let out = collapse(&path);
    assert_eq!(
        out.components(),
        vec![
            Component::prefix("C:").unwrap(),
            Component::RootDir,
            Component::normal("Temp").unwrap(),
        ]
    );
    assert_eq!(out.to_backslash_text(), "C:\\Temp");
    assert_eq!(simplify(out.clone()), out);
}

#[test]
fn parent_stops_at_a_bare_prefix() {
    let path = Path::from_components(vec![
        Component::prefix("C:").unwrap(),
        Component::normal("a").unwrap(),
        Component::ParentDir,
        Component::ParentDir,
    ])
    .unwrap();
    assert_eq!(collapse(&path).components(), vec![Component::prefix("C:").unwrap()]);
}

#[test]
fn the_verbatim_marker_is_recognised() {
    assert!(opens_verbatim("\\\\?\\C:"));
    assert!(!opens_verbatim("\\\\?\\"));
    assert!(!opens_verbatim("C:"));
    assert!(!opens_verbatim("\\\\server"));
    assert!(!opens_verbatim(""));
}

#[test]
fn a_changed_text_takes_the_marker_off_the_prefix() {
    let verbatim = Path::from_components(vec![
        Component::prefix("\\\\?\\C:").unwrap(),
        Component::RootDir,
        Component::normal("Users").unwrap(),
    ])
    .unwrap();
    let text = verbatim.to_backslash_text();
    assert_eq!(text, "\\\\?\\C:\\Users");
    let kept = apply_simplified(verbatim.clone(), &text, &text);
    assert_eq!(kept, verbatim);
    let short = apply_simplified(verbatim.clone(), &text, "C:\\Users");
    assert_eq!(
        short.components(),
        vec![
            Component::prefix("C:").unwrap(),
            Component::RootDir,
            Component::normal("Users").unwrap(),
        ]
    );
}

#[test]
fn a_changed_text_leaves_a_path_without_marker_alone() {
    let path = Path::from_text("/a/b");
    assert_eq!(apply_simplified(path.clone(), "/a/b", "b"), path);
    assert_eq!(apply_simplified(Path::new(), "", "x"), Path::new());
}
