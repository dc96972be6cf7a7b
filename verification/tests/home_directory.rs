use tidy_path::home::{
    expand_tilde, expand_tilde_with, fold_home_dir, fold_home_dir_with, home_dir, tilde_path,
};
use tidy_path::path::Path;

fn fold(text: &str, home: &str) -> String {
    fold_home_dir_with(&Path::from_text(text), Some(&Path::from_text(home))).to_text()
}

fn expand(text: &str, home: &str) -> String {
    expand_tilde_with(&Path::from_text(text), Some(&Path::from_text(home))).to_text()
}

#[test]
fn folds_the_home_directory_into_a_tilde() {
    assert_eq!(fold("/home/alice/notes/a.txt", "/home/alice"), "~/notes/a.txt");
    assert_eq!(fold("/home/alice", "/home/alice"), "~");
}

#[test]
fn folds_nothing_outside_the_home_directory() {
    assert_eq!(fold("/etc/hosts", "/home/alice"), "/etc/hosts");
    assert_eq!(fold("/home/alicia/x", "/home/alice"), "/home/alicia/x");
    assert_eq!(fold("notes", "/home/alice"), "notes");
}

#[test]
fn folds_nothing_without_a_home_directory() {
    let path = Path::from_text("/home/alice/x");
    assert_eq!(fold_home_dir_with(&path, None), path);
}

#[test]
fn expands_a_leading_tilde() {
    assert_eq!(expand("~/notes/a.txt", "/home/alice"), "/home/alice/notes/a.txt");
    assert_eq!(expand("~", "/home/alice"), "/home/alice");
}

#[test]
fn expands_no_tilde_elsewhere() {
    assert_eq!(expand("~alice/x", "/home/alice"), "~alice/x");
    assert_eq!(expand("a/~/x", "/home/alice"), "a/~/x");
    assert_eq!(expand("/~", "/home/alice"), "/~");
    assert_eq!(expand("~~", "/home/alice"), "~~");
    assert_eq!(expand("", "/home/alice"), "");
}

#[test]
fn expands_nothing_without_a_home_directory() {
    let path = Path::from_text("~/x");
    assert_eq!(expand_tilde_with(&path, None), path);
}

#[test]
fn folding_and_expanding_undo_each_other() {
    let home = Path::from_text("/home/alice");
    for text in ["/home/alice", "/home/alice/a", "/home/alice/a/../b"] {
        let path = Path::from_text(text);
        let folded = fold_home_dir_with(&path, Some(&home));
        assert_eq!(expand_tilde_with(&folded, Some(&home)), path);
    }
    for text in ["~", "~/a", "~/a/b/.."] {
        let path = Path::from_text(text);
        let expanded = expand_tilde_with(&path, Some(&home));
        assert_eq!(fold_home_dir_with(&expanded, Some(&home)), path);
    }
}

#[test]
fn the_tilde_path_is_one_entry() {
    assert_eq!(tilde_path().to_text(), "~");
    assert_eq!(tilde_path().len(), 1);
}

#[test]
fn the_looked_up_home_directory_is_used() {
    let path = Path::from_text("~/x");
    let inside = Path::from_text("x");
    match home_dir() {
        Some(home) => {
            assert_eq!(expand_tilde(&path), home.join(&inside));
            if home.is_absolute() {
                assert_eq!(fold_home_dir(&home.join(&inside)), path);
            }
        }
        None => {
            assert_eq!(expand_tilde(&path), path);
            assert_eq!(fold_home_dir(&path), path);
        }
    }
    assert_eq!(expand_tilde(&inside), inside);
}

#[test]
fn the_looked_up_home_directory_reads_back_from_its_text() {
    if let Some(home) = home_dir() {
        assert_eq!(Path::from_text(&home.to_text()), home);
        assert!(home
            .components()
            .iter()
            .all(|component| !matches!(component, tidy_path::component::Component::Prefix(_))));
    }
}
