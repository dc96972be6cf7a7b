use tidy_path::home::home_dir;
use tidy_path::path::Path;
use tidy_path::resolve::{
    canonicalize, canonicalize_with, get_canonicalized_path, get_relative_path,
    get_relative_path_with, relative_from,
};

fn relative(text: &str, cwd: &str, home: Option<&str>) -> String {
    let home = home.map(Path::from_text);
    get_relative_path_with(&Path::from_text(text), &Path::from_text(cwd), home.as_ref()).to_text()
}

fn canonical(text: &str, cwd: &str, home: Option<&str>) -> String {
    let home = home.map(Path::from_text);
    canonicalize_with(&Path::from_text(text), &Path::from_text(cwd), home.as_ref()).to_text()
}

#[test]
fn strips_the_working_directory() {
    assert_eq!(
        relative("/home/alice/project/src/main.ext", "/home/alice/project", Some("/home/alice")),
        "src/main.ext"
    );
    assert_eq!(
        relative("/home/alice/project/src/main.ext", "/home/alice/project", None),
        "src/main.ext"
    );
}

#[test]
fn leaves_an_unrelated_path_and_folds_it() {
    assert_eq!(relative("/etc/hosts", "/home/alice/project", Some("/home/alice")), "/etc/hosts");
    assert_eq!(relative("/etc/hosts", "/home/alice/project", None), "/etc/hosts");
    assert_eq!(
        relative("/home/alice/notes/a.txt", "/home/alice/project", Some("/home/alice")),
        "~/notes/a.txt"
    );
}

#[test]
fn an_unrelated_path_is_not_normalised() {
    assert_eq!(relative("/etc/../etc/hosts", "/work", None), "/etc/../etc/hosts");
}

#[test]
fn normalises_before_it_strips() {
    assert_eq!(relative("/work/a/../b/c", "/work/./x/..", None), "b/c");
    assert_eq!(relative("/work", "/work", None), "");
}

#[test]
fn leaves_a_relative_path_alone() {
    assert_eq!(relative("src/../main.ext", "/work", Some("/home/alice")), "src/../main.ext");
    assert_eq!(relative("", "/work", None), "");
}

#[test]
fn the_relative_form_follows_from_the_normal_forms() {
    let path = Path::from_text("/work/a/../b");
    let out = relative_from(&path, &Path::from_text("/work/b"), &Path::from_text("/work"), None);
    assert_eq!(out.to_text(), "b");
    let out = relative_from(&path, &Path::from_text("/work/b"), &Path::from_text("/other"), None);
    assert_eq!(out, path);
}

#[test]
fn canonical_form_of_a_relative_path_hangs_under_the_working_directory() {
    assert_eq!(canonical("src/../main.ext", "/work", None), "/work/main.ext");
    assert_eq!(canonical("", "/work", None), "/work");
    assert_eq!(canonical("../../..", "/work/a", None), "/");
}

#[test]
fn canonical_form_of_an_absolute_path_ignores_the_working_directory() {
    assert_eq!(canonical("/etc/./hosts", "/work", None), "/etc/hosts");
}

#[test]
fn canonical_form_expands_the_tilde_first() {
    assert_eq!(canonical("~/a/../b", "/work", Some("/home/alice")), "/home/alice/b");
    assert_eq!(canonical("~/a", "/work", None), "/work/~/a");
}

#[test]
fn the_lookups_agree_with_the_explicit_forms() {
    let home = home_dir();
    let cwd = Path::from_text("/work");
    for text in ["a/b", "/etc/hosts", "~/x", "/work/y"] {
        let path = Path::from_text(text);
        assert_eq!(canonicalize(&path, &cwd), canonicalize_with(&path, &cwd, home.as_ref()));
        assert_eq!(get_canonicalized_path(&path, &cwd), canonicalize(&path, &cwd));
        assert_eq!(
            get_relative_path(&path, &cwd),
            get_relative_path_with(&path, &cwd, home.as_ref())
        );
    }
}
