use tidy_path::component::Component;
use tidy_path::path::Path;

fn parts(text: &str) -> Vec<Component> {
    Path::from_text(text).components()
}

fn name(text: &str) -> Component {
    Component::normal(text).unwrap()
}

#[test]
fn reads_an_absolute_path() {
    assert_eq!(parts("/usr/lib"), vec![Component::RootDir, name("usr"), name("lib")]);
}

#[test]
fn reads_a_relative_path() {
    assert_eq!(parts("a/b"), vec![name("a"), name("b")]);
}

#[test]
fn reads_nothing_from_the_empty_text() {
    assert_eq!(parts(""), vec![]);
    assert!(Path::from_text("").is_empty());
    assert_eq!(Path::from_text("").len(), 0);
}

#[test]
fn a_dot_counts_only_at_the_very_beginning() {
    assert_eq!(parts("./a"), vec![Component::CurDir, name("a")]);
    assert_eq!(parts("a/./b"), vec![name("a"), name("b")]);
    assert_eq!(parts("/./a"), vec![Component::RootDir, name("a")]);
    assert_eq!(parts("a/."), vec![name("a")]);
    assert_eq!(parts("."), vec![Component::CurDir]);
}

#[test]
fn parents_are_kept_where_they_stand() {
    assert_eq!(parts("../a/.."), vec![Component::ParentDir, name("a"), Component::ParentDir]);
}

#[test]
fn repeated_and_trailing_separators_count_for_nothing() {
    assert_eq!(parts("//a///b/"), vec![Component::RootDir, name("a"), name("b")]);
    assert_eq!(parts("/"), vec![Component::RootDir]);
    assert_eq!(parts("///"), vec![Component::RootDir]);
}

#[test]
fn names_may_hold_dots_and_other_scripts() {
    assert_eq!(parts("...//.a/b..c"), vec![name("..."), name(".a"), name("b..c")]);
    assert_eq!(parts("/日本語/ä"), vec![Component::RootDir, name("日本語"), name("ä")]);
}

#[test]
fn writes_what_it_read() {
    for text in ["/usr/lib", "a/b", "", "/", "./a", "../a/..", "~/x", "/日本語/ä"] {
        assert_eq!(Path::from_text(text).to_text(), text);
    }
}

#[test]
fn writes_without_what_counted_for_nothing() {
    assert_eq!(Path::from_text("//a///b/").to_text(), "/a/b");
    assert_eq!(Path::from_text("a/./b/.").to_text(), "a/b");
}

#[test]
fn writes_no_separator_behind_a_prefix() {
    let relative = Path::from_components(vec![Component::prefix("C:").unwrap(), name("a")]).unwrap();
    assert_eq!(relative.to_backslash_text(), "C:a");
    assert_eq!(relative.to_text(), "C:a");
    let rooted = Path::from_components(vec![
        Component::prefix("C:").unwrap(),
        Component::RootDir,
        name("a"),
        name("b"),
    ])
    .unwrap();
    assert_eq!(rooted.to_backslash_text(), "C:\\a\\b");
    assert_eq!(rooted.to_text(), "C:/a/b");
}

#[test]
fn a_name_must_be_fit_for_an_entry() {
    assert!(Component::normal("a").is_some());
    assert!(Component::normal("").is_none());
    assert!(Component::normal(".").is_none());
    assert!(Component::normal("..").is_none());
    assert!(Component::normal("a/b").is_none());
    assert!(Component::normal("...").is_some());
}

#[test]
fn a_prefix_must_be_fit_for_one() {
    assert!(Component::prefix("C:").is_some());
    assert!(Component::prefix("").is_none());
    assert!(Component::prefix("a/b").is_none());
}

#[test]
fn components_know_their_text_and_their_like() {
    assert_eq!(Component::RootDir.text(), "/");
    assert_eq!(Component::CurDir.text(), ".");
    assert_eq!(Component::ParentDir.text(), "..");
    assert_eq!(name("a").text(), "a");
    assert!(name("a").same(&name("a")));
    assert!(!name("a").same(&name("b")));
    assert!(!name("C:").same(&Component::prefix("C:").unwrap()));
    assert!(Component::RootDir.same(&Component::RootDir));
    assert!(Component::Normal(String::from("a/b")).is_valid() == false);
}

#[test]
fn only_well_formed_lists_make_a_path() {
    assert!(Path::from_components(vec![name("a"), Component::RootDir]).is_none());
    assert!(Path::from_components(vec![name("a"), Component::prefix("C:").unwrap()]).is_none());
    assert!(Path::from_components(vec![Component::Normal(String::from(".."))]).is_none());
    assert!(Path::from_components(vec![Component::Normal(String::new())]).is_none());
    assert!(Path::from_components(vec![Component::RootDir, Component::RootDir]).is_none());
    assert!(Path::from_components(vec![
        Component::prefix("C:").unwrap(),
        Component::RootDir,
        Component::CurDir,
        name("a"),
    ])
    .is_some());
    assert!(Path::from_components(vec![]).is_some());
}

#[test]
fn joining_follows_the_second_path_where_it_is_anchored() {
    let base = Path::from_text("/a/b");
    assert_eq!(base.join(&Path::from_text("c/d")).to_text(), "/a/b/c/d");
    assert_eq!(base.join(&Path::from_text("/c")).to_text(), "/c");
    assert_eq!(base.join(&Path::new()), base);
    let volume = Path::from_components(vec![Component::prefix("C:").unwrap(), Component::RootDir, name("a")])
        .unwrap();
    assert_eq!(volume.join(&Path::from_text("/x")).to_backslash_text(), "C:\\x");
    let other = Path::from_components(vec![Component::prefix("D:").unwrap(), name("y")]).unwrap();
    assert_eq!(volume.join(&other), other);
}

#[test]
fn stripping_compares_whole_components() {
    let path = Path::from_text("/home/alice/x");
    assert_eq!(path.strip_prefix(&Path::from_text("/home/alice")), Some(Path::from_text("x")));
    assert_eq!(path.strip_prefix(&Path::from_text("/home/al")), None);
    assert_eq!(path.strip_prefix(&Path::new()), Some(path.clone()));
    assert_eq!(path.strip_prefix(&path), Some(Path::new()));
    assert!(path.starts_with(&Path::from_text("/home")));
    assert!(!path.starts_with(&Path::from_text("home")));
    assert!(!Path::from_text("/home").starts_with(&path));
}

#[test]
fn parent_and_file_name_split_a_path() {
    let path = Path::from_text("/a/b.txt");
    assert_eq!(path.parent(), Some(Path::from_text("/a")));
    assert_eq!(path.file_name(), Some(String::from("b.txt")));
    assert_eq!(Path::from_text("/").parent(), None);
    assert_eq!(Path::from_text("/").file_name(), None);
    assert_eq!(Path::new().parent(), None);
    assert_eq!(Path::from_text("a/..").file_name(), None);
    assert_eq!(Path::from_text("a/..").parent(), Some(Path::from_text("a")));
}

#[test]
fn a_path_is_absolute_where_it_has_a_root() {
    assert!(Path::from_text("/a").is_absolute());
    assert!(!Path::from_text("a").is_absolute());
    assert!(!Path::new().is_absolute());
    let drive = Path::from_components(vec![Component::prefix("C:").unwrap(), name("a")]).unwrap();
    assert!(!drive.is_absolute());
    let rooted =
        Path::from_components(vec![Component::prefix("C:").unwrap(), Component::RootDir]).unwrap();
    assert!(rooted.is_absolute());
}

#[test]
fn a_copy_equals_its_source() {
    let path = Path::from_text("/a/b");
    path.know_well_formed();
    assert_eq!(path.clone(), path);
    assert_eq!(name("a").clone(), name("a"));
}
