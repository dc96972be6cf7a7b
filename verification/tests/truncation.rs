use tidy_path::path::Path;
use tidy_path::truncate::{get_truncated_path, truncate};

fn shown(text: &str, cwd: &str) -> String {
    get_truncated_path(&Path::from_text(text), &Path::from_text(cwd)).to_text()
}

#[test]
fn truncates_every_directory_to_its_first_character() {
    assert_eq!(shown("/home/cnorris/documents/jokes.txt", "/work"), "/h/c/d/jokes.txt");
}

#[test]
fn a_bare_file_name_is_left_alone() {
    assert_eq!(shown("jokes.txt", "/work"), "jokes.txt");
}

#[test]
fn a_file_under_the_root_is_left_alone() {
    assert_eq!(shown("/jokes.txt", "/work"), "/jokes.txt");
}

#[test]
fn the_empty_path_stays_empty() {
    assert_eq!(shown("", "/work"), "");
    assert!(get_truncated_path(&Path::new(), &Path::from_text("/work")).is_empty());
}

#[test]
fn a_truncated_path_is_a_fixed_point() {
    assert_eq!(shown("/h/c/d/jokes.txt", "/work"), "/h/c/d/jokes.txt");
    let once = truncate(&Path::from_text("/home/cnorris/documents/jokes.txt"));
    assert_eq!(truncate(&once), once);
}

#[test]
fn the_working_directory_is_stripped_first() {
    assert_eq!(shown("/work/source/deep/main.rs", "/work"), "s/d/main.rs");
    assert_eq!(shown("/work/main.rs", "/work"), "main.rs");
    assert_eq!(shown("/work", "/work"), "");
}

#[test]
fn the_first_character_is_a_scalar_not_a_byte() {
    assert_eq!(shown("/äpfel/日本語/übung.txt", "/work"), "/ä/日/übung.txt");
}

#[test]
fn relative_directories_are_truncated_too() {
    assert_eq!(shown("alpha/beta/gamma.txt", "/work"), "a/b/gamma.txt");
}

#[test]
fn dots_at_the_front_of_a_directory_show_as_a_dot() {
    assert_eq!(shown("/home/.config/init.el", "/work"), "/h/./init.el");
    assert_eq!(shown("../up/file", "/work"), "./u/file");
}

#[test]
fn a_path_that_ends_in_no_entry_has_no_file_name() {
    assert_eq!(shown("/", "/work"), "");
    assert_eq!(shown("alpha/beta/..", "/work"), "a/b");
}
