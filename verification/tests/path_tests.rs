use codemap_rs::path::{contains_component, extension_of, strip_root};

#[test]
fn strip_root_gives_what_follows_the_root() {
    assert_eq!(strip_root("/work/project/src/main.rs", "/work/project"), Some("src/main.rs"));
    assert_eq!(strip_root("/work/project/a", "/work/project"), Some("a"));
}

#[test]
fn strip_root_of_the_root_is_empty() {
    assert_eq!(strip_root("/work/project", "/work/project"), Some(""));
    assert_eq!(strip_root("/work/project/", "/work/project"), Some(""));
}

#[test]
fn strip_root_needs_a_whole_component() {
    assert_eq!(strip_root("/work/projectile", "/work/project"), None);
    assert_eq!(strip_root("/work/project.old/a", "/work/project"), None);
}

#[test]
fn strip_root_of_a_path_elsewhere_is_none() {
    assert_eq!(strip_root("/other/place", "/work/project"), None);
    assert_eq!(strip_root("/work", "/work/project"), None);
    assert_eq!(strip_root("", "/work/project"), None);
}

#[test]
fn strip_root_skips_all_separators_after_the_root() {
    assert_eq!(strip_root("/work/project///a/b", "/work/project"), Some("a/b"));
}

#[test]
fn strip_root_with_a_root_that_ends_in_a_separator() {
    assert_eq!(strip_root("/a/b", "/"), Some("a/b"));
    assert_eq!(strip_root("/work/project/a", "/work/project/"), Some("a"));
}

#[test]
fn strip_root_with_an_empty_root() {
    assert_eq!(strip_root("a/b", ""), Some("a/b"));
    assert_eq!(strip_root("/a/b", ""), Some("a/b"));
}

#[test]
fn strip_root_counts_characters_not_bytes() {
    assert_eq!(strip_root("/wörk/prøject/übung/ä.txt", "/wörk/prøject"), Some("übung/ä.txt"));
}

#[test]
fn component_is_found_at_start_middle_and_end() {
    assert!(contains_component(".git", ".git"));
    assert!(contains_component(".git/config", ".git"));
    assert!(contains_component("a/.git/config", ".git"));
    assert!(contains_component("a/b/.git", ".git"));
    assert!(contains_component("/.git/", ".git"));
}

#[test]
fn component_must_match_whole() {
    assert!(!contains_component(".gitignore", ".git"));
    assert!(!contains_component("a/.github/b", ".git"));
    assert!(!contains_component("a/x.git/b", ".git"));
    assert!(!contains_component("a/.gi/t", ".git"));
    assert!(!contains_component("", ".git"));
    assert!(!contains_component("git", ".git"));
}

#[test]
fn extension_is_what_follows_the_last_dot() {
    assert_eq!(extension_of("/a/b/main.rs"), Some("rs"));
    assert_eq!(extension_of("archive.tar.gz"), Some("gz"));
    assert_eq!(extension_of("/a.b/c.TXT"), Some("TXT"));
    assert_eq!(extension_of(".config.toml"), Some("toml"));
}

#[test]
fn extension_may_be_empty() {
    assert_eq!(extension_of("/a/name."), Some(""));
}

#[test]
fn names_without_extension() {
    assert_eq!(extension_of("/a/b/Makefile"), None);
    assert_eq!(extension_of("/a.b/Makefile"), None);
    assert_eq!(extension_of("/a/.gitignore"), None);
    assert_eq!(extension_of(".."), None);
    assert_eq!(extension_of("/a/.."), None);
    assert_eq!(extension_of("."), None);
    assert_eq!(extension_of(""), None);
    assert_eq!(extension_of("/a/b.c/"), None);
}
