use codemap_rs::entry::Entry;
use codemap_rs::filter::{build_gitignore, can_decide, is_excluded, is_matchable, Matcher};

const ROOT: &str = "/work/project";

fn file(path: &str, content: &[u8]) -> Entry {
    Entry {
        path: path.to_string(),
        is_dir: false,
        is_file: true,
        size: Some(content.len() as u64),
        content: Some(content.to_vec()),
    }
}

fn dir(path: &str) -> Entry {
    Entry { path: path.to_string(), is_dir: true, is_file: false, size: None, content: None }
}

fn rules(text: &str) -> Matcher {
    build_gitignore(ROOT, text.as_bytes()).expect("Failed to build gitignore")
}

/// Helper to find a specific file entry in a traversal
fn find_entry<'a>(entries: &'a [Entry], name: &str) -> &'a Entry {
    entries
        .iter()
        .find(|e| e.path.rsplit('/').next().map_or(false, |f| f == name))
        .expect("File not found")
}

fn excluded(gitignore: &Matcher, entry: &Entry) -> bool {
    assert!(can_decide(entry, ROOT, gitignore));
    is_excluded(entry, ROOT, gitignore)
}

#[test]
fn test_gitignore_excludes_target() {
    let root = ROOT;

    // The content of `.gitignore`
    let ignore_file = format!("{}\n", "/target");

    // A tree with a file that should be ignored and one that should not
    let entries = vec![
        dir(root),
        file(&format!("{}/{}", root, ".gitignore"), ignore_file.as_bytes()),
        dir(&format!("{}/{}", root, "target")),
        file(&format!("{}/{}/{}", root, "target", "ignored.txt"), b"test"),
        file(&format!("{}/{}", root, "src.txt"), b"keep me"),
    ];

    let gitignore: Matcher = build_gitignore(root, ignore_file.as_bytes()).unwrap();

    let ignored_entry = find_entry(&entries, "ignored.txt");
    let included_entry = find_entry(&entries, "src.txt");

    assert!(
        is_excluded(ignored_entry, root, &gitignore),
        "target/ignored.txt should be excluded"
    );
    assert!(
        !is_excluded(included_entry, root, &gitignore),
        "src.txt should not be excluded"
    );
}

#[test]
fn anchored_rule_excludes_the_directory_itself() {
    let gitignore = rules("/target\n");
    assert!(excluded(&gitignore, &dir("/work/project/target")));
    assert!(!excluded(&gitignore, &dir("/work/project/src/target_notes")));
}

#[test]
fn vcs_directory_is_excluded_without_rules() {
    let gitignore = rules("");
    assert!(excluded(&gitignore, &dir("/work/project/.git")));
    assert!(excluded(&gitignore, &file("/work/project/.git/config", b"")));
    assert!(excluded(&gitignore, &file("/work/project/sub/.git/objects/ab/cdef", b"")));
}

#[test]
fn vcs_directory_is_excluded_against_the_rules() {
    let gitignore = rules("!.git\n!.git/**\n!/.git/config\n");
    assert!(excluded(&gitignore, &dir("/work/project/.git")));
    assert!(excluded(&gitignore, &file("/work/project/.git/config", b"")));
}

#[test]
fn names_that_only_resemble_the_vcs_directory_are_kept() {
    let gitignore = rules("");
    assert!(!excluded(&gitignore, &file("/work/project/.gitignore", b"")));
    assert!(!excluded(&gitignore, &file("/work/project/.github/workflows/ci.yml", b"")));
    assert!(!excluded(&gitignore, &file("/work/project/a.git", b"")));
    assert!(!excluded(&gitignore, &dir("/work/project/x.git/hooks")));
}

#[test]
fn vcs_component_of_the_root_itself_does_not_count() {
    let gitignore = build_gitignore("/srv/.git/tree", b"").unwrap();
    let entry = file("/srv/.git/tree/readme.md", b"");
    assert!(can_decide(&entry, "/srv/.git/tree", &gitignore));
    assert!(!is_excluded(&entry, "/srv/.git/tree", &gitignore));
}

#[test]
fn negated_pattern_reincludes() {
    let gitignore = rules("*.log\n!keep.log\n");
    assert!(excluded(&gitignore, &file("/work/project/debug.log", b"")));
    assert!(excluded(&gitignore, &file("/work/project/sub/trace.log", b"")));
    assert!(!excluded(&gitignore, &file("/work/project/keep.log", b"")));
    assert!(!excluded(&gitignore, &file("/work/project/sub/keep.log", b"")));
}

#[test]
fn later_rule_overrides_earlier_rule() {
    let gitignore = rules("!keep.log\n*.log\n");
    assert!(excluded(&gitignore, &file("/work/project/keep.log", b"")));
}

#[test]
fn directory_only_pattern_matches_directories_alone() {
    let gitignore = rules("build/\n");
    assert!(excluded(&gitignore, &dir("/work/project/build")));
    assert!(!excluded(&gitignore, &file("/work/project/build", b"")));
}

#[test]
fn excluded_directory_takes_its_subtree_along() {
    let gitignore = rules("build/\n");
    assert!(excluded(&gitignore, &file("/work/project/build/out/app.bin", b"")));
    assert!(excluded(&gitignore, &dir("/work/project/build/out")));
}

#[test]
fn comments_and_blank_lines_are_no_rules() {
    let gitignore = rules("# *.txt\n\n   \n*.tmp\n");
    assert!(!excluded(&gitignore, &file("/work/project/notes.txt", b"")));
    assert!(excluded(&gitignore, &file("/work/project/notes.tmp", b"")));
}

#[test]
fn root_itself_is_kept() {
    let gitignore = rules("*.tmp\n");
    assert!(!excluded(&gitignore, &dir(ROOT)));
}

#[test]
fn empty_rule_file_excludes_nothing_else() {
    let gitignore = rules("");
    assert!(!excluded(&gitignore, &file("/work/project/target/ignored.txt", b"")));
    assert!(!excluded(&gitignore, &dir("/work/project/target")));
}

#[test]
fn rule_lines_may_end_in_carriage_return_and_newline() {
    let gitignore = rules("*.tmp\r\n*.bak\r\n");
    assert!(excluded(&gitignore, &file("/work/project/a.tmp", b"")));
    assert!(excluded(&gitignore, &file("/work/project/a.bak", b"")));
    assert!(!excluded(&gitignore, &file("/work/project/a.txt", b"")));
}

#[test]
fn last_rule_line_needs_no_newline() {
    let gitignore = rules("*.tmp\n*.bak");
    assert!(excluded(&gitignore, &file("/work/project/a.bak", b"")));
}

#[test]
fn byte_order_mark_of_the_first_line_is_dropped() {
    let gitignore = rules("\u{feff}*.tmp\n*.bak\n");
    assert!(excluded(&gitignore, &file("/work/project/a.tmp", b"")));
    assert!(excluded(&gitignore, &file("/work/project/a.bak", b"")));
}

#[test]
fn byte_order_mark_of_a_later_line_stays() {
    let gitignore = rules("*.bak\n\u{feff}*.tmp\n");
    assert!(!excluded(&gitignore, &file("/work/project/a.tmp", b"")));
    assert!(excluded(&gitignore, &file("/work/project/a.bak", b"")));
}

#[test]
fn rule_file_is_read_up_to_its_first_line_that_is_no_text() {
    let mut bytes = b"*.tmp\n".to_vec();
    bytes.extend_from_slice(&[0xff, 0xfe, b'\n']);
    bytes.extend_from_slice(b"*.bak\n");
    let gitignore = build_gitignore(ROOT, &bytes).unwrap();
    assert!(excluded(&gitignore, &file("/work/project/a.tmp", b"")));
    assert!(!excluded(&gitignore, &file("/work/project/a.bak", b"")));
}

#[test]
fn line_that_is_no_pattern_is_passed_over() {
    let gitignore = rules("a[\\\n*.tmp\n{a,b\n*.bak\n");
    assert!(excluded(&gitignore, &file("/work/project/a.tmp", b"")));
    assert!(excluded(&gitignore, &file("/work/project/a.bak", b"")));
}

#[test]
fn path_outside_the_root_is_matched_as_it_is() {
    let gitignore = rules("*.log\n");
    let outside = file("elsewhere/trace.log", b"");
    assert!(can_decide(&outside, ROOT, &gitignore));
    assert!(is_excluded(&outside, ROOT, &gitignore));
    let kept = file("elsewhere/trace.txt", b"");
    assert!(can_decide(&kept, ROOT, &gitignore));
    assert!(!is_excluded(&kept, ROOT, &gitignore));
}

#[test]
fn path_that_shares_only_the_text_of_the_root_is_outside() {
    let gitignore = rules("/target\n");
    // `/work/projectile/target` is not under `/work/project`
    let entry = dir("/work/projectile/target");
    assert!(!can_decide(&entry, ROOT, &gitignore));
}

#[test]
fn rooted_path_outside_the_root_cannot_be_put_to_rules() {
    let gitignore = rules("*.log\n");
    assert!(!can_decide(&file("/elsewhere/trace.log", b""), ROOT, &gitignore));
    assert!(!can_decide(&file("/work/project/a//b.txt", b""), ROOT, &gitignore));
}

#[test]
fn matcher_without_rules_decides_every_path() {
    for text in ["", "# only a comment\n\n   \n"] {
        let gitignore = rules(text);
        assert!(gitignore.is_empty());
        for entry in [
            file("/elsewhere/trace.log", b""),
            file("/work/project/a//b.txt", b""),
            dir("/"),
            file("//x", b""),
        ] {
            assert!(can_decide(&entry, ROOT, &gitignore));
            assert!(!is_excluded(&entry, ROOT, &gitignore));
        }
    }
}

#[test]
fn matcher_with_a_rule_is_not_empty() {
    assert!(!rules("*.log\n").is_empty());
    assert!(!rules("# c\n!keep\n").is_empty());
}

#[test]
fn directory_without_rule_file_builds_a_matcher() {
    let built = build_gitignore(ROOT, b"");
    assert!(built.is_ok());
}

#[test]
fn root_may_start_with_the_current_directory() {
    let gitignore = build_gitignore("./project", b"/target\n*.log\n").unwrap();
    let target = dir("./project/target");
    assert!(can_decide(&target, "./project", &gitignore));
    assert!(is_excluded(&target, "./project", &gitignore));
    let kept = file("./project/src/target", b"");
    assert!(can_decide(&kept, "./project", &gitignore));
    assert!(!is_excluded(&kept, "./project", &gitignore));
}

#[test]
fn blanks_at_the_end_of_a_rule_do_not_count() {
    let gitignore = rules("*.log   \n");
    assert!(excluded(&gitignore, &file("/work/project/a.log", b"")));
}

#[test]
fn rooted_path_in_the_vcs_directory_is_decided_all_the_same() {
    let gitignore = rules("*.log\n");
    let entry = file("/elsewhere/.git/config", b"");
    assert!(can_decide(&entry, ROOT, &gitignore));
    assert!(is_excluded(&entry, ROOT, &gitignore));
}

#[test]
fn separators_after_the_root_are_skipped() {
    let gitignore = rules("/target\n");
    let entry = dir("/work/project//target");
    assert!(can_decide(&entry, ROOT, &gitignore));
    assert!(is_excluded(&entry, ROOT, &gitignore));
}

#[test]
fn matchable_paths() {
    assert!(is_matchable(""));
    assert!(is_matchable("a"));
    assert!(is_matchable("a/b/c.txt"));
    assert!(is_matchable("a/b/"));
    assert!(!is_matchable("/"));
    assert!(!is_matchable("/a"));
    assert!(!is_matchable("a//b"));
    assert!(!is_matchable("a/b//"));
}

#[test]
fn two_builds_from_the_same_rules_agree() {
    let first = rules("*.log\n!keep.log\nbuild/\n");
    let second = rules("*.log\n!keep.log\nbuild/\n");
    for entry in [
        file("/work/project/a.log", b""),
        file("/work/project/keep.log", b""),
        dir("/work/project/build"),
        file("/work/project/build", b""),
        file("/work/project/src/main.rs", b""),
    ] {
        assert_eq!(excluded(&first, &entry), excluded(&second, &entry));
    }
}

#[test]
fn rules_too_large_to_compile_fail_the_build() {
    let mut text = String::new();
    for i in 0..30000 {
        text.push_str(&format!("*a{}*b?c*[d-k]*{{x{},y,z*w}}*q/**/r*s{}*\n", i, i, i));
    }
    let built = build_gitignore(ROOT, text.as_bytes());
    let error = built.err().expect("the rules should not compile");
    assert!(!error.message.is_empty());
}
