use senatorial_notes::ident::Uuid;
use senatorial_notes::paths::{
    components_of, encrypted_note_filename, ensure_relative_note_path, extension_of, file_name_of,
    join_path, note_filename, paths_equal, sanitize_title, stands_right_in, starts_with_path,
    validate_notebook_name, validate_notebook_path,
};
use senatorial_notes::storage::temporary_sibling;
use senatorial_notes::vault::parent_of;
use senatorial_notes::Error;

fn id() -> Uuid {
    Uuid::from_u128(0x12345678_9abc_def0_1234_56789abcdef0)
}

#[test]
fn titles_become_file_names() {
    assert_eq!(sanitize_title("Weekly Plan"), "weekly-plan");
    assert_eq!(sanitize_title("  --Über & Unter--  "), "über-unter");
    assert_eq!(sanitize_title("../etc/passwd"), "etc-passwd");
    assert_eq!(sanitize_title("***"), "untitled");
    assert_eq!(sanitize_title(&"x".repeat(200)).chars().count(), 80);
}

#[test]
fn file_names_carry_the_start_of_the_identifier() {
    assert_eq!(note_filename("My Note", id()), "my-note--12345678.md");
    assert_eq!(encrypted_note_filename(id()), "encrypted--12345678.snote");
}

#[test]
fn notebook_paths_stay_below_the_notes() {
    assert!(validate_notebook_path("Work/Projects").is_ok());
    for bad in ["", "/abs", "../up", "a/../b", "./a", ".."] {
        assert!(
            matches!(validate_notebook_path(bad), Err(Error::InvalidPath(path)) if path == bad),
            "{bad:?} must be refused"
        );
    }
}

#[test]
fn notebook_names_are_one_component() {
    assert_eq!(validate_notebook_name("  Work ").unwrap(), "Work");
    for bad in ["", "   ", ".", "..", "a/b", "a\\b"] {
        assert!(matches!(
            validate_notebook_name(bad),
            Err(Error::InvalidPath(_))
        ));
    }
}

#[test]
fn note_paths_need_a_known_extension() {
    assert!(ensure_relative_note_path("Inbox/a.md").is_ok());
    assert!(ensure_relative_note_path("Inbox/a.snote").is_ok());
    assert!(ensure_relative_note_path("Inbox/a.txt").is_err());
    assert!(ensure_relative_note_path("Inbox/.md").is_err());
    assert!(ensure_relative_note_path("/Inbox/a.md").is_err());
}

#[test]
fn components_are_split_as_the_standard_library_does() {
    for path in ["a/b", "a//b/", "/a/./b", "./a", "a/.", "/", "", "..", "a/../b", "//x"] {
        let expected: Vec<String> = std::path::Path::new(path)
            .components()
            .map(|part| part.as_os_str().to_str().unwrap().to_string())
            .collect();
        assert_eq!(components_of(path), expected, "{path:?}");
        let name = std::path::Path::new(path)
            .file_name()
            .map(|name| name.to_str().unwrap().to_string());
        assert_eq!(file_name_of(path), name, "{path:?}");
    }
}

#[test]
fn parents_are_those_of_the_standard_library() {
    for path in ["a/b", "a//b/", "a/./b", "/a", "/a/b/.", "./a", "a", "x//y//z"] {
        let expected = std::path::Path::new(path).parent().unwrap();
        assert_eq!(parent_of(path), expected.to_str().unwrap(), "{path:?}");
    }
}

#[test]
fn extensions_are_those_of_the_standard_library() {
    for name in ["a.md", ".md", "a.b.c", "a.", "a", "..x", "a..b"] {
        let expected = std::path::Path::new(name)
            .extension()
            .map(|found| found.to_str().unwrap().to_string());
        assert_eq!(extension_of(name), expected, "{name:?}");
    }
}

#[test]
fn paths_are_compared_by_components() {
    assert!(paths_equal("a//b/", "a/b"));
    assert!(!paths_equal("/a", "a"));
    assert!(starts_with_path("a/b/c", "a/b"));
    assert!(!starts_with_path("a/bc", "a/b"));
    assert!(stands_right_in("Inbox/a.md", "Inbox"));
    assert!(!stands_right_in("Inbox/Sub/a.md", "Inbox"));
    assert_eq!(join_path("a", "b"), "a/b");
    assert_eq!(join_path("a/", "b"), "a/b");
    assert_eq!(join_path("a", "/b"), "/b");
    assert_eq!(join_path("", "b"), "b");
}

#[test]
fn a_file_is_written_beside_the_one_it_replaces() {
    assert_eq!(
        temporary_sibling("/v/Notes/a.md", id()).unwrap(),
        format!("/v/Notes/.a.md.{}.tmp", id().simple())
    );
    assert!(matches!(temporary_sibling("/", id()), Err(Error::InvalidPath(text)) if text == "/ has no parent"));
    assert!(matches!(temporary_sibling("a/..", id()), Err(Error::InvalidPath(text)) if text == "a/.. has no valid filename"));
}
