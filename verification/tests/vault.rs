use senatorial_notes::ident::Uuid;
use senatorial_notes::model::Timestamp;
use senatorial_notes::vault::{
    check_password_policy, check_trash_record, component_paths, names_trash_record,
    normalized_title, note_file, place_new_note, plan_decryption, plan_encryption, plan_title,
    refuse_existing, reject_symlink_components, require_encrypted, require_plain,
    restore_fallback, sort_trash, target_is_taken, verify_stamp, ComponentState, FolderListing,
    MoveFacts, NoteFile, NoteMove, NotebookRename,
};
use senatorial_notes::{Error, FileStamp, NotebookEntry, TrashEntry, Vault};

fn id() -> Uuid {
    Uuid::from_u128(0x12345678_9abc_def0_1234_56789abcdef0)
}

fn at(seconds: i64) -> Timestamp {
    Timestamp { seconds, nanos: 0 }
}

fn present(count: usize) -> Vec<ComponentState> {
    (0..count).map(|_| ComponentState::Present).collect()
}

fn folder(path: &str, files: &[&str], has_others: bool) -> FolderListing {
    FolderListing {
        relative_path: path.to_string(),
        files: files.iter().map(|name| name.to_string()).collect(),
        has_others,
    }
}

#[test]
fn a_vault_has_its_directories() {
    let vault = Vault::at("/v");
    assert_eq!(vault.root(), "/v");
    assert_eq!(vault.notes_dir(), "/v/Notes");
    assert_eq!(vault.trash_dir(), "/v/Trash");
    assert_eq!(vault.state_dir(), "/v/.senatorial-notes");
    assert!(vault
        .initial_directories()
        .contains(&"/v/Notes/Inbox".to_string()));
    assert_eq!(
        vault.trashed_note_path(id(), true),
        format!("/v/Trash/{}.snote", id().hyphenated())
    );
    assert!(Vault::open("/v", true).is_ok());
    assert!(matches!(Vault::open("/v", false), Err(Error::InvalidPath(_))));
}

#[test]
fn links_are_refused_on_the_way_to_a_note() {
    let vault = Vault::at("/v");
    assert_eq!(
        vault.note_path("Inbox/a.md", &present(2)).unwrap(),
        "/v/Notes/Inbox/a.md"
    );
    let linked = vec![ComponentState::Symlink, ComponentState::Present];
    assert!(matches!(
        vault.note_path("Inbox/a.md", &linked),
        Err(Error::InvalidPath(_))
    ));
    let missing = vec![ComponentState::Missing, ComponentState::Symlink];
    assert!(vault.note_path("Inbox/a.md", &missing).is_ok());
    let failed = vec![ComponentState::Failed("denied".to_string()), ComponentState::Present];
    assert!(matches!(
        reject_symlink_components("/v/Notes", "Inbox/a.md", &failed),
        Err(Error::Io { path, source }) if path == "/v/Notes/Inbox" && source == "denied"
    ));
    assert_eq!(
        component_paths("/v/Notes", "a/b"),
        vec!["/v/Notes/a", "/v/Notes/a/b"]
    );
}

#[test]
fn the_reserved_notebook_is_neither_renamed_nor_deleted() {
    let vault = Vault::at("/v");
    assert!(Vault::is_reserved_notebook("Inbox"));
    assert!(Vault::is_reserved_notebook("Inbox/"));
    assert!(!Vault::is_reserved_notebook("Inbox/Sub"));
    assert!(matches!(
        vault.rename_notebook("Inbox", "Other", &present(1), true),
        Err(Error::ReservedNotebook { .. })
    ));
    assert!(matches!(
        vault.rename_notebook("Work", "Inbox", &present(1), true),
        Err(Error::ReservedNotebook { relative_path }) if relative_path == "Inbox"
    ));
    assert!(matches!(
        vault.delete_notebook("Inbox", &present(1), true, &[]),
        Err(Error::ReservedNotebook { .. })
    ));
}

#[test]
fn a_notebook_is_renamed_where_it_is() {
    let vault = Vault::at("/v");
    assert_eq!(
        vault.rename_notebook("Work/Old", " New ", &present(2), true).unwrap(),
        NotebookRename::Move {
            from: "/v/Notes/Work/Old".to_string(),
            to: "/v/Notes/Work/New".to_string(),
            next_relative: "Work/New".to_string(),
        }
    );
    assert_eq!(
        vault.rename_notebook("Work", "Work", &present(1), true).unwrap(),
        NotebookRename::Unchanged
    );
    assert!(matches!(
        vault.rename_notebook("Work", "a/b", &present(1), true),
        Err(Error::InvalidPath(_))
    ));
    assert!(matches!(
        vault.rename_notebook("Work", "New", &present(1), false),
        Err(Error::InvalidPath(text)) if text == "notebook not found: /v/Notes/Work"
    ));
}

#[test]
fn only_empty_notebooks_are_deleted() {
    let vault = Vault::at("/v");
    let with_notes = vec![folder("Work", &["a.md", "b.snote"], false)];
    assert!(matches!(
        vault.delete_notebook("Work", &present(1), true, &with_notes),
        Err(Error::NotebookNotEmpty { note_count: 2, .. })
    ));
    let with_file = vec![folder("Work", &["photo.png"], false)];
    assert!(matches!(
        vault.delete_notebook("Work", &present(1), true, &with_file),
        Err(Error::NotebookHasUnmanagedContent { .. })
    ));
    let with_link = vec![folder("Work", &[], false), folder("Work/Sub", &[], true)];
    assert!(matches!(
        vault.delete_notebook("Work", &present(1), true, &with_link),
        Err(Error::NotebookHasUnmanagedContent { .. })
    ));
    let empty = vec![folder("Work", &[], false), folder("Work/Sub", &[], false)];
    assert_eq!(
        vault.delete_notebook("Work", &present(1), true, &empty).unwrap(),
        "/v/Notes/Work"
    );
}

#[test]
fn notebooks_are_listed_in_order_with_their_own_notes() {
    let vault = Vault::at("/v");
    let listing = vec![
        folder("", &["stray.md"], false),
        folder("Work", &["a.md", "x.txt"], false),
        folder("Inbox", &[], false),
        folder("Work/Sub", &["b.snote", "c.md"], false),
    ];
    let entry = |path: &str, count: usize| NotebookEntry {
        relative_path: path.to_string(),
        direct_note_count: count,
    };
    assert_eq!(
        vault.list_notebooks(&listing),
        vec![entry("Inbox", 0), entry("Work", 1), entry("Work/Sub", 2)]
    );
}

#[test]
fn a_note_moves_into_a_notebook() {
    let vault = Vault::at("/v");
    let facts = MoveFacts {
        source: present(2),
        notebook: present(1),
        target: present(2),
        is_file: true,
    };
    assert_eq!(
        vault.move_note("Inbox/a.md", "Work", &facts).unwrap(),
        NoteMove::Move {
            from: "/v/Notes/Inbox/a.md".to_string(),
            to: "/v/Notes/Work/a.md".to_string(),
            next_relative: "Work/a.md".to_string(),
        }
    );
    assert_eq!(
        vault.move_note("Inbox/a.md", "Inbox", &facts).unwrap(),
        NoteMove::Unchanged
    );
    let missing = MoveFacts {
        source: present(2),
        notebook: present(1),
        target: present(2),
        is_file: false,
    };
    assert!(matches!(
        vault.move_note("Inbox/a.md", "Work", &missing),
        Err(Error::NoteNotFound(path)) if path == "/v/Notes/Inbox/a.md"
    ));
}

#[test]
fn titles_decide_on_file_names() {
    assert_eq!(normalized_title("  A  "), "A");
    assert_eq!(normalized_title("   "), "Untitled");
    assert_eq!(
        place_new_note("Work", "My Note", id()),
        "Work/my-note--12345678.md"
    );
    let commit = plan_title("Work/my-note--12345678.md", id(), " New Title ").unwrap();
    assert_eq!(commit.title, "New Title");
    assert_eq!(commit.next_relative, "Work/new-title--12345678.md");
    assert!(commit.renames);
    let same = plan_title("Work/my-note--12345678.md", id(), "my note").unwrap();
    assert!(!same.renames);
    assert!(matches!(
        plan_title("Work/encrypted--12345678.snote", id(), "x"),
        Err(Error::WrongNoteType)
    ));
}

#[test]
fn encryption_hides_the_title_and_decryption_brings_it_back() {
    assert_eq!(
        plan_encryption("Work/a.md", id(), "long enough password").unwrap(),
        "Work/encrypted--12345678.snote"
    );
    assert!(matches!(
        plan_encryption("Work/a.md", id(), "short"),
        Err(Error::WeakPassword(_))
    ));
    assert!(matches!(
        plan_encryption("Work/a.snote", id(), "long enough password"),
        Err(Error::WrongNoteType)
    ));
    assert_eq!(
        plan_decryption("Work/encrypted--12345678.snote", id(), "My Note").unwrap(),
        "Work/my-note--12345678.md"
    );
    assert!(plan_decryption("Work/a.md", id(), "My Note").is_err());
}

#[test]
fn passwords_have_a_least_length() {
    assert!(check_password_policy("éééééééééééé").is_ok());
    assert!(matches!(
        check_password_policy("eleven char"),
        Err(Error::WeakPassword(text)) if text == "SenatorialNotes requires at least 12 characters"
    ));
}

#[test]
fn a_changed_file_is_not_overwritten() {
    let stamp = FileStamp { modified: at(1), length: 5, fingerprint: 9 };
    let other = FileStamp { modified: at(1), length: 5, fingerprint: 8 };
    assert!(verify_stamp("a.md", None, stamp).is_ok());
    assert!(verify_stamp("a.md", Some(stamp), stamp).is_ok());
    assert!(matches!(
        verify_stamp("a.md", Some(stamp), other),
        Err(Error::ExternalModification(path)) if path == "a.md"
    ));
    assert!(stamp.metadata_matches(Some((at(1), 5))));
    assert!(!stamp.metadata_matches(Some((at(2), 5))));
    assert!(!stamp.metadata_matches(None));
    assert!(matches!(refuse_existing("x", true), Err(Error::AlreadyExists(_))));
    assert!(refuse_existing("x", false).is_ok());
    assert!(require_plain("a.md").is_ok() && require_plain("a.snote").is_err());
    assert!(require_encrypted("a.snote").is_ok() && require_encrypted("a.md").is_err());
}

#[test]
fn a_thrown_away_note_can_come_back() {
    let vault = Vault::at("/v");
    let moved = vault
        .move_to_trash("Inbox/a.md", &present(2), id(), "Title", at(3), false)
        .unwrap();
    assert_eq!(moved.from, "/v/Notes/Inbox/a.md");
    assert_eq!(moved.entry.title, "Title");
    assert!(!moved.entry.encrypted);
    let secret = vault
        .move_to_trash("Inbox/a.snote", &present(2), id(), "Title", at(3), false)
        .unwrap();
    assert_eq!(secret.entry.title, "Locked Note");
    assert!(matches!(
        vault.move_to_trash("Inbox/a.md", &present(2), id(), "Title", at(3), true),
        Err(Error::AlreadyExists(_))
    ));
    assert_eq!(
        vault
            .restore_from_trash(id(), false, "Inbox/a.md", "Title", false, false)
            .unwrap(),
        "Inbox/a.md"
    );
    assert_eq!(
        vault
            .restore_from_trash(id(), false, "Inbox/a.md", "Title", true, false)
            .unwrap(),
        "Inbox/title--12345678.md"
    );
    assert!(matches!(
        vault.restore_from_trash(id(), true, "Inbox/a.snote", "", true, true),
        Err(Error::AlreadyExists(path)) if path == "/v/Notes/Inbox/encrypted--12345678.snote"
    ));
    assert_eq!(
        restore_fallback(id(), true, ""),
        "Inbox/encrypted--12345678.snote"
    );
}

fn entry(number: u128, seconds: i64) -> TrashEntry {
    TrashEntry {
        id: Uuid::from_u128(number),
        title: format!("n{number}"),
        encrypted: false,
        original_relative_path: "Inbox/a.md".to_string(),
        trashed_at: at(seconds),
    }
}

#[test]
fn the_trash_lists_the_latest_first() {
    let mut entries = vec![entry(1, 5), entry(2, 9), entry(3, 5)];
    sort_trash(&mut entries);
    assert_eq!(
        entries.iter().map(|entry| entry.id.value).collect::<Vec<_>>(),
        vec![2, 1, 3]
    );
    assert_eq!(entries[0].copy(), entries[0]);
    assert_eq!(
        Vault::at("/v").empty_trash(&entries),
        entries.iter().map(|entry| entry.id).collect::<Vec<_>>()
    );
}

#[test]
fn records_of_the_trash_are_recognised() {
    assert!(names_trash_record("x.trash.toml"));
    assert!(!names_trash_record("x.toml"));
    assert!(check_trash_record(id(), id()).is_ok());
    assert!(matches!(
        check_trash_record(id(), Uuid::from_u128(1)),
        Err(Error::Configuration(_))
    ));
}

#[test]
fn creating_a_notebook_again_gives_the_same_path() {
    let vault = Vault::at("/v");
    let missing = [ComponentState::Present, ComponentState::Missing];
    let first = vault.create_notebook("Work/Plans", &missing).unwrap();
    assert_eq!(first, "/v/Notes/Work/Plans");
    assert_eq!(vault.create_notebook("Work/Plans", &present(2)).unwrap(), first);
    assert!(matches!(
        vault.create_notebook("Work/Plans", &[ComponentState::Symlink, ComponentState::Missing]),
        Err(Error::InvalidPath(_))
    ));
}

#[test]
fn files_are_told_by_their_names() {
    assert_eq!(note_file("Inbox/a.md"), Some(NoteFile::Plain));
    assert_eq!(note_file("a.snote"), Some(NoteFile::Encrypted));
    assert_eq!(note_file("a.txt"), None);
    assert_eq!(note_file(".md"), None);
    assert!(target_is_taken(true, &[]));
    assert!(!target_is_taken(false, &[folder("", &["a.txt"], false)]));
    let nested = [folder("", &[], false), folder("sub", &["x.txt", "b.snote"], false)];
    assert!(target_is_taken(false, &nested));
}
