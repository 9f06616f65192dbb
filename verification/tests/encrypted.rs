use senatorial_notes::config::VaultSessionState;
use senatorial_notes::crypto::vault::{create_keyfile, open_keyfile, ObjectType, VaultKeys};
use senatorial_notes::ident::Uuid;
use senatorial_notes::model::{Note, Timestamp};
use senatorial_notes::vault_encrypted::manifest::{
    Manifest, NoteRecord, MANIFEST_OBJECT_ID, MANIFEST_SCHEMA,
};
use senatorial_notes::vault_encrypted::store::{
    new_object_id, object_id_of, open_manifest, read_inner_snote, read_note_markdown,
    rewrap_vault_keyfile, seal_manifest, store_blob_path, verify_rewrapped, EncryptedStore,
};
use senatorial_notes::vault_export::{
    check_built, conclude, copied_bytes, note_copies, notebooks_to_create, objects_to_copy,
    other_filesystem, report, resolve_partial, step_to_existing, temp_candidate, temp_path,
    temp_step, trash_copies, validate_destination, DestinationFacts, ExportProgress, TempStep,
    TEMP_TRIES,
};
use senatorial_notes::{Error, NotebookEntry};

const PASSWORD: &str = "correct horse battery staple";

fn at(seconds: i64) -> Timestamp {
    Timestamp { seconds, nanos: 0 }
}

fn id(number: u128) -> Uuid {
    Uuid::from_u128(number << 96)
}

fn with_note(title: &str, notebook: &str, number: u128) -> (Manifest, String) {
    let mut manifest = Manifest::fresh(at(0));
    let path = manifest
        .create_note(title, notebook, id(number), format!("object{number}"))
        .unwrap();
    (manifest, path)
}

fn keys(vault_id: Uuid) -> VaultKeys {
    create_keyfile(vault_id, PASSWORD).ok().unwrap().1
}

#[test]
fn a_fresh_manifest_has_the_inbox_alone() {
    let manifest = Manifest::fresh(at(4));
    assert_eq!(manifest.schema, MANIFEST_SCHEMA);
    assert_eq!(manifest.notebooks, vec!["Inbox"]);
    assert!(manifest.notes.is_empty() && manifest.trash.is_empty());
    assert!(manifest.check_schema().is_ok());
    let mut newer = Manifest::fresh(at(4));
    newer.schema = 9;
    assert!(matches!(newer.check_schema(), Err(Error::InvalidEncryptedVault(text))
        if text == "unsupported manifest schema 9"));
}

#[test]
fn a_note_is_found_where_it_was_made() {
    let (manifest, path) = with_note("My Note", "Work", 1);
    assert_eq!(path, "Work/my-note--00000001.md");
    assert_eq!(manifest.notebooks, vec!["Inbox", "Work"]);
    assert_eq!(manifest.find_note(&path).unwrap(), 0);
    assert_eq!(manifest.load_note(&path).unwrap(), 0);
    assert_eq!(manifest.notes[0].relative_path(), path);
    assert!(matches!(manifest.find_note("Work/x.md"), Err(Error::NoteNotFound(_))));
    assert!(matches!(manifest.find_note("Work/.."), Err(Error::InvalidPath(_))));
    assert!(matches!(manifest.load_encrypted_note(&path), Err(Error::WrongNoteType)));
    assert!(matches!(manifest.load_note("../x.md"), Err(Error::InvalidPath(_))));
    assert_eq!(manifest.save_note(&path).unwrap(), 0);
    assert!(matches!(manifest.save_encrypted_note(&path), Err(Error::WrongNoteType)));
}

#[test]
fn titles_encryption_and_decryption_change_the_file_name_alone() {
    let (mut manifest, path) = with_note("My Note", "Work", 1);
    let renamed = manifest.commit_title(&path, id(1), " Other ").unwrap();
    assert_eq!(renamed, "Work/other--00000001.md");
    assert_eq!(
        manifest.commit_title(&renamed, id(1), "other").unwrap(),
        renamed
    );
    assert!(matches!(
        manifest.encrypt_note(&renamed, id(1), "short"),
        Err(Error::WeakPassword(_))
    ));
    let sealed = manifest.encrypt_note(&renamed, id(1), PASSWORD).unwrap();
    assert_eq!(sealed, "Work/encrypted--00000001.snote");
    assert!(manifest.notes[0].snote);
    assert_eq!(manifest.load_encrypted_note(&sealed).unwrap(), 0);
    assert_eq!(manifest.change_encrypted_password(&sealed, PASSWORD).unwrap(), 0);
    assert!(matches!(
        manifest.change_encrypted_password(&sealed, "short"),
        Err(Error::WeakPassword(_))
    ));
    let opened = manifest.remove_encryption(&sealed, id(1), "Again").unwrap();
    assert_eq!(opened, "Work/again--00000001.md");
    assert_eq!(manifest.notes[0].object_id, "object1");
    assert_eq!(manifest.notes[0].object_uuid, id(1));
}

#[test]
fn renaming_a_notebook_takes_its_descendants_along() {
    let (mut manifest, path) = with_note("A", "Work/Sub", 1);
    manifest.create_notebook("Work").unwrap();
    manifest.create_notebook("Workshop").unwrap();
    assert_eq!(manifest.rename_notebook("Work", "Jobs").unwrap(), "Jobs");
    assert_eq!(manifest.notebooks, vec!["Inbox", "Jobs/Sub", "Jobs", "Workshop"]);
    assert!(manifest.find_note(&path).is_err());
    assert_eq!(manifest.find_note("Jobs/Sub/a--00000001.md").unwrap(), 0);
    assert_eq!(manifest.rename_notebook("Jobs", "Work").unwrap(), "Work");
    assert_eq!(manifest.find_note(&path).unwrap(), 0);
    assert!(matches!(
        manifest.rename_notebook("Work", "Workshop"),
        Err(Error::AlreadyExists(path)) if path == "Workshop"
    ));
    assert!(matches!(
        manifest.rename_notebook("Inbox", "Other"),
        Err(Error::ReservedNotebook { .. })
    ));
    assert!(matches!(
        manifest.rename_notebook("Work", "Inbox"),
        Err(Error::ReservedNotebook { .. })
    ));
    assert_eq!(manifest.rename_notebook("Work", "Work").unwrap(), "Work");
}

#[test]
fn a_notebook_with_notes_stays() {
    let (mut manifest, path) = with_note("A", "Work/Sub", 1);
    assert!(matches!(
        manifest.delete_notebook("Work"),
        Err(Error::NotebookNotEmpty { note_count: 1, .. })
    ));
    manifest.move_to_trash(&path, id(1), "A", at(1)).unwrap();
    manifest.delete_notebook("Work").unwrap();
    assert_eq!(manifest.notebooks, vec!["Inbox"]);
    assert!(matches!(
        manifest.delete_notebook("Inbox"),
        Err(Error::ReservedNotebook { .. })
    ));
}

#[test]
fn notebooks_count_their_own_notes() {
    let (mut manifest, _) = with_note("A", "Work/Sub", 1);
    manifest.create_notebook("Work").unwrap();
    manifest
        .create_note("B", "Work", id(2), "object2".to_string())
        .unwrap();
    let entry = |path: &str, count: usize| NotebookEntry {
        relative_path: path.to_string(),
        direct_note_count: count,
    };
    assert_eq!(
        manifest.list_notebooks(),
        vec![entry("Inbox", 0), entry("Work", 1), entry("Work/Sub", 1)]
    );
    assert!(matches!(manifest.create_notebook("../x"), Err(Error::InvalidPath(_))));
}

#[test]
fn a_note_moves_without_its_object() {
    let (mut manifest, path) = with_note("A", "Inbox", 1);
    let moved = manifest.move_note(&path, "Work").unwrap();
    assert_eq!(moved, "Work/a--00000001.md");
    assert_eq!(manifest.notebooks, vec!["Inbox", "Work"]);
    assert_eq!(manifest.notes[0].object_id, "object1");
    assert_eq!(manifest.move_note(&moved, "Work").unwrap(), moved);
    manifest.notes.push(NoteRecord {
        object_id: "object2".to_string(),
        object_uuid: id(2),
        notebook: "Other".to_string(),
        filename: "a--00000001.md".to_string(),
        snote: false,
    });
    assert!(matches!(
        manifest.move_note(&moved, "Other"),
        Err(Error::AlreadyExists(path)) if path == "Other/a--00000001.md"
    ));
    // The notebook is there, though nothing was moved.
    assert!(manifest.move_note("Inbox/missing.md", "New").is_err());
    assert!(manifest.notebooks.contains(&"New".to_string()));
}

#[test]
fn restoring_undoes_throwing_away() {
    let (mut manifest, path) = with_note("A", "Work", 1);
    let before = manifest.copy();
    let entry = manifest.move_to_trash(&path, id(1), "A", at(8)).unwrap();
    assert_eq!(entry.title, "A");
    assert_eq!(entry.original_relative_path, path);
    assert!(manifest.notes.is_empty());
    assert_eq!(manifest.restore_from_trash(id(1)).unwrap(), path);
    assert_eq!(manifest, before);
    assert!(matches!(
        manifest.restore_from_trash(id(1)),
        Err(Error::NoteNotFound(text)) if text == id(1).hyphenated()
    ));
}

#[test]
fn a_note_without_its_notebook_comes_back_to_the_inbox() {
    let (mut manifest, path) = with_note("A", "Work", 1);
    let sealed = manifest.encrypt_note(&path, id(1), PASSWORD).unwrap();
    let entry = manifest.move_to_trash(&sealed, id(1), "ignored", at(8)).unwrap();
    assert_eq!(entry.title, "Locked Note · 00000001");
    manifest.delete_notebook("Work").unwrap();
    assert_eq!(
        manifest.restore_from_trash(id(1)).unwrap(),
        "Inbox/encrypted--00000001.snote"
    );
}

#[test]
fn a_note_whose_names_are_all_taken_stays_in_the_trash() {
    let (mut manifest, path) = with_note("A", "Inbox", 1);
    manifest.move_to_trash(&path, id(1), "A", at(8)).unwrap();
    manifest
        .create_note("A", "Inbox", id(1), "object9".to_string())
        .unwrap();
    assert!(matches!(
        manifest.restore_from_trash(id(1)),
        Err(Error::AlreadyExists(taken)) if taken == path
    ));
    assert_eq!(manifest.trash.len(), 1);
}

#[test]
fn the_trash_is_emptied_in_order() {
    let (mut manifest, first) = with_note("A", "Inbox", 1);
    let second = manifest
        .create_note("B", "Inbox", id(2), "object2".to_string())
        .unwrap();
    let third = manifest
        .create_note("C", "Inbox", id(3), "object3".to_string())
        .unwrap();
    manifest.move_to_trash(&first, id(1), "A", at(1)).unwrap();
    manifest.move_to_trash(&second, id(2), "B", at(5)).unwrap();
    manifest.move_to_trash(&third, id(3), "C", at(3)).unwrap();
    let listed: Vec<String> = manifest
        .scan_trash()
        .into_iter()
        .map(|entry| entry.title)
        .collect();
    assert_eq!(listed, vec!["B", "C", "A"]);
    assert_eq!(manifest.permanently_delete(id(2)).unwrap(), "object2");
    assert!(matches!(
        manifest.permanently_delete(id(2)),
        Err(Error::NoteNotFound(_))
    ));
    assert_eq!(manifest.empty_trash(), vec!["object1", "object3"]);
    assert!(manifest.trash.is_empty());
}

#[test]
fn unsaved_edits_replace_each_other() {
    let (mut manifest, path) = with_note("A", "Inbox", 1);
    manifest
        .write_recovery(&path, id(1), "draft1".to_string(), id(21))
        .unwrap();
    manifest
        .write_recovery(&path, id(1), "draft2".to_string(), id(22))
        .unwrap();
    assert_eq!(manifest.recovery.len(), 1);
    assert!(matches!(
        manifest.write_recovery("Inbox/x.snote", id(1), String::new(), id(23)),
        Err(Error::WrongNoteType)
    ));
    assert_eq!(manifest.remove_recovery(id(9)), Vec::<String>::new());
    assert_eq!(manifest.remove_recovery(id(1)), vec!["draft2"]);
    assert!(manifest.recovery.is_empty());
}

#[test]
fn the_list_of_notes_hides_what_is_sealed() {
    let (mut manifest, path) = with_note("A", "Inbox", 1);
    manifest
        .create_note("B", "Inbox", id(2), "object2".to_string())
        .unwrap();
    manifest.encrypt_note(&path, id(1), PASSWORD).unwrap();
    let plain = Note::new("B", "Inbox/b--00000002.md".to_string());
    let summaries = manifest.scan_notes(&[None, Some(plain)]);
    assert_eq!(summaries.len(), 2);
    assert_eq!(summaries[0].title, "B");
    assert_eq!(summaries[1].title, "Locked Note · 00000001");
    assert!(summaries[1].locked);
}

#[test]
fn attachments_are_sealed_and_round_trip() {
    let vault_id = id(7);
    let k = keys(vault_id);
    let (mut manifest, _) = with_note("Host", "Inbox", 1);
    let secret = b"ATTACHMENT-PLAINTEXT-PAYLOAD-7781";
    let blob = k.seal(ObjectType::Attachment, id(40), false, secret).unwrap();
    manifest.write_attachment(id(1), "diagram.png", "file1".to_string(), id(40));

    let found = manifest.read_attachment(id(1), "diagram.png").unwrap();
    let record = &manifest.attachments[found];
    assert_eq!(record.object_id, "file1");
    let (plain, _) = k
        .open(ObjectType::Attachment, record.object_uuid, &blob)
        .ok()
        .unwrap();
    assert_eq!(plain.as_slice(), secret);

    // Nothing that is stored holds the plaintext.
    assert!(!blob.windows(secret.len()).any(|window| window == secret));

    // A wrong name is a miss.
    assert!(matches!(
        manifest.read_attachment(id(1), "other.png"),
        Err(Error::NoteNotFound(name)) if name == "other.png"
    ));
}

#[test]
fn reconcile_moves_an_unreferenced_blob_to_orphans_without_deleting_it() {
    let (manifest, _) = with_note("Real", "Inbox", 1);
    let names: Vec<String> = ["manifest", "object1", "aaaaaaaaaaaaaaaaaaaaaaaaaaaaaaaa"]
        .iter()
        .map(|name| name.to_string())
        .collect();
    assert_eq!(
        manifest.reconcile(&names),
        vec!["aaaaaaaaaaaaaaaaaaaaaaaaaaaaaaaa"]
    );
    let store = EncryptedStore::open("/v/.senatorial-notes", id(7), true).ok().unwrap();
    assert_eq!(
        store.orphan_path("aaaaaaaaaaaaaaaaaaaaaaaaaaaaaaaa"),
        "/v/.senatorial-notes/store/orphans/aaaaaaaaaaaaaaaaaaaaaaaaaaaaaaaa"
    );
}

#[test]
fn every_object_of_a_manifest_is_known() {
    let (mut manifest, path) = with_note("A", "Inbox", 1);
    manifest
        .create_note("B", "Inbox", id(2), "object2".to_string())
        .unwrap();
    manifest
        .write_recovery(&path, id(1), "draft".to_string(), id(30))
        .unwrap();
    manifest.write_attachment(id(1), "x", "file".to_string(), id(31));
    manifest.move_to_trash(&path, id(1), "A", at(0)).unwrap();
    assert_eq!(
        manifest.all_object_ids(),
        vec!["object2", "object1", "draft", "file"]
    );
}

#[test]
fn a_locked_store_gives_nothing_out() {
    let vault_id = id(7);
    assert!(matches!(
        EncryptedStore::open("/s", vault_id, false),
        Err(Error::InvalidEncryptedVault(text)) if text == "encrypted vault has no keyfile"
    ));
    let mut store = EncryptedStore::open("/s", vault_id, true).ok().unwrap();
    assert!(!store.is_unlocked());
    assert!(matches!(store.manifest(), Err(Error::VaultLocked)));
    assert!(matches!(store.keys(), Err(Error::VaultLocked)));
    assert!(matches!(store.commit(Manifest::fresh(at(0))), Err(Error::VaultLocked)));
    assert!(matches!(store.note_path("Inbox/a.md"), Err(Error::VaultLocked)));

    let (manifest, path) = with_note("A", "Inbox", 1);
    assert!(matches!(
        store.finish_unlock(keys(id(8)), Manifest::fresh(at(0))),
        Err(Error::InvalidEncryptedVault(text)) if text == "key material is for a different vault"
    ));
    store.finish_unlock(keys(vault_id), manifest).unwrap();
    assert!(store.is_unlocked());
    assert_eq!(store.vault_id(), vault_id);
    assert_eq!(store.note_path(&path).unwrap(), "/s/store/object1");
    assert_eq!(store.manifest_path(), "/s/store/manifest");
    store.commit(Manifest::fresh(at(1))).unwrap();
    assert!(store.manifest().unwrap().notes.is_empty());
    store.lock();
    assert!(!store.is_unlocked());
    assert!(matches!(store.manifest(), Err(Error::VaultLocked)));
}

#[test]
fn names_of_objects_are_random_digits() {
    let one = new_object_id().unwrap();
    let two = new_object_id().unwrap();
    assert_eq!(one.len(), 32);
    assert!(one.chars().all(|c| c.is_ascii_hexdigit() && !c.is_ascii_uppercase()));
    assert_ne!(one, two);
    let drawn: Vec<u8> = (0..16).map(|byte| byte * 16 + 1).collect();
    assert_eq!(object_id_of(&drawn), "01112131415161718191a1b1c1d1e1f1");
    assert_eq!(store_blob_path("/s", "abc"), "/s/store/abc");
    assert_eq!(EncryptedStore::keyfile_path("/s"), "/s/vault.keys");
}

#[test]
fn objects_of_a_vault_are_read_back() {
    let k = keys(id(7));
    let record = NoteRecord {
        object_id: "o".to_string(),
        object_uuid: id(1),
        notebook: "Inbox".to_string(),
        filename: "a.md".to_string(),
        snote: false,
    };
    let blob = k
        .seal(ObjectType::Note, id(1), false, "Grüße".as_bytes())
        .unwrap();
    assert_eq!(read_note_markdown(&k, &record, &blob).unwrap(), "Grüße");
    let broken = k.seal(ObjectType::Note, id(1), false, &[0xff, 0xfe]).unwrap();
    assert!(matches!(
        read_note_markdown(&k, &record, &broken),
        Err(Error::InvalidEncryptedVault(text)) if text == "note is not valid UTF-8"
    ));
    let inner = k.seal(ObjectType::InnerSnote, id(1), true, b"SNOTE").unwrap();
    assert_eq!(read_inner_snote(&k, &record, &inner).unwrap(), b"SNOTE");
    let unmarked = k.seal(ObjectType::InnerSnote, id(1), false, b"SNOTE").unwrap();
    assert!(matches!(
        read_inner_snote(&k, &record, &unmarked),
        Err(Error::InvalidEncryptedVault(text)) if text == "object is not marked as an inner .snote"
    ));
    let sealed = seal_manifest(&k, b"{}").unwrap();
    assert_eq!(open_manifest(&k, &sealed).ok().unwrap().as_slice(), b"{}");
    assert!(k
        .open(ObjectType::Manifest, Uuid::from_u128(MANIFEST_OBJECT_ID), &sealed)
        .is_ok());
    assert!(open_manifest(&k, &blob).is_err());
}

#[test]
fn the_password_of_a_vault_is_changed() {
    let vault_id = id(7);
    let (keyfile, _) = create_keyfile(vault_id, PASSWORD).ok().unwrap();
    assert!(matches!(
        rewrap_vault_keyfile(&keyfile, vault_id, PASSWORD, "short"),
        Err(Error::WeakPassword(_))
    ));
    let new_password = "another long passphrase";
    let written = rewrap_vault_keyfile(&keyfile, vault_id, PASSWORD, new_password).unwrap();
    assert!(open_keyfile(&written, vault_id, new_password).is_ok());
}

#[test]
fn a_rewrapped_keyfile_is_accepted() {
    let vault_id = id(7);
    let new_password = "another long passphrase";
    let (written, _) = create_keyfile(vault_id, new_password).ok().unwrap();
    assert!(verify_rewrapped(&written, vault_id, PASSWORD, new_password).is_ok());
}

#[test]
fn a_keyfile_that_was_not_rewrapped_is_noticed() {
    let vault_id = id(7);
    let (keyfile, _) = create_keyfile(vault_id, PASSWORD).ok().unwrap();
    assert!(matches!(
        verify_rewrapped(&keyfile, vault_id, PASSWORD, "another long passphrase"),
        Err(Error::Encryption(text)) if text == "vault password change verification failed"
    ));
    assert!(verify_rewrapped(&keyfile, vault_id, PASSWORD, PASSWORD).is_ok());
}

#[test]
fn the_use_of_a_vault_is_kept_in_its_manifest() {
    let mut manifest = Manifest::fresh(at(0));
    let mut session = VaultSessionState::default();
    session.record_opened(id(1));
    manifest.set_session_state(session);
    assert_eq!(manifest.session.recently_opened, vec![id(1)]);
    assert_eq!(manifest.copy(), manifest);
}

fn facts() -> DestinationFacts {
    DestinationFacts {
        source_resolved: "/vaults/Secure".to_string(),
        destination_resolved: "/out/Exported".to_string(),
        exists: false,
        has_entries: false,
        parent_is_dir: true,
        holds_vault: false,
    }
}

fn refusal(destination: &str, facts: &DestinationFacts) -> String {
    match validate_destination(destination, facts) {
        Err(Error::ExportTargetInvalid(text)) => text,
        other => panic!("expected a refusal, got {other:?}"),
    }
}

#[test]
fn destinations_that_could_do_harm_are_refused() {
    assert!(validate_destination("/out/Exported", &facts()).is_ok());
    assert_eq!(refusal("", &facts()), "no destination folder was chosen");
    let mut same = facts();
    same.destination_resolved = "/vaults/Secure/".to_string();
    assert_eq!(
        refusal("/vaults/Secure", &same),
        "the destination is the Secure Vault itself"
    );
    let mut inside = facts();
    inside.destination_resolved = "/vaults/Secure/Out".to_string();
    assert_eq!(
        refusal("/vaults/Secure/Out", &inside),
        "the destination is inside the Secure Vault"
    );
    let mut outside = facts();
    outside.destination_resolved = "/vaults".to_string();
    assert_eq!(
        refusal("/vaults", &outside),
        "the Secure Vault is inside the destination"
    );
    let mut full = facts();
    full.exists = true;
    full.has_entries = true;
    assert_eq!(
        refusal("/out/Exported", &full),
        "/out/Exported already exists and is not empty"
    );
    let mut nowhere = facts();
    nowhere.parent_is_dir = false;
    assert_eq!(
        refusal("/out/Exported", &nowhere),
        "/out is not an existing folder"
    );
    let mut vault = facts();
    vault.exists = true;
    vault.holds_vault = true;
    assert_eq!(
        refusal("/out/Exported", &vault),
        "/out/Exported already contains a vault or note files"
    );
}

#[test]
fn an_attachment_bearing_vault_fails_closed_before_any_destination_is_created() {
    let (mut manifest, _) = with_note("Has file", "Inbox", 1);
    assert_eq!(objects_to_copy(&manifest).unwrap(), 1);
    manifest.write_attachment(id(1), "diagram.png", "file".to_string(), id(40));
    assert!(matches!(
        objects_to_copy(&manifest),
        Err(Error::ExportUnsupportedContent { attachments: 1 })
    ));
}

#[test]
fn resolve_partial_handles_a_dangling_final_component() {
    let mut existing = "/real/does/not/exist".to_string();
    let mut tail: Vec<String> = Vec::new();
    while existing != "/real" {
        let (parent, name) = step_to_existing(&existing).unwrap();
        tail.push(name);
        existing = parent;
    }
    assert_eq!(resolve_partial("/real", &tail), "/real/does/not/exist");
    assert!(step_to_existing("/").is_none());
}

#[test]
fn every_note_is_copied_to_its_place() {
    let (mut manifest, path) = with_note("A", "Work", 1);
    let sealed = manifest.encrypt_note(&path, id(1), PASSWORD).unwrap();
    manifest
        .create_note("B", "Inbox", id(2), "object2".to_string())
        .unwrap();
    let copies = note_copies(&manifest, "/s", "/tmp/x");
    assert_eq!(copies.len(), 2);
    assert_eq!(copies[0].source, "/s/store/object1");
    assert_eq!(copies[0].target, format!("/tmp/x/Notes/{sealed}"));
    assert_eq!(copies[0].object_type, ObjectType::InnerSnote);
    assert_eq!(copies[1].object_type, ObjectType::Note);
    manifest.move_to_trash(&sealed, id(1), "A", at(0)).unwrap();
    let thrown = trash_copies(&manifest, "/s", "/tmp/x");
    assert_eq!(
        thrown[0].target,
        format!("/tmp/x/Trash/{}.snote", id(1).hyphenated())
    );
    assert_eq!(notebooks_to_create(&manifest), vec!["Inbox", "Work"]);
    let made = report(&manifest, "/out");
    assert_eq!((made.notes, made.snotes, made.trashed, made.notebooks), (1, 0, 1, 2));
}

#[test]
fn what_is_copied_is_what_was_sealed() {
    let k = keys(id(7));
    let (manifest, _) = with_note("A", "Inbox", 1);
    let copies = note_copies(&manifest, "/s", "/t");
    let blob = k.seal(ObjectType::Note, id(1), false, b"text").unwrap();
    assert_eq!(
        copied_bytes(&k, &copies[0], &blob).ok().unwrap().as_slice(),
        b"text"
    );
    assert!(copied_bytes(&k, &copies[0], b"garbage").is_err());
}

#[test]
fn a_built_vault_is_counted() {
    let (manifest, _) = with_note("A", "Inbox", 1);
    assert!(check_built(&manifest, 1, 0).is_ok());
    assert!(matches!(check_built(&manifest, 3, 0), Err(Error::ExportFailed(text))
        if text == "built vault holds 3 notes but the source has 1"));
    assert!(matches!(check_built(&manifest, 1, 2), Err(Error::ExportFailed(text))
        if text == "built vault holds 2 trashed notes but the source has 0"));
}

#[test]
fn an_export_can_be_stopped() {
    let mut progress = ExportProgress::new();
    assert_eq!((progress.done(), progress.total()), (0, 0));
    progress.set_total(2);
    progress.tick();
    assert_eq!((progress.done(), progress.total()), (1, 2));
    assert!(progress.cancel_point().is_ok());
    progress.request_cancel();
    assert!(progress.is_cancelled());
    assert!(matches!(progress.cancel_point(), Err(Error::ExportCancelled)));
}

#[test]
fn what_is_left_behind_is_reported() {
    assert!(matches!(
        conclude(Err(Error::ExportCancelled), "/t", true),
        Err(Error::ExportCleanupFailed { temp }) if temp == "/t"
    ));
    assert!(matches!(
        conclude(Err(Error::ExportCancelled), "/t", false),
        Err(Error::ExportCancelled)
    ));
    let (manifest, _) = with_note("A", "Inbox", 1);
    assert!(conclude(Ok(report(&manifest, "/out")), "/t", true).is_ok());
    assert!(matches!(other_filesystem("/out"), Error::ExportFailed(text)
        if text.starts_with("the destination /out is on a different filesystem")));
}

#[test]
fn a_vault_is_built_beside_its_destination() {
    let one = temp_candidate("/out/Exported").unwrap();
    let two = temp_candidate("/out/Exported").unwrap();
    assert!(one.starts_with("/out/.senatorial-export-") && one.ends_with(".tmp"));
    assert_eq!(one.len(), "/out/.senatorial-export-.tmp".len() + 16);
    assert_ne!(one, two);
    assert!(temp_candidate("Exported").unwrap().starts_with("./.senatorial-export-"));
    assert_eq!(
        temp_path("/out/Exported", &[0xde, 0xad, 0xbe, 0xef, 0, 1, 2, 3]),
        "/out/.senatorial-export-deadbeef00010203.tmp"
    );
}

#[test]
fn a_name_for_the_directory_is_tried_so_often() {
    assert_eq!(temp_step(1, false), TempStep::Take);
    assert_eq!(temp_step(TEMP_TRIES, false), TempStep::Take);
    assert_eq!(temp_step(TEMP_TRIES - 1, true), TempStep::TryAgain);
    assert_eq!(
        temp_step(TEMP_TRIES, true),
        TempStep::Fail(Error::ExportTargetInvalid(
            "could not create a temporary export directory".to_string()
        ))
    );
    assert_eq!(TEMP_TRIES, 50);
}

#[test]
fn creating_a_notebook_again_and_emptying_the_trash() {
    let mut manifest = Manifest::fresh(at(0));
    manifest.create_notebook("Work").unwrap();
    let once = manifest.list_notebooks();
    manifest.create_notebook("Work").unwrap();
    assert_eq!(manifest.list_notebooks(), once);
    let (mut manifest, path) = with_note("A", "Inbox", 1);
    manifest.move_to_trash(&path, id(1), "A", at(1)).unwrap();
    assert_eq!(manifest.scan_trash().len(), 1);
    assert_eq!(manifest.empty_trash(), vec!["object1".to_string()]);
    assert!(manifest.scan_trash().is_empty());
}
