use senatorial_notes::config::{AppConfig, LockingConfig, NoteListDensity, SortOrder};
use senatorial_notes::crypto::note::encrypt_new;
use senatorial_notes::ident::Uuid;
use senatorial_notes::model::{Note, NoteMetadata, NoteSummary, Timestamp};
use senatorial_notes::ui_state::{RowTarget, SelectionCoordinator, ViewMode};
use senatorial_notes::vault::{FileStamp, NotebookEntry, TrashEntry};
use senatorial_notes::workspace::changes::{
    autosave_delay, locks_on_leaving_window, rows_changed, title_delay, NoteFlag, TogglePlan,
    WatchReport, WatchStep,
};
use senatorial_notes::workspace::document::{
    must_rebuild, save_step, ActiveDocument, OpenVault, SaveCall, SaveOutcome, Workspace,
    PLAIN_CACHE_LIMIT,
};
use senatorial_notes::workspace::listing::{
    adjacent_row, destination_label, emptied_list, empty_list, filtered_notes, filtered_trash,
    first_row, note_targets, notebook_depth, notebook_indent, notebook_name, notebook_rows,
    row_after_removal, row_margin, selected_notebook, tag_choices, trash_subtitle, trash_targets,
    truncate_preview, view_includes, ListQuery,
};
use senatorial_notes::workspace::selection::{Dispatch, PendingSelection};
use senatorial_notes::workspace::session::{
    choose_secure_folder, contention_choice, open_step, opened_status, recent_label, recents_shown,
    resolve_restored_view, secure_folder_name, sidebar_row, sidebar_vaults, startup,
    switcher_status, vault_display_name, vault_display_name_for, ContentionChoice, FirstSelection,
    LockOutcome, LockOwner, NoteOpening, OpenStep, QuickLock, SessionTarget, SidebarRow,
    SignalGate, Startup, ViewSwitch,
};

const PW: &str = "correct horse battery staple";

fn id(number: u128) -> Uuid {
    Uuid::from_u128(number)
}

fn stamp(number: u64) -> FileStamp {
    FileStamp {
        modified: Timestamp::epoch(),
        length: number,
        fingerprint: number,
    }
}

fn note(number: u128, title: &str, path: &str) -> Note {
    Note {
        metadata: NoteMetadata::with(title, id(number), Timestamp::epoch()),
        body: format!("body of {title}"),
        relative_path: path.to_string(),
    }
}

fn summary(number: u128, title: &str, path: &str) -> NoteSummary {
    NoteSummary::from(&note(number, title, path))
}

fn plain(number: u128, title: &str) -> ActiveDocument {
    ActiveDocument::Plain {
        note: note(number, title, "Inbox/a.md"),
        stamp: stamp(1),
    }
}

fn secret(number: u128, title: &str) -> ActiveDocument {
    let (_, session) = encrypt_new(id(number), b"x", PW).ok().unwrap();
    ActiveDocument::Encrypted {
        note: note(number, title, "Inbox/e.snote"),
        stamp: stamp(1),
        session,
    }
}

fn vault(encrypted: bool, locked: bool) -> OpenVault {
    OpenVault {
        vault_id: id(99),
        root: "/v".to_string(),
        encrypted,
        locked,
    }
}

fn titles(notes: &[NoteSummary]) -> Vec<&str> {
    notes.iter().map(|note| note.title.as_str()).collect()
}

fn query<'a>(view: &'a ViewMode, search: &'a str, recent: &'a [Uuid]) -> ListQuery<'a> {
    ListQuery {
        view,
        tag: None,
        search,
        recently_opened: recent,
        sort_order: Some(SortOrder::TitleAsc),
    }
}

#[test]
fn views_list_what_belongs_in_them() {
    let mut pinned = summary(1, "Pinned", "Inbox/p.md");
    pinned.pinned = true;
    let mut archived = summary(2, "Archived", "Inbox/x.md");
    archived.archived = true;
    archived.favourite = true;
    let nested = summary(3, "Nested", "Work/Sub/n.md");
    let locked = NoteSummary::locked(id(4), "Work/e.snote".to_string());
    let notes = vec![pinned, archived, nested, locked];
    let list = |view: &ViewMode| {
        filtered_notes(&query(view, "", &[id(3), id(4)]), &notes)
            .iter()
            .map(|note| note.id.value)
            .collect::<Vec<_>>()
    };
    assert_eq!(list(&ViewMode::AllNotes), vec![4, 3, 1]);
    assert_eq!(list(&ViewMode::Pinned), vec![1]);
    assert_eq!(list(&ViewMode::Favourites), Vec::<u128>::new());
    assert_eq!(list(&ViewMode::Archive), vec![2]);
    assert_eq!(list(&ViewMode::EncryptedNotes), vec![4]);
    assert_eq!(list(&ViewMode::RecentlyOpened), vec![3]);
    assert_eq!(list(&ViewMode::Notebook("Work".to_string())), vec![4]);
    assert_eq!(list(&ViewMode::Notebook("Work/Sub".to_string())), vec![3]);
    assert_eq!(list(&ViewMode::Trash), Vec::<u128>::new());
    assert!(view_includes(&ViewMode::AllNotes, &notes[0], &[]));
}

#[test]
fn recently_opened_ignores_the_chosen_order() {
    let notes = vec![
        summary(1, "A", "Inbox/a.md"),
        summary(2, "B", "Inbox/b.md"),
        summary(3, "C", "Inbox/c.md"),
    ];
    let recent = [id(2), id(3), id(1)];
    let found = filtered_notes(&query(&ViewMode::RecentlyOpened, "", &recent), &notes);
    assert_eq!(titles(&found), vec!["B", "C", "A"]);
}

#[test]
fn tags_and_searches_narrow_a_list() {
    let mut tagged = summary(1, "Tagged", "Inbox/a.md");
    tagged.tags = vec!["Work".to_string()];
    let notes = vec![tagged, summary(2, "Other", "Inbox/b.md")];
    let by_tag = ListQuery {
        view: &ViewMode::AllNotes,
        tag: Some("work"),
        search: "",
        recently_opened: &[],
        sort_order: None,
    };
    assert_eq!(titles(&filtered_notes(&by_tag, &notes)), vec!["Tagged"]);
    let found = filtered_notes(&query(&ViewMode::AllNotes, "BODY OF OTHER", &[]), &notes);
    assert_eq!(titles(&found), vec!["Other"]);
}

#[test]
fn tags_are_offered_once_in_order() {
    let mut one = summary(1, "A", "a.md");
    one.tags = vec!["zeta".to_string(), "Alpha".to_string()];
    let mut two = summary(2, "B", "b.md");
    two.tags = vec!["ALPHA".to_string(), "mid".to_string()];
    assert_eq!(tag_choices(&[one, two]), vec!["Alpha", "mid", "zeta"]);
}

fn entry(number: u128, title: &str, encrypted: bool) -> TrashEntry {
    TrashEntry {
        id: id(number),
        title: title.to_string(),
        encrypted,
        original_relative_path: "Work/a.md".to_string(),
        trashed_at: Timestamp::epoch(),
    }
}

#[test]
fn the_trash_is_searched_by_title() {
    let entries = vec![entry(1, "Plan", false), entry(2, "Other", true)];
    assert_eq!(filtered_trash(&entries, " plan ").len(), 1);
    assert_eq!(filtered_trash(&entries, "").len(), 2);
    assert_eq!(trash_subtitle(&entries[0]), "From Work/a.md");
    assert_eq!(trash_subtitle(&entries[1]), "Encrypted note");
    assert_eq!(
        trash_targets(&entries),
        vec![RowTarget::Trash(id(1)), RowTarget::Trash(id(2))]
    );
    assert_eq!(
        note_targets(&[summary(3, "C", "c.md")]),
        vec![RowTarget::Note(id(3))]
    );
}

#[test]
fn empty_lists_explain_themselves() {
    assert_eq!(empty_list(&ViewMode::AllNotes, "x").title, "No matches");
    assert_eq!(empty_list(&ViewMode::AllNotes, "  ").title, "No notes yet");
    assert_eq!(empty_list(&ViewMode::Trash, "").title, "Trash is empty");
    assert_eq!(
        empty_list(&ViewMode::Pinned, "").copy,
        "Pin a note to see it here."
    );
    assert_eq!(emptied_list(RowTarget::Note(id(1))).title, "No notes here");
    assert_eq!(emptied_list(RowTarget::Trash(id(1))).title, "Trash is empty");
    assert_eq!(row_margin(NoteListDensity::Compact), 7);
    assert_eq!(row_margin(NoteListDensity::Spacious), 16);
}

#[test]
fn previews_are_cut_with_an_ellipsis() {
    assert_eq!(truncate_preview(" a \n b  c ", 10), "a b c");
    assert_eq!(truncate_preview("abcdef", 3), "abc…");
    assert_eq!(truncate_preview("ééé", 3), "ééé");
    assert_eq!(truncate_preview("", 3), "");
}

#[test]
fn notebooks_have_rows_but_for_the_inbox() {
    let entries: Vec<NotebookEntry> = ["Inbox", "Work", "Work/Sub"]
        .iter()
        .map(|path| NotebookEntry {
            relative_path: path.to_string(),
            direct_note_count: 0,
        })
        .collect();
    let rows = notebook_rows(&entries);
    assert_eq!(rows, vec!["Work", "Work/Sub"]);
    assert_eq!(
        selected_notebook(&ViewMode::Notebook("Work/Sub/".to_string()), &rows),
        Some(1)
    );
    assert_eq!(
        selected_notebook(&ViewMode::Notebook("Inbox".to_string()), &rows),
        None
    );
    assert_eq!(selected_notebook(&ViewMode::Pinned, &rows), None);
    assert_eq!(notebook_depth("Work/Sub"), 1);
    assert_eq!(notebook_indent("Work/Sub"), 22);
    assert_eq!(notebook_name("Work/Sub", "Notebook"), "Sub");
    assert_eq!(notebook_name("/", "Notebook"), "Notebook");
    assert_eq!(destination_label("Work/Sub"), "    Sub");
}

#[test]
fn the_selection_moves_between_rows() {
    let mut coordinator = SelectionCoordinator::default();
    let a = RowTarget::Note(id(1));
    let b = RowTarget::Note(id(2));
    coordinator.replace_rows(vec![a, b]);
    assert_eq!(adjacent_row(&coordinator, Some(0), 1), Some(b));
    assert_eq!(adjacent_row(&coordinator, Some(1), 1), None);
    assert_eq!(adjacent_row(&coordinator, Some(0), -1), None);
    assert_eq!(adjacent_row(&coordinator, None, 1), Some(a));
    assert_eq!(row_after_removal(&coordinator, 1), Some(b));
    assert_eq!(row_after_removal(&coordinator, 2), Some(b));
    assert_eq!(row_after_removal(&SelectionCoordinator::default(), 0), None);
    assert_eq!(first_row(&coordinator, Some(b)), Some(b));
    assert_eq!(first_row(&coordinator, Some(RowTarget::Trash(id(1)))), Some(a));
    assert_eq!(first_row(&coordinator, None), Some(a));
}

#[test]
fn only_the_last_of_many_clicks_is_opened() {
    let mut pending = PendingSelection::new();
    assert!(pending.request(RowTarget::Note(id(1))));
    assert!(!pending.request(RowTarget::Note(id(2))));
    assert!(pending.is_armed());
    assert_eq!(pending.target(), Some(RowTarget::Note(id(2))));
    assert_eq!(pending.fire(true, true), Some(RowTarget::Note(id(2))));
    assert_eq!(pending.fire(true, true), None);
    pending.request(RowTarget::Note(id(3)));
    assert_eq!(pending.fire(false, true), None);
    pending.request(RowTarget::Note(id(3)));
    pending.cancel();
    assert!(!pending.is_armed());
}

#[test]
fn a_clean_note_is_kept_when_it_is_left() {
    let mut workspace = Workspace::default();
    workspace.active = Some(plain(1, "A"));
    workspace.stash_or_lock_active(true);
    assert!(workspace.active.is_none());
    let cached = workspace.take_plain(id(1)).unwrap();
    assert_eq!(cached.note.metadata.title, "A");
    assert_eq!(cached.stamp, stamp(1));
    assert!(workspace.take_plain(id(1)).is_none());

    workspace.active = Some(plain(1, "A"));
    workspace.body_dirty = true;
    workspace.stash_or_lock_active(true);
    assert!(workspace.take_plain(id(1)).is_none());
}

#[test]
fn the_cache_of_notes_is_bounded() {
    let mut workspace = Workspace::default();
    for number in 0..PLAIN_CACHE_LIMIT as u128 {
        workspace.active = Some(plain(number, "A"));
        workspace.stash_or_lock_active(true);
    }
    assert_eq!(workspace.plain.len(), PLAIN_CACHE_LIMIT);
    workspace.active = Some(plain(1_000, "A"));
    workspace.stash_or_lock_active(true);
    assert_eq!(workspace.plain.len(), 1);
}

#[test]
fn an_encrypted_note_is_locked_or_kept_as_the_settings_say() {
    let mut workspace = Workspace::default();
    workspace.notes = vec![summary(1, "Secret", "Inbox/e.snote")];
    workspace.active = Some(secret(1, "Secret"));
    workspace.stash_or_lock_active(false);
    assert_eq!(workspace.unlocked.len(), 1);
    let kept = workspace.take_unlocked(id(1)).unwrap();
    assert_eq!(kept.note().metadata.title, "Secret");
    workspace.active = Some(kept);
    assert_eq!(workspace.lock_all_encrypted(), vec![id(1)]);
    assert!(workspace.active.is_none());
    assert!(workspace.notes[0].locked);
    assert_eq!(workspace.notes[0].title, "Locked Note · 00000000");
}

#[test]
fn locking_again_brings_the_path_up_to_date() {
    let mut workspace = Workspace::default();
    workspace.notes = vec![NoteSummary::locked(id(1), "Inbox/stale.snote".to_string())];
    workspace.active = Some(secret(1, "Secret"));
    assert_eq!(workspace.lock_all_encrypted(), vec![id(1)]);
    assert_eq!(workspace.notes[0].relative_path, "Inbox/e.snote");
}

#[test]
fn no_encrypted_note_is_recovered_in_the_clear() {
    let open = plain(1, "A");
    assert_eq!(save_step(&open, None).call, SaveCall::Note);
    let titled = save_step(&open, Some("B"));
    assert_eq!(titled.call, SaveCall::Title("B".to_string()));
    assert!(titled.recover);
    let sealed = save_step(&secret(2, "S"), Some("T"));
    assert_eq!(
        sealed.call,
        SaveCall::Sealed {
            title: Some("T".to_string())
        }
    );
    assert!(!sealed.recover);
}

#[test]
fn locking_the_open_note_leaves_the_others() {
    let mut workspace = Workspace::default();
    workspace.notes = vec![summary(1, "Secret", "Inbox/e.snote")];
    workspace.active = Some(secret(1, "Secret"));
    workspace.last_activity = Some(4);
    assert_eq!(workspace.lock_active_note(), Some(id(1)));
    assert!(workspace.notes[0].locked);
    assert_eq!(workspace.notes[0].body, "");
    assert_eq!(workspace.last_activity, None);
    workspace.active = Some(plain(2, "Plain"));
    assert_eq!(workspace.lock_active_note(), None);
    assert!(workspace.active.is_some());
    assert!(must_rebuild(&ViewMode::Pinned) && !must_rebuild(&ViewMode::AllNotes));
}

#[test]
fn showing_a_note_counts_as_opening_it() {
    let mut workspace = Workspace::default();
    workspace.vault = Some(vault(true, false));
    workspace.title_dirty = true;
    assert_eq!(workspace.display_document(plain(1, "A"), 50), "Saved");
    assert_eq!(workspace.title_draft, "A");
    assert!(!workspace.title_dirty);
    assert_eq!(workspace.session.recently_opened, vec![id(1)]);
    // A sealed vault makes every note in it secret.
    assert_eq!(workspace.last_activity, Some(50));
    assert_eq!(workspace.current_note_id(), Some(id(1)));
    workspace.vault = Some(vault(false, false));
    workspace.display_document(plain(2, "B"), 60);
    assert_eq!(workspace.last_activity, None);
}

#[test]
fn edits_are_noted_where_there_is_a_note() {
    let mut workspace = Workspace::default();
    assert!(!workspace.body_edited(1));
    assert!(!workspace.title_edited("x", 1));
    workspace.active = Some(plain(1, "A"));
    assert!(workspace.body_edited(1));
    assert!(workspace.title_edited("  ", 1));
    let plan = workspace.plan_save(true).unwrap();
    assert!(plan.body);
    assert_eq!(plan.title.as_deref(), Some("Untitled"));
    let body_only = workspace.plan_save(false).unwrap();
    assert_eq!(body_only.title, None);
    workspace.read_only = true;
    assert!(!workspace.body_edited(1));
    workspace.clear_editor();
    assert!(workspace.plan_save(true).is_none());
}

#[test]
fn a_save_clears_what_was_saved() {
    let mut workspace = Workspace::default();
    workspace.active = Some(plain(1, "A"));
    workspace.body_edited(1);
    workspace.title_edited("B", 1);
    let plan = workspace.plan_save(false).unwrap();
    workspace.take_body("new body".to_string());
    let (saved, status) = workspace.finish_save(&plan, SaveOutcome::Saved(stamp(2)));
    assert!(saved);
    assert_eq!(status, "Saved");
    assert!(!workspace.body_dirty && workspace.title_dirty);
    assert_eq!(workspace.active.as_ref().unwrap().stamp(), stamp(2));
    assert_eq!(workspace.active.as_ref().unwrap().note().body, "new body");
}

#[test]
fn a_failed_save_says_whether_text_was_preserved() {
    let mut workspace = Workspace::default();
    workspace.active = Some(plain(1, "A"));
    workspace.body_edited(1);
    let plan = workspace.plan_save(true).unwrap();
    let failed = |recovery| SaveOutcome::Failed {
        error: "disk full".to_string(),
        recovery,
    };
    assert_eq!(
        workspace.finish_save(&plan, failed(true)),
        (
            false,
            "Save failed: disk full. A private local recovery copy was preserved.".to_string()
        )
    );
    assert_eq!(
        workspace.finish_save(&plan, failed(false)).1,
        "Save failed: disk full. The recovery copy also failed; copy your text before closing."
    );
    assert!(workspace.body_dirty);
    workspace.active = Some(secret(1, "A"));
    assert!(workspace
        .finish_save(&plan, failed(true))
        .1
        .contains("No plaintext recovery file was written"));
}

#[test]
fn the_summary_follows_the_open_note() {
    let mut workspace = Workspace::default();
    workspace.notes = vec![NoteSummary::locked(id(1), "Inbox/e.snote".to_string())];
    workspace.active = Some(plain(1, "Opened"));
    assert_eq!(workspace.update_active_summary(4), Some(0));
    let shown = &workspace.notes[0];
    assert_eq!(shown.title, "Opened");
    assert_eq!(shown.preview, "body…");
    assert!(!shown.locked && shown.encrypted);
    workspace.active = Some(plain(2, "Unknown"));
    assert_eq!(workspace.update_active_summary(4), None);
}

#[test]
fn a_note_leaves_memory_with_the_trash() {
    let mut workspace = Workspace::default();
    workspace.notes = vec![summary(1, "A", "Inbox/a.md"), summary(2, "B", "Inbox/b.md")];
    workspace.active = Some(plain(1, "A"));
    workspace.flow.select_note(id(1));
    assert!(workspace.note_trashed(id(1)));
    assert_eq!(titles(&workspace.notes), vec!["B"]);
    assert!(workspace.active.is_none());
    assert_eq!(workspace.flow.selected_note(), None);
    workspace.trash = vec![entry(1, "A", false), entry(2, "B", false)];
    workspace.flow.select_trash(id(1));
    workspace.trash_left(id(1));
    assert_eq!(workspace.trash.len(), 1);
    assert_eq!(workspace.flow.selected_trash(), None);
    workspace.trash_emptied();
    assert!(workspace.trash.is_empty());
}

#[test]
fn a_moved_note_is_moved_wherever_it_is_held() {
    let mut workspace = Workspace::default();
    workspace.notes = vec![summary(1, "A", "Inbox/a.md")];
    workspace.active = Some(plain(1, "A"));
    workspace.stash_or_lock_active(true);
    workspace.active = Some(plain(1, "A"));
    workspace.note_moved(id(1), "Work/a.md");
    assert_eq!(workspace.notes[0].relative_path, "Work/a.md");
    assert_eq!(workspace.plain[0].note.relative_path, "Work/a.md");
    assert_eq!(
        workspace.active.as_ref().unwrap().note().relative_path,
        "Work/a.md"
    );
    assert_eq!(workspace.affected_by_rename("Work"), Some(id(1)));
    assert_eq!(workspace.affected_by_rename("Inbox"), None);
}

#[test]
fn tags_of_the_open_note_are_changed() {
    let mut workspace = Workspace::default();
    assert!(!workspace.add_tag("x"));
    workspace.active = Some(plain(1, "A"));
    assert!(workspace.add_tag(" Work "));
    assert!(!workspace.add_tag("work"));
    assert!(workspace.body_dirty);
    assert!(workspace.remove_tag("WORK"));
    assert!(!workspace.remove_tag("WORK"));
}

#[test]
fn marks_are_changed_where_the_note_is() {
    let mut workspace = Workspace::default();
    workspace.notes = vec![
        summary(1, "A", "Inbox/a.md"),
        NoteSummary::locked(id(2), "Inbox/e.snote".to_string()),
    ];
    assert_eq!(
        workspace.plan_toggle(NoteFlag::Pinned, id(1)),
        TogglePlan::Nothing
    );
    workspace.vault = Some(vault(false, false));
    assert_eq!(
        workspace.plan_toggle(NoteFlag::Pinned, id(1)),
        TogglePlan::InFile("Inbox/a.md".to_string())
    );
    assert_eq!(
        workspace.plan_toggle(NoteFlag::Archived, id(2)),
        TogglePlan::Refuse(
            "Unlock this encrypted note before changing its archived state.".to_string()
        )
    );
    workspace.active = Some(plain(1, "A"));
    assert_eq!(
        workspace.plan_toggle(NoteFlag::Pinned, id(1)),
        TogglePlan::InEditor
    );
    workspace.toggle_active(NoteFlag::Favourite);
    assert!(workspace.body_dirty);
    assert!(workspace.active.as_ref().unwrap().note().metadata.favourite);
    let mut changed = summary(1, "A", "Inbox/a.md");
    changed.pinned = true;
    workspace.file_toggled(changed);
    let (place, status) = workspace
        .finish_toggle(NoteFlag::Pinned, id(1), None)
        .unwrap();
    assert_eq!((place, status), (0, "Pinned"));
    assert!(workspace.finish_toggle(NoteFlag::Pinned, id(9), None).is_none());
}

#[test]
fn toggling_twice_changes_nothing() {
    for flag in [NoteFlag::Pinned, NoteFlag::Favourite, NoteFlag::Archived] {
        let mut metadata = NoteMetadata::with("T", id(1), Timestamp::epoch());
        flag.toggle(&mut metadata);
        assert!(flag.get(&metadata));
        flag.toggle(&mut metadata);
        assert_eq!(metadata, NoteMetadata::with("T", id(1), Timestamp::epoch()));
    }
    assert_eq!(NoteFlag::Archived.status_labels(), ("Archived", "Unarchived"));
}

#[test]
fn changes_on_disk_keep_the_order_and_the_open_note() {
    let mut workspace = Workspace::default();
    workspace.notes = vec![
        summary(1, "A", "Inbox/a.md"),
        summary(2, "Edited here", "Inbox/b.md"),
        summary(3, "Gone", "Inbox/c.md"),
    ];
    let mut pinned = summary(1, "A", "Inbox/a.md");
    pinned.pinned = true;
    let found = vec![
        summary(4, "New", "Inbox/d.md"),
        summary(2, "On disk", "Work/b.md"),
        pinned,
    ];
    let moved = workspace.merge_notes(found, Some(id(2)));
    assert_eq!(titles(&workspace.notes), vec!["A", "Edited here", "New"]);
    assert_eq!(workspace.notes[1].relative_path, "Work/b.md");
    assert_eq!(moved, vec![id(1)]);
    workspace.trash = vec![entry(1, "A", false), entry(2, "B", false)];
    workspace.merge_trash(vec![entry(3, "C", false), entry(2, "B2", false)]);
    assert_eq!(
        workspace.trash.iter().map(|entry| entry.title.as_str()).collect::<Vec<_>>(),
        vec!["B2", "C"]
    );
    assert!(rows_changed(&[RowTarget::Note(id(1))], &[]));
    assert!(!rows_changed(&[RowTarget::Note(id(1))], &[RowTarget::Note(id(1))]));
}

#[test]
fn the_watcher_waits_for_its_turn() {
    let mut workspace = Workspace::default();
    workspace.vault = Some(vault(false, false));
    assert_eq!(workspace.watch_step(true, WatchReport::Changed), WatchStep::Wait);
    assert_eq!(workspace.watch_step(false, WatchReport::Changed), WatchStep::Compare);
    assert_eq!(workspace.watch_step(false, WatchReport::Quiet), WatchStep::Wait);
    assert_eq!(
        workspace.watch_step(false, WatchReport::Failed("x".to_string())),
        WatchStep::Stop("Filesystem watcher failed: x".to_string())
    );
    workspace.body_dirty = true;
    assert_eq!(workspace.watch_step(false, WatchReport::Changed), WatchStep::Wait);
    workspace.body_dirty = false;
    workspace.vault = Some(vault(true, true));
    assert_eq!(workspace.watch_step(false, WatchReport::Changed), WatchStep::Wait);
}

#[test]
fn an_open_note_that_changed_on_disk_blocks() {
    let mut workspace = Workspace::default();
    assert_eq!(workspace.external_change(None), Ok(None));
    workspace.active = Some(plain(1, "A"));
    assert_eq!(workspace.external_change(Some(Ok(stamp(1)))), Ok(Some(id(1))));
    assert!(workspace
        .external_change(Some(Ok(stamp(2))))
        .unwrap_err()
        .starts_with("The open note changed on disk."));
    assert_eq!(
        workspace.external_change(Some(Err("denied".to_string()))),
        Err("Could not verify external changes: denied".to_string())
    );
}

#[test]
fn idleness_locks_after_the_chosen_time() {
    let mut workspace = Workspace::default();
    assert!(!workspace.idle_expired(1, 1_000_000));
    workspace.last_activity = Some(1_000);
    assert!(!workspace.idle_expired(0, u64::MAX));
    assert!(!workspace.idle_expired(1, 60_999));
    assert!(workspace.idle_expired(1, 61_000));
    let mut config = LockingConfig::default();
    assert!(!locks_on_leaving_window(&config));
    config.on_minimize = true;
    assert!(locks_on_leaving_window(&config));
    assert_eq!((autosave_delay(1), autosave_delay(750), autosave_delay(9_999)), (500, 750, 1_000));
    assert_eq!((title_delay(1), title_delay(1_500), title_delay(9_999)), (1_000, 1_500, 5_000));
}

#[test]
fn vault_display_name_uses_the_folder_name() {
    assert_eq!(vault_display_name("/home/user/My Notes"), "My Notes");
    assert_eq!(vault_display_name("/"), senatorial_notes::constants::APP_NAME);
}

#[test]
fn a_given_name_comes_before_the_folder() {
    let mut config = AppConfig::default();
    config.set_vault_display_name("/v", "Mine");
    assert_eq!(vault_display_name_for(&config, "/v", "/link"), "Mine");
    assert_eq!(vault_display_name_for(&config, "/w", "/x/Folder"), "Folder");
}

#[test]
fn new_sealed_vaults_are_numbered() {
    assert_eq!(secure_folder_name(0), "Secure");
    assert_eq!(secure_folder_name(1), "Secure 2");
    assert_eq!(
        choose_secure_folder(&[false, false, true]).as_deref(),
        Some("Secure 3")
    );
    assert_eq!(choose_secure_folder(&[false]), None);
}

#[test]
fn the_start_depends_on_what_is_known() {
    let mut config = AppConfig::default();
    assert_eq!(startup(&config, false), Startup::FirstRun);
    config.first_run_done = true;
    assert_eq!(startup(&config, false), Startup::Welcome);
    config.last_vault = Some("/v".to_string());
    assert_eq!(startup(&config, true), Startup::Open("/v".to_string()));
    assert!(matches!(startup(&config, false), Startup::Missing(text)
        if text == "The last vault at /v is no longer there. Open another vault to continue."));
}

#[test]
fn a_vault_is_opened_with_its_lock() {
    assert_eq!(
        open_step(true, false, false, LockOutcome::Acquired),
        OpenStep::AlreadyOpen
    );
    assert_eq!(
        open_step(false, true, false, LockOutcome::Acquired),
        OpenStep::AskAboutPlaintext
    );
    assert_eq!(
        open_step(false, false, false, LockOutcome::Acquired),
        OpenStep::Commit { owner: true }
    );
    assert_eq!(
        open_step(false, false, true, LockOutcome::Contended),
        OpenStep::Commit { owner: false }
    );
    assert_eq!(
        open_step(false, false, false, LockOutcome::Contended),
        OpenStep::AskAboutLock
    );
    assert_eq!(contention_choice(LockOwner::ProvenDead, 2), ContentionChoice::TakeOver);
    assert_eq!(contention_choice(LockOwner::Live, 2), ContentionChoice::ShowExistingWindow);
    assert_eq!(contention_choice(LockOwner::Unknown, 2), ContentionChoice::Cancel);
    assert_eq!(contention_choice(LockOwner::Live, 1), ContentionChoice::OpenReadOnly);
}

#[test]
fn nothing_stays_of_a_vault_that_is_left_or_locked() {
    let mut workspace = Workspace::default();
    workspace.vault = Some(vault(true, false));
    workspace.notes = vec![summary(1, "A", "Inbox/a.md")];
    workspace.trash = vec![entry(2, "B", false)];
    workspace.active = Some(plain(1, "A"));
    workspace.title_draft = "A".to_string();
    assert!(workspace.can_lock_vault());
    assert!(workspace.lock_vault());
    assert!(workspace.notes.is_empty() && workspace.trash.is_empty());
    assert!(workspace.active.is_none());
    assert_eq!(workspace.title_draft, "");
    assert!(!workspace.lock_vault());
    assert!(!workspace.commit_vault_switch(vault(false, false), false, true));
    assert!(!workspace.read_only);
    assert!(workspace.commit_vault_switch(vault(true, true), false, false));
    assert!(workspace.read_only);
    workspace.session.record_opened(id(1));
    workspace.show_locked();
    assert!(workspace.session.is_empty());
}

#[test]
fn the_use_of_a_sealed_vault_stays_in_it() {
    let mut workspace = Workspace::default();
    assert_eq!(workspace.capture_session(None), SessionTarget::Nowhere);
    workspace.vault = Some(vault(false, false));
    workspace.flow.select_note(id(3));
    assert_eq!(
        workspace.capture_session(Some(7)),
        SessionTarget::Settings(id(99))
    );
    assert_eq!(workspace.session.last_note, Some(id(3)));
    assert_eq!(workspace.session.last_view.as_deref(), Some("all-notes"));
    assert_eq!(workspace.session.editor_scroll, Some(7));
    workspace.vault = Some(vault(true, false));
    assert_eq!(workspace.capture_session(None), SessionTarget::Manifest);
    workspace.vault = Some(vault(true, true));
    assert_eq!(workspace.capture_session(None), SessionTarget::Nowhere);
}

#[test]
fn a_vault_opens_where_it_was_left() {
    let notebooks = vec![NotebookEntry {
        relative_path: "Work".to_string(),
        direct_note_count: 0,
    }];
    assert_eq!(
        resolve_restored_view(ViewMode::Notebook("Work".to_string()), &notebooks),
        ViewMode::Notebook("Work".to_string())
    );
    assert_eq!(
        resolve_restored_view(ViewMode::Notebook("Gone".to_string()), &notebooks),
        ViewMode::AllNotes
    );
    assert_eq!(resolve_restored_view(ViewMode::Trash, &[]), ViewMode::Trash);
    let mut workspace = Workspace::default();
    assert_eq!(workspace.first_selection(), FirstSelection::NewNote);
    workspace.read_only = true;
    assert_eq!(workspace.first_selection(), FirstSelection::FirstRow);
    workspace.notes = vec![summary(1, "A", "Inbox/a.md")];
    workspace.session.last_note = Some(id(1));
    assert_eq!(workspace.first_selection(), FirstSelection::Note(id(1)));
    workspace.session.last_note = Some(id(2));
    assert_eq!(workspace.first_selection(), FirstSelection::FirstRow);
}

#[test]
fn views_are_switched_unless_there_is_nothing_to_show() {
    let mut workspace = Workspace::default();
    assert_eq!(workspace.plan_switch(&ViewMode::AllNotes), ViewSwitch::AlreadyThere);
    assert_eq!(workspace.plan_switch(&ViewMode::Trash), ViewSwitch::Go);
    workspace.vault = Some(vault(true, true));
    assert_eq!(workspace.plan_switch(&ViewMode::Trash), ViewSwitch::Locked);
    assert_eq!(workspace.target_notebook_for_new_note(), "Inbox");
    workspace.flow.switch_view(ViewMode::Notebook("Work".to_string()));
    assert_eq!(workspace.target_notebook_for_new_note(), "Work");
    assert_eq!(sidebar_row(&ViewMode::Notebook("Inbox".to_string())), Some(SidebarRow::Inbox));
    assert_eq!(sidebar_row(&ViewMode::Notebook("Work".to_string())), None);
    assert_eq!(sidebar_row(&ViewMode::EncryptedNotes), None);
}

#[test]
fn a_new_note_comes_first_and_is_selected() {
    let mut workspace = Workspace::default();
    workspace.notes = vec![summary(1, "A", "Inbox/a.md")];
    workspace.note_created(summary(2, "B", "Inbox/b.md"));
    assert_eq!(titles(&workspace.notes), vec!["B", "A"]);
    assert_eq!(workspace.preferred_row(), Some(RowTarget::Note(id(2))));
}

#[test]
fn a_password_is_asked_for_only_where_the_note_was_chosen() {
    let mut workspace = Workspace::default();
    assert_eq!(workspace.plan_opening(id(1), true), NoteOpening::Nothing);
    workspace.vault = Some(vault(false, false));
    workspace.notes = vec![
        summary(1, "A", "Inbox/a.md"),
        NoteSummary::locked(id(2), "Inbox/e.snote".to_string()),
    ];
    assert_eq!(
        workspace.plan_opening(id(1), true),
        NoteOpening::Load("Inbox/a.md".to_string())
    );
    assert_eq!(workspace.flow.selected_note(), Some(id(1)));
    assert_eq!(
        workspace.plan_opening(id(2), false),
        NoteOpening::Locked { path: "Inbox/e.snote".to_string(), ask: false }
    );
    assert_eq!(workspace.quick_lock(), QuickLock::Unlock(id(2)));
    workspace.unlocked.push(secret(2, "Secret"));
    assert_eq!(workspace.plan_opening(id(2), true), NoteOpening::ShowUnlocked);
    workspace.active = Some(plain(1, "A"));
    assert_eq!(workspace.quick_lock(), QuickLock::Encrypt);
    assert_eq!(
        workspace.plan_dispatch(RowTarget::Note(id(1))),
        Dispatch::AlreadyOpen
    );
    assert_eq!(
        workspace.plan_dispatch(RowTarget::Note(id(2))),
        Dispatch::Leave(id(2))
    );
    assert_eq!(
        workspace.plan_dispatch(RowTarget::Trash(id(2))),
        Dispatch::ShowTrash(id(2))
    );
}

#[test]
fn actions_are_about_the_selected_row() {
    let mut workspace = Workspace::default();
    workspace.flow.select_note(id(1));
    assert_eq!(workspace.note_to_trash(None), Some(id(1)));
    assert_eq!(
        workspace.note_to_trash(Some(RowTarget::Note(id(2)))),
        Some(id(2))
    );
    workspace.flow.select_trash(id(3));
    assert_eq!(workspace.note_to_trash(Some(RowTarget::Note(id(2)))), None);
    assert_eq!(workspace.entry_in_trash(None), Some(id(3)));
    assert_eq!(
        workspace.entry_in_trash(Some(RowTarget::Trash(id(4)))),
        Some(id(4))
    );
}

#[test]
fn a_note_is_taken_out_to_be_encrypted() {
    let mut workspace = Workspace::default();
    assert!(workspace.take_plain_active().is_none());
    workspace.active = Some(plain(1, "A"));
    let (taken, taken_stamp) = workspace.take_plain_active().unwrap();
    assert!(workspace.active.is_none());
    workspace.put_plain_active(taken, taken_stamp);
    assert!(!workspace.active.as_ref().unwrap().is_encrypted());
    let (taken, taken_stamp) = workspace.take_plain_active().unwrap();
    let (_, session) = encrypt_new(id(1), b"x", PW).ok().unwrap();
    workspace.note_encrypted(taken, taken_stamp, session, 5);
    assert!(workspace.active.as_ref().unwrap().is_encrypted());
    assert_eq!(workspace.last_activity, Some(5));
    assert!(workspace.take_plain_active().is_none());
    workspace.encryption_removed(note(1, "A", "Inbox/a.md"), stamp(3));
    assert!(!workspace.active.as_ref().unwrap().is_encrypted());
    assert_eq!(workspace.last_activity, None);
}

#[test]
fn the_switcher_shows_the_other_vaults() {
    let list: Vec<String> = ["/a", "/link", "/c"].iter().map(|p| p.to_string()).collect();
    let resolved: Vec<String> = ["/a", "/b", "/c"].iter().map(|p| p.to_string()).collect();
    assert_eq!(recents_shown(&list, &resolved, Some("/b")), vec!["/a", "/c"]);
    assert_eq!(recents_shown(&list, &resolved, None).len(), 3);
    assert_eq!(recent_label("Notes", true), "Notes");
    assert_eq!(recent_label("Notes", false), "Notes  (missing)");
    assert_eq!(sidebar_vaults(3), (3, false));
    assert_eq!(sidebar_vaults(4), (4, false));
    assert_eq!(sidebar_vaults(5), (4, true));
    assert_eq!(switcher_status(true, Some("old")), "Read-only · old");
    assert_eq!(switcher_status(true, None), "Read-only");
    assert_eq!(switcher_status(false, None), "");
    assert_eq!(opened_status(true, None, Some("x"), None), "This vault is open read-only.");
    assert_eq!(
        opened_status(false, None, Some("x"), Some("y")),
        "Vault opened without live updates: x"
    );
    assert_eq!(
        opened_status(false, None, None, Some("y")),
        "Vault opened; settings were not saved: y"
    );
    assert_eq!(opened_status(false, None, None, None), "Saved");
}

#[test]
fn only_a_sealed_vault_that_is_open_has_a_lock() {
    let mut workspace = Workspace::default();
    assert!(!workspace.vault_actions().rename_vault);
    assert_eq!(workspace.vault_badge(), None);
    workspace.vault = Some(vault(false, false));
    let actions = workspace.vault_actions();
    assert!(actions.rename_vault && !actions.lock_vault);
    assert_eq!(workspace.vault_badge(), None);
    workspace.vault = Some(vault(true, false));
    workspace.read_only = true;
    let actions = workspace.vault_actions();
    assert!(actions.lock_vault && !actions.export_standard_vault);
    assert!(workspace.vault_badge().unwrap().lock_button);
}

#[test]
fn signals_are_the_users_again_when_the_last_change_ends() {
    let mut gate = SignalGate::new();
    gate.suppress();
    gate.suppress();
    gate.release();
    assert!(gate.is_suppressed());
    gate.release();
    gate.release();
    assert!(!gate.is_suppressed());
}
