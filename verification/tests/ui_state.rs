use senatorial_notes::ident::Uuid;
use senatorial_notes::ui_state::{
    parse_view_token, view_token, FilterState, RowTarget, SelectionCoordinator, SelectionIntent,
    UiFlow, ViewMode,
};

fn notebook(path: &str) -> ViewMode {
    ViewMode::Notebook(path.to_string())
}

#[test]
fn programmatic_selection_is_suppressed_until_the_guard_drops() {
    let mut coordinator = SelectionCoordinator::default();
    let id = Uuid::new_v4();
    coordinator.replace_rows(vec![RowTarget::Note(id)]);

    let guard = coordinator.suppress();
    assert_eq!(
        coordinator.selection_intent(0),
        SelectionIntent::Suppressed
    );
    coordinator.release(guard);

    assert_eq!(
        coordinator.selection_intent(0),
        SelectionIntent::Activate(RowTarget::Note(id))
    );
}

#[test]
fn nested_suppression_remains_active_until_the_outer_update_finishes() {
    let mut coordinator = SelectionCoordinator::default();
    let outer = coordinator.suppress();
    let inner = coordinator.suppress();
    assert!(coordinator.is_suppressed());
    coordinator.release(inner);
    assert!(coordinator.is_suppressed());
    coordinator.release(outer);
    assert!(!coordinator.is_suppressed());
}

#[test]
fn every_smart_view_has_a_distinct_heading_and_search_placeholder() {
    assert_eq!(ViewMode::AllNotes.heading(), "All Notes");
    assert_eq!(ViewMode::AllNotes.search_placeholder(), "Search notes");
    assert_eq!(ViewMode::Pinned.heading(), "Pinned");
    assert_eq!(ViewMode::Pinned.search_placeholder(), "Search Pinned");
    assert_eq!(ViewMode::RecentlyEdited.heading(), "Recently Edited");
    assert_eq!(ViewMode::Archive.heading(), "Archive");
    assert_eq!(ViewMode::Trash.heading(), "Trash");
    assert_eq!(ViewMode::Trash.search_placeholder(), "Search Trash");
    // "All Notes" must never present another view's placeholder.
    assert_ne!(
        ViewMode::AllNotes.search_placeholder(),
        ViewMode::Pinned.search_placeholder()
    );
}

#[test]
fn notebook_heading_is_the_notebook_s_own_name_not_its_full_path() {
    let nested = notebook("Work/Projects");
    assert_eq!(nested.heading(), "Projects");
    assert_eq!(nested.search_placeholder(), "Search Projects");

    let top_level = notebook("Inbox");
    assert_eq!(top_level.heading(), "Inbox");
}

#[test]
fn notebook_selection_survives_switching_between_note_views() {
    let mut flow = UiFlow::default();
    let id = Uuid::new_v4();
    flow.select_note(id);
    flow.switch_view(notebook("Inbox"));
    assert_eq!(flow.view(), &notebook("Inbox"));
    assert_eq!(flow.selected_note(), Some(id));
    flow.switch_view(ViewMode::AllNotes);
    assert_eq!(flow.selected_note(), Some(id));
}

#[test]
fn switching_to_trash_clears_note_selection_and_back_clears_trash_selection() {
    let mut flow = UiFlow::default();
    let note_id = Uuid::new_v4();
    let trash_id = Uuid::new_v4();
    flow.select_note(note_id);
    flow.switch_view(ViewMode::Trash);
    assert_eq!(flow.selected_note(), None, "leaving a note view clears it");

    flow.select_trash(trash_id);
    flow.switch_view(ViewMode::AllNotes);
    assert_eq!(
        flow.selected_trash(),
        None,
        "leaving Trash for any note view clears the trash selection"
    );
}

#[test]
fn filter_state_starts_with_no_active_tag_and_can_be_cleared() {
    let mut filter = FilterState::default();
    assert_eq!(filter.active_tag(), None);
    filter.set_active_tag(Some("errands".to_string()));
    assert_eq!(filter.active_tag(), Some("errands"));
    filter.clear();
    assert_eq!(filter.active_tag(), None);
}

#[test]
fn view_token_round_trips_every_view() {
    for view in [
        ViewMode::AllNotes,
        ViewMode::Pinned,
        ViewMode::RecentlyOpened,
        ViewMode::Favourites,
        ViewMode::Archive,
        ViewMode::Trash,
        notebook("Inbox"),
        notebook("Work/Projects"),
    ] {
        let token = view_token(&view);
        assert_eq!(
            parse_view_token(&token),
            Some(view.copy()),
            "token {token:?} must round-trip"
        );
    }
}

#[test]
fn parse_view_token_rejects_garbage_and_falls_back_to_none() {
    assert_eq!(parse_view_token(""), None);
    assert_eq!(parse_view_token("not-a-view"), None);
    assert_eq!(
        parse_view_token("notebook:Anything/Here"),
        Some(notebook("Anything/Here"))
    );
}

#[test]
fn the_token_of_the_removed_view_opens_recently_opened() {
    assert_eq!(
        parse_view_token("recently-edited"),
        Some(ViewMode::RecentlyOpened)
    );
    assert_eq!(
        parse_view_token("encrypted-notes"),
        Some(ViewMode::EncryptedNotes)
    );
}

#[test]
fn rows_keep_their_order_under_insertion_and_removal() {
    let mut coordinator = SelectionCoordinator::default();
    let a = RowTarget::Note(Uuid::from_u128(1));
    let b = RowTarget::Note(Uuid::from_u128(2));
    let c = RowTarget::Trash(Uuid::from_u128(1));
    coordinator.replace_rows(vec![a, c]);
    coordinator.insert_row(1, b);
    assert_eq!(coordinator.rows(), vec![a, b, c]);
    assert_eq!(coordinator.index_of(c), Some(2));
    assert_eq!(coordinator.target_at(-1), None);
    assert_eq!(coordinator.target_at(3), None);
    assert_eq!(coordinator.remove_row(b), Some(1));
    assert_eq!(coordinator.remove_row(b), None);
    assert_eq!(coordinator.rows(), vec![a, c]);
    assert_eq!(coordinator.selection_intent(7), SelectionIntent::Nothing);
}

#[test]
fn a_row_far_behind_the_end_is_put_at_the_end() {
    let mut coordinator = SelectionCoordinator::default();
    let a = RowTarget::Note(Uuid::from_u128(1));
    coordinator.insert_row(9, a);
    assert_eq!(coordinator.rows(), vec![a]);
}

#[test]
fn selecting_in_the_other_list_switches_the_view() {
    let mut flow = UiFlow::default();
    let id = Uuid::from_u128(5);
    flow.select_trash(id);
    assert_eq!(flow.view(), &ViewMode::Trash);
    flow.select_note(id);
    assert_eq!(flow.view(), &ViewMode::AllNotes);
    assert_eq!(flow.selected_trash(), None);
    flow.note_moved_to_trash(id);
    assert_eq!(flow.selected_note(), None);
    flow.select_trash(id);
    flow.note_restored(Uuid::from_u128(6));
    assert_eq!(flow.selected_trash(), Some(id));
    flow.note_restored(id);
    assert_eq!(flow.selected_trash(), None);
    flow.select_note(id);
    flow.clear_selection();
    assert_eq!(flow.selected_note(), None);
}
