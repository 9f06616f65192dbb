use senatorial_notes::config::SortOrder;
use senatorial_notes::ident::Uuid;
use senatorial_notes::model::{NoteSummary, Timestamp};
use senatorial_notes::search::summary_matches;
use senatorial_notes::sort::sort_notes;

fn at(seconds: i64) -> Timestamp {
    Timestamp { seconds, nanos: 0 }
}

fn searchable(title: &str, body: &str, tags: &[&str]) -> NoteSummary {
    NoteSummary {
        id: Uuid::new_v4(),
        title: title.into(),
        created_at: at(0),
        updated_at: at(0),
        relative_path: "Inbox/note.md".to_string(),
        preview: String::new(),
        body: body.into(),
        tags: tags.iter().map(|tag| (*tag).to_string()).collect(),
        encrypted: false,
        pinned: false,
        favourite: false,
        archived: false,
        locked: false,
    }
}

fn summary(title: &str, updated_at_seconds: i64, pinned: bool) -> NoteSummary {
    summary_with_created(title, updated_at_seconds, updated_at_seconds, pinned)
}

fn summary_with_created(
    title: &str,
    created_at_seconds: i64,
    updated_at_seconds: i64,
    pinned: bool,
) -> NoteSummary {
    let mut note = searchable(title, "", &[]);
    note.created_at = at(created_at_seconds);
    note.updated_at = at(updated_at_seconds);
    note.pinned = pinned;
    note
}

fn titles(notes: &[NoteSummary]) -> Vec<&str> {
    notes.iter().map(|note| note.title.as_str()).collect()
}

#[test]
fn matches_title_body_and_tags_case_insensitively() {
    let note = searchable("Weekly Plan", "Buy MILK and eggs", &["errands", "home"]);
    assert!(summary_matches(&note, ""));
    assert!(summary_matches(&note, "weekly"));
    assert!(summary_matches(&note, "milk"));
    assert!(summary_matches(&note, "ERRANDS"));
    assert!(!summary_matches(&note, "quarterly"));
}

#[test]
fn locked_encrypted_notes_never_match_body_or_tags() {
    let mut note = searchable("Locked Note", "TOP SECRET launch codes", &["classified"]);
    note.encrypted = true;
    assert!(!summary_matches(&note, "secret"));
    assert!(!summary_matches(&note, "classified"));
    // The placeholder title is still searchable.
    assert!(summary_matches(&note, "locked"));
}

#[test]
fn queries_are_trimmed_and_fold_letters_beyond_ascii() {
    let note = searchable("Überblick", "", &[]);
    assert!(summary_matches(&note, "  ÜBER  "));
    assert!(summary_matches(&note, "\t\n"));
    assert!(!summary_matches(&note, "uber"));
}

#[test]
fn default_order_is_pinned_first_then_recency_then_title() {
    let mut notes = vec![
        summary("Zebra", 100, false),
        summary("Apple", 100, true),
        summary("Mango", 200, false),
    ];
    sort_notes(&mut notes, None);
    assert_eq!(titles(&notes), vec!["Apple", "Mango", "Zebra"]);
}

#[test]
fn explicit_last_edited_drops_pinned_first_grouping() {
    let mut notes = vec![summary("Older", 100, true), summary("Newer", 200, false)];
    sort_notes(&mut notes, Some(SortOrder::LastEdited));
    assert_eq!(
        titles(&notes),
        vec!["Newer", "Older"],
        "an explicit sort choice must not silently regroup by pinned state"
    );
}

#[test]
fn title_sorts_are_case_insensitive_in_both_directions() {
    let mut notes = vec![
        summary("banana", 0, false),
        summary("Apple", 0, false),
        summary("cherry", 0, false),
    ];
    sort_notes(&mut notes, Some(SortOrder::TitleAsc));
    assert_eq!(titles(&notes), vec!["Apple", "banana", "cherry"]);
    sort_notes(&mut notes, Some(SortOrder::TitleZa));
    assert_eq!(titles(&notes), vec!["cherry", "banana", "Apple"]);
}

#[test]
fn equal_sort_keys_break_ties_deterministically_by_uuid() {
    let mut first = vec![summary("Same", 100, false), summary("Same", 100, false)];
    let mut second: Vec<NoteSummary> = first.iter().map(|note| note.copy()).collect();
    sort_notes(&mut first, Some(SortOrder::LastEdited));
    sort_notes(&mut second, Some(SortOrder::LastEdited));
    assert_eq!(
        first.iter().map(|note| note.id).collect::<Vec<_>>(),
        second.iter().map(|note| note.id).collect::<Vec<_>>(),
        "sorting the same input twice must always produce the same order"
    );
}

#[test]
fn date_created_sorts_by_created_at_not_updated_at() {
    let mut notes = vec![
        summary_with_created("Old", 100, 900, false),
        summary_with_created("New", 500, 500, false),
    ];
    sort_notes(&mut notes, Some(SortOrder::DateCreated));
    assert_eq!(
        titles(&notes),
        vec!["New", "Old"],
        "DateCreated must sort by created_at (New=500 before Old=100), not updated_at"
    );
}

#[test]
fn the_order_does_not_depend_on_where_notes_stood() {
    let one = summary("Same", 100, false);
    let two = summary("Same", 100, false);
    let mut left = vec![one.copy(), two.copy()];
    let mut right = vec![two.copy(), one.copy()];
    sort_notes(&mut left, None);
    sort_notes(&mut right, None);
    assert_eq!(left, right);
}

#[test]
fn an_empty_query_matches_everything() {
    let mut note = searchable("Plan", "body", &["tag"]);
    assert!(summary_matches(&note, ""));
    assert!(summary_matches(&note, " \t\u{3000}"));
    note.encrypted = true;
    assert!(summary_matches(&note, " "));
    assert!(!summary_matches(&note, "body"));
}
