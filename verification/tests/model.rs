use senatorial_notes::ident::Uuid;
use senatorial_notes::model::{
    join_front_matter, locked_note_suffix, split_front_matter, FieldValue, Note, NoteMetadata,
    NoteSummary, Timestamp,
};
use senatorial_notes::Error;

#[test]
fn locked_note_labels_are_deterministic_and_distinguish_different_notes() {
    let a = Uuid::new_v4();
    let b = Uuid::new_v4();
    let summary_a1 = NoteSummary::locked(a, "Inbox/a.snote".to_string());
    let summary_a2 = NoteSummary::locked(a, "Inbox/a.snote".to_string());
    let summary_b = NoteSummary::locked(b, "Inbox/b.snote".to_string());

    assert_eq!(
        summary_a1.title, summary_a2.title,
        "the same note's locked label must be stable across calls"
    );
    assert_ne!(
        summary_a1.title, summary_b.title,
        "two different notes must not share a locked label"
    );
}

#[test]
fn locked_note_label_reveals_only_the_uuid_derived_suffix() {
    let id = Uuid::new_v4();
    let summary = NoteSummary::locked(id, "Inbox/note.snote".to_string());

    assert!(summary.title.starts_with("Locked Note"));
    let suffix = locked_note_suffix(id);
    assert!(summary.title.ends_with(&suffix));
    assert_eq!(suffix.len(), 8);
    assert!(suffix
        .chars()
        .all(|c| c.is_ascii_hexdigit() && !c.is_ascii_lowercase()));

    // The label carries no other protected data.
    assert_eq!(summary.body, "");
    assert!(summary.tags.is_empty());
    assert_eq!(summary.preview, "Encrypted — unlock to view");
}

#[test]
fn locked_suffix_is_the_first_digits_in_upper_case() {
    let id = Uuid::from_u128(0x0abcdef1_0000_0000_0000_000000000000);
    assert_eq!(locked_note_suffix(id), "0ABCDEF1");
    let summary = NoteSummary::locked(id, "x.snote".to_string());
    assert_eq!(summary.title, "Locked Note · 0ABCDEF1");
    assert!(summary.locked && summary.encrypted);
    assert!(!summary.pinned && !summary.favourite && !summary.archived);
    assert_eq!(summary.created_at, Timestamp::epoch());
}

#[test]
fn random_identifiers_differ() {
    let a = Uuid::new_v4();
    let b = Uuid::new_v4();
    assert_ne!(a, b);
    // The version and the variant of a random identifier.
    assert_eq!((a.value >> 76) & 0xf, 4);
    assert_eq!((a.value >> 62) & 0x3, 2);
}

#[test]
fn identifiers_are_written_in_lower_case() {
    let id = Uuid::from_u128(0x0123456789abcdef0123456789ABCDEF);
    assert_eq!(id.simple(), "0123456789abcdef0123456789abcdef");
    assert_eq!(id.hyphenated(), "01234567-89ab-cdef-0123-456789abcdef");
    let mut bytes = Vec::new();
    id.write(&mut bytes);
    assert_eq!(bytes.len(), 16);
    assert_eq!(bytes[0], 0x01);
    assert_eq!(bytes[15], 0xef);
    assert_eq!(Uuid::read(&bytes, 0), id);
}

#[test]
fn tags_are_trimmed_and_kept_once() {
    let mut metadata = NoteMetadata::new("Title");
    assert!(metadata.add_tag("  Work "));
    assert!(!metadata.add_tag("work"));
    assert!(!metadata.add_tag("   "));
    assert!(metadata.add_tag("Ärger"));
    assert!(!metadata.add_tag("ärger"));
    assert_eq!(metadata.tags, vec!["Work", "Ärger"]);
    assert!(metadata.remove_tag("WORK"));
    assert!(!metadata.remove_tag("WORK"));
    assert_eq!(metadata.tags, vec!["Ärger"]);
}

#[test]
fn clearing_overwrites_what_is_protected() {
    let mut note = Note::new("Secret", "Inbox/secret.md".to_string());
    note.body = "very secret".to_string();
    note.metadata.add_tag("private");
    note.metadata.unknown = vec![
        ("mood".to_string(), FieldValue::Text("hidden".to_string())),
        ("rank".to_string(), FieldValue::Number("7".to_string())),
        (
            "places".to_string(),
            FieldValue::List(vec![
                FieldValue::Text("home".to_string()),
                FieldValue::Bool(true),
                FieldValue::Null,
            ]),
        ),
        (
            "people".to_string(),
            FieldValue::Fields(vec![(FieldValue::Text("Ada".to_string()), FieldValue::Null)]),
        ),
        (
            "kind".to_string(),
            FieldValue::Tagged(
                "!mark".to_string(),
                Box::new(FieldValue::Text("private".to_string())),
            ),
        ),
    ];
    note.metadata.pinned = true;
    let id = note.metadata.id;
    note.clear_sensitive();
    assert_eq!(note.metadata.title, "");
    assert_eq!(note.body, "");
    assert_eq!(note.metadata.tags, vec![""]);
    assert_eq!(
        note.metadata.unknown,
        vec![
            ("mood".to_string(), FieldValue::Text(String::new())),
            ("rank".to_string(), FieldValue::Number("7".to_string())),
            (
                "places".to_string(),
                FieldValue::List(vec![
                    FieldValue::Text(String::new()),
                    FieldValue::Bool(true),
                    FieldValue::Null,
                ]),
            ),
            ("people".to_string(), FieldValue::Fields(Vec::new())),
            (
                "kind".to_string(),
                FieldValue::Tagged("!mark".to_string(), Box::new(FieldValue::Text(String::new()))),
            ),
        ]
    );
    assert!(note.metadata.pinned);
    assert_eq!(note.metadata.id, id);
    assert_eq!(note.relative_path, "Inbox/secret.md");
}

#[test]
fn front_matter_is_split_and_joined() {
    let file = join_front_matter("title: A\n", "Body\n");
    assert_eq!(file, "---\ntitle: A\n---\nBody\n");
    let (yaml, body) = split_front_matter(&file).unwrap();
    assert_eq!(yaml, "title: A");
    assert_eq!(body, "Body\n");
}

#[test]
fn front_matter_needs_both_lines() {
    assert!(matches!(
        split_front_matter("no front matter"),
        Err(Error::InvalidFrontMatter(_))
    ));
    assert!(matches!(
        split_front_matter("---\ntitle: A\n"),
        Err(Error::InvalidFrontMatter(_))
    ));
}

#[test]
fn summaries_preview_the_first_words() {
    let mut note = Note::new("T", "Inbox/t.md".to_string());
    note.body = (1..=30).map(|n| format!("w{n}  \n")).collect::<String>();
    let summary = NoteSummary::from(&note);
    let expected = (1..=24).map(|n| format!("w{n}")).collect::<Vec<_>>().join(" ");
    assert_eq!(summary.preview, expected);
    assert_eq!(summary.body, note.body);
    assert!(!summary.locked && !summary.encrypted);
    assert_eq!(summary.copy(), summary);
}

#[test]
fn moments_are_ordered() {
    let early = Timestamp { seconds: 1, nanos: 9 };
    let late = Timestamp { seconds: 2, nanos: 0 };
    assert!(early.before(&late));
    assert!(!late.before(&early));
    assert!(!late.before(&late));
    assert!(Timestamp::epoch().before(&Timestamp::now()));
}

#[test]
fn drawn_identifiers_are_marked_as_random() {
    let id = Uuid::new_v4();
    let text = id.hyphenated();
    assert_eq!(text.as_bytes()[14], b'4');
    assert!(matches!(text.as_bytes()[19], b'8' | b'9' | b'a' | b'b'));
    assert_ne!(Uuid::new_v4(), id);
}

#[test]
fn the_present_is_after_the_epoch() {
    let now = Timestamp::now();
    assert!(Timestamp::epoch().before(&now));
    assert!(now.nanos < 1_000_000_000);
}
