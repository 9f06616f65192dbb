use senatorial_notes::config::{Accent, AppearanceConfig, NoteListDensity, SortOrder, Theme};
use senatorial_notes::formatting::FormatAction;
use senatorial_notes::ident::Uuid;
use senatorial_notes::markdown_spans::SpanKind;
use senatorial_notes::model::{Note, NoteMetadata, NoteSummary, Timestamp};
use senatorial_notes::vault::FileStamp;
use senatorial_notes::vault_export::{ExportProgress, ExportReport};
use senatorial_notes::workspace::dialogs::{
    change_failure, check_name, check_password, check_password_change, export_refusal,
    export_status, export_summary, format_timestamp, new_notebook_path, open_secret_path,
    removal_failure, NoteInfo,
};
use senatorial_notes::workspace::document::{ActiveDocument, OpenVault, Workspace};
use senatorial_notes::workspace::editor::{
    byte_to_char, char_to_byte, common_affix_bytes, content_tag_name, covers_range, format_buffer,
    markdown_styles, plan_replacement, probe_position,
};
use senatorial_notes::workspace::menus::{
    accelerator, application_menu, format_action_name, format_actions, format_menus,
    note_context_menu, note_overflow_menu, notebook_context_menu, order_of_target, sort_menu,
    sort_target, trash_context_menu, MenuItem,
};
use senatorial_notes::workspace::preferences::{
    accent_colors, accent_index, accent_of_index, appearance_css, density_index, density_of_index,
    entered_font, line_padding, side_margin, theme_index, theme_of_index, width_index,
    width_of_index,
};
use senatorial_notes::Error;

fn id(number: u128) -> Uuid {
    Uuid::from_u128(number)
}

fn workspace_with(body: &str, path: &str) -> Workspace {
    let note = Note {
        metadata: NoteMetadata::with("Title", id(1), Timestamp::epoch()),
        body: body.to_string(),
        relative_path: path.to_string(),
    };
    let mut workspace = Workspace::default();
    workspace.notes = vec![NoteSummary::from(&note)];
    workspace.active = Some(ActiveDocument::Plain {
        note,
        stamp: FileStamp {
            modified: Timestamp::epoch(),
            length: 0,
            fingerprint: 0,
        },
    });
    workspace
}

fn labels(items: &[MenuItem]) -> Vec<&'static str> {
    items.iter().map(|item| item.label).collect()
}

#[test]
fn menus_follow_the_state_of_a_note() {
    assert_eq!(
        labels(&note_context_menu(false, true, false)),
        vec![
            "Rename",
            "Pin",
            "Toggle Favourite",
            "Unarchive",
            "Move to Notebook…",
            "Encrypt Note…",
            "Note Information",
            "Move to Trash"
        ]
    );
    assert!(!labels(&note_context_menu(true, false, true)).contains(&"Encrypt Note…"));
    assert_eq!(labels(&trash_context_menu()), vec!["Restore", "Permanently Delete…"]);
    assert_eq!(notebook_context_menu()[2].action, "app.delete-notebook");
    let menu = note_overflow_menu(false, true, true, true);
    assert_eq!(labels(&menu.organise), vec!["Archive"]);
    assert_eq!(
        labels(&menu.encryption),
        vec!["Change Note Password…", "Remove Note Encryption…"]
    );
    assert!(menu.danger.is_empty());
    let writable = note_overflow_menu(false, false, true, false);
    assert_eq!(labels(&writable.encryption), vec!["Encrypt Note…"]);
    assert_eq!(labels(&writable.danger), vec!["Delete"]);
    assert_eq!(application_menu().vaults.len(), 4);
    assert_eq!(format_menus().blocks[5].action, "app.format-divider");
}

#[test]
fn quick_actions_of_a_locked_note_can_unlock_it() {
    let mut workspace = workspace_with("", "Inbox/a.md");
    let shown = workspace.quick_actions().unwrap();
    assert_eq!(shown.lock_tip, "Encrypt Note");
    assert!(shown.marks_enabled);
    workspace.active = None;
    workspace.read_only = true;
    workspace.notes = vec![NoteSummary::locked(id(1), "Inbox/e.snote".to_string())];
    assert_eq!(workspace.quick_actions(), None);
    workspace.flow.select_note(id(1));
    let locked = workspace.quick_actions().unwrap();
    assert_eq!(locked.lock_tip, "Unlock Note");
    assert!(locked.lock_enabled && !locked.marks_enabled);
}

#[test]
fn orders_are_named() {
    for order in [
        SortOrder::LastEdited,
        SortOrder::DateCreated,
        SortOrder::TitleAsc,
        SortOrder::TitleZa,
    ] {
        assert_eq!(order_of_target(sort_target(Some(order))), Some(order));
    }
    assert_eq!(sort_target(None), "last-edited");
    assert_eq!(order_of_target("random"), None);
    assert_eq!(sort_menu()[3].action, "title-za");
}

#[test]
fn every_format_has_an_action() {
    let names: std::collections::HashSet<&str> = format_actions()
        .into_iter()
        .map(format_action_name)
        .collect();
    assert_eq!(names.len(), 16);
    assert!(names.contains("format-inline-code"));
    assert_eq!(accelerator("app.format-bold"), Some("<Primary>b"));
    assert_eq!(accelerator("app.about"), None);
}

#[test]
fn passwords_are_checked_before_a_dialog_closes() {
    assert_eq!(check_password("", None, false).as_deref(), Some("Enter a password."));
    assert_eq!(check_password("short", None, false), None);
    assert_eq!(
        check_password("short", Some("other"), true).as_deref(),
        Some("The passwords do not match.")
    );
    assert_eq!(
        check_password("short", Some("short"), true).as_deref(),
        Some("Password is too short. SenatorialNotes requires at least 12 characters.")
    );
    assert_eq!(check_password("long enough pw", Some("long enough pw"), true), None);
    assert_eq!(
        check_password_change("", "x", "y").as_deref(),
        Some("Enter the current password.")
    );
    assert_eq!(
        check_password_change("old", "short", "short").as_deref(),
        Some("The new password is too short. SenatorialNotes requires at least 12 characters.")
    );
    assert_eq!(
        check_password_change("old", "long enough pw", "other").as_deref(),
        Some("The new passwords do not match.")
    );
    assert_eq!(check_password_change("old", "long enough pw", "long enough pw"), None);
}

#[test]
fn names_are_checked_before_a_dialog_closes() {
    assert_eq!(check_name("  "), Some("Enter a name."));
    assert_eq!(check_name("x"), None);
    assert_eq!(new_notebook_path(Some("Work"), " Sub ").unwrap(), "Work/Sub");
    assert_eq!(new_notebook_path(None, "Top").unwrap(), "Top");
    assert!(new_notebook_path(None, "a/b").is_err());
}

#[test]
fn failures_are_explained() {
    assert_eq!(
        change_failure(&Error::DecryptionFailed),
        "The current password is incorrect. The note was not changed."
    );
    assert_eq!(
        change_failure(&Error::WeakPassword("too short".to_string())),
        "The new password is too short. too short."
    );
    assert_eq!(
        change_failure(&Error::VaultLocked),
        "The password could not be changed: this encrypted vault is locked"
    );
    assert_eq!(
        removal_failure(&Error::DecryptionFailed),
        "The password is incorrect. Encryption was not removed."
    );
    assert_eq!(
        removal_failure(&Error::WrongNoteType),
        "Could not remove encryption: the requested operation is not valid for this note type"
    );
}

#[test]
fn errors_say_what_they_are() {
    let messages = [
        (
            Error::Io { path: "/a".to_string(), source: "denied".to_string() },
            "I/O error at /a: denied",
        ),
        (Error::NoteNotFound("x".to_string()), "note not found: x"),
        (
            Error::NotebookNotEmpty { relative_path: "Work".to_string(), note_count: 2 },
            "notebook Work is not empty (2 note(s) inside); move, archive, or delete its notes first",
        ),
        (
            Error::UnsupportedVaultVersion { found: 3, supported: 1 },
            "this vault was created by a newer version of SenatorialNotes (manifest format 3; this build supports up to 1)",
        ),
        (Error::VaultReadOnly, "this vault is open read-only and cannot be modified"),
        (
            Error::ReservedNotebook { relative_path: "Inbox".to_string() },
            "Inbox is a reserved notebook and cannot be renamed or deleted",
        ),
    ];
    for (error, message) in messages {
        assert_eq!(error.message(), message);
    }
}

#[test]
fn an_export_needs_an_unlocked_writable_vault() {
    let mut workspace = Workspace::default();
    assert_eq!(export_refusal(&workspace), Some(""));
    workspace.vault = Some(OpenVault {
        vault_id: id(1),
        root: "/v".to_string(),
        encrypted: true,
        locked: true,
    });
    assert_eq!(
        export_refusal(&workspace),
        Some("Unlock the Secure Vault before exporting it.")
    );
    workspace.vault.as_mut().unwrap().locked = false;
    assert_eq!(export_refusal(&workspace), None);
    workspace.read_only = true;
    assert!(export_refusal(&workspace).is_some());
    assert_eq!(workspace.vault_settings().unwrap().title, "Secure Vault Settings");
    assert_eq!(open_secret_path(&workspace), None);
}

#[test]
fn exports_report_their_progress() {
    let mut progress = ExportProgress::new();
    assert_eq!(export_status(&progress), "Preparing…");
    progress.set_total(3);
    progress.tick();
    assert_eq!(export_status(&progress), "Exporting notes… 1 / 3");
    progress.request_cancel();
    assert_eq!(export_status(&progress), "Cancelling…");
    let mut report = ExportReport {
        destination: "/out".to_string(),
        notes: 2,
        snotes: 1,
        notebooks: 1,
        trashed: 0,
    };
    assert_eq!(
        export_summary(&report),
        "Exported 3 note(s) to /out. The Secure Vault is unchanged."
    );
    report.trashed = 4;
    assert_eq!(
        export_summary(&report),
        "Exported 3 note(s) and 4 in Trash to /out. The Secure Vault is unchanged."
    );
}

#[test]
fn moments_are_shown_to_the_minute() {
    let moment = Timestamp { seconds: 1_431_648_059, nanos: 5 };
    assert_eq!(format_timestamp(moment), "2015-05-15 00:00 UTC");
    assert_eq!(format_timestamp(Timestamp::epoch()), "1970-01-01 00:00 UTC");
    let far = Timestamp { seconds: i64::MAX, nanos: 0 };
    assert_eq!(format_timestamp(far), "");
}

#[test]
fn information_on_a_note_is_complete_or_withheld() {
    let mut workspace = workspace_with("one two\nthree", "Work/Sub/a.md");
    workspace.add_tag("x");
    workspace.add_tag("y");
    match workspace.note_info(id(1)).unwrap() {
        NoteInfo::Details(details) => {
            assert_eq!(details.notebook, "Sub");
            assert_eq!(details.tags, "x, y");
            assert_eq!((details.words, details.characters), (3, 13));
            assert_eq!(details.encryption, "Not encrypted");
            assert_eq!(details.pinned, "No");
        }
        other => panic!("unexpected {other:?}"),
    }
    workspace.active = None;
    assert_eq!(
        workspace.note_info(id(1)),
        Some(NoteInfo::Locked { location: "Work/Sub/a.md".to_string() })
    );
    assert_eq!(workspace.note_info(id(2)), None);
}

#[test]
fn choices_of_the_preferences_are_read_back() {
    for theme in [Theme::System, Theme::Light, Theme::Dark] {
        assert_eq!(theme_of_index(theme_index(theme)), theme);
    }
    for density in [
        NoteListDensity::Compact,
        NoteListDensity::Comfortable,
        NoteListDensity::Spacious,
    ] {
        assert_eq!(density_of_index(density_index(density)), density);
    }
    for accent in [
        Accent::Blue,
        Accent::Teal,
        Accent::Green,
        Accent::Purple,
        Accent::Orange,
    ] {
        assert_eq!(accent_of_index(accent_index(accent)), accent);
    }
    for index in 0..3 {
        assert_eq!(width_index(width_of_index(index)), index);
    }
    assert_eq!((width_index(90), width_index(91), width_index(115)), (0, 1, 2));
    assert_eq!((side_margin(88), side_margin(108), side_margin(120)), (44, 26, 14));
    assert_eq!(line_padding(5), 2);
    assert_eq!(accent_colors(Accent::Teal).0, "#2190a4");
    assert_eq!(entered_font("  Mono "), Some("Mono".to_string()));
    assert_eq!(entered_font("  "), None);
}

#[test]
fn the_style_sheet_holds_no_foreign_quotes() {
    let mut config = AppearanceConfig::default();
    config.editor_font_family = "Ev\"il\\'".to_string();
    config.editor_font_size = 99;
    assert_eq!(
        appearance_css(&config),
        ".editor-view { font-family: \"Evil\"; font-size: 36px; }\n\
         .brand-accent { color: #3584e4; }\n\
         .note-list row:selected { background-color: alpha(#3584e4, 0.20); }\n\
         .sidebar-selected { background-color: alpha(#3584e4, 0.20); }"
    );
}

#[test]
fn positions_are_turned_into_each_other() {
    assert_eq!(char_to_byte("aéb", 2), 3);
    assert_eq!(char_to_byte("aéb", 9), 4);
    assert_eq!(byte_to_char("aéb", 3), 2);
    assert_eq!(byte_to_char("aéb", 99), 3);
    assert_eq!(common_affix_bytes("abcd", "abXcd"), (2, 2));
    assert_eq!(common_affix_bytes("aa", "aaa"), (2, 0));
}

#[test]
fn only_what_changed_is_replaced() {
    let replacement = plan_replacement("one two three", "one **two** three");
    assert_eq!(
        (replacement.start, replacement.end, replacement.text.as_str()),
        (4, 7, "**two**")
    );
    let accents = plan_replacement("é", "è");
    assert_eq!((accents.start, accents.end, accents.text.as_str()), (0, 1, "è"));
    // The common bytes at the back must be whole characters.
    let split = plan_replacement("éa", "èéa");
    assert_eq!((split.start, split.end, split.text.as_str()), (0, 1, "èé"));
    let same = plan_replacement("same", "same");
    assert_eq!((same.start, same.end, same.text.as_str()), (4, 4, ""));
}

#[test]
fn a_format_keeps_the_selection() {
    let edit = format_buffer("ä word", 2, 6, FormatAction::Bold);
    assert_eq!(edit.replacement.text, "**word**");
    assert_eq!((edit.selection_start, edit.selection_end), (4, 8));
    let wide = format_buffer("é", 0, 1, FormatAction::InlineCode);
    assert_eq!(wide.replacement.text, "`é`");
    assert_eq!((wide.selection_start, wide.selection_end), (1, 2));
}

#[test]
fn styles_follow_the_markup() {
    let styles: Vec<(&str, usize, usize)> = markdown_styles("é **b**")
        .into_iter()
        .map(|style| (style.name, style.start, style.end))
        .collect();
    assert_eq!(
        styles,
        vec![("md-marker", 2, 4), ("md-marker", 5, 7), ("md-bold", 4, 5)]
    );
    assert_eq!(
        content_tag_name(SpanKind::ChecklistItem { checked: true }),
        Some("md-checked")
    );
    assert_eq!(content_tag_name(SpanKind::BulletItem), None);
}

#[test]
fn the_style_of_a_cursor_is_that_before_it() {
    assert_eq!(probe_position(5, false), 4);
    assert_eq!(probe_position(5, true), 5);
    assert!(covers_range(&[true, true, false], 0, 2));
    assert!(!covers_range(&[true, true, false], 0, 3));
    assert!(covers_range(&[], 0, 0));
}
