use senatorial_notes::config::{
    keep_present, Accent, AppConfig, NoteListDensity, SortOrder, Theme, VaultKind,
    VaultSessionState, RECENTLY_OPENED_LIMIT, RECENT_VAULTS_LIMIT,
};
use senatorial_notes::ident::Uuid;
use senatorial_notes::model::Timestamp;

fn at(seconds: i64) -> Timestamp {
    Timestamp { seconds, nanos: 0 }
}

fn recents(config: &AppConfig) -> Vec<String> {
    config.recent_vaults.iter().map(|path| path.to_string()).collect()
}

fn remember(config: &mut AppConfig, key: &str) {
    let keys = recents(config);
    config.remember_vault(key, &keys);
}

#[test]
fn defaults_are_the_documented_ones() {
    let config = AppConfig::default();
    assert_eq!(config.autosave_delay_ms, 750);
    assert_eq!(config.title_commit_delay_ms, 1_500);
    assert_eq!(config.appearance.theme, Theme::System);
    assert_eq!(config.appearance.editor_font_family, "Sans");
    assert_eq!(config.appearance.editor_font_size, 16);
    assert_eq!(config.appearance.note_list_density, NoteListDensity::Comfortable);
    assert_eq!(config.appearance.accent, Accent::Blue);
    assert!(config.encrypted_note_locking.on_exit);
    assert_eq!(config.encrypted_note_locking.after_minutes, 0);
    assert_eq!(config.sort_order, None::<SortOrder>);
    assert!(!config.first_run_done);
}

#[test]
fn the_vault_that_was_opened_last_comes_first() {
    let mut config = AppConfig::default();
    remember(&mut config, "/a");
    remember(&mut config, "/b");
    remember(&mut config, "/a");
    assert_eq!(config.recent_vaults, vec!["/a", "/b"]);
    assert_eq!(config.last_vault.as_deref(), Some("/a"));
    for n in 0..20 {
        remember(&mut config, &format!("/v{n}"));
    }
    assert_eq!(config.recent_vaults.len(), RECENT_VAULTS_LIMIT);
    assert_eq!(config.recent_vaults[0], "/v19");
}

#[test]
fn the_same_folder_under_another_path_is_kept_once() {
    let mut config = AppConfig::default();
    config.recent_vaults = vec!["/link".to_string(), "/other".to_string()];
    let keys = vec!["/real".to_string(), "/other".to_string()];
    config.remember_vault("/real", &keys);
    assert_eq!(config.recent_vaults, vec!["/real", "/other"]);
}

#[test]
fn paths_are_compared_by_their_components() {
    let mut config = AppConfig::default();
    remember(&mut config, "/v/");
    remember(&mut config, "/w");
    remember(&mut config, "/v");
    assert_eq!(config.recent_vaults, vec!["/v", "/w"]);
    config.recent_vaults = vec!["/v".to_string(), "/./v/".to_string(), "v".to_string()];
    let keys = recents(&config);
    assert_eq!(config.recent_vaults_mru(&keys), vec!["/v", "v"]);
    config.last_vault = Some("/v/".to_string());
    config.forget_vault("/v", &keys, Some("/v/"));
    assert_eq!(config.recent_vaults, vec!["v"]);
    assert_eq!(config.last_vault, None);
}

#[test]
fn opening_a_vault_is_noted() {
    let mut config = AppConfig::default();
    config.record_vault_open_at("/a", &[], VaultKind::Encrypted, at(7));
    let info = config.vault_info("/a").unwrap();
    assert_eq!(info.kind, VaultKind::Encrypted);
    assert_eq!(info.last_opened, Some(at(7)));
    assert_eq!(config.vault_info("/b"), None);
    let keys = recents(&config);
    config.record_vault_open("/a", &keys, VaultKind::Ordinary);
    assert_eq!(config.vault_info("/a").unwrap().kind, VaultKind::Ordinary);
    assert!(config.vault_info("/a").unwrap().last_opened.is_some());
}

#[test]
fn a_name_is_trimmed_and_a_blank_one_taken_away() {
    let mut config = AppConfig::default();
    config.set_vault_display_name("/a", "  Mine ");
    assert_eq!(config.vault_display_name("/a"), Some("Mine"));
    config.set_vault_display_name("/a", "   ");
    assert_eq!(config.vault_display_name("/a"), None);
}

#[test]
fn the_use_of_a_vault_is_kept_by_its_identifier() {
    let mut config = AppConfig::default();
    let id = Uuid::from_u128(4);
    let mut session = VaultSessionState::default();
    assert!(session.is_empty());
    session.record_opened(Uuid::from_u128(1));
    session.record_opened(Uuid::from_u128(2));
    session.record_opened(Uuid::from_u128(1));
    assert_eq!(
        session.recently_opened,
        vec![Uuid::from_u128(1), Uuid::from_u128(2)]
    );
    assert_eq!(session.copy(), session);
    config.set_vault_session(id, session);
    assert_eq!(
        config.vault_session(id).unwrap().recently_opened.len(),
        2
    );
    // An empty state is not kept.
    config.set_vault_session(id, VaultSessionState::default());
    assert!(config.vault_session(id).is_none());
}

#[test]
fn the_list_of_opened_notes_is_bounded() {
    let mut session = VaultSessionState::default();
    for n in 0..100 {
        session.record_opened(Uuid::from_u128(n));
    }
    assert_eq!(session.recently_opened.len(), RECENTLY_OPENED_LIMIT);
    assert_eq!(session.recently_opened[0], Uuid::from_u128(99));
}

#[test]
fn a_forgotten_vault_leaves_every_list() {
    let mut config = AppConfig::default();
    remember(&mut config, "/b");
    remember(&mut config, "/a");
    config.set_vault_display_name("/a", "Mine");
    let keys = recents(&config);
    config.forget_vault("/a", &keys, Some("/a"));
    assert_eq!(config.recent_vaults, vec!["/b"]);
    assert_eq!(config.last_vault, None);
    assert_eq!(config.vault_info("/a"), None);
}

#[test]
fn sealed_vaults_are_listed_by_when_they_were_opened() {
    let mut config = AppConfig::default();
    config.record_vault_open_at("/old", &[], VaultKind::Encrypted, at(1));
    let keys = recents(&config);
    config.record_vault_open_at("/new", &keys, VaultKind::Encrypted, at(9));
    let keys = recents(&config);
    config.record_vault_open_at("/plain", &keys, VaultKind::Ordinary, at(5));
    assert_eq!(config.secure_vaults_mru(), vec!["/new", "/old"]);
    let keys = recents(&config);
    assert_eq!(
        config.recent_vaults_mru(&keys),
        vec!["/plain", "/new", "/old"]
    );
}

#[test]
fn missing_folders_are_dropped() {
    let list = vec!["/a".to_string(), "/b".to_string(), "/c".to_string()];
    assert_eq!(keep_present(&list, &[true, false, true]), vec!["/a", "/c"]);
}
