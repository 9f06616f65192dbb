//! What is kept between two starts of the application.
//!
//! A vault is known by its canonical path. Only the file system knows what is
//! canonical, so the functions here take such paths. The index goes by their text,
//! the lists by their components.

use vstd::prelude::*;

use crate::ident::Uuid;
use crate::model::Timestamp;
use crate::paths::{paths_equal, same_path};
use crate::text::{
    comes_before, copy_text, lemma_text_order, lemma_text_order_transitive, lemma_texts_push,
    same_text, text_before, texts, trim, trimmed,
};

verus! {

#[derive(Clone, Copy, Debug, PartialEq, Eq, Structural)]
pub enum Theme {
    System,
    Light,
    Dark,
}

impl Default for Theme {
    fn default() -> (theme: Theme)
        ensures
            theme == Theme::System,
    {
        Theme::System
    }
}

#[derive(Clone, Copy, Debug, PartialEq, Eq, Structural)]
pub enum NoteListDensity {
    Compact,
    Comfortable,
    Spacious,
}

impl Default for NoteListDensity {
    fn default() -> (density: NoteListDensity)
        ensures
            density == NoteListDensity::Comfortable,
    {
        NoteListDensity::Comfortable
    }
}

/// An order of the notes that the user chose. Without a choice the order is
/// another than with any of these.
#[derive(Clone, Copy, Debug, PartialEq, Eq, Structural)]
pub enum SortOrder {
    LastEdited,
    DateCreated,
    TitleAsc,
    TitleZa,
}

#[derive(Clone, Copy, Debug, PartialEq, Eq, Structural)]
pub enum Accent {
    Blue,
    Teal,
    Green,
    Purple,
    Orange,
}

impl Default for Accent {
    fn default() -> (accent: Accent)
        ensures
            accent == Accent::Blue,
    {
        Accent::Blue
    }
}

/// Whether a vault is encrypted as a whole.
#[derive(Clone, Copy, Debug, PartialEq, Eq, Structural)]
pub enum VaultKind {
    Ordinary,
    Encrypted,
}

impl Default for VaultKind {
    fn default() -> (kind: VaultKind)
        ensures
            kind == VaultKind::Ordinary,
    {
        VaultKind::Ordinary
    }
}

#[derive(Debug, PartialEq, Eq)]
pub struct AppearanceConfig {
    pub theme: Theme,
    pub editor_font_family: String,
    pub editor_font_size: u32,
    pub editor_line_spacing: u32,
    pub editor_content_width: u32,
    pub show_line_numbers: bool,
    pub note_list_density: NoteListDensity,
    pub note_preview_length: usize,
    pub accent: Accent,
}

impl Default for AppearanceConfig {
    fn default() -> (config: AppearanceConfig)
        ensures
            config.theme == Theme::System,
            config.editor_font_family@ == "Sans"@,
            config.editor_font_size == 16,
            config.editor_line_spacing == 4,
            config.editor_content_width == 108,
            !config.show_line_numbers,
            config.note_list_density == NoteListDensity::Comfortable,
            config.note_preview_length == 120,
            config.accent == Accent::Blue,
    {
        AppearanceConfig {
            theme: Theme::System,
            editor_font_family: "Sans".to_owned(),
            editor_font_size: 16,
            editor_line_spacing: 4,
            editor_content_width: 108,
            show_line_numbers: false,
            note_list_density: NoteListDensity::Comfortable,
            note_preview_length: 120,
            accent: Accent::Blue,
        }
    }
}

/// When encrypted notes and vaults are locked again.
#[derive(Clone, Copy, Debug, PartialEq, Eq, Structural)]
pub struct LockingConfig {
    pub on_note_switch: bool,
    pub on_focus_loss: bool,
    /// Zero is never.
    pub after_minutes: u32,
    pub on_minimize: bool,
    pub on_exit: bool,
}

impl Default for LockingConfig {
    fn default() -> (config: LockingConfig)
        ensures
            config == (LockingConfig {
                on_note_switch: false,
                on_focus_loss: false,
                after_minutes: 0,
                on_minimize: false,
                on_exit: true,
            }),
    {
        LockingConfig {
            on_note_switch: false,
            on_focus_loss: false,
            after_minutes: 0,
            on_minimize: false,
            on_exit: true,
        }
    }
}

/// How many notes the list of those that were opened last holds.
pub const RECENTLY_OPENED_LIMIT: usize = 25;

/// How many vaults the list of those that were opened last holds.
pub const RECENT_VAULTS_LIMIT: usize = 10;

/// The identifiers of a list other than one.
pub open spec fn without_id(list: Seq<Uuid>, id: Uuid) -> Seq<Uuid>
    decreases list.len(),
{
    if list.len() == 0 {
        seq![]
    } else if list.last() == id {
        without_id(list.drop_last(), id)
    } else {
        without_id(list.drop_last(), id).push(list.last())
    }
}

/// A list with an identifier in front, once, cut to a length.
pub open spec fn put_in_front(list: Seq<Uuid>, id: Uuid, limit: int) -> Seq<Uuid> {
    let all = seq![id] + without_id(list, id);
    if all.len() > limit {
        all.take(limit)
    } else {
        all
    }
}

/// What is left of a list keeps its order and does not hold the identifier.
proof fn lemma_without_id(list: Seq<Uuid>, id: Uuid)
    ensures
        without_id(list, id).len() <= list.len(),
        forall|i: int|
            0 <= i < without_id(list, id).len() ==> (#[trigger] without_id(list, id)[i]) != id
                && list.contains(without_id(list, id)[i]),
        list.no_duplicates() ==> without_id(list, id).no_duplicates(),
    decreases list.len(),
{
    if list.len() > 0 {
        let shorter = list.drop_last();
        lemma_without_id(shorter, id);
        let before = without_id(shorter, id);
        let all = without_id(list, id);
        assert forall|i: int| 0 <= i < all.len() implies (#[trigger] all[i]) != id
            && list.contains(all[i]) by {
            if i < before.len() {
                assert(all[i] == before[i]);
                let k = choose|k: int| 0 <= k < shorter.len() && shorter[k] == before[i];
                assert(list[k] == before[i]);
            } else {
                assert(list[list.len() - 1] == all[i]);
            }
        }
        if list.no_duplicates() {
            assert(shorter.no_duplicates());
            assert forall|i: int, j: int| 0 <= i < all.len() && 0 <= j < all.len() && i != j implies
                all[i] != all[j] by {
                if i < before.len() && j < before.len() {
                    assert(before[i] != before[j]);
                } else {
                    let k = if i < before.len() {
                        i
                    } else {
                        j
                    };
                    let m = choose|m: int| 0 <= m < shorter.len() && shorter[m] == before[k];
                    assert(list[m] != list[list.len() - 1]);
                }
            }
        }
    }
}

/// Putting an identifier in front keeps a list free of duplicates and within
/// its limit, and never loses another identifier to one that was there already.
pub proof fn law_put_in_front(list: Seq<Uuid>, id: Uuid, limit: int)
    requires
        limit > 0,
    ensures
        put_in_front(list, id, limit).len() <= limit,
        put_in_front(list, id, limit)[0] == id,
        list.no_duplicates() ==> put_in_front(list, id, limit).no_duplicates(),
        list.no_duplicates() && list.contains(id) && list.len() <= limit ==> put_in_front(
            list,
            id,
            limit,
        ).len() == list.len(),
{
    lemma_without_id(list, id);
    let rest = without_id(list, id);
    let all = seq![id] + rest;
    if list.no_duplicates() {
        assert forall|i: int, j: int| 0 <= i < all.len() && 0 <= j < all.len() && i != j implies
            all[i] != all[j] by {
            if i > 0 && j > 0 {
                assert(rest[i - 1] != rest[j - 1]);
            } else if i > 0 {
                assert(rest[i - 1] != id);
            } else {
                assert(rest[j - 1] != id);
            }
        }
        if list.contains(id) {
            lemma_without_one(list, id);
        }
    }
}

proof fn lemma_without_one(list: Seq<Uuid>, id: Uuid)
    requires
        list.no_duplicates(),
    ensures
        list.contains(id) ==> without_id(list, id).len() == list.len() - 1,
        !list.contains(id) ==> without_id(list, id).len() == list.len(),
    decreases list.len(),
{
    if list.len() > 0 {
        let shorter = list.drop_last();
        lemma_without_one(shorter, id);
        if list.last() == id {
            if shorter.contains(id) {
                let k = choose|k: int| 0 <= k < shorter.len() && shorter[k] == id;
                assert(list[k] == list[list.len() - 1]);
            }
        } else {
            if list.contains(id) {
                let k = choose|k: int| 0 <= k < list.len() && list[k] == id;
                assert(shorter[k] == id);
            } else {
                assert forall|k: int| 0 <= k < shorter.len() implies shorter[k] != id by {
                    assert(list[k] == shorter[k]);
                }
            }
        }
    }
}

/// What is kept of the use of a vault. It holds nothing of a note's contents.
#[derive(Debug, PartialEq, Eq)]
pub struct VaultSessionState {
    /// The note that was selected when the vault was left.
    pub last_note: Option<Uuid>,
    /// The token of the view that was shown.
    pub last_view: Option<String>,
    /// How far the editor was scrolled, as the bits of a number that is only
    /// carried through.
    pub editor_scroll: Option<u64>,
    /// The notes that were opened last, the latest first.
    pub recently_opened: Vec<Uuid>,
}

/// What a session state says, with its text as a sequence.
#[verifier::ext_equal]
pub struct SessionStateView {
    pub last_note: Option<Uuid>,
    pub last_view: Option<Seq<char>>,
    pub editor_scroll: Option<u64>,
    pub recently_opened: Seq<Uuid>,
}

impl View for VaultSessionState {
    type V = SessionStateView;

    open spec fn view(&self) -> SessionStateView {
        SessionStateView {
            last_note: self.last_note,
            last_view: match self.last_view {
                Some(text) => Some(text@),
                None => None,
            },
            editor_scroll: self.editor_scroll,
            recently_opened: self.recently_opened@,
        }
    }
}

impl VaultSessionState {
    /// This state once more.
    pub fn copy(&self) -> (copy: VaultSessionState)
        ensures
            copy@ == self@,
    {
        let mut recently_opened: Vec<Uuid> = Vec::new();
        let mut index: usize = 0;
        while index < self.recently_opened.len()
            invariant
                index <= self.recently_opened@.len(),
                recently_opened@ == self.recently_opened@.take(index as int),
            decreases self.recently_opened@.len() - index,
        {
            recently_opened.push(self.recently_opened[index]);
            index += 1;
            proof {
                assert(recently_opened@ =~= self.recently_opened@.take(index as int));
            }
        }
        proof {
            assert(self.recently_opened@.take(index as int) == self.recently_opened@);
        }
        VaultSessionState {
            last_note: self.last_note,
            last_view: match &self.last_view {
                Some(text) => Some(copy_text(text)),
                None => None,
            },
            editor_scroll: self.editor_scroll,
            recently_opened,
        }
    }
}

impl VaultSessionState {
    /// Whether there is nothing to keep.
    pub open spec fn is_empty_state(&self) -> bool {
        &&& self.last_note is None
        &&& self.last_view is None
        &&& self.editor_scroll is None
        &&& self.recently_opened@.len() == 0
    }

    /// Whether there is nothing to keep.
    pub fn is_empty(&self) -> (empty: bool)
        ensures
            empty == self.is_empty_state(),
    {
        self.last_note.is_none() && self.last_view.is_none() && self.editor_scroll.is_none()
            && self.recently_opened.len() == 0
    }

    /// Records a note as the one that was opened last.
    pub fn record_opened(&mut self, id: Uuid)
        ensures
            final(self).recently_opened@ == put_in_front(
                old(self).recently_opened@,
                id,
                RECENTLY_OPENED_LIMIT as int,
            ),
            final(self).recently_opened@.len() <= RECENTLY_OPENED_LIMIT,
            final(self).last_note == old(self).last_note,
            final(self).last_view == old(self).last_view,
            final(self).editor_scroll == old(self).editor_scroll,
    {
        let ghost list = self.recently_opened@;
        let mut opened: Vec<Uuid> = Vec::new();
        opened.push(id);
        let mut index: usize = 0;
        proof {
            assert(opened@ =~= seq![id] + without_id(list.take(0), id));
        }
        while index < self.recently_opened.len()
            invariant
                index <= self.recently_opened@.len(),
                *self == *old(self),
                list == self.recently_opened@,
                opened@ == seq![id] + without_id(list.take(index as int), id),
            decreases self.recently_opened@.len() - index,
        {
            proof {
                assert(list.take(index + 1).drop_last() =~= list.take(index as int));
            }
            if self.recently_opened[index] != id {
                opened.push(self.recently_opened[index]);
                proof {
                    assert(opened@ =~= seq![id] + without_id(list.take(index + 1), id));
                }
            }
            index += 1;
        }
        proof {
            assert(list.take(index as int) == list);
            assert((seq![id] + without_id(list, id)).subrange(0, 25) =~= (seq![id] + without_id(
                list,
                id,
            )).take(25));
        }
        opened.truncate(RECENTLY_OPENED_LIMIT);
        self.recently_opened = opened;
    }
}

impl Default for VaultSessionState {
    fn default() -> (session: VaultSessionState)
        ensures
            session.is_empty_state(),
    {
        VaultSessionState {
            last_note: None,
            last_view: None,
            editor_scroll: None,
            recently_opened: Vec::new(),
        }
    }
}

/// What is known of a vault without opening it. None of it is secret.
#[derive(Debug, PartialEq, Eq)]
pub struct VaultInfo {
    pub kind: VaultKind,
    /// The name that the user gave. Without one the folder's name is shown.
    pub display_name: Option<String>,
    pub last_opened: Option<Timestamp>,
}

/// What is known of the vault with a path.
#[derive(Debug, PartialEq, Eq)]
pub struct IndexEntry {
    pub key: String,
    pub info: VaultInfo,
}

/// What is kept of the use of the vault with an identifier.
#[derive(Debug, PartialEq, Eq)]
pub struct SessionEntry {
    pub vault_id: Uuid,
    pub session: VaultSessionState,
}

/// What is kept between two starts.
#[derive(Debug, PartialEq, Eq)]
pub struct AppConfig {
    /// The vaults that were opened last, the latest first.
    pub recent_vaults: Vec<String>,
    pub last_vault: Option<String>,
    pub first_run_done: bool,
    /// At most one entry for a path.
    pub vault_index: Vec<IndexEntry>,
    /// At most one entry for an identifier.
    pub vault_sessions: Vec<SessionEntry>,
    pub autosave_delay_ms: u64,
    pub title_commit_delay_ms: u64,
    pub appearance: AppearanceConfig,
    pub encrypted_note_locking: LockingConfig,
    pub sort_order: Option<SortOrder>,
}

impl Default for AppConfig {
    fn default() -> (config: AppConfig)
        ensures
            config.recent_vaults@.len() == 0,
            config.last_vault is None,
            !config.first_run_done,
            config.vault_index@.len() == 0,
            config.vault_sessions@.len() == 0,
            config.autosave_delay_ms == 750,
            config.title_commit_delay_ms == 1_500,
            config.sort_order is None,
            config.valid(),
    {
        AppConfig {
            recent_vaults: Vec::new(),
            last_vault: None,
            first_run_done: false,
            vault_index: Vec::new(),
            vault_sessions: Vec::new(),
            autosave_delay_ms: 750,
            title_commit_delay_ms: 1_500,
            appearance: AppearanceConfig::default(),
            encrypted_note_locking: LockingConfig::default(),
            sort_order: None,
        }
    }
}

/// The position of the entry for a path.
pub open spec fn index_position(index: Seq<IndexEntry>, key: Seq<char>, at: int) -> Option<int>
    decreases index.len() - at,
{
    if at >= index.len() {
        None
    } else if index[at].key@ == key {
        Some(at)
    } else {
        index_position(index, key, at + 1)
    }
}

/// The position of the entry for an identifier.
pub open spec fn session_position(sessions: Seq<SessionEntry>, id: Uuid, at: int) -> Option<int>
    decreases sessions.len() - at,
{
    if at >= sessions.len() {
        None
    } else if sessions[at].vault_id == id {
        Some(at)
    } else {
        session_position(sessions, id, at + 1)
    }
}

/// The texts of a list whose keys are other paths than a key.
pub open spec fn without_key(list: Seq<Seq<char>>, keys: Seq<Seq<char>>, key: Seq<char>) -> Seq<
    Seq<char>,
>
    decreases list.len(),
{
    if list.len() == 0 {
        seq![]
    } else {
        let before = without_key(list.drop_last(), keys, key);
        if same_path(keys[list.len() - 1], key) {
            before
        } else {
            before.push(list.last())
        }
    }
}

/// The vaults that were opened last once a vault is opened: it comes first, and
/// no entry with its key stays.
pub open spec fn remembered(list: Seq<Seq<char>>, keys: Seq<Seq<char>>, key: Seq<char>) -> Seq<
    Seq<char>,
> {
    let all = seq![key] + without_key(list, keys, key);
    if all.len() > RECENT_VAULTS_LIMIT {
        all.take(RECENT_VAULTS_LIMIT as int)
    } else {
        all
    }
}

/// Whether no two paths of a list are the same.
pub open spec fn paths_distinct(list: Seq<Seq<char>>) -> bool {
    forall|i: int, j: int|
        0 <= i < j < list.len() ==> !same_path(#[trigger] list[i], #[trigger] list[j])
}

/// What is left of a list has other keys, and holds no path twice where the list
/// does not.
proof fn lemma_without_key(list: Seq<Seq<char>>, keys: Seq<Seq<char>>, key: Seq<char>)
    requires
        keys.len() >= list.len(),
    ensures
        forall|i: int|
            0 <= i < without_key(list, keys, key).len() ==> exists|j: int|
                0 <= j < list.len() && !same_path(keys[j], key) && #[trigger] list[j]
                    == #[trigger] without_key(list, keys, key)[i],
        paths_distinct(list) ==> paths_distinct(without_key(list, keys, key)),
    decreases list.len(),
{
    if list.len() > 0 {
        let head = list.drop_last();
        let before = without_key(head, keys, key);
        lemma_without_key(head, keys, key);
        let all = without_key(list, keys, key);
        assert forall|i: int| 0 <= i < all.len() implies exists|j: int|
            0 <= j < list.len() && !same_path(keys[j], key) && #[trigger] list[j]
                == #[trigger] all[i] by {
            if i < before.len() {
                let j = choose|j: int|
                    0 <= j < head.len() && !same_path(keys[j], key) && #[trigger] head[j]
                        == before[i];
                assert(list[j] == all[i]);
            } else {
                assert(list[list.len() - 1] == all[i]);
            }
        }
        if paths_distinct(list) {
            assert(paths_distinct(head)) by {
                assert forall|i: int, j: int| 0 <= i < j < head.len() implies !same_path(
                    #[trigger] head[i],
                    #[trigger] head[j],
                ) by {
                    assert(!same_path(list[i], list[j]));
                }
            }
            assert forall|i: int, j: int| 0 <= i < j < all.len() implies !same_path(
                #[trigger] all[i],
                #[trigger] all[j],
            ) by {
                if j < before.len() {
                    assert(!same_path(before[i], before[j]));
                } else {
                    let k = choose|k: int|
                        0 <= k < head.len() && !same_path(keys[k], key) && #[trigger] head[k]
                            == before[i];
                    assert(!same_path(list[k], list[list.len() - 1]));
                }
            }
        }
    }
}

/// The vault that was opened last comes first among those that are offered. The
/// others were offered before under other keys; no more are kept than the limit,
/// and among canonical paths none twice.
pub proof fn law_latest_vault_comes_first(
    list: Seq<Seq<char>>,
    keys: Seq<Seq<char>>,
    key: Seq<char>,
)
    requires
        keys.len() == list.len(),
    ensures
        1 <= remembered(list, keys, key).len() <= RECENT_VAULTS_LIMIT,
        remembered(list, keys, key)[0] == key,
        forall|i: int|
            1 <= i < remembered(list, keys, key).len() ==> exists|j: int|
                0 <= j < list.len() && !same_path(keys[j], key) && #[trigger] list[j]
                    == #[trigger] remembered(list, keys, key)[i],
        keys == list && paths_distinct(list) ==> paths_distinct(remembered(list, keys, key)),
{
    lemma_without_key(list, keys, key);
    let rest = without_key(list, keys, key);
    let kept = remembered(list, keys, key);
    assert forall|i: int| 1 <= i < kept.len() implies exists|j: int|
        0 <= j < list.len() && !same_path(keys[j], key) && #[trigger] list[j]
            == #[trigger] kept[i] by {
        assert(kept[i] == rest[i - 1]);
        let j = choose|j: int|
            0 <= j < list.len() && !same_path(keys[j], key) && #[trigger] list[j] == rest[i - 1];
        assert(list[j] == kept[i]);
    }
    if keys == list && paths_distinct(list) {
        assert forall|i: int, j: int| 0 <= i < j < kept.len() implies !same_path(
            #[trigger] kept[i],
            #[trigger] kept[j],
        ) by {
            if i > 0 {
                assert(!same_path(rest[i - 1], rest[j - 1]));
            } else {
                assert(kept[j] == rest[j - 1]);
            }
        }
    }
}

impl AppConfig {
    /// At most one entry for a path, and at most one for an identifier.
    pub open spec fn valid(&self) -> bool {
        &&& forall|i: int, j: int|
            0 <= i < j < self.vault_index@.len() ==> (#[trigger] self.vault_index@[i]).key@ != (
            #[trigger] self.vault_index@[j]).key@
        &&& forall|i: int, j: int|
            0 <= i < j < self.vault_sessions@.len() ==> (
            #[trigger] self.vault_sessions@[i]).vault_id != (
            #[trigger] self.vault_sessions@[j]).vault_id
    }

    /// What is known of the vault with a path.
    pub open spec fn info_of(&self, key: Seq<char>) -> Option<VaultInfo> {
        match index_position(self.vault_index@, key, 0) {
            Some(at) => Some(self.vault_index@[at].info),
            None => None,
        }
    }

    /// What is kept of the use of a vault.
    pub open spec fn session_of(&self, id: Uuid) -> Option<VaultSessionState> {
        match session_position(self.vault_sessions@, id, 0) {
            Some(at) => Some(self.vault_sessions@[at].session),
            None => None,
        }
    }

    /// Whether all but the vaults and their use is as in another.
    pub open spec fn same_settings(&self, other: AppConfig) -> bool {
        &&& self.first_run_done == other.first_run_done
        &&& self.autosave_delay_ms == other.autosave_delay_ms
        &&& self.title_commit_delay_ms == other.title_commit_delay_ms
        &&& self.appearance == other.appearance
        &&& self.encrypted_note_locking == other.encrypted_note_locking
        &&& self.sort_order == other.sort_order
    }
}

proof fn lemma_index_position(index: Seq<IndexEntry>, key: Seq<char>, at: int)
    requires
        0 <= at,
    ensures
        match index_position(index, key, at) {
            Some(found) => at <= found < index.len() && index[found].key@ == key && forall|i: int|
                at <= i < found ==> (#[trigger] index[i]).key@ != key,
            None => forall|i: int| at <= i < index.len() ==> (#[trigger] index[i]).key@ != key,
        },
    decreases index.len() - at,
{
    if at < index.len() && index[at].key@ != key {
        lemma_index_position(index, key, at + 1);
    }
}

proof fn lemma_session_position(sessions: Seq<SessionEntry>, id: Uuid, at: int)
    requires
        0 <= at,
    ensures
        match session_position(sessions, id, at) {
            Some(found) => at <= found < sessions.len() && sessions[found].vault_id == id
                && forall|i: int| at <= i < found ==> (#[trigger] sessions[i]).vault_id != id,
            None => forall|i: int| at <= i < sessions.len() ==> (#[trigger] sessions[i]).vault_id
                != id,
        },
    decreases sessions.len() - at,
{
    if at < sessions.len() && sessions[at].vault_id != id {
        lemma_session_position(sessions, id, at + 1);
    }
}

fn find_index(index: &[IndexEntry], key: &str) -> (found: Option<usize>)
    ensures
        match found {
            Some(at) => index_position(index@, key@, 0) == Some(at as int) && at < index@.len(),
            None => index_position(index@, key@, 0) is None,
        },
{
    let mut at: usize = 0;
    while at < index.len()
        invariant
            at <= index@.len(),
            index_position(index@, key@, at as int) == index_position(index@, key@, 0),
        decreases index@.len() - at,
    {
        if same_text(&index[at].key, key) {
            return Some(at);
        }
        at += 1;
    }
    None
}

fn find_session(sessions: &[SessionEntry], id: Uuid) -> (found: Option<usize>)
    ensures
        match found {
            Some(at) => session_position(sessions@, id, 0) == Some(at as int) && at
                < sessions@.len(),
            None => session_position(sessions@, id, 0) is None,
        },
{
    let mut at: usize = 0;
    while at < sessions.len()
        invariant
            at <= sessions@.len(),
            session_position(sessions@, id, at as int) == session_position(sessions@, id, 0),
        decreases sessions@.len() - at,
    {
        if sessions[at].vault_id == id {
            return Some(at);
        }
        at += 1;
    }
    None
}

/// The texts whose keys are not the key.
fn keep_other_keys(list: &[String], keys: &[String], key: &str, first: Vec<String>) -> (kept: Vec<
    String,
>)
    requires
        keys@.len() == list@.len(),
    ensures
        texts(kept@) == texts(first@) + without_key(texts(list@), texts(keys@), key@),
{
    let ghost head = texts(first@);
    let ghost all = texts(list@);
    let ghost marks = texts(keys@);
    let mut kept = first;
    let mut at: usize = 0;
    proof {
        assert(head + without_key(all.take(0), marks, key@) =~= head);
    }
    while at < list.len()
        invariant
            at <= list@.len(),
            keys@.len() == list@.len(),
            all == texts(list@),
            marks == texts(keys@),
            texts(kept@) == head + without_key(all.take(at as int), marks, key@),
        decreases list@.len() - at,
    {
        proof {
            let next = all.take(at + 1);
            assert(next.drop_last() =~= all.take(at as int));
            assert(next.last() == list@[at as int]@);
            assert(marks[at as int] == keys@[at as int]@);
        }
        if !paths_equal(&keys[at], key) {
            let ghost done = kept@;
            let text = copy_text(&list[at]);
            kept.push(text);
            proof {
                lemma_texts_push(done, text);
                assert(texts(kept@) =~= head + without_key(all.take(at + 1), marks, key@));
            }
        }
        at += 1;
    }
    proof {
        assert(all.take(at as int) == all);
    }
    kept
}

/// Whether a vault was put in front of those that were opened last.
pub open spec fn remembers_vault(
    before: AppConfig,
    key: Seq<char>,
    keys: Seq<Seq<char>>,
    after: AppConfig,
) -> bool {
    &&& texts(after.recent_vaults@) == remembered(texts(before.recent_vaults@), keys, key)
    &&& after.last_vault matches Some(last) && last@ == key
    &&& after.vault_index == before.vault_index
    &&& after.vault_sessions == before.vault_sessions
    &&& after.same_settings(before)
}

/// Whether it was kept that a vault of a kind was opened at some moment.
pub open spec fn opens_vault(
    before: AppConfig,
    key: Seq<char>,
    keys: Seq<Seq<char>>,
    kind: VaultKind,
    after: AppConfig,
) -> bool {
    &&& texts(after.recent_vaults@) == remembered(texts(before.recent_vaults@), keys, key)
    &&& after.last_vault matches Some(last) && last@ == key
    &&& after.info_of(key) matches Some(info) && info.kind == kind && info.last_opened is Some
        && info.display_name == (match before.info_of(key) {
        Some(known) => known.display_name,
        None => None,
    })
    &&& forall|other: Seq<char>|
        other != key ==> #[trigger] after.info_of(other) == before.info_of(other)
    &&& after.vault_sessions == before.vault_sessions
    &&& after.same_settings(before)
    &&& after.valid()
}

/// Whether a vault was given a name, or its name was taken away.
pub open spec fn names_vault(
    before: AppConfig,
    key: Seq<char>,
    name: Seq<char>,
    after: AppConfig,
) -> bool {
    &&& after.info_of(key) matches Some(info) && (match info.display_name {
        Some(given) => given@ == trimmed(name) && trimmed(name).len() > 0,
        None => trimmed(name).len() == 0,
    }) && info.kind == (match before.info_of(key) {
        Some(known) => known.kind,
        None => VaultKind::Ordinary,
    }) && info.last_opened == (match before.info_of(key) {
        Some(known) => known.last_opened,
        None => None,
    })
    &&& forall|other: Seq<char>|
        other != key ==> #[trigger] after.info_of(other) == before.info_of(other)
    &&& after.recent_vaults == before.recent_vaults
    &&& after.last_vault == before.last_vault
    &&& after.vault_sessions == before.vault_sessions
    &&& after.same_settings(before)
    &&& after.valid()
}

/// Whether the use of a vault was kept.
pub open spec fn keeps_session(
    before: AppConfig,
    vault_id: Uuid,
    session: VaultSessionState,
    after: AppConfig,
) -> bool {
    &&& after.session_of(vault_id) == (if session.is_empty_state() {
        None
    } else {
        Some(session)
    })
    &&& forall|other: Uuid|
        other != vault_id ==> #[trigger] after.session_of(other) == before.session_of(other)
    &&& after.recent_vaults == before.recent_vaults
    &&& after.last_vault == before.last_vault
    &&& after.vault_index == before.vault_index
    &&& after.same_settings(before)
    &&& after.valid()
}

/// Whether a vault was forgotten.
pub open spec fn forgets_vault(
    before: AppConfig,
    key: Seq<char>,
    keys: Seq<Seq<char>>,
    last_key: Option<Seq<char>>,
    after: AppConfig,
) -> bool {
    &&& texts(after.recent_vaults@) == without_key(texts(before.recent_vaults@), keys, key)
    &&& after.last_vault == (match last_key {
        Some(last) => if same_path(last, key) {
            None
        } else {
            before.last_vault
        },
        None => before.last_vault,
    })
    &&& after.info_of(key) is None
    &&& forall|other: Seq<char>|
        other != key ==> #[trigger] after.info_of(other) == before.info_of(other)
    &&& after.vault_sessions == before.vault_sessions
    &&& after.same_settings(before)
    &&& after.valid()
}

impl AppConfig {
    /// Puts a vault first among those that were opened last. `keys` holds the
    /// canonical path of each of them.
    pub fn remember_vault(&mut self, key: &str, keys: &[String])
        requires
            keys@.len() == old(self).recent_vaults@.len(),
        ensures
            remembers_vault(*old(self), key@, texts(keys@), *final(self)),
            final(self).recent_vaults@.len() <= RECENT_VAULTS_LIMIT,
            old(self).valid() ==> final(self).valid(),
    {
        let mut first: Vec<String> = Vec::new();
        let front = copy_text(key);
        first.push(front);
        proof {
            assert(texts(first@) =~= seq![key@]);
        }
        let mut recent = keep_other_keys(&self.recent_vaults, keys, key, first);
        let ghost all = recent@;
        recent.truncate(RECENT_VAULTS_LIMIT);
        proof {
            assert(all.len() > 10 ==> texts(recent@) =~= texts(all).take(10));
            assert(all.len() <= 10 ==> recent@ =~= all);
        }
        self.recent_vaults = recent;
        self.last_vault = Some(copy_text(key));
    }

    /// Records a vault as opened at a moment.
    pub fn record_vault_open_at(&mut self, key: &str, keys: &[String], kind: VaultKind, now: Timestamp)
        requires
            keys@.len() == old(self).recent_vaults@.len(),
            old(self).valid(),
        ensures
            opens_vault(*old(self), key@, texts(keys@), kind, *final(self)),
            final(self).info_of(key@) matches Some(info) && info.last_opened == Some(now),
    {
        self.remember_vault(key, keys);
        let ghost before = self.vault_index@;
        proof {
            lemma_index_position(before, key@, 0);
        }
        match find_index(&self.vault_index, key) {
            Some(at) => {
                self.vault_index[at].info.kind = kind;
                self.vault_index[at].info.last_opened = Some(now);
            },
            None => {
                self.vault_index.push(
                    IndexEntry {
                        key: copy_text(key),
                        info: VaultInfo { kind, display_name: None, last_opened: Some(now) },
                    },
                );
            },
        }
        proof {
            self.lemma_one_entry_changed(before, key@);
        }
    }

    /// Records a vault as opened now.
    pub fn record_vault_open(&mut self, key: &str, keys: &[String], kind: VaultKind)
        requires
            keys@.len() == old(self).recent_vaults@.len(),
            old(self).valid(),
        ensures
            opens_vault(*old(self), key@, texts(keys@), kind, *final(self)),
    {
        self.record_vault_open_at(key, keys, kind, Timestamp::now());
    }

    /// An index in which the entry for one key was changed or added says the
    /// same as before of every other key.
    proof fn lemma_one_entry_changed(&self, before: Seq<IndexEntry>, key: Seq<char>)
        requires
            match index_position(before, key, 0) {
                Some(at) => self.vault_index@.len() == before.len() && self.vault_index@[at].key@
                    == key && forall|i: int|
                    0 <= i < before.len() && i != at ==> (#[trigger] self.vault_index@[i])
                        == before[i],
                None => self.vault_index@.len() == before.len() + 1 && self.vault_index@[before.len() as int].key@
                    == key && forall|i: int|
                    0 <= i < before.len() ==> (#[trigger] self.vault_index@[i]) == before[i],
            },
            forall|i: int, j: int|
                0 <= i < j < before.len() ==> (#[trigger] before[i]).key@ != (#[trigger] before[j]).key@,
        ensures
            index_position(self.vault_index@, key, 0) == (match index_position(before, key, 0) {
                Some(at) => Some(at),
                None => Some(before.len() as int),
            }),
            forall|other: Seq<char>|
                other != key ==> #[trigger] self.info_of(other) == (match index_position(
                    before,
                    other,
                    0,
                ) {
                    Some(at) => Some(before[at].info),
                    None => None,
                }),
            forall|i: int, j: int|
                0 <= i < j < self.vault_index@.len() ==> (#[trigger] self.vault_index@[i]).key@ != (
                #[trigger] self.vault_index@[j]).key@,
    {
        let after = self.vault_index@;
        lemma_index_position(before, key, 0);
        lemma_index_position(after, key, 0);
        assert forall|i: int| 0 <= i < before.len() implies (#[trigger] after[i]).key@
            == before[i].key@ by {}
        assert forall|i: int, j: int| 0 <= i < j < after.len() implies (#[trigger] after[i]).key@
            != (#[trigger] after[j]).key@ by {
            if j < before.len() {
                assert(before[i].key@ != before[j].key@);
            }
        }
        assert forall|other: Seq<char>| other != key implies #[trigger] self.info_of(other) == (
        match index_position(before, other, 0) {
            Some(at) => Some(before[at].info),
            None => None,
        }) by {
            lemma_index_position(before, other, 0);
            lemma_index_position(after, other, 0);
            match index_position(before, other, 0) {
                Some(at) => {
                    assert(after[at].key@ == other);
                    let found = index_position(after, other, 0)->0;
                    if found != at {
                        assert(after[found].key@ != after[at].key@);
                    }
                },
                None => {
                    if let Some(found) = index_position(after, other, 0) {
                        assert(found < before.len());
                        assert(before[found].key@ == other);
                    }
                },
            }
        }
    }

    /// What is known of a vault.
    pub fn vault_info(&self, key: &str) -> (info: Option<&VaultInfo>)
        ensures
            match info {
                Some(info) => self.info_of(key@) == Some(*info),
                None => self.info_of(key@) is None,
            },
    {
        match find_index(&self.vault_index, key) {
            Some(at) => Some(&self.vault_index[at].info),
            None => None,
        }
    }

    /// The name that the user gave a vault.
    pub fn vault_display_name(&self, key: &str) -> (name: Option<&str>)
        ensures
            match name {
                Some(name) => self.info_of(key@) matches Some(info) && info.display_name matches Some(
                    given,
                ) && given@ == name@,
                None => self.info_of(key@) matches Some(info) ==> info.display_name is None,
            },
    {
        match self.vault_info(key) {
            Some(info) => match &info.display_name {
                Some(name) => Some(name.as_str()),
                None => None,
            },
            None => None,
        }
    }

    /// Gives a vault a name, or takes its name away where the text is blank.
    /// Nothing of the vault itself is renamed.
    pub fn set_vault_display_name(&mut self, key: &str, name: &str)
        requires
            old(self).valid(),
        ensures
            names_vault(*old(self), key@, name@, *final(self)),
    {
        let inner = trim(name);
        let given: Option<String> = if inner.as_str().is_empty() {
            None
        } else {
            Some(inner)
        };
        let ghost before = self.vault_index@;
        proof {
            lemma_index_position(before, key@, 0);
        }
        match find_index(&self.vault_index, key) {
            Some(at) => {
                self.vault_index[at].info.display_name = given;
            },
            None => {
                self.vault_index.push(
                    IndexEntry {
                        key: copy_text(key),
                        info: VaultInfo {
                            kind: VaultKind::Ordinary,
                            display_name: given,
                            last_opened: None,
                        },
                    },
                );
            },
        }
        proof {
            self.lemma_one_entry_changed(before, key@);
        }
    }

    /// What is kept of the use of a vault.
    pub fn vault_session(&self, vault_id: Uuid) -> (session: Option<&VaultSessionState>)
        ensures
            match session {
                Some(session) => self.session_of(vault_id) == Some(*session),
                None => self.session_of(vault_id) is None,
            },
    {
        match find_session(&self.vault_sessions, vault_id) {
            Some(at) => Some(&self.vault_sessions[at].session),
            None => None,
        }
    }

    /// Keeps the use of a vault, or forgets it where there is nothing to keep.
    pub fn set_vault_session(&mut self, vault_id: Uuid, session: VaultSessionState)
        requires
            old(self).valid(),
        ensures
            keeps_session(*old(self), vault_id, session, *final(self)),
    {
        let ghost before = self.vault_sessions@;
        let found = find_session(&self.vault_sessions, vault_id);
        proof {
            lemma_session_position(before, vault_id, 0);
        }
        if let Some(at) = found {
            let taken = self.vault_sessions.remove(at);
        }
        let ghost rest = self.vault_sessions@;
        proof {
            assert forall|i: int| 0 <= i < rest.len() implies (#[trigger] rest[i]).vault_id
                != vault_id by {
                if let Some(at) = session_position(before, vault_id, 0) {
                    let k = if i < at {
                        i
                    } else {
                        i + 1
                    };
                    assert(rest[i] == before[k]);
                    assert(before[at].vault_id == vault_id);
                }
            }
        }
        if !session.is_empty() {
            self.vault_sessions.push(SessionEntry { vault_id, session });
        }
        proof {
            let after = self.vault_sessions@;
            lemma_session_position(after, vault_id, 0);
            if after.len() > rest.len() {
                assert(after[rest.len() as int].vault_id == vault_id);
            }
            if let Some(seen) = session_position(after, vault_id, 0) {
                if seen < rest.len() {
                    assert(after[seen] == rest[seen]);
                }
            }
            assert forall|i: int, j: int| 0 <= i < j < rest.len() implies (
            #[trigger] rest[i]).vault_id != (#[trigger] rest[j]).vault_id by {
                if let Some(at) = session_position(before, vault_id, 0) {
                    let p = if i < at {
                        i
                    } else {
                        i + 1
                    };
                    let q = if j < at {
                        j
                    } else {
                        j + 1
                    };
                    assert(rest[i] == before[p] && rest[j] == before[q]);
                }
            }
            assert forall|i: int, j: int| 0 <= i < j < after.len() implies (
            #[trigger] after[i]).vault_id != (#[trigger] after[j]).vault_id by {
                assert(after[i] == rest[i]);
                if j < rest.len() {
                    assert(after[j] == rest[j]);
                }
            }
            assert forall|other: Uuid| other != vault_id implies #[trigger] self.session_of(other)
                == old(self).session_of(other) by {
                lemma_session_position(before, other, 0);
                lemma_session_position(after, other, 0);
                match session_position(before, other, 0) {
                    Some(at) => {
                        let k = match session_position(before, vault_id, 0) {
                            Some(gone) => if at < gone {
                                at
                            } else {
                                at - 1
                            },
                            None => at,
                        };
                        assert(rest[k] == before[at]);
                        assert(after[k] == rest[k]);
                        let seen = session_position(after, other, 0)->0;
                        if seen < k {
                            assert(after[seen].vault_id != after[k].vault_id);
                        } else if k < seen {
                            assert(after[k].vault_id != after[seen].vault_id);
                        }
                    },
                    None => {
                        if let Some(seen) = session_position(after, other, 0) {
                            assert(after[seen] == rest[seen]);
                            let k = match session_position(before, vault_id, 0) {
                                Some(gone) => if seen < gone {
                                    seen
                                } else {
                                    seen + 1
                                },
                                None => seen,
                            };
                            assert(before[k] == rest[seen]);
                        }
                    },
                }
            }
        }
    }
}

/// Whether a path stands in a list, in any form.
pub open spec fn path_among(list: Seq<Seq<char>>, path: Seq<char>) -> bool {
    exists|i: int| 0 <= i < list.len() && same_path(#[trigger] list[i], path)
}

/// The texts of a list that are the first with their key.
pub open spec fn first_of_each(list: Seq<Seq<char>>, keys: Seq<Seq<char>>) -> Seq<Seq<char>>
    decreases list.len(),
{
    if list.len() == 0 {
        seq![]
    } else {
        let before = first_of_each(list.drop_last(), keys);
        if path_among(keys.take(list.len() - 1), keys[list.len() - 1]) {
            before
        } else {
            before.push(list.last())
        }
    }
}

/// The recent vaults that are offered are among those that are kept, and where the
/// kept paths are canonical, no vault is offered twice.
pub proof fn law_recent_vaults_are_offered_once(list: Seq<Seq<char>>, keys: Seq<Seq<char>>)
    requires
        keys.len() >= list.len(),
    ensures
        forall|i: int|
            0 <= i < first_of_each(list, keys).len() ==> list.contains(
                #[trigger] first_of_each(list, keys)[i],
            ),
        keys.take(list.len() as int) == list ==> paths_distinct(first_of_each(list, keys)),
    decreases list.len(),
{
    if list.len() > 0 {
        let last = list.len() - 1;
        let head = list.drop_last();
        law_recent_vaults_are_offered_once(head, keys);
        let before = first_of_each(head, keys);
        let all = first_of_each(list, keys);
        assert forall|i: int| 0 <= i < all.len() implies list.contains(#[trigger] all[i]) by {
            if i < before.len() {
                assert(head.contains(before[i]));
                let j = choose|j: int| 0 <= j < head.len() && head[j] == before[i];
                assert(list[j] == all[i]);
            } else {
                assert(list[last] == all[i]);
            }
        }
        if keys.take(list.len() as int) == list {
            assert(keys.take(last) =~= head);
            assert(keys[last] == keys.take(list.len() as int)[last]);
            assert forall|i: int, j: int| 0 <= i < j < all.len() implies !same_path(
                #[trigger] all[i],
                #[trigger] all[j],
            ) by {
                if j < before.len() {
                    assert(!same_path(before[i], before[j]));
                } else {
                    assert(head.contains(before[i]));
                    let k = choose|k: int| 0 <= k < head.len() && head[k] == before[i];
                    assert(keys.take(last)[k] == before[i]);
                }
            }
        }
    }
}

/// Whether one vault was opened after another. One that was never opened comes last.
pub open spec fn opened_later(left: Option<Timestamp>, right: Option<Timestamp>) -> bool {
    match (left, right) {
        (Some(one), Some(two)) => two.spec_before(one),
        (Some(_), None) => true,
        _ => false,
    }
}

/// Whether one entry is listed before another: the vault that was opened later,
/// and of two that nothing else tells apart, the one with the smaller path.
pub open spec fn listed_before(left: IndexEntry, right: IndexEntry) -> bool {
    if left.info.last_opened != right.info.last_opened {
        opened_later(left.info.last_opened, right.info.last_opened)
    } else {
        text_before(left.key@, right.key@)
    }
}

/// Where the entry at `item` goes in a list of positions.
pub open spec fn listed_place(index: Seq<IndexEntry>, list: Seq<int>, item: int, at: int) -> int
    decreases list.len() - at,
{
    if at >= list.len() {
        list.len() as int
    } else if listed_before(index[item], index[list[at]]) {
        at
    } else {
        listed_place(index, list, item, at + 1)
    }
}

/// The positions of the encrypted vaults among the first `upto`, in the order
/// in which they are listed.
pub open spec fn listed_secure(index: Seq<IndexEntry>, upto: int) -> Seq<int>
    decreases upto,
{
    if upto <= 0 {
        seq![]
    } else {
        let before = listed_secure(index, upto - 1);
        if index[upto - 1].info.kind == VaultKind::Encrypted {
            before.insert(listed_place(index, before, upto - 1, 0), upto - 1)
        } else {
            before
        }
    }
}

fn is_listed_before(left: &IndexEntry, right: &IndexEntry) -> (before: bool)
    ensures
        before == listed_before(*left, *right),
{
    match (left.info.last_opened, right.info.last_opened) {
        (Some(one), Some(two)) => if one == two {
            comes_before(&left.key, &right.key)
        } else {
            two.before(&one)
        },
        (Some(_), None) => true,
        (None, Some(_)) => false,
        (None, None) => comes_before(&left.key, &right.key),
    }
}

/// The keys of the entries at these positions.
pub open spec fn keys_at(index: Seq<IndexEntry>, list: Seq<int>) -> Seq<Seq<char>> {
    Seq::new(list.len(), |i: int| index[list[i]].key@)
}

proof fn lemma_listed_place(index: Seq<IndexEntry>, list: Seq<int>, item: int, at: int)
    requires
        0 <= at <= list.len(),
    ensures
        at <= listed_place(index, list, item, at) <= list.len(),
        forall|i: int|
            at <= i < listed_place(index, list, item, at) ==> !listed_before(
                index[item],
                index[#[trigger] list[i]],
            ),
        listed_place(index, list, item, at) < list.len() ==> listed_before(
            index[item],
            index[list[listed_place(index, list, item, at)]],
        ),
    decreases list.len() - at,
{
    if at < list.len() && !listed_before(index[item], index[list[at]]) {
        lemma_listed_place(index, list, item, at + 1);
    }
}

/// An entry that is listed before another is listed before all that the other
/// is not listed behind.
proof fn lemma_listed_later(one: IndexEntry, two: IndexEntry, three: IndexEntry)
    requires
        listed_before(one, two),
        !listed_before(three, two),
    ensures
        listed_before(one, three),
{
    lemma_text_order(one.key@, two.key@);
    lemma_text_order(two.key@, three.key@);
    lemma_text_order(one.key@, three.key@);
    if text_before(one.key@, two.key@) && text_before(two.key@, three.key@) {
        lemma_text_order_transitive(one.key@, two.key@, three.key@);
    }
}

/// The list of encrypted vaults holds each of them once and no other vault, and
/// none of them stands behind one that is listed after it.
pub proof fn law_secure_vaults_are_listed_in_order(index: Seq<IndexEntry>, upto: int)
    requires
        0 <= upto <= index.len(),
    ensures
        ({
            let list = listed_secure(index, upto);
            &&& list.no_duplicates()
            &&& forall|k: int|
                list.contains(k) <==> 0 <= k < upto && (#[trigger] index[k]).info.kind
                    == VaultKind::Encrypted
            &&& forall|i: int, j: int|
                0 <= i < j < list.len() ==> !listed_before(
                    index[#[trigger] list[j]],
                    index[#[trigger] list[i]],
                )
        }),
    decreases upto,
{
    if upto > 0 {
        law_secure_vaults_are_listed_in_order(index, upto - 1);
        let before = listed_secure(index, upto - 1);
        let list = listed_secure(index, upto);
        let item = upto - 1;
        if index[item].info.kind == VaultKind::Encrypted {
            let at = listed_place(index, before, item, 0);
            lemma_listed_place(index, before, item, 0);
            assert(list == before.insert(at, item));
            assert forall|k: int| list.contains(k) <==> 0 <= k < upto && (
            #[trigger] index[k]).info.kind == VaultKind::Encrypted by {
                if list.contains(k) {
                    let m = choose|m: int| 0 <= m < list.len() && list[m] == k;
                    if m != at {
                        let n = if m < at {
                            m
                        } else {
                            m - 1
                        };
                        assert(before[n] == k);
                        assert(before.contains(k));
                    }
                }
                if 0 <= k < upto && index[k].info.kind == VaultKind::Encrypted {
                    if k == item {
                        assert(list[at] == k);
                    } else {
                        assert(before.contains(k));
                        let n = choose|n: int| 0 <= n < before.len() && before[n] == k;
                        if n < at {
                            assert(list[n] == k);
                        } else {
                            assert(list[n + 1] == k);
                        }
                    }
                }
            }
            assert(!before.contains(item));
            assert forall|i: int, j: int|
                0 <= i < list.len() && 0 <= j < list.len() && i != j implies list[i] != list[j] by {
                let p = if i < at {
                    i
                } else {
                    i - 1
                };
                let q = if j < at {
                    j
                } else {
                    j - 1
                };
                if i == at {
                    assert(list[j] == before[q]);
                } else if j == at {
                    assert(list[i] == before[p]);
                } else {
                    assert(list[i] == before[p] && list[j] == before[q]);
                }
            }
            assert forall|i: int, j: int| 0 <= i < j < list.len() implies !listed_before(
                index[#[trigger] list[j]],
                index[#[trigger] list[i]],
            ) by {
                if j < at {
                    assert(list[i] == before[i] && list[j] == before[j]);
                } else if i > at {
                    assert(list[i] == before[i - 1] && list[j] == before[j - 1]);
                } else if j == at {
                    assert(list[i] == before[i]);
                } else if i == at {
                    assert(list[j] == before[j - 1]);
                    let new = index[item];
                    let first = index[before[at]];
                    let other = index[before[j - 1]];
                    if j - 1 > at {
                        assert(!listed_before(other, first));
                        lemma_listed_later(new, first, other);
                    }
                    lemma_text_order(new.key@, other.key@);
                } else {
                    assert(list[i] == before[i] && list[j] == before[j - 1]);
                }
            }
        }
    }
}

impl AppConfig {
    /// Forgets a vault: it leaves the list of those that were opened last and
    /// the index, and is not the last one any more. `keys` holds the canonical
    /// path of each recent vault, and `last_key` that of the last one.
    pub fn forget_vault(&mut self, key: &str, keys: &[String], last_key: Option<&str>)
        requires
            keys@.len() == old(self).recent_vaults@.len(),
            old(self).valid(),
        ensures
            forgets_vault(
                *old(self),
                key@,
                texts(keys@),
                match last_key {
                    Some(last) => Some(last@),
                    None => None,
                },
                *final(self),
            ),
    {
        let none: Vec<String> = Vec::new();
        let recent = keep_other_keys(&self.recent_vaults, keys, key, none);
        proof {
            let rest = without_key(texts(self.recent_vaults@), texts(keys@), key@);
            assert(texts(none@) + rest =~= rest);
        }
        self.recent_vaults = recent;
        if let Some(last) = last_key {
            if paths_equal(last, key) {
                self.last_vault = None;
            }
        }
        let ghost before = self.vault_index@;
        let found = find_index(&self.vault_index, key);
        proof {
            lemma_index_position(before, key@, 0);
        }
        if let Some(at) = found {
            let taken = self.vault_index.remove(at);
        }
        proof {
            let after = self.vault_index@;
            let gone = index_position(before, key@, 0);
            lemma_index_position(after, key@, 0);
            assert forall|i: int| 0 <= i < after.len() implies (#[trigger] after[i]).key@ != key@
                && after[i] == before[match gone {
                Some(at) => if i < at {
                    i
                } else {
                    i + 1
                },
                None => i,
            }] by {
                if let Some(at) = gone {
                    let k = if i < at {
                        i
                    } else {
                        i + 1
                    };
                    assert(after[i] == before[k]);
                    assert(before[at].key@ == key@);
                }
            }
            assert forall|i: int, j: int| 0 <= i < j < after.len() implies (
            #[trigger] after[i]).key@ != (#[trigger] after[j]).key@ by {
                if let Some(at) = gone {
                    let p = if i < at {
                        i
                    } else {
                        i + 1
                    };
                    let q = if j < at {
                        j
                    } else {
                        j + 1
                    };
                    assert(after[i] == before[p] && after[j] == before[q]);
                }
            }
            assert forall|other: Seq<char>| other != key@ implies #[trigger] self.info_of(other)
                == old(self).info_of(other) by {
                lemma_index_position(before, other, 0);
                lemma_index_position(after, other, 0);
                match index_position(before, other, 0) {
                    Some(at) => {
                        let k = match gone {
                            Some(lost) => if at < lost {
                                at
                            } else {
                                at - 1
                            },
                            None => at,
                        };
                        assert(after[k] == before[at]);
                        let seen = index_position(after, other, 0)->0;
                        if seen < k {
                            assert(after[seen].key@ != after[k].key@);
                        } else if k < seen {
                            assert(after[k].key@ != after[seen].key@);
                        }
                    },
                    None => {
                        if let Some(seen) = index_position(after, other, 0) {
                            assert(after[seen].key@ == other);
                        }
                    },
                }
            }
        }
    }

    /// The vaults that were opened last, each once. `keys` holds the canonical
    /// path of each.
    pub fn recent_vaults_mru(&self, keys: &[String]) -> (list: Vec<String>)
        requires
            keys@.len() == self.recent_vaults@.len(),
        ensures
            texts(list@) == first_of_each(texts(self.recent_vaults@), texts(keys@)),
    {
        let ghost all = texts(self.recent_vaults@);
        let ghost marks = texts(keys@);
        let mut list: Vec<String> = Vec::new();
        let mut at: usize = 0;
        proof {
            assert(texts(list@) =~= first_of_each(all.take(0), marks));
        }
        while at < self.recent_vaults.len()
            invariant
                at <= self.recent_vaults@.len(),
                keys@.len() == self.recent_vaults@.len(),
                all == texts(self.recent_vaults@),
                marks == texts(keys@),
                texts(list@) == first_of_each(all.take(at as int), marks),
            decreases self.recent_vaults@.len() - at,
        {
            proof {
                let next = all.take(at + 1);
                assert(next.drop_last() =~= all.take(at as int));
                assert(next.last() == self.recent_vaults@[at as int]@);
            }
            let seen = key_among(keys, at);
            if !seen {
                let ghost done = list@;
                let text = copy_text(&self.recent_vaults[at]);
                list.push(text);
                proof {
                    lemma_texts_push(done, text);
                }
            }
            at += 1;
        }
        proof {
            assert(all.take(at as int) == all);
        }
        list
    }

    /// The paths of the encrypted vaults, the one that was opened last first.
    pub fn secure_vaults_mru(&self) -> (list: Vec<String>)
        ensures
            texts(list@) == keys_at(
                self.vault_index@,
                listed_secure(self.vault_index@, self.vault_index@.len() as int),
            ),
    {
        let ghost index = self.vault_index@;
        let mut order: Vec<usize> = Vec::new();
        let mut at: usize = 0;
        proof {
            assert(positions(order@) =~= listed_secure(index, 0));
        }
        while at < self.vault_index.len()
            invariant
                at <= self.vault_index@.len(),
                index == self.vault_index@,
                positions(order@) == listed_secure(index, at as int),
                forall|i: int| 0 <= i < order@.len() ==> (#[trigger] order@[i]) < index.len(),
            decreases self.vault_index@.len() - at,
        {
            if self.vault_index[at].info.kind == VaultKind::Encrypted {
                let mut place: usize = 0;
                while place < order.len() && !is_listed_before(
                    &self.vault_index[at],
                    &self.vault_index[order[place]],
                )
                    invariant
                        place <= order@.len(),
                        at < index.len(),
                        index == self.vault_index@,
                        forall|i: int|
                            0 <= i < order@.len() ==> (#[trigger] order@[i]) < index.len(),
                        listed_place(index, positions(order@), at as int, place as int)
                            == listed_place(index, positions(order@), at as int, 0),
                    decreases order@.len() - place,
                {
                    proof {
                        assert(positions(order@)[place as int] == order@[place as int]);
                    }
                    place += 1;
                }
                proof {
                    if place < order@.len() {
                        assert(positions(order@)[place as int] == order@[place as int]);
                    }
                    assert(place == listed_place(index, positions(order@), at as int, 0));
                }
                let ghost done = order@;
                order.insert(place, at);
                proof {
                    assert(positions(order@) =~= positions(done).insert(place as int, at as int));
                    assert forall|i: int| 0 <= i < order@.len() implies (#[trigger] order@[i])
                        < index.len() by {
                        if i < place {
                            assert(order@[i] == done[i]);
                        } else if i > place {
                            assert(order@[i] == done[i - 1]);
                        }
                    }
                }
            }
            at += 1;
        }
        let mut list: Vec<String> = Vec::new();
        let mut next: usize = 0;
        while next < order.len()
            invariant
                next <= order@.len(),
                index == self.vault_index@,
                forall|i: int| 0 <= i < order@.len() ==> (#[trigger] order@[i]) < index.len(),
                texts(list@) == keys_at(index, positions(order@).take(next as int)),
            decreases order@.len() - next,
        {
            let ghost done = list@;
            let key = copy_text(&self.vault_index[order[next]].key);
            list.push(key);
            next += 1;
            proof {
                lemma_texts_push(done, key);
                assert(texts(list@) =~= keys_at(index, positions(order@).take(next as int)));
            }
        }
        proof {
            assert(positions(order@).take(next as int) == positions(order@));
        }
        list
    }
}

spec fn positions(list: Seq<usize>) -> Seq<int> {
    Seq::new(list.len(), |i: int| list[i] as int)
}

/// Whether the key at `at` stands before it.
fn key_among(keys: &[String], at: usize) -> (among: bool)
    requires
        at < keys@.len(),
    ensures
        among == path_among(texts(keys@).take(at as int), texts(keys@)[at as int]),
{
    let ghost before = texts(keys@).take(at as int);
    let mut index: usize = 0;
    while index < at
        invariant
            index <= at < keys@.len(),
            before == texts(keys@).take(at as int),
            forall|i: int| 0 <= i < index ==> !same_path(#[trigger] before[i], keys@[at as int]@),
        decreases at - index,
    {
        proof {
            assert(before[index as int] == keys@[index as int]@);
        }
        if paths_equal(&keys[index], &keys[at]) {
            return true;
        }
        index += 1;
    }
    false
}

/// The paths of a list that are marked as present.
pub open spec fn present_of(list: Seq<Seq<char>>, present: Seq<bool>) -> Seq<Seq<char>>
    decreases list.len(),
{
    if list.len() == 0 {
        seq![]
    } else {
        let before = present_of(list.drop_last(), present);
        if present[list.len() - 1] {
            before.push(list.last())
        } else {
            before
        }
    }
}

/// Keeps the vaults whose folder is still there.
pub fn keep_present(list: &[String], present: &[bool]) -> (kept: Vec<String>)
    requires
        present@.len() == list@.len(),
    ensures
        texts(kept@) == present_of(texts(list@), present@),
{
    let ghost all = texts(list@);
    let mut kept: Vec<String> = Vec::new();
    let mut at: usize = 0;
    proof {
        assert(texts(kept@) =~= present_of(all.take(0), present@));
    }
    while at < list.len()
        invariant
            at <= list@.len(),
            present@.len() == list@.len(),
            all == texts(list@),
            texts(kept@) == present_of(all.take(at as int), present@),
        decreases list@.len() - at,
    {
        proof {
            let next = all.take(at + 1);
            assert(next.drop_last() =~= all.take(at as int));
            assert(next.last() == list@[at as int]@);
        }
        if present[at] {
            let ghost done = kept@;
            let text = copy_text(&list[at]);
            kept.push(text);
            proof {
                lemma_texts_push(done, text);
            }
        }
        at += 1;
    }
    proof {
        assert(all.take(at as int) == all);
    }
    kept
}

} // verus!
