//! Opening, leaving, locking and switching between vaults.

use vstd::prelude::*;

use crate::config::{AppConfig, SessionStateView, VaultSessionState};
use crate::constants::{APP_NAME, DEFAULT_NOTEBOOK};
use crate::ident::Uuid;
use crate::model::NoteSummary;
use crate::paths::{file_name, file_name_of, path_starts_with, paths_equal, same_path, starts_with_path};
use crate::text::{copy_text, decimal, lemma_texts_push, push_decimal, texts};
use crate::ui_state::{
    same_view, token_of, view_token, FilterState, FlowView, RowTarget, UiFlow, ViewMode,
};
use crate::vault::NotebookEntry;
use crate::workspace::document::{
    document_from, find_document, find_summary, summary_from, OpenVault, Workspace, WorkspaceView,
};

verus! {

// Names.

/// The name of a vault that the user gave none.
pub open spec fn folder_name(path: Seq<char>) -> Seq<char> {
    match file_name(path) {
        Some(name) => name,
        None => APP_NAME@,
    }
}

/// The name of a vault's folder.
pub fn vault_display_name(path: &str) -> (name: String)
    ensures
        name@ == folder_name(path@),
{
    match file_name_of(path) {
        Some(name) => name,
        None => APP_NAME.to_owned(),
    }
}

/// The name that the user gave a vault, or that of its folder.
pub open spec fn shown_name(config: AppConfig, key: Seq<char>, path: Seq<char>) -> Seq<char> {
    match config.info_of(key) {
        Some(info) => match info.display_name {
            Some(name) => name@,
            None => folder_name(path),
        },
        None => folder_name(path),
    }
}

/// The name of a vault. `key` is its path with all links resolved.
pub fn vault_display_name_for(config: &AppConfig, key: &str, path: &str) -> (name: String)
    ensures
        name@ == shown_name(*config, key@, path@),
{
    match config.vault_display_name(key) {
        Some(name) => name.to_owned(),
        None => vault_display_name(path),
    }
}

/// The name of the folder of the vault with a number, counted from zero.
pub open spec fn secure_name(number: nat) -> Seq<char> {
    if number == 0 {
        "Secure"@
    } else {
        "Secure "@ + decimal(number + 1)
    }
}

/// The name of the folder of a new encrypted vault.
pub fn secure_folder_name(number: u32) -> (name: String)
    requires
        number < u32::MAX,
    ensures
        name@ == secure_name(number as nat),
{
    let mut name: String = "Secure".to_owned();
    if number > 0 {
        name.append(" ");
        push_decimal(&mut name, number as u64 + 1);
        proof {
            reveal_strlit("Secure");
            reveal_strlit(" ");
            reveal_strlit("Secure ");
            assert("Secure"@ + " "@ =~= "Secure "@);
        }
    }
    name
}

/// The first number from a place on whose folder is free.
pub open spec fn first_free(free: Seq<bool>, at: int) -> int
    decreases free.len() - at,
{
    if at >= free.len() {
        free.len() as int
    } else if free[at] {
        at
    } else {
        first_free(free, at + 1)
    }
}

/// The folder for a new encrypted vault: the first whose name is free.
pub fn choose_secure_folder(free: &[bool]) -> (name: Option<String>)
    requires
        free@.len() < u32::MAX,
    ensures
        ({
            let at = first_free(free@, 0);
            match name {
                Some(name) => at < free@.len() && name@ == secure_name(at as nat),
                None => at == free@.len(),
            }
        }),
{
    let mut at: usize = 0;
    while at < free.len()
        invariant
            at <= free@.len(),
            free@.len() < u32::MAX,
            first_free(free@, at as int) == first_free(free@, 0),
        decreases free@.len() - at,
    {
        if free[at] {
            return Some(secure_folder_name(at as u32));
        }
        at += 1;
    }
    None
}

// The start.

/// What the application does when it starts.
#[derive(Debug, PartialEq, Eq)]
pub enum Startup {
    /// A vault is set up for a user who has none.
    FirstRun,
    Open(String),
    /// The last vault is gone. It is not made anew.
    Missing(String),
    Welcome,
}

/// Decides what the application does when it starts.
pub fn startup(config: &AppConfig, last_is_dir: bool) -> (start: Startup)
    ensures
        match config.last_vault {
            None => if !config.first_run_done && config.recent_vaults@.len() == 0 {
                start is FirstRun
            } else {
                start is Welcome
            },
            Some(path) => if last_is_dir {
                start matches Startup::Open(opened) && opened@ == path@
            } else {
                start matches Startup::Missing(status) && status@ == "The last vault at "@ + path@
                    + " is no longer there. Open another vault to continue."@
            },
        },
{
    match &config.last_vault {
        None => {
            if !config.first_run_done && config.recent_vaults.len() == 0 {
                Startup::FirstRun
            } else {
                Startup::Welcome
            }
        },
        Some(path) => {
            if last_is_dir {
                Startup::Open(copy_text(path))
            } else {
                let mut status: String = "The last vault at ".to_owned();
                status.append(path);
                status.append(" is no longer there. Open another vault to continue.");
                Startup::Missing(status)
            }
        },
    }
}

// Opening.

/// How the lock of a vault could be had.
#[derive(Clone, Copy, Debug, PartialEq, Eq, Structural)]
pub enum LockOutcome {
    Acquired,
    Contended,
    Failed,
}

/// What follows when a vault is to be opened.
#[derive(Clone, Copy, Debug, PartialEq, Eq, Structural)]
pub enum OpenStep {
    /// It is open already.
    AlreadyOpen,
    /// Files in the clear lie in a sealed vault. The user decides.
    AskAboutPlaintext,
    Commit { owner: bool },
    /// Another session has the lock. The user decides.
    AskAboutLock,
    Fail,
}

/// What is to be done next to open a vault.
pub open spec fn open_step_of(
    is_current: bool,
    has_plaintext: bool,
    vault_read_only: bool,
    lock: LockOutcome,
) -> OpenStep {
    if is_current {
        OpenStep::AlreadyOpen
    } else if has_plaintext {
        OpenStep::AskAboutPlaintext
    } else {
        match lock {
            LockOutcome::Acquired => OpenStep::Commit { owner: true },
            LockOutcome::Contended => if vault_read_only {
                OpenStep::Commit { owner: false }
            } else {
                OpenStep::AskAboutLock
            },
            LockOutcome::Failed => OpenStep::Fail,
        }
    }
}

/// Decides how a vault is opened. Nothing of the one that is open changes here.
pub fn open_step(
    is_current: bool,
    has_plaintext: bool,
    vault_read_only: bool,
    lock: LockOutcome,
) -> (step: OpenStep)
    ensures
        step == open_step_of(is_current, has_plaintext, vault_read_only, lock),
{
    if is_current {
        return OpenStep::AlreadyOpen;
    }
    if has_plaintext {
        return OpenStep::AskAboutPlaintext;
    }
    match lock {
        LockOutcome::Acquired => OpenStep::Commit { owner: true },
        LockOutcome::Contended => {
            if vault_read_only {
                OpenStep::Commit { owner: false }
            } else {
                OpenStep::AskAboutLock
            }
        },
        LockOutcome::Failed => OpenStep::Fail,
    }
}

/// What is known of the lock that another session has.
#[derive(Clone, Copy, Debug, PartialEq, Eq, Structural)]
pub enum LockOwner {
    /// It is known not to run any more.
    ProvenDead,
    /// It runs on this machine.
    Live,
    /// It cannot be told.
    Unknown,
}

/// What the user can choose where another session has the lock.
#[derive(Clone, Copy, Debug, PartialEq, Eq, Structural)]
pub enum ContentionChoice {
    Cancel,
    OpenReadOnly,
    TakeOver,
    ShowExistingWindow,
}

/// What the user chose to do about a vault that is open elsewhere.
pub open spec fn contention_of(owner: LockOwner, button: i32) -> ContentionChoice {
    if button == 1 {
        ContentionChoice::OpenReadOnly
    } else if button == 2 && owner == LockOwner::ProvenDead {
        ContentionChoice::TakeOver
    } else if button == 2 && owner == LockOwner::Live {
        ContentionChoice::ShowExistingWindow
    } else {
        ContentionChoice::Cancel
    }
}

/// What a button of the question about a lock does. A lock is taken over only
/// where its owner is known not to run.
pub fn contention_choice(owner: LockOwner, button: i32) -> (choice: ContentionChoice)
    ensures
        choice == contention_of(owner, button),
{
    if button == 1 {
        return ContentionChoice::OpenReadOnly;
    }
    if button == 2 {
        match owner {
            LockOwner::ProvenDead => {
                return ContentionChoice::TakeOver;
            },
            LockOwner::Live => {
                return ContentionChoice::ShowExistingWindow;
            },
            LockOwner::Unknown => {},
        }
    }
    ContentionChoice::Cancel
}

/// What the window says once a vault is open.
pub fn opened_status(
    read_only: bool,
    migration_warning: Option<&str>,
    watcher_error: Option<&str>,
    config_error: Option<&str>,
) -> (status: String)
    ensures
        status@ == (if read_only {
            match migration_warning {
                Some(warning) => warning@,
                None => "This vault is open read-only."@,
            }
        } else {
            match (watcher_error, config_error) {
                (Some(error), _) => "Vault opened without live updates: "@ + error@,
                (None, Some(error)) => "Vault opened; settings were not saved: "@ + error@,
                (None, None) => "Saved"@,
            }
        }),
{
    if read_only {
        return match migration_warning {
            Some(warning) => warning.to_owned(),
            None => "This vault is open read-only.".to_owned(),
        };
    }
    if let Some(error) = watcher_error {
        let mut status: String = "Vault opened without live updates: ".to_owned();
        status.append(error);
        return status;
    }
    if let Some(error) = config_error {
        let mut status: String = "Vault opened; settings were not saved: ".to_owned();
        status.append(error);
        return status;
    }
    "Saved".to_owned()
}

/// A workspace in which nothing of a vault is left.
pub open spec fn emptied(workspace: WorkspaceView) -> WorkspaceView {
    WorkspaceView {
        notes: seq![],
        trash: seq![],
        active: None,
        unlocked: seq![],
        plain: seq![],
        body_dirty: false,
        title_dirty: false,
        title_draft: seq![],
        flow: FlowView { view: ViewMode::AllNotes, selected_note: None, selected_trash: None },
        filter: None,
        last_activity: None,
        ..workspace
    }
}

/// A workspace once a vault is opened in it.
pub open spec fn switched_to(
    before: WorkspaceView,
    vault: OpenVault,
    vault_read_only: bool,
    lock_owner: bool,
) -> WorkspaceView {
    emptied(
        WorkspaceView {
            vault: Some(vault),
            read_only: vault_read_only || !lock_owner,
            ..before
        },
    )
}

/// What locking the vault changes.
pub open spec fn vault_is_locked(
    before: WorkspaceView,
    locked: bool,
    after: WorkspaceView,
) -> bool {
    match before.vault {
        Some(vault) => if vault.encrypted && !vault.locked {
            &&& locked
            &&& after == emptied(
                WorkspaceView { vault: Some(OpenVault { locked: true, ..vault }), ..before },
            )
        } else {
            !locked && after == before
        },
        None => !locked && after == before,
    }
}

/// Where what is kept of the use of a vault goes.
pub open spec fn session_target_of(vault: Option<OpenVault>) -> SessionTarget {
    match vault {
        None => SessionTarget::Nowhere,
        Some(vault) => if !vault.encrypted {
            SessionTarget::Settings(vault.vault_id)
        } else if vault.locked {
            SessionTarget::Nowhere
        } else {
            SessionTarget::Manifest
        },
    }
}

/// A workspace once its use is kept.
pub open spec fn captured(before: WorkspaceView, editor_scroll: Option<u64>) -> WorkspaceView {
    if before.vault is None {
        before
    } else {
        WorkspaceView {
            session: SessionStateView {
                last_note: before.flow.selected_note,
                last_view: Some(token_of(before.flow.view)),
                editor_scroll,
                ..before.session
            },
            ..before
        }
    }
}

impl Workspace {
    /// Takes everything of the vault that is open out of memory.
    fn forget_contents(&mut self)
        ensures
            final(self)@ == emptied(old(self)@),
            final(self)@.valid(),
    {
        self.clear_sensitive_documents();
        self.notes = Vec::new();
        self.trash = Vec::new();
        self.body_dirty = false;
        self.title_dirty = false;
        self.title_draft = String::new();
        self.flow = UiFlow::default();
        self.filter = FilterState::default();
        proof {
            assert(self@ =~= emptied(old(self)@));
        }
    }

    /// Goes over to another vault. Nothing of the one before stays in memory.
    /// Whether the new one is locked comes back.
    pub fn commit_vault_switch(&mut self, vault: OpenVault, vault_read_only: bool, lock_owner: bool) -> (locked:
        bool)
        ensures
            final(self)@ == switched_to(old(self)@, vault, vault_read_only, lock_owner),
            final(self)@.valid(),
            locked == (vault.encrypted && vault.locked),
    {
        let locked = vault.encrypted && vault.locked;
        self.forget_contents();
        self.vault = Some(vault);
        self.read_only = vault_read_only || !lock_owner;
        proof {
            assert(self@ =~= emptied(
                WorkspaceView {
                    vault: Some(vault),
                    read_only: vault_read_only || !lock_owner,
                    ..old(self)@
                },
            ));
        }
        locked
    }

    /// Whether there is a vault to lock: a sealed one that is unlocked.
    pub fn can_lock_vault(&self) -> (can: bool)
        ensures
            can == (match self@.vault {
                Some(vault) => vault.encrypted && !vault.locked,
                None => false,
            }),
    {
        match &self.vault {
            Some(vault) => vault.encrypted && !vault.locked,
            None => false,
        }
    }

    /// Locks the vault, where it is a sealed one and unlocked. Nothing of it
    /// stays in memory. Whether it was locked comes back.
    pub fn lock_vault(&mut self) -> (locked: bool)
        ensures
            vault_is_locked(old(self)@, locked, final(self)@),
            locked ==> final(self)@.valid(),
    {
        if !self.can_lock_vault() {
            return false;
        }
        self.forget_contents();
        if let Some(vault) = &mut self.vault {
            vault.locked = true;
        }
        proof {
            assert(self@ =~= emptied(
                WorkspaceView {
                    vault: Some(OpenVault { locked: true, ..old(self)@.vault->Some_0 }),
                    ..old(self)@
                },
            ));
        }
        true
    }

    /// Prepares the screen of a locked vault: the view of all notes, and nothing
    /// of the vault's use.
    pub fn show_locked(&mut self)
        ensures
            final(self)@.flow == (FlowView {
                view: ViewMode::AllNotes,
                selected_note: old(self)@.flow.selected_note,
                selected_trash: None,
            }),
            final(self).session.is_empty_state(),
            final(self)@ == (WorkspaceView {
                flow: final(self)@.flow,
                session: final(self)@.session,
                ..old(self)@
            }),
    {
        self.flow.switch_view(ViewMode::AllNotes);
        self.session = VaultSessionState::default();
    }
}

/// A vault that was locked or left shows nothing: no note, no title, no trash,
/// no open document and no selection, and nothing in it is secret any more.
pub proof fn law_nothing_stays_of_a_vault(workspace: WorkspaceView)
    ensures
        emptied(workspace).notes.len() == 0,
        emptied(workspace).trash.len() == 0,
        emptied(workspace).active is None,
        emptied(workspace).unlocked.len() == 0,
        emptied(workspace).plain.len() == 0,
        emptied(workspace).title_draft.len() == 0,
        (workspace.vault matches Some(vault) ==> !vault.encrypted || vault.locked)
            ==> !emptied(workspace).is_sensitive(),
{
}

// The use of a vault.

/// Where the use of a vault is kept.
#[derive(Clone, Copy, Debug, PartialEq, Eq, Structural)]
pub enum SessionTarget {
    /// Nowhere: no vault is open, or it is sealed and locked.
    Nowhere,
    /// In its manifest, sealed.
    Manifest,
    /// In the settings, in the clear, under its identifier.
    Settings(Uuid),
}

impl Workspace {
    /// Notes the view and the selection in the use of the vault, and decides
    /// where that is kept. That of a sealed vault never reaches the settings.
    pub fn capture_session(&mut self, editor_scroll: Option<u64>) -> (target: SessionTarget)
        ensures
            target == session_target_of(old(self)@.vault),
            final(self)@ == captured(old(self)@, editor_scroll),
    {
        let target = match &self.vault {
            None => {
                return SessionTarget::Nowhere;
            },
            Some(vault) => {
                if !vault.encrypted {
                    SessionTarget::Settings(vault.vault_id)
                } else if vault.locked {
                    SessionTarget::Nowhere
                } else {
                    SessionTarget::Manifest
                }
            },
        };
        self.session.last_note = self.flow.selected_note();
        self.session.last_view = Some(view_token(self.flow.view()));
        self.session.editor_scroll = editor_scroll;
        proof {
            assert(self@ =~= WorkspaceView {
                session: SessionStateView {
                    last_note: old(self)@.flow.selected_note,
                    last_view: Some(token_of(old(self)@.flow.view)),
                    editor_scroll,
                    ..old(self)@.session
                },
                ..old(self)@
            });
        }
        target
    }
}

/// Whether a notebook is listed.
pub open spec fn is_notebook(notebooks: Seq<NotebookEntry>, path: Seq<char>) -> bool {
    exists|i: int|
        0 <= i < notebooks.len() && same_path((#[trigger] notebooks[i]).relative_path@, path)
}

/// The view to start with: the one that was left, unless it is that of a
/// notebook that is gone.
pub fn resolve_restored_view(view: ViewMode, notebooks: &[NotebookEntry]) -> (resolved: ViewMode)
    ensures
        match view {
            ViewMode::Notebook(path) => if is_notebook(notebooks@, path@) {
                resolved == view
            } else {
                resolved is AllNotes
            },
            _ => resolved == view,
        },
{
    let known = match &view {
        ViewMode::Notebook(path) => {
            let mut known = false;
            let mut index: usize = 0;
            while index < notebooks.len()
                invariant
                    index <= notebooks@.len(),
                    known == exists|i: int|
                        0 <= i < index && same_path(
                            (#[trigger] notebooks@[i]).relative_path@,
                            path@,
                        ),
                decreases notebooks@.len() - index,
            {
                if paths_equal(&notebooks[index].relative_path, path) {
                    known = true;
                }
                index += 1;
            }
            known
        },
        _ => true,
    };
    if known {
        view
    } else {
        ViewMode::AllNotes
    }
}

/// What is selected when a vault has been opened.
#[derive(Clone, Copy, Debug, PartialEq, Eq, Structural)]
pub enum FirstSelection {
    /// The note that was selected when the vault was left.
    Note(Uuid),
    /// A new note: there is none.
    NewNote,
    FirstRow,
}

impl Workspace {
    /// Decides what is selected when a vault has been opened.
    pub fn first_selection(&self) -> (selection: FirstSelection)
        ensures
            selection == (match self@.session.last_note {
                Some(id) => if summary_from(self@.notes, id, 0) < self@.notes.len() {
                    FirstSelection::Note(id)
                } else if self@.notes.len() == 0 && !self@.read_only {
                    FirstSelection::NewNote
                } else {
                    FirstSelection::FirstRow
                },
                None => if self@.notes.len() == 0 && !self@.read_only {
                    FirstSelection::NewNote
                } else {
                    FirstSelection::FirstRow
                },
            }),
    {
        if let Some(id) = self.session.last_note {
            if find_summary(&self.notes, id) < self.notes.len() {
                return FirstSelection::Note(id);
            }
        }
        if self.notes.len() == 0 && !self.read_only {
            FirstSelection::NewNote
        } else {
            FirstSelection::FirstRow
        }
    }

    /// The row that is preferred in the view.
    pub fn preferred_row(&self) -> (target: Option<RowTarget>)
        ensures
            target == (if self@.flow.view is Trash {
                match self@.flow.selected_trash {
                    Some(id) => Some(RowTarget::Trash(id)),
                    None => None,
                }
            } else {
                match self@.flow.selected_note {
                    Some(id) => Some(RowTarget::Note(id)),
                    None => None,
                }
            }),
    {
        match self.flow.view() {
            ViewMode::Trash => match self.flow.selected_trash() {
                Some(id) => Some(RowTarget::Trash(id)),
                None => None,
            },
            _ => match self.flow.selected_note() {
                Some(id) => Some(RowTarget::Note(id)),
                None => None,
            },
        }
    }

    /// The notebook that a new note goes to: the one that is shown, or the one
    /// that every vault has.
    pub fn target_notebook_for_new_note(&self) -> (notebook: String)
        ensures
            notebook@ == (match self@.flow.view {
                ViewMode::Notebook(path) => path@,
                _ => DEFAULT_NOTEBOOK@,
            }),
    {
        match self.flow.view() {
            ViewMode::Notebook(path) => copy_text(path),
            _ => DEFAULT_NOTEBOOK.to_owned(),
        }
    }

    /// Decides whether a view can be gone to.
    pub fn plan_switch(&self, mode: &ViewMode) -> (plan: ViewSwitch)
        ensures
            plan == (match self@.vault {
                Some(vault) => if vault.encrypted && vault.locked {
                    ViewSwitch::Locked
                } else if same_view(self@.flow.view, *mode) {
                    ViewSwitch::AlreadyThere
                } else {
                    ViewSwitch::Go
                },
                None => if same_view(self@.flow.view, *mode) {
                    ViewSwitch::AlreadyThere
                } else {
                    ViewSwitch::Go
                },
            }),
    {
        let locked = match &self.vault {
            Some(vault) => vault.encrypted && vault.locked,
            None => false,
        };
        if locked {
            return ViewSwitch::Locked;
        }
        if self.flow.view().is_same(mode) {
            ViewSwitch::AlreadyThere
        } else {
            ViewSwitch::Go
        }
    }

    /// Adds a note that was just made, and selects it.
    pub fn note_created(&mut self, summary: NoteSummary)
        ensures
            final(self)@.notes == old(self)@.notes.insert(0, summary),
            final(self)@.flow.selected_note == Some(summary.id),
            final(self)@.flow.selected_trash is None,
            final(self)@.flow.view == (if old(self)@.flow.view is Trash {
                ViewMode::AllNotes
            } else {
                old(self)@.flow.view
            }),
            final(self)@ == (WorkspaceView {
                notes: final(self)@.notes,
                flow: final(self)@.flow,
                ..old(self)@
            }),
            old(self)@.valid() ==> final(self)@.valid(),
    {
        let id = summary.id;
        self.notes.insert(0, summary);
        self.flow.select_note(id);
    }

    /// The note whose summary is to be kept when a notebook was renamed: the
    /// open one, where it lies within it.
    pub fn affected_by_rename(&self, renamed: &str) -> (id: Option<Uuid>)
        ensures
            id == (match self@.active {
                Some(document) => if path_starts_with(
                    document.spec_note().relative_path@,
                    renamed@,
                ) {
                    Some(document.spec_id())
                } else {
                    None
                },
                None => None,
            }),
    {
        match &self.active {
            Some(document) => {
                if starts_with_path(&document.note().relative_path, renamed) {
                    Some(document.id())
                } else {
                    None
                }
            },
            None => None,
        }
    }
}

/// What a wish for a view leads to.
#[derive(Clone, Copy, Debug, PartialEq, Eq, Structural)]
pub enum ViewSwitch {
    /// The vault is locked: there is nothing to show.
    Locked,
    AlreadyThere,
    Go,
}

/// What the row of a view in the sidebar is called.
#[derive(Clone, Copy, Debug, PartialEq, Eq, Structural)]
pub enum SidebarRow {
    AllNotes,
    Inbox,
    RecentlyOpened,
    Favourites,
    Pinned,
    Archive,
    Trash,
}

/// The row of the sidebar that a view selects. Notebooks have a list of their own.
pub fn sidebar_row(view: &ViewMode) -> (row: Option<SidebarRow>)
    ensures
        row == (match *view {
            ViewMode::AllNotes => Some(SidebarRow::AllNotes),
            ViewMode::Notebook(path) => if same_path(path@, DEFAULT_NOTEBOOK@) {
                Some(SidebarRow::Inbox)
            } else {
                None
            },
            ViewMode::RecentlyOpened => Some(SidebarRow::RecentlyOpened),
            ViewMode::Favourites => Some(SidebarRow::Favourites),
            ViewMode::Pinned => Some(SidebarRow::Pinned),
            ViewMode::Archive => Some(SidebarRow::Archive),
            ViewMode::Trash => Some(SidebarRow::Trash),
            ViewMode::EncryptedNotes => None,
            ViewMode::RecentlyEdited => None,
        }),
{
    match view {
        ViewMode::AllNotes => Some(SidebarRow::AllNotes),
        ViewMode::Notebook(path) => {
            if paths_equal(path, DEFAULT_NOTEBOOK) {
                Some(SidebarRow::Inbox)
            } else {
                None
            }
        },
        ViewMode::RecentlyOpened => Some(SidebarRow::RecentlyOpened),
        ViewMode::Favourites => Some(SidebarRow::Favourites),
        ViewMode::Pinned => Some(SidebarRow::Pinned),
        ViewMode::Archive => Some(SidebarRow::Archive),
        ViewMode::Trash => Some(SidebarRow::Trash),
        ViewMode::EncryptedNotes => None,
        ViewMode::RecentlyEdited => None,
    }
}

// Opening a note.

/// What opening a note leads to.
#[derive(Debug, PartialEq, Eq)]
pub enum NoteOpening {
    /// There is no vault or no such note.
    Nothing,
    /// An encrypted note that is still unlocked is in memory.
    ShowUnlocked,
    /// An encrypted note, with its path: its password is asked for where `ask` is set.
    Locked { path: String, ask: bool },
    /// A note in the clear, with its path. A copy may be in memory.
    Load(String),
}

/// How a note is opened, and what that selects.
pub open spec fn note_is_opened(
    before: WorkspaceView,
    id: Uuid,
    prompt_if_locked: bool,
    opening: NoteOpening,
    after: WorkspaceView,
) -> bool {
    let at = summary_from(before.notes, id, 0);
    let note = before.notes[at];
    if before.vault is None || at == before.notes.len() {
        opening is Nothing && after == before
    } else {
        &&& after.flow.selected_note == Some(id)
        &&& after.flow.selected_trash is None
        &&& after.flow.view == (if before.flow.view is Trash {
            ViewMode::AllNotes
        } else {
            before.flow.view
        })
        &&& after == (WorkspaceView { flow: after.flow, ..before })
        &&& if !note.encrypted {
            opening matches NoteOpening::Load(path) && path@ == note.relative_path@
        } else if document_from(before.unlocked, id, 0) < before.unlocked.len() {
            opening is ShowUnlocked
        } else {
            opening matches NoteOpening::Locked { path, ask } && path@ == note.relative_path@
                && ask == prompt_if_locked
        }
    }
}

/// What the button for locking does.
pub open spec fn quick_lock_of(workspace: WorkspaceView) -> QuickLock {
    match workspace.active {
        Some(document) => if document is Encrypted {
            QuickLock::Lock
        } else {
            QuickLock::Encrypt
        },
        None => match workspace.flow.selected_note {
            Some(id) => {
                let at = summary_from(workspace.notes, id, 0);
                if at < workspace.notes.len() && workspace.notes[at].encrypted {
                    QuickLock::Unlock(id)
                } else {
                    QuickLock::Nothing
                }
            },
            None => QuickLock::Nothing,
        },
    }
}

impl Workspace {
    /// Decides how a note is opened, and selects it. A password is asked for
    /// only where the user chose this very note.
    pub fn plan_opening(&mut self, id: Uuid, prompt_if_locked: bool) -> (opening: NoteOpening)
        ensures
            note_is_opened(old(self)@, id, prompt_if_locked, opening, final(self)@),
            old(self)@.valid() ==> final(self)@.valid(),
    {
        let at: usize = find_summary(&self.notes, id);
        if self.vault.is_none() || at == self.notes.len() {
            return NoteOpening::Nothing;
        }
        self.flow.select_note(id);
        let path = copy_text(&self.notes[at].relative_path);
        if !self.notes[at].encrypted {
            return NoteOpening::Load(path);
        }
        if find_document(&self.unlocked, id) < self.unlocked.len() {
            return NoteOpening::ShowUnlocked;
        }
        NoteOpening::Locked { path, ask: prompt_if_locked }
    }

    /// What the lock button of the open or selected note does. It is about the
    /// note alone, never about the vault.
    pub fn quick_lock(&self) -> (action: QuickLock)
        ensures
            action == quick_lock_of(self@),
    {
        match &self.active {
            Some(document) => {
                if document.is_encrypted() {
                    QuickLock::Lock
                } else {
                    QuickLock::Encrypt
                }
            },
            None => match self.flow.selected_note() {
                Some(id) => {
                    let at: usize = find_summary(&self.notes, id);
                    if at < self.notes.len() && self.notes[at].encrypted {
                        QuickLock::Unlock(id)
                    } else {
                        QuickLock::Nothing
                    }
                },
                None => QuickLock::Nothing,
            },
        }
    }
}

/// What the lock button of a note does.
#[derive(Clone, Copy, Debug, PartialEq, Eq, Structural)]
pub enum QuickLock {
    Nothing,
    Lock,
    Encrypt,
    Unlock(Uuid),
}

// The switcher of vaults.

/// What can be done with the vault that is open.
#[derive(Clone, Copy, Debug, PartialEq, Eq, Structural)]
pub struct VaultActions {
    pub lock_vault: bool,
    pub change_vault_password: bool,
    pub rename_vault: bool,
    pub export_standard_vault: bool,
}

impl Workspace {
    /// What can be done with the vault that is open. Only a sealed vault that is
    /// unlocked has a lock, and it is exported only where it can be written.
    pub fn vault_actions(&self) -> (actions: VaultActions)
        ensures
            ({
                let unlocked = match self@.vault {
                    Some(vault) => vault.encrypted && !vault.locked,
                    None => false,
                };
                &&& actions.lock_vault == unlocked
                &&& actions.change_vault_password == unlocked
                &&& actions.rename_vault == (self@.vault is Some)
                &&& actions.export_standard_vault == (unlocked && !self@.read_only)
            }),
    {
        let unlocked = self.can_lock_vault();
        VaultActions {
            lock_vault: unlocked,
            change_vault_password: unlocked,
            rename_vault: self.vault.is_some(),
            export_standard_vault: unlocked && !self.read_only,
        }
    }
}

/// What the switcher says of the vault that is open.
pub fn switcher_status(read_only: bool, warning: Option<&str>) -> (status: String)
    ensures
        status@ == (match (read_only, warning) {
            (true, Some(reason)) => "Read-only · "@ + reason@,
            (true, None) => "Read-only"@,
            (false, Some(reason)) => reason@,
            (false, None) => seq![],
        }),
{
    match warning {
        Some(reason) => {
            if read_only {
                let mut status: String = "Read-only · ".to_owned();
                status.append(reason);
                status
            } else {
                reason.to_owned()
            }
        },
        None => {
            if read_only {
                "Read-only".to_owned()
            } else {
                let status = String::new();
                proof {
                    assert(status@ =~= seq![]);
                }
                status
            }
        },
    }
}

/// The recent vaults other than the one that is open.
pub open spec fn others(
    recents: Seq<Seq<char>>,
    resolved: Seq<Seq<char>>,
    current: Option<Seq<char>>,
) -> Seq<Seq<char>>
    decreases recents.len(),
{
    if recents.len() == 0 {
        seq![]
    } else {
        let before = others(recents.drop_last(), resolved, current);
        if current matches Some(open) && same_path(open, resolved[recents.len() - 1]) {
            before
        } else {
            before.push(recents.last())
        }
    }
}

/// The recent vaults that are offered. `resolved` holds their paths, and
/// `current` that of the open vault, with all links resolved.
pub fn recents_shown(recents: &[String], resolved: &[String], current: Option<&str>) -> (shown: Vec<
    String,
>)
    requires
        recents@.len() == resolved@.len(),
    ensures
        texts(shown@) == others(
            texts(recents@),
            texts(resolved@),
            match current {
                Some(path) => Some(path@),
                None => None,
            },
        ),
{
    let ghost all = texts(recents@);
    let ghost keys = texts(resolved@);
    let ghost open = match current {
        Some(path) => Some(path@),
        None => None,
    };
    let mut shown: Vec<String> = Vec::new();
    let mut index: usize = 0;
    proof {
        assert(texts(shown@) =~= others(all.take(0), keys, open));
    }
    while index < recents.len()
        invariant
            index <= recents@.len(),
            recents@.len() == resolved@.len(),
            all == texts(recents@),
            keys == texts(resolved@),
            open == (match current {
                Some(path) => Some(path@),
                None => None::<Seq<char>>,
            }),
            texts(shown@) == others(all.take(index as int), keys, open),
        decreases recents@.len() - index,
    {
        proof {
            let next = all.take(index + 1);
            assert(next.drop_last() =~= all.take(index as int));
            assert(next.last() == recents@[index as int]@);
            assert(keys[index as int] == resolved@[index as int]@);
        }
        let is_open = match current {
            Some(path) => paths_equal(path, &resolved[index]),
            None => false,
        };
        if !is_open {
            let ghost done = shown@;
            let path = copy_text(&recents[index]);
            shown.push(path);
            proof {
                lemma_texts_push(done, path);
            }
        }
        index += 1;
    }
    proof {
        assert(all.take(index as int) == all);
    }
    shown
}

/// The label of a recent vault.
pub fn recent_label(name: &str, available: bool) -> (label: String)
    ensures
        label@ == (if available {
            name@
        } else {
            name@ + "  (missing)"@
        }),
{
    let mut label: String = name.to_owned();
    if !available {
        label.append("  (missing)");
    }
    label
}

/// How many sealed vaults the sidebar shows.
pub const SIDEBAR_SECURE_VAULTS: usize = 4;

/// How many of the sealed vaults the sidebar shows, and whether it offers the rest.
pub fn sidebar_vaults(count: usize) -> (shown: (usize, bool))
    ensures
        shown.0 <= SIDEBAR_SECURE_VAULTS,
        shown.0 == (if count < SIDEBAR_SECURE_VAULTS {
            count
        } else {
            SIDEBAR_SECURE_VAULTS
        }),
        shown.1 == (count > SIDEBAR_SECURE_VAULTS),
{
    if count < SIDEBAR_SECURE_VAULTS {
        (count, false)
    } else {
        (SIDEBAR_SECURE_VAULTS, count > SIDEBAR_SECURE_VAULTS)
    }
}

/// What stands beside the name of the open vault.
#[derive(Debug, PartialEq, Eq)]
pub struct VaultBadge {
    pub icon: &'static str,
    pub tooltip: &'static str,
    /// Whether the vault can be locked from there.
    pub lock_button: bool,
}

impl Workspace {
    /// What stands beside the name of the open vault. An ordinary one has no lock.
    pub fn vault_badge(&self) -> (badge: Option<VaultBadge>)
        ensures
            match self@.vault {
                Some(vault) => if vault.encrypted {
                    &&& badge matches Some(shown)
                    &&& shown.icon@ == (if vault.locked {
                        "channel-secure-symbolic"@
                    } else {
                        "changes-allow-symbolic"@
                    })
                    &&& shown.tooltip@ == (if vault.locked {
                        "This Secure Vault is locked"@
                    } else {
                        "This Secure Vault is unlocked"@
                    })
                    &&& shown.lock_button == !vault.locked
                } else {
                    badge is None
                },
                None => badge is None,
            },
    {
        match &self.vault {
            Some(vault) => {
                if !vault.encrypted {
                    None
                } else if vault.locked {
                    Some(
                        VaultBadge {
                            icon: "channel-secure-symbolic",
                            tooltip: "This Secure Vault is locked",
                            lock_button: false,
                        },
                    )
                } else {
                    Some(
                        VaultBadge {
                            icon: "changes-allow-symbolic",
                            tooltip: "This Secure Vault is unlocked",
                            lock_button: true,
                        },
                    )
                }
            },
            None => None,
        }
    }
}

// Signals.

/// Counts changes of a widget that do not come from the user.
pub struct SignalGate {
    depth: u32,
}

impl SignalGate {
    pub closed spec fn spec_depth(&self) -> u32 {
        self.depth
    }

    pub fn new() -> (gate: SignalGate)
        ensures
            gate.spec_depth() == 0,
    {
        SignalGate { depth: 0 }
    }

    /// Starts a change.
    pub fn suppress(&mut self)
        ensures
            final(self).spec_depth() == (if old(self).spec_depth() < u32::MAX {
                (old(self).spec_depth() + 1) as u32
            } else {
                u32::MAX
            }),
    {
        if self.depth < u32::MAX {
            self.depth += 1;
        }
    }

    /// Ends a change.
    pub fn release(&mut self)
        ensures
            final(self).spec_depth() == (if old(self).spec_depth() > 0 {
                (old(self).spec_depth() - 1) as u32
            } else {
                0
            }),
    {
        if self.depth > 0 {
            self.depth -= 1;
        }
    }

    /// Whether a change is under way.
    pub fn is_suppressed(&self) -> (suppressed: bool)
        ensures
            suppressed == (self.spec_depth() > 0),
    {
        self.depth > 0
    }
}

} // verus!
