//! The open note and what else the window holds in memory.

use vstd::prelude::*;

use crate::config::{put_in_front, SessionStateView, VaultSessionState, RECENTLY_OPENED_LIMIT};
use crate::crypto::note::EncryptedSession;
use crate::ident::Uuid;
use crate::model::{tag_is_added, tag_is_removed, Note, NoteSummary};
use crate::text::{copy_text, copy_texts, texts, trim, trimmed};
use crate::ui_state::{FilterState, FlowView, UiFlow, ViewMode};
use crate::vault::{FileStamp, TrashEntry};
use crate::workspace::listing::{preview_of, truncate_preview};

verus! {

/// How many notes in the clear are kept in memory at most.
pub const PLAIN_CACHE_LIMIT: usize = 48;

/// A note that is open.
pub enum ActiveDocument {
    Plain { note: Note, stamp: FileStamp },
    Encrypted { note: Note, stamp: FileStamp, session: EncryptedSession },
}

impl ActiveDocument {
    pub open spec fn spec_note(&self) -> Note {
        match self {
            ActiveDocument::Plain { note, .. } => *note,
            ActiveDocument::Encrypted { note, .. } => *note,
        }
    }

    pub open spec fn spec_id(&self) -> Uuid {
        self.spec_note().metadata.id
    }

    pub fn note(&self) -> (note: &Note)
        ensures
            *note == self.spec_note(),
    {
        match self {
            ActiveDocument::Plain { note, .. } => note,
            ActiveDocument::Encrypted { note, .. } => note,
        }
    }

    pub fn id(&self) -> (id: Uuid)
        ensures
            id == self.spec_id(),
    {
        self.note().metadata.id
    }

    pub fn is_encrypted(&self) -> (encrypted: bool)
        ensures
            encrypted == (self is Encrypted),
    {
        matches!(self, ActiveDocument::Encrypted { .. })
    }

    pub open spec fn spec_stamp(&self) -> FileStamp {
        match self {
            ActiveDocument::Plain { stamp, .. } => *stamp,
            ActiveDocument::Encrypted { stamp, .. } => *stamp,
        }
    }

    pub fn stamp(&self) -> (stamp: FileStamp)
        ensures
            stamp == self.spec_stamp(),
    {
        match self {
            ActiveDocument::Plain { stamp, .. } => *stamp,
            ActiveDocument::Encrypted { stamp, .. } => *stamp,
        }
    }

    /// This document with another note in it.
    pub open spec fn with_note(self, note: Note) -> ActiveDocument {
        match self {
            ActiveDocument::Plain { stamp, .. } => ActiveDocument::Plain { note, stamp },
            ActiveDocument::Encrypted { stamp, session, .. } => ActiveDocument::Encrypted {
                note,
                stamp,
                session,
            },
        }
    }

    /// This document with another stamp.
    pub open spec fn with_stamp(self, stamp: FileStamp) -> ActiveDocument {
        match self {
            ActiveDocument::Plain { note, .. } => ActiveDocument::Plain { note, stamp },
            ActiveDocument::Encrypted { note, session, .. } => ActiveDocument::Encrypted {
                note,
                stamp,
                session,
            },
        }
    }

    /// The note, to be changed.
    pub fn note_mut(&mut self) -> (note: &mut Note)
        ensures
            *note == old(self).spec_note(),
            *final(self) == old(self).with_note(*final(note)),
    {
        match self {
            ActiveDocument::Plain { note, .. } => note,
            ActiveDocument::Encrypted { note, .. } => note,
        }
    }

    fn set_stamp(&mut self, next: FileStamp)
        ensures
            *final(self) == old(self).with_stamp(next),
    {
        match self {
            ActiveDocument::Plain { stamp, .. } => {
                *stamp = next;
            },
            ActiveDocument::Encrypted { stamp, .. } => {
                *stamp = next;
            },
        }
    }

    /// Overwrites what the note keeps secret.
    pub fn clear_sensitive(&mut self)
        ensures
            final(self).spec_note().is_cleared(old(self).spec_note()),
            *final(self) == old(self).with_note(final(self).spec_note()),
    {
        self.note_mut().clear_sensitive();
    }
}

/// A note in the clear that is kept in memory as it was read.
pub struct CachedNote {
    pub note: Note,
    pub stamp: FileStamp,
}

/// The vault that is open.
pub struct OpenVault {
    pub vault_id: Uuid,
    pub root: String,
    /// Whether everything in it is sealed.
    pub encrypted: bool,
    pub locked: bool,
}

/// What the window holds in memory.
pub struct Workspace {
    pub vault: Option<OpenVault>,
    pub notes: Vec<NoteSummary>,
    pub trash: Vec<TrashEntry>,
    pub active: Option<ActiveDocument>,
    /// Encrypted notes that were left and are still unlocked.
    pub unlocked: Vec<ActiveDocument>,
    /// Notes in the clear that were left, as they are on disk.
    pub plain: Vec<CachedNote>,
    pub body_dirty: bool,
    pub title_dirty: bool,
    pub title_draft: String,
    pub flow: UiFlow,
    pub filter: FilterState,
    pub session: VaultSessionState,
    /// When something secret was used last, in milliseconds of a clock that
    /// only goes forward.
    pub last_activity: Option<u64>,
    pub read_only: bool,
}

/// What a workspace holds, with its lists as sequences.
#[verifier::ext_equal]
pub struct WorkspaceView {
    pub vault: Option<OpenVault>,
    pub notes: Seq<NoteSummary>,
    pub trash: Seq<TrashEntry>,
    pub active: Option<ActiveDocument>,
    pub unlocked: Seq<ActiveDocument>,
    pub plain: Seq<CachedNote>,
    pub body_dirty: bool,
    pub title_dirty: bool,
    pub title_draft: Seq<char>,
    pub flow: FlowView,
    pub filter: Option<Seq<char>>,
    pub session: SessionStateView,
    pub last_activity: Option<u64>,
    pub read_only: bool,
}

impl View for Workspace {
    type V = WorkspaceView;

    open spec fn view(&self) -> WorkspaceView {
        WorkspaceView {
            vault: self.vault,
            notes: self.notes@,
            trash: self.trash@,
            active: self.active,
            unlocked: self.unlocked@,
            plain: self.plain@,
            body_dirty: self.body_dirty,
            title_dirty: self.title_dirty,
            title_draft: self.title_draft@,
            flow: self.flow.state(),
            filter: self.filter@,
            session: self.session@,
            last_activity: self.last_activity,
            read_only: self.read_only,
        }
    }
}

/// The first document from a place on with an identifier, or the number of
/// documents where there is none.
pub open spec fn document_from(documents: Seq<ActiveDocument>, id: Uuid, at: int) -> int
    decreases documents.len() - at,
{
    if at >= documents.len() {
        documents.len() as int
    } else if documents[at].spec_id() == id {
        at
    } else {
        document_from(documents, id, at + 1)
    }
}

/// The first cached note from a place on with an identifier, or the number of
/// notes where there is none.
pub open spec fn cached_from(cached: Seq<CachedNote>, id: Uuid, at: int) -> int
    decreases cached.len() - at,
{
    if at >= cached.len() {
        cached.len() as int
    } else if cached[at].note.metadata.id == id {
        at
    } else {
        cached_from(cached, id, at + 1)
    }
}

/// The first summary from a place on with an identifier, or the number of
/// summaries where there is none.
pub open spec fn summary_from(notes: Seq<NoteSummary>, id: Uuid, at: int) -> int
    decreases notes.len() - at,
{
    if at >= notes.len() {
        notes.len() as int
    } else if notes[at].id == id {
        at
    } else {
        summary_from(notes, id, at + 1)
    }
}

/// The documents with one in place of the one that has its identifier, if any.
pub open spec fn documents_with(documents: Seq<ActiveDocument>, document: ActiveDocument) -> Seq<
    ActiveDocument,
> {
    documents_without(documents, document.spec_id()).push(document)
}

/// The documents without the first that has an identifier.
pub open spec fn documents_without(documents: Seq<ActiveDocument>, id: Uuid) -> Seq<
    ActiveDocument,
> {
    let at = document_from(documents, id, 0);
    if at < documents.len() {
        documents.remove(at)
    } else {
        documents
    }
}

/// The cached notes without the first that has an identifier.
pub open spec fn cached_without(cached: Seq<CachedNote>, id: Uuid) -> Seq<CachedNote> {
    let at = cached_from(cached, id, 0);
    if at < cached.len() {
        cached.remove(at)
    } else {
        cached
    }
}

/// The cached notes with one more. A cache that is full starts anew.
pub open spec fn cached_with(cached: Seq<CachedNote>, note: CachedNote) -> Seq<CachedNote> {
    let room = if cached.len() >= PLAIN_CACHE_LIMIT {
        Seq::empty()
    } else {
        cached
    };
    cached_without(room, note.note.metadata.id).push(note)
}

impl WorkspaceView {
    /// No two documents of a cache have the same identifier, the unlocked ones
    /// are encrypted notes, and the cache of notes in the clear is bounded.
    pub open spec fn valid(self) -> bool {
        &&& self.plain.len() <= PLAIN_CACHE_LIMIT
        &&& forall|i: int| 0 <= i < self.unlocked.len() ==> (#[trigger] self.unlocked[i]) is Encrypted
        &&& forall|i: int, j: int|
            0 <= i < j < self.unlocked.len() ==> (#[trigger] self.unlocked[i]).spec_id() != (
            #[trigger] self.unlocked[j]).spec_id()
        &&& forall|i: int, j: int|
            0 <= i < j < self.plain.len() ==> (#[trigger] self.plain[i]).note.metadata.id != (
            #[trigger] self.plain[j]).note.metadata.id
        &&& self.flow.consistent()
    }

    /// Whether something secret is in memory in the clear: an encrypted note is
    /// open, or the vault is sealed and unlocked.
    pub open spec fn is_sensitive(self) -> bool {
        ||| self.active matches Some(document) && document is Encrypted
        ||| self.vault matches Some(vault) && vault.encrypted && !vault.locked
    }

    /// With a use of something secret noted.
    pub open spec fn touched(self, now: u64) -> WorkspaceView {
        if self.is_sensitive() {
            WorkspaceView { last_activity: Some(now), ..self }
        } else {
            self
        }
    }
}

pub proof fn lemma_document_from(documents: Seq<ActiveDocument>, id: Uuid, at: int)
    requires
        0 <= at <= documents.len(),
    ensures
        ({
            let found = document_from(documents, id, at);
            &&& at <= found <= documents.len()
            &&& found < documents.len() ==> documents[found].spec_id() == id
            &&& forall|i: int| at <= i < found ==> (#[trigger] documents[i]).spec_id() != id
        }),
    decreases documents.len() - at,
{
    if at < documents.len() && documents[at].spec_id() != id {
        lemma_document_from(documents, id, at + 1);
    }
}

pub proof fn lemma_cached_from(cached: Seq<CachedNote>, id: Uuid, at: int)
    requires
        0 <= at <= cached.len(),
    ensures
        ({
            let found = cached_from(cached, id, at);
            &&& at <= found <= cached.len()
            &&& found < cached.len() ==> cached[found].note.metadata.id == id
            &&& forall|i: int| at <= i < found ==> (#[trigger] cached[i]).note.metadata.id != id
        }),
    decreases cached.len() - at,
{
    if at < cached.len() && cached[at].note.metadata.id != id {
        lemma_cached_from(cached, id, at + 1);
    }
}

pub proof fn lemma_summary_from(notes: Seq<NoteSummary>, id: Uuid, at: int)
    requires
        0 <= at <= notes.len(),
    ensures
        ({
            let found = summary_from(notes, id, at);
            &&& at <= found <= notes.len()
            &&& found < notes.len() ==> notes[found].id == id
            &&& forall|i: int| at <= i < found ==> (#[trigger] notes[i]).id != id
        }),
    decreases notes.len() - at,
{
    if at < notes.len() && notes[at].id != id {
        lemma_summary_from(notes, id, at + 1);
    }
}

pub fn find_document(documents: &[ActiveDocument], id: Uuid) -> (found: usize)
    ensures
        found == document_from(documents@, id, 0),
        found <= documents@.len(),
{
    let mut at: usize = 0;
    while at < documents.len() && documents[at].id() != id
        invariant
            at <= documents@.len(),
            document_from(documents@, id, at as int) == document_from(documents@, id, 0),
        decreases documents@.len() - at,
    {
        at += 1;
    }
    at
}

fn find_cached(cached: &[CachedNote], id: Uuid) -> (found: usize)
    ensures
        found == cached_from(cached@, id, 0),
        found <= cached@.len(),
{
    let mut at: usize = 0;
    while at < cached.len() && cached[at].note.metadata.id != id
        invariant
            at <= cached@.len(),
            cached_from(cached@, id, at as int) == cached_from(cached@, id, 0),
        decreases cached@.len() - at,
    {
        at += 1;
    }
    at
}

/// The place of the first summary with an identifier, or the number of summaries.
pub fn find_summary(notes: &[NoteSummary], id: Uuid) -> (found: usize)
    ensures
        found == summary_from(notes@, id, 0),
        found <= notes@.len(),
{
    let mut at: usize = 0;
    while at < notes.len() && notes[at].id != id
        invariant
            at <= notes@.len(),
            summary_from(notes@, id, at as int) == summary_from(notes@, id, 0),
        decreases notes@.len() - at,
    {
        at += 1;
    }
    at
}

impl Default for Workspace {
    fn default() -> (workspace: Workspace)
        ensures
            workspace@.valid(),
            workspace@.vault is None,
            workspace@.notes.len() == 0,
            workspace@.trash.len() == 0,
            workspace@.active is None,
            workspace@.unlocked.len() == 0,
            workspace@.plain.len() == 0,
            !workspace@.body_dirty,
            !workspace@.title_dirty,
            workspace@.title_draft.len() == 0,
            workspace@.flow == (FlowView {
                view: ViewMode::AllNotes,
                selected_note: None,
                selected_trash: None,
            }),
            workspace@.filter is None,
            workspace.session.is_empty_state(),
            workspace@.last_activity is None,
            !workspace@.read_only,
    {
        Workspace {
            vault: None,
            notes: Vec::new(),
            trash: Vec::new(),
            active: None,
            unlocked: Vec::new(),
            plain: Vec::new(),
            body_dirty: false,
            title_dirty: false,
            title_draft: String::new(),
            flow: UiFlow::default(),
            filter: FilterState::default(),
            session: VaultSessionState::default(),
            last_activity: None,
            read_only: false,
        }
    }
}

// Leaving and opening a note.

/// A workspace once the open note is left.
pub open spec fn stashed(workspace: WorkspaceView, lock_on_leave: bool) -> WorkspaceView {
    let left = WorkspaceView { active: None, ..workspace };
    match workspace.active {
        None => workspace,
        Some(ActiveDocument::Encrypted { note, stamp, session }) => if lock_on_leave {
            left
        } else {
            WorkspaceView {
                unlocked: documents_with(
                    workspace.unlocked,
                    ActiveDocument::Encrypted { note, stamp, session },
                ),
                ..left
            }
        },
        Some(ActiveDocument::Plain { note, stamp }) => if workspace.body_dirty
            || workspace.title_dirty {
            left
        } else {
            WorkspaceView {
                plain: cached_with(workspace.plain, CachedNote { note, stamp }),
                ..left
            }
        },
    }
}

impl Workspace {
    fn drop_unlocked(&mut self, id: Uuid)
        ensures
            final(self)@ == (WorkspaceView {
                unlocked: documents_without(old(self)@.unlocked, id),
                ..old(self)@
            }),
            old(self)@.valid() ==> final(self)@.valid(),
    {
        let at: usize = find_document(&self.unlocked, id);
        if at < self.unlocked.len() {
            let mut document = self.unlocked.remove(at);
            document.clear_sensitive();
        }
        proof {
            assert(self@ =~= WorkspaceView {
                unlocked: documents_without(old(self)@.unlocked, id),
                ..old(self)@
            });
        }
    }

    fn drop_plain(&mut self, id: Uuid)
        ensures
            final(self)@ == (WorkspaceView {
                plain: cached_without(old(self)@.plain, id),
                ..old(self)@
            }),
            old(self)@.valid() ==> final(self)@.valid(),
    {
        let at: usize = find_cached(&self.plain, id);
        if at < self.plain.len() {
            self.plain.remove(at);
        }
        proof {
            assert(self@ =~= WorkspaceView {
                plain: cached_without(old(self)@.plain, id),
                ..old(self)@
            });
        }
    }

    /// Leaves the open note. An encrypted one is locked or stays unlocked in
    /// memory, as the settings say. One in the clear is kept only as it is on disk.
    pub fn stash_or_lock_active(&mut self, lock_on_leave: bool)
        ensures
            final(self)@ == stashed(old(self)@, lock_on_leave),
            old(self)@.valid() ==> final(self)@.valid(),
    {
        let ghost before = self@;
        let clean = !self.body_dirty && !self.title_dirty;
        match self.active.take() {
            None => {},
            Some(ActiveDocument::Encrypted { note, stamp, session }) => {
                let mut document = ActiveDocument::Encrypted { note, stamp, session };
                if lock_on_leave {
                    document.clear_sensitive();
                } else {
                    let id = document.id();
                    self.drop_unlocked(id);
                    proof {
                        lemma_document_from(before.unlocked, id, 0);
                        lemma_without_document(before.unlocked, id);
                    }
                    self.unlocked.push(document);
                    proof {
                        assert(self@ =~= stashed(before, lock_on_leave));
                    }
                }
            },
            Some(ActiveDocument::Plain { note, stamp }) => {
                if clean {
                    if self.plain.len() >= PLAIN_CACHE_LIMIT {
                        self.plain = Vec::new();
                    }
                    let ghost room = self@.plain;
                    proof {
                        assert(room =~= if before.plain.len() >= PLAIN_CACHE_LIMIT {
                            Seq::empty()
                        } else {
                            before.plain
                        });
                        lemma_without_cached(room, note.metadata.id);
                    }
                    self.drop_plain(note.metadata.id);
                    self.plain.push(CachedNote { note, stamp });
                    proof {
                        assert(self@ =~= stashed(before, lock_on_leave));
                    }
                } else {
                    let mut document = ActiveDocument::Plain { note, stamp };
                    document.clear_sensitive();
                }
            },
        }
    }
}

proof fn lemma_without_document(documents: Seq<ActiveDocument>, id: Uuid)
    ensures
        (forall|i: int, j: int|
            0 <= i < j < documents.len() ==> (#[trigger] documents[i]).spec_id() != (
            #[trigger] documents[j]).spec_id()) ==> forall|i: int|
            0 <= i < documents_without(documents, id).len() ==> (
            #[trigger] documents_without(documents, id)[i]).spec_id() != id,
{
    lemma_document_from(documents, id, 0);
    let at = document_from(documents, id, 0);
    let rest = documents_without(documents, id);
    if forall|i: int, j: int|
        0 <= i < j < documents.len() ==> (#[trigger] documents[i]).spec_id() != (
        #[trigger] documents[j]).spec_id() {
        assert forall|i: int| 0 <= i < rest.len() implies (#[trigger] rest[i]).spec_id() != id by {
            if at < documents.len() && i >= at {
                assert(rest[i] == documents[i + 1]);
                assert(documents[at].spec_id() != documents[i + 1].spec_id());
            } else {
                assert(rest[i] == documents[i]);
            }
        }
    }
}

proof fn lemma_without_cached(cached: Seq<CachedNote>, id: Uuid)
    ensures
        cached_without(cached, id).len() <= cached.len(),
        (forall|i: int, j: int|
            0 <= i < j < cached.len() ==> (#[trigger] cached[i]).note.metadata.id != (
            #[trigger] cached[j]).note.metadata.id) ==> forall|i: int|
            0 <= i < cached_without(cached, id).len() ==> (
            #[trigger] cached_without(cached, id)[i]).note.metadata.id != id,
{
    lemma_cached_from(cached, id, 0);
    let at = cached_from(cached, id, 0);
    let rest = cached_without(cached, id);
    if forall|i: int, j: int|
        0 <= i < j < cached.len() ==> (#[trigger] cached[i]).note.metadata.id != (
        #[trigger] cached[j]).note.metadata.id {
        assert forall|i: int| 0 <= i < rest.len() implies (#[trigger] rest[i]).note.metadata.id
            != id by {
            if at < cached.len() && i >= at {
                assert(rest[i] == cached[i + 1]);
                assert(cached[at].note.metadata.id != cached[i + 1].note.metadata.id);
            } else {
                assert(rest[i] == cached[i]);
            }
        }
    }
}

/// A workspace once a note is shown in the editor.
pub open spec fn displayed(workspace: WorkspaceView, document: ActiveDocument, now: u64) -> WorkspaceView {
    let shown = WorkspaceView {
        active: Some(document),
        title_draft: document.spec_note().metadata.title@,
        body_dirty: false,
        title_dirty: false,
        last_activity: None,
        session: SessionStateView {
            recently_opened: put_in_front(
                workspace.session.recently_opened,
                document.spec_id(),
                RECENTLY_OPENED_LIMIT as int,
            ),
            ..workspace.session
        },
        ..workspace
    };
    shown.touched(now)
}

/// What an edit of the body changes.
pub open spec fn body_is_edited(
    before: WorkspaceView,
    now: u64,
    schedule: bool,
    after: WorkspaceView,
) -> bool {
    &&& schedule == (before.active is Some && !before.read_only)
    &&& after == (if schedule {
        (WorkspaceView { body_dirty: true, ..before }).touched(now)
    } else {
        before
    })
}

/// What an edit of the title changes.
pub open spec fn title_is_edited(
    before: WorkspaceView,
    draft: Seq<char>,
    now: u64,
    noted: bool,
    after: WorkspaceView,
) -> bool {
    &&& noted == (before.active is Some)
    &&& after == (if noted {
        (WorkspaceView { title_dirty: true, title_draft: draft, ..before }).touched(now)
    } else {
        before
    })
}

/// What changes where the tags of the open note do.
pub open spec fn tags_change(
    before: WorkspaceView,
    document: ActiveDocument,
    changed: bool,
    after: WorkspaceView,
) -> bool {
    &&& after.active matches Some(next)
    &&& next == document.with_note(next.spec_note())
    &&& after == (WorkspaceView {
        active: Some(next),
        body_dirty: before.body_dirty || changed,
        ..before
    })
}

impl Workspace {
    /// Notes that something secret was used.
    pub fn touch_sensitive_activity(&mut self, now: u64)
        ensures
            final(self)@ == old(self)@.touched(now),
            old(self)@.valid() ==> final(self)@.valid(),
    {
        let open_secret = match &self.active {
            Some(document) => document.is_encrypted(),
            None => false,
        };
        let vault_secret = match &self.vault {
            Some(vault) => vault.encrypted && !vault.locked,
            None => false,
        };
        if open_secret || vault_secret {
            self.last_activity = Some(now);
        }
        proof {
            assert(self@ =~= old(self)@.touched(now));
        }
    }

    /// Shows a note in the editor. It counts as opened; its file is not touched.
    pub fn display_document(&mut self, document: ActiveDocument, now: u64) -> (status: &'static str)
        ensures
            final(self)@ == displayed(old(self)@, document, now),
            old(self)@.valid() ==> final(self)@.valid(),
            status@ == (if document is Encrypted {
                "Unlocked · encrypted at rest"@
            } else {
                "Saved"@
            }),
    {
        let encrypted = document.is_encrypted();
        let id = document.id();
        if let Some(mut previous) = self.active.take() {
            previous.clear_sensitive();
        }
        self.title_draft = copy_text(&document.note().metadata.title);
        self.body_dirty = false;
        self.title_dirty = false;
        self.active = Some(document);
        self.last_activity = None;
        self.session.record_opened(id);
        let ghost shown = self@;
        self.touch_sensitive_activity(now);
        proof {
            assert(self@ =~= displayed(old(self)@, document, now));
        }
        if encrypted {
            "Unlocked · encrypted at rest"
        } else {
            "Saved"
        }
    }

    /// Takes an encrypted note that is still unlocked out of memory.
    pub fn take_unlocked(&mut self, id: Uuid) -> (document: Option<ActiveDocument>)
        ensures
            ({
                let at = document_from(old(self)@.unlocked, id, 0);
                if at < old(self)@.unlocked.len() {
                    document == Some(old(self)@.unlocked[at])
                } else {
                    document is None
                }
            }),
            final(self)@ == (WorkspaceView {
                unlocked: documents_without(old(self)@.unlocked, id),
                ..old(self)@
            }),
            old(self)@.valid() ==> final(self)@.valid(),
    {
        let at: usize = find_document(&self.unlocked, id);
        let document = if at < self.unlocked.len() {
            Some(self.unlocked.remove(at))
        } else {
            None
        };
        proof {
            assert(self@ =~= WorkspaceView {
                unlocked: documents_without(old(self)@.unlocked, id),
                ..old(self)@
            });
        }
        document
    }

    /// Takes a note in the clear out of memory. It may be shown only where its
    /// file has not changed.
    pub fn take_plain(&mut self, id: Uuid) -> (cached: Option<CachedNote>)
        ensures
            ({
                let at = cached_from(old(self)@.plain, id, 0);
                if at < old(self)@.plain.len() {
                    cached == Some(old(self)@.plain[at])
                } else {
                    cached is None
                }
            }),
            final(self)@ == (WorkspaceView {
                plain: cached_without(old(self)@.plain, id),
                ..old(self)@
            }),
            old(self)@.valid() ==> final(self)@.valid(),
    {
        let at: usize = find_cached(&self.plain, id);
        let cached = if at < self.plain.len() {
            Some(self.plain.remove(at))
        } else {
            None
        };
        proof {
            assert(self@ =~= WorkspaceView {
                plain: cached_without(old(self)@.plain, id),
                ..old(self)@
            });
        }
        cached
    }

    /// Drops every note and every key from memory.
    pub fn clear_sensitive_documents(&mut self)
        ensures
            final(self)@ == (WorkspaceView {
                active: None,
                unlocked: seq![],
                plain: seq![],
                last_activity: None,
                ..old(self)@
            }),
            old(self)@.valid() ==> final(self)@.valid(),
    {
        if let Some(mut active) = self.active.take() {
            active.clear_sensitive();
        }
        let mut unlocked: Vec<ActiveDocument> = Vec::new();
        unlocked.append(&mut self.unlocked);
        let mut index: usize = 0;
        while index < unlocked.len()
            invariant
                index <= unlocked@.len(),
            decreases unlocked@.len() - index,
        {
            unlocked[index].clear_sensitive();
            index += 1;
        }
        self.unlocked = Vec::new();
        self.plain = Vec::new();
        self.last_activity = None;
        proof {
            assert(self@ =~= WorkspaceView {
                active: None,
                unlocked: seq![],
                plain: seq![],
                last_activity: None,
                ..old(self)@
            });
        }
    }

    /// The note that actions are about: the open one, or the selected one where
    /// it is locked and so not open.
    pub fn current_note_id(&self) -> (id: Option<Uuid>)
        ensures
            id == (match self@.active {
                Some(document) => Some(document.spec_id()),
                None => self@.flow.selected_note,
            }),
    {
        match &self.active {
            Some(document) => Some(document.id()),
            None => self.flow.selected_note(),
        }
    }

    /// Empties the editor.
    pub fn clear_editor(&mut self)
        ensures
            final(self)@ == (WorkspaceView {
                body_dirty: false,
                title_dirty: false,
                title_draft: seq![],
                ..old(self)@
            }),
    {
        self.body_dirty = false;
        self.title_dirty = false;
        self.title_draft = String::new();
        proof {
            assert(self@ =~= WorkspaceView {
                body_dirty: false,
                title_dirty: false,
                title_draft: seq![],
                ..old(self)@
            });
        }
    }

    // Editing.

    /// Notes a change of the body. Whether it is to be saved comes back.
    pub fn body_edited(&mut self, now: u64) -> (schedule: bool)
        ensures
            body_is_edited(old(self)@, now, schedule, final(self)@),
    {
        if self.active.is_none() || self.read_only {
            return false;
        }
        self.body_dirty = true;
        let ghost dirty = self@;
        proof {
            assert(dirty =~= WorkspaceView { body_dirty: true, ..old(self)@ });
        }
        self.touch_sensitive_activity(now);
        true
    }

    /// Notes a change of the title. Whether there is a note to give it to comes back.
    pub fn title_edited(&mut self, draft: &str, now: u64) -> (noted: bool)
        ensures
            title_is_edited(old(self)@, draft@, now, noted, final(self)@),
    {
        if self.active.is_none() {
            return false;
        }
        self.title_draft = draft.to_owned();
        self.title_dirty = true;
        proof {
            assert(self@ =~= WorkspaceView {
                title_dirty: true,
                title_draft: draft@,
                ..old(self)@
            });
        }
        self.touch_sensitive_activity(now);
        true
    }

    /// Gives the open note a tag. Whether it was new comes back.
    pub fn add_tag(&mut self, tag: &str) -> (added: bool)
        ensures
            match old(self)@.active {
                Some(document) => {
                    &&& tags_change(old(self)@, document, added, final(self)@)
                    &&& tag_is_added(
                        document.spec_note().metadata,
                        tag@,
                        added,
                        final(self)@.active->Some_0.spec_note().metadata,
                    )
                },
                None => !added && final(self)@ == old(self)@,
            },
    {
        match &mut self.active {
            Some(document) => {
                let added = document.note_mut().metadata.add_tag(tag);
                if added {
                    self.body_dirty = true;
                }
                added
            },
            None => false,
        }
    }

    /// Takes a tag from the open note. Whether it was there comes back.
    pub fn remove_tag(&mut self, tag: &str) -> (removed: bool)
        ensures
            match old(self)@.active {
                Some(document) => {
                    &&& tags_change(old(self)@, document, removed, final(self)@)
                    &&& tag_is_removed(
                        document.spec_note().metadata,
                        tag@,
                        removed,
                        final(self)@.active->Some_0.spec_note().metadata,
                    )
                },
                None => !removed && final(self)@ == old(self)@,
            },
    {
        match &mut self.active {
            Some(document) => {
                let removed = document.note_mut().metadata.remove_tag(tag);
                if removed {
                    self.body_dirty = true;
                }
                removed
            },
            None => false,
        }
    }
}

// Saving.

/// What there is to save of the open note.
#[derive(Debug, PartialEq, Eq)]
pub struct SavePlan {
    /// Whether the body in the editor is to be taken over.
    pub body: bool,
    /// The title that the note gets.
    pub title: Option<String>,
}

/// Which save is made.
#[derive(Debug, PartialEq, Eq)]
pub enum SaveCall {
    /// The file of a plain note is written where it is.
    Note,
    /// The file of a plain note is written and named after this title.
    Title(String),
    /// The container of an encrypted note is sealed anew, with a title where it
    /// gets one.
    Sealed { title: Option<String> },
}

/// Which save is made, and whether a copy for recovery is written if it fails.
#[derive(Debug, PartialEq, Eq)]
pub struct SaveStep {
    pub call: SaveCall,
    pub recover: bool,
}

/// Decides which save is made of a note. Of an encrypted one no copy for recovery
/// is ever written: it would be in the clear.
pub fn save_step(document: &ActiveDocument, title: Option<&str>) -> (step: SaveStep)
    ensures
        step.recover <==> document is Plain,
        match step.call {
            SaveCall::Note => document is Plain && title is None,
            SaveCall::Title(given) => {
                &&& document is Plain
                &&& title matches Some(wanted)
                &&& given@ == wanted@
            },
            SaveCall::Sealed { title: given } => document is Encrypted && match (given, title) {
                (Some(given), Some(wanted)) => given@ == wanted@,
                (None, None) => true,
                _ => false,
            },
        },
{
    let given: Option<String> = match title {
        Some(wanted) => Some(copy_text(wanted)),
        None => None,
    };
    if document.is_encrypted() {
        return SaveStep { call: SaveCall::Sealed { title: given }, recover: false };
    }
    match given {
        Some(given) => SaveStep { call: SaveCall::Title(given), recover: true },
        None => SaveStep { call: SaveCall::Note, recover: true },
    }
}

/// How a save went.
#[derive(Debug, PartialEq, Eq)]
pub enum SaveOutcome {
    /// The file has this stamp now.
    Saved(FileStamp),
    /// The error as a text, and whether a copy for recovery was written.
    Failed { error: String, recovery: bool },
}

/// The title that a draft comes to.
pub open spec fn committed_title(draft: Seq<char>) -> Seq<char> {
    if trimmed(draft).len() == 0 {
        "Untitled"@
    } else {
        trimmed(draft)
    }
}

/// What the window says of a save that failed. The text of an encrypted note
/// is never written in the clear, not even to recover it.
pub open spec fn failure_text(error: Seq<char>, encrypted: bool, recovery: bool) -> Seq<char> {
    "Save failed: "@ + error + "."@ + (if encrypted {
        " No plaintext recovery file was written; keep the app open and copy the text if necessary."@
    } else if recovery {
        " A private local recovery copy was preserved."@
    } else {
        " The recovery copy also failed; copy your text before closing."@
    })
}

/// Whether this is what is to be saved: the body where it was edited, and the title
/// where it was and is to be committed.
pub open spec fn is_save_plan(
    workspace: WorkspaceView,
    commit_title: bool,
    plan: Option<SavePlan>,
) -> bool {
    let title = commit_title && workspace.title_dirty;
    match plan {
        Some(plan) => {
            &&& workspace.body_dirty || title
            &&& plan.body == workspace.body_dirty
            &&& match plan.title {
                Some(text) => title && text@ == committed_title(workspace.title_draft),
                None => !title,
            }
        },
        None => !workspace.body_dirty && !title,
    }
}

/// What comes of a save.
pub open spec fn save_is_finished(
    before: WorkspaceView,
    plan: SavePlan,
    outcome: SaveOutcome,
    report: (bool, String),
    after: WorkspaceView,
) -> bool {
    before.active matches Some(document) && match outcome {
        SaveOutcome::Saved(stamp) => {
            &&& report.0
            &&& report.1@ == (if document is Encrypted {
                "Saved · encrypted at rest"@
            } else {
                "Saved"@
            })
            &&& after == (WorkspaceView {
                active: Some(document.with_stamp(stamp)),
                body_dirty: before.body_dirty && !plan.body,
                title_dirty: before.title_dirty && plan.title is None,
                ..before
            })
        },
        SaveOutcome::Failed { error, recovery } => {
            &&& !report.0
            &&& report.1@ == failure_text(error@, document is Encrypted, recovery)
            &&& after == before
        },
    }
}

impl Workspace {
    /// What there is to save. Nothing where neither the body nor, where it is
    /// to be committed, the title was changed.
    pub fn plan_save(&self, commit_title: bool) -> (plan: Option<SavePlan>)
        ensures
            is_save_plan(self@, commit_title, plan),
    {
        let needs_title = commit_title && self.title_dirty;
        if !self.body_dirty && !needs_title {
            return None;
        }
        let title = if needs_title {
            let inner = trim(&self.title_draft);
            if inner.as_str().is_empty() {
                Some("Untitled".to_owned())
            } else {
                Some(inner)
            }
        } else {
            None
        };
        Some(SavePlan { body: self.body_dirty, title })
    }

    /// Takes the body in the editor over into the open note.
    pub fn take_body(&mut self, body: String)
        ensures
            match old(self)@.active {
                Some(document) => final(self)@ == (WorkspaceView {
                    active: Some(document.with_note(Note { body, ..document.spec_note() })),
                    ..old(self)@
                }),
                None => final(self)@ == old(self)@,
            },
    {
        if let Some(document) = &mut self.active {
            let note = document.note_mut();
            note.body = body;
        }
    }

    /// Takes the outcome of a save over. What was saved is dirty no more, and
    /// what was not stays as it is. Whether it was saved comes back with what
    /// the window says.
    pub fn finish_save(&mut self, plan: &SavePlan, outcome: SaveOutcome) -> (report: (bool, String))
        requires
            old(self)@.active is Some,
        ensures
            save_is_finished(old(self)@, *plan, outcome, report, final(self)@),
    {
        let encrypted = match &self.active {
            Some(document) => document.is_encrypted(),
            None => false,
        };
        match outcome {
            SaveOutcome::Saved(stamp) => {
                if let Some(document) = &mut self.active {
                    document.set_stamp(stamp);
                }
                if plan.body {
                    self.body_dirty = false;
                }
                if plan.title.is_some() {
                    self.title_dirty = false;
                }
                if encrypted {
                    (true, "Saved · encrypted at rest".to_owned())
                } else {
                    (true, "Saved".to_owned())
                }
            },
            SaveOutcome::Failed { error, recovery } => {
                let mut status: String = "Save failed: ".to_owned();
                status.append(&error);
                status.append(".");
                if encrypted {
                    status.append(
                        " No plaintext recovery file was written; keep the app open and copy the text if necessary.",
                    );
                } else if recovery {
                    status.append(" A private local recovery copy was preserved.");
                } else {
                    status.append(
                        " The recovery copy also failed; copy your text before closing.",
                    );
                }
                (false, status)
            },
        }
    }
}

// The summary of the open note.

/// Whether a summary shows what is known of a note that is open. The mark that
/// it is encrypted stays.
pub open spec fn shows_open(summary: NoteSummary, old: NoteSummary, note: Note, limit: nat) -> bool {
    &&& summary.id == old.id
    &&& summary.encrypted == old.encrypted
    &&& summary.relative_path@ == note.relative_path@
    &&& summary.pinned == note.metadata.pinned
    &&& summary.favourite == note.metadata.favourite
    &&& summary.archived == note.metadata.archived
    &&& summary.created_at == note.metadata.created_at
    &&& summary.updated_at == note.metadata.updated_at
    &&& !summary.locked
    &&& summary.title@ == note.metadata.title@
    &&& summary.preview@ == preview_of(note.body@, limit)
    &&& summary.body@ == note.body@
    &&& texts(summary.tags@) == note.metadata.tag_texts()
}

/// What changes where the list takes over what is known of the open note.
pub open spec fn active_is_shown(
    before: WorkspaceView,
    limit: nat,
    updated: Option<usize>,
    after: WorkspaceView,
) -> bool {
    match before.active {
        None => updated is None && after == before,
        Some(document) => {
            let at = summary_from(before.notes, document.spec_id(), 0);
            match updated {
                None => at == before.notes.len() && after == before,
                Some(index) => {
                    &&& index == at
                    &&& index < before.notes.len()
                    &&& after == (WorkspaceView {
                        notes: before.notes.update(at, after.notes[at]),
                        ..before
                    })
                    &&& shows_open(after.notes[at], before.notes[at], document.spec_note(), limit)
                },
            }
        },
    }
}

impl Workspace {
    /// Brings the summary of the open note up to date. The place of the
    /// summary comes back, where there is one.
    pub fn update_active_summary(&mut self, preview_limit: usize) -> (updated: Option<usize>)
        ensures
            active_is_shown(old(self)@, preview_limit as nat, updated, final(self)@),
    {
        let ghost before = self@;
        let (at, summary) = match &self.active {
            None => {
                return None;
            },
            Some(document) => {
                let note = document.note();
                let at: usize = find_summary(&self.notes, note.metadata.id);
                if at == self.notes.len() {
                    return None;
                }
                let old_summary = &self.notes[at];
                let summary = NoteSummary {
                    id: old_summary.id,
                    title: copy_text(&note.metadata.title),
                    created_at: note.metadata.created_at,
                    updated_at: note.metadata.updated_at,
                    relative_path: copy_text(&note.relative_path),
                    preview: truncate_preview(&note.body, preview_limit),
                    body: copy_text(&note.body),
                    tags: copy_texts(&note.metadata.tags),
                    encrypted: old_summary.encrypted,
                    pinned: note.metadata.pinned,
                    favourite: note.metadata.favourite,
                    archived: note.metadata.archived,
                    locked: false,
                };
                (at, summary)
            },
        };
        self.notes[at] = summary;
        proof {
            assert(self@.notes =~= before.notes.update(at as int, summary));
            assert(self@ =~= WorkspaceView {
                notes: before.notes.update(at as int, self@.notes[at as int]),
                ..before
            });
        }
        Some(at)
    }
}

// Locking.

/// Whether the list is to be built anew once notes were locked: the view goes
/// by what is then unknown.
pub fn must_rebuild(view: &ViewMode) -> (rebuild: bool)
    ensures
        rebuild == (*view is Pinned || *view is Favourites || *view is Archive
            || *view is RecentlyOpened),
{
    matches!(
        view,
        ViewMode::Pinned | ViewMode::Favourites | ViewMode::Archive | ViewMode::RecentlyOpened
    )
}

/// Whether no later entry of a list of locked notes is of the same note.
pub open spec fn named_last(locked: Seq<(Uuid, Seq<char>)>, k: int) -> bool {
    forall|j: int| k < j < locked.len() ==> (#[trigger] locked[j]).0 != locked[k].0
}

/// Whether the summaries are as before, but for those of some notes, which are
/// placeholders now with the path that was named last.
pub open spec fn only_locked(
    before: Seq<NoteSummary>,
    after: Seq<NoteSummary>,
    locked: Seq<(Uuid, Seq<char>)>,
) -> bool {
    &&& before.len() == after.len()
    &&& forall|i: int|
        0 <= i < before.len() ==> (#[trigger] after[i]) == before[i] || exists|k: int|
            0 <= k < locked.len() && i == summary_from(before, (#[trigger] locked[k]).0, 0)
                && after[i].is_placeholder(locked[k].0, locked[k].1)
    &&& forall|k: int|
        0 <= k < locked.len() && #[trigger] named_last(locked, k) ==> {
            let at = summary_from(before, locked[k].0, 0);
            at < before.len() ==> after[at].is_placeholder(locked[k].0, locked[k].1)
        }
}

/// What locking the open note changes.
pub open spec fn active_is_locked(
    before: WorkspaceView,
    locked: Option<Uuid>,
    after: WorkspaceView,
) -> bool {
    match before.active {
        Some(ActiveDocument::Encrypted { note, .. }) => {
            let at = summary_from(before.notes, note.metadata.id, 0);
            &&& locked == Some(note.metadata.id)
            &&& after == (WorkspaceView {
                active: None,
                last_activity: None,
                notes: after.notes,
                ..before
            })
            &&& if at < before.notes.len() {
                &&& after.notes == before.notes.update(at, after.notes[at])
                &&& after.notes[at].is_placeholder(note.metadata.id, note.relative_path@)
            } else {
                after.notes == before.notes
            }
        },
        _ => locked is None && after == before,
    }
}

/// What locking all notes changes.
pub open spec fn all_are_locked(
    before: WorkspaceView,
    locked: Seq<Uuid>,
    after: WorkspaceView,
) -> bool {
    let sealed = before.active matches Some(document) && document is Encrypted;
    &&& after == (WorkspaceView {
        unlocked: seq![],
        active: if sealed {
            None
        } else {
            before.active
        },
        last_activity: if sealed {
            None
        } else {
            before.last_activity
        },
        notes: after.notes,
        ..before
    })
    &&& only_locked(before.notes, after.notes, newly_locked(before))
    &&& locked == Seq::new(newly_locked(before).len(), |i: int| newly_locked(before)[i].0)
}

impl Workspace {
    /// Puts the placeholder of a locked note in place of its summary.
    fn hide_summary(&mut self, id: Uuid, path: String)
        ensures
            ({
                let at = summary_from(old(self)@.notes, id, 0);
                if at < old(self)@.notes.len() {
                    &&& final(self)@ == (WorkspaceView {
                        notes: old(self)@.notes.update(at, final(self)@.notes[at]),
                        ..old(self)@
                    })
                    &&& final(self)@.notes[at].is_placeholder(id, path@)
                } else {
                    final(self)@ == old(self)@
                }
            }),
            old(self)@.valid() ==> final(self)@.valid(),
    {
        let ghost before = self@;
        let at: usize = find_summary(&self.notes, id);
        if at < self.notes.len() {
            let hidden = NoteSummary::locked(id, path);
            self.notes[at] = hidden;
            proof {
                assert(self@.notes =~= before.notes.update(at as int, hidden));
                assert(self@ =~= WorkspaceView {
                    notes: before.notes.update(at as int, self@.notes[at as int]),
                    ..before
                });
            }
        }
    }

    /// Locks the open note, where it is an encrypted one. Other notes and the
    /// vault stay as they are. The identifier of the note comes back.
    pub fn lock_active_note(&mut self) -> (locked: Option<Uuid>)
        ensures
            active_is_locked(old(self)@, locked, final(self)@),
            old(self)@.valid() ==> final(self)@.valid(),
    {
        let open_secret = match &self.active {
            Some(document) => document.is_encrypted(),
            None => false,
        };
        if !open_secret {
            return None;
        }
        match self.active.take() {
            Some(mut document) => {
                let id = document.id();
                let path = copy_text(&document.note().relative_path);
                document.clear_sensitive();
                self.last_activity = None;
                self.hide_summary(id, path);
                Some(id)
            },
            None => None,
        }
    }

    /// Locks every encrypted note that is unlocked, the open one among them.
    /// The identifiers of the notes come back.
    pub fn lock_all_encrypted(&mut self) -> (locked: Vec<Uuid>)
        ensures
            all_are_locked(old(self)@, locked@, final(self)@),
            final(self)@.unlocked.len() == 0,
            old(self)@.valid() ==> final(self)@.valid(),
    {
        let ghost before = self@;
        let ghost wanted = newly_locked(before);
        let mut locked: Vec<Uuid> = Vec::new();
        let mut unlocked: Vec<ActiveDocument> = Vec::new();
        unlocked.append(&mut self.unlocked);
        self.unlocked = Vec::new();
        let open_secret = match &self.active {
            Some(document) => document.is_encrypted(),
            None => false,
        };
        if open_secret {
            if let Some(document) = self.active.take() {
                unlocked.push(document);
            }
            self.last_activity = None;
        }
        let ghost cleared = self@;
        proof {
            assert(unlocked@ =~= all_unlocked(before));
        }
        let ghost all = unlocked@;
        let mut index: usize = 0;
        while index < unlocked.len()
            invariant
                index <= unlocked@.len(),
                unlocked@.len() == all.len(),
                forall|i: int| index <= i < all.len() ==> #[trigger] unlocked@[i] == all[i],
                all == all_unlocked(before),
                wanted == newly_locked(before),
                self@ == (WorkspaceView { notes: self@.notes, ..cleared }),
                cleared.notes == before.notes,
                before.valid() ==> self@.valid(),
                locked@ == Seq::new(index as nat, |i: int| wanted[i].0),
                only_locked(before.notes, self@.notes, wanted.take(index as int)),
            decreases unlocked@.len() - index,
        {
            let ghost notes = self@.notes;
            let id = unlocked[index].id();
            let path = copy_text(&unlocked[index].note().relative_path);
            unlocked[index].clear_sensitive();
            proof {
                assert(wanted[index as int] == (id, path@));
            }
            self.hide_summary(id, path);
            locked.push(id);
            proof {
                lemma_lock_one(before.notes, notes, self@.notes, wanted, index as int);
                assert(locked@ =~= Seq::new((index + 1) as nat, |i: int| wanted[i].0));
            }
            index += 1;
        }
        proof {
            assert(wanted.take(index as int) == wanted);
            assert(self@ =~= WorkspaceView {
                unlocked: seq![],
                active: if before.active matches Some(document) && document is Encrypted {
                    None
                } else {
                    before.active
                },
                last_activity: if before.active matches Some(document) && document is Encrypted {
                    None
                } else {
                    before.last_activity
                },
                notes: self@.notes,
                ..before
            });
        }
        locked
    }
}

/// All encrypted notes that are unlocked, the open one last.
pub open spec fn all_unlocked(workspace: WorkspaceView) -> Seq<ActiveDocument> {
    match workspace.active {
        Some(document) => if document is Encrypted {
            workspace.unlocked.push(document)
        } else {
            workspace.unlocked
        },
        None => workspace.unlocked,
    }
}

/// The notes that are locked when all are, with their paths.
pub open spec fn newly_locked(workspace: WorkspaceView) -> Seq<(Uuid, Seq<char>)> {
    Seq::new(
        all_unlocked(workspace).len(),
        |i: int|
            (
                all_unlocked(workspace)[i].spec_id(),
                all_unlocked(workspace)[i].spec_note().relative_path@,
            ),
    )
}

proof fn lemma_same_place(left: Seq<NoteSummary>, right: Seq<NoteSummary>, id: Uuid, at: int)
    requires
        left.len() == right.len(),
        forall|i: int| 0 <= i < left.len() ==> (#[trigger] left[i]).id == right[i].id,
        0 <= at <= left.len(),
    ensures
        summary_from(left, id, at) == summary_from(right, id, at),
    decreases left.len() - at,
{
    if at < left.len() {
        assert(left[at].id == right[at].id);
        lemma_same_place(left, right, id, at + 1);
    }
}

proof fn lemma_lock_one(
    before: Seq<NoteSummary>,
    notes: Seq<NoteSummary>,
    after: Seq<NoteSummary>,
    wanted: Seq<(Uuid, Seq<char>)>,
    index: int,
)
    requires
        0 <= index < wanted.len(),
        only_locked(before, notes, wanted.take(index)),
        ({
            let at = summary_from(notes, wanted[index].0, 0);
            if at < notes.len() {
                &&& after == notes.update(at, after[at])
                &&& after[at].is_placeholder(wanted[index].0, wanted[index].1)
            } else {
                after == notes
            }
        }),
    ensures
        only_locked(before, after, wanted.take(index + 1)),
{
    let id = wanted[index].0;
    let done = wanted.take(index);
    let next = wanted.take(index + 1);
    assert forall|i: int| 0 <= i < before.len() implies (#[trigger] before[i]).id == notes[i].id by {
        if notes[i] != before[i] {
            let k = choose|k: int|
                0 <= k < done.len() && i == summary_from(before, (#[trigger] done[k]).0, 0)
                    && notes[i].is_placeholder(done[k].0, done[k].1);
            lemma_summary_from(before, done[k].0, 0);
        }
    }
    lemma_same_place(before, notes, id, 0);
    let at = summary_from(notes, id, 0);
    lemma_summary_from(notes, id, 0);
    assert(next[index] == wanted[index]);
    assert forall|i: int| 0 <= i < before.len() implies (#[trigger] after[i]) == before[i]
        || exists|k: int|
        0 <= k < next.len() && i == summary_from(before, (#[trigger] next[k]).0, 0)
            && after[i].is_placeholder(next[k].0, next[k].1) by {
        if at < notes.len() && i == at {
            assert(after[i].is_placeholder(next[index].0, next[index].1));
        } else {
            assert(after[i] == notes[i]);
            if notes[i] != before[i] {
                let k = choose|k: int|
                    0 <= k < done.len() && i == summary_from(before, (#[trigger] done[k]).0, 0)
                        && notes[i].is_placeholder(done[k].0, done[k].1);
                assert(next[k] == done[k]);
            }
        }
    }
    assert forall|k: int| 0 <= k < next.len() && #[trigger] named_last(next, k) implies ({
        let place = summary_from(before, next[k].0, 0);
        place < before.len() ==> after[place].is_placeholder(next[k].0, next[k].1)
    }) by {
        let place = summary_from(before, next[k].0, 0);
        lemma_summary_from(before, next[k].0, 0);
        if k < index {
            assert(done[k] == next[k]);
            assert(next[index].0 != next[k].0);
            assert(named_last(done, k)) by {
                assert forall|j: int| k < j < done.len() implies (#[trigger] done[j]).0
                    != done[k].0 by {
                    assert(next[j] == done[j]);
                }
            }
        }
    }
}

/// A note that was left and is still in memory is found there as it was left.
pub proof fn law_left_note_is_found_again(workspace: WorkspaceView)
    requires
        workspace.valid(),
        workspace.active is Some,
    ensures
        ({
            let document = workspace.active->Some_0;
            let left = stashed(workspace, false);
            let id = document.spec_id();
            &&& document is Encrypted ==> {
                let at = document_from(left.unlocked, id, 0);
                at < left.unlocked.len() && left.unlocked[at] == document
            }
            &&& (document matches ActiveDocument::Plain { note, stamp } && !workspace.body_dirty
                && !workspace.title_dirty) ==> {
                let at = cached_from(left.plain, id, 0);
                at < left.plain.len() && left.plain[at] == (CachedNote {
                    note: document.spec_note(),
                    stamp: document.spec_stamp(),
                })
            }
        }),
{
    let document = workspace.active->Some_0;
    let left = stashed(workspace, false);
    let id = document.spec_id();
    match document {
        ActiveDocument::Encrypted { .. } => {
            lemma_without_document(workspace.unlocked, id);
            lemma_document_from(left.unlocked, id, 0);
            let rest = documents_without(workspace.unlocked, id);
            assert(left.unlocked =~= rest.push(document));
            let at = document_from(left.unlocked, id, 0);
            assert(left.unlocked[rest.len() as int].spec_id() == id);
            if at < rest.len() {
                assert(left.unlocked[at] == rest[at]);
            }
        },
        ActiveDocument::Plain { note, stamp } => {
            if !workspace.body_dirty && !workspace.title_dirty {
                let room = if workspace.plain.len() >= PLAIN_CACHE_LIMIT {
                    Seq::empty()
                } else {
                    workspace.plain
                };
                lemma_without_cached(room, id);
                lemma_cached_from(left.plain, id, 0);
                let rest = cached_without(room, id);
                assert(left.plain =~= rest.push(CachedNote { note, stamp }));
                let at = cached_from(left.plain, id, 0);
                assert(left.plain[rest.len() as int].note.metadata.id == id);
                if at < rest.len() {
                    assert(left.plain[at] == rest[at]);
                }
            }
        },
    }
}

// Notes that go and come.

/// The summaries without those that have an identifier.
pub open spec fn summaries_without(notes: Seq<NoteSummary>, id: Uuid) -> Seq<NoteSummary>
    decreases notes.len(),
{
    if notes.len() == 0 {
        seq![]
    } else {
        let before = summaries_without(notes.drop_last(), id);
        if notes.last().id == id {
            before
        } else {
            before.push(notes.last())
        }
    }
}

/// The entries of the trash without those that have an identifier.
pub open spec fn entries_without(entries: Seq<TrashEntry>, id: Uuid) -> Seq<TrashEntry>
    decreases entries.len(),
{
    if entries.len() == 0 {
        seq![]
    } else {
        let before = entries_without(entries.drop_last(), id);
        if entries.last().id == id {
            before
        } else {
            before.push(entries.last())
        }
    }
}

/// The flow once a note is in the trash.
pub open spec fn flow_without_note(flow: FlowView, id: Uuid) -> FlowView {
    FlowView {
        selected_note: if flow.selected_note == Some(id) {
            None
        } else {
            flow.selected_note
        },
        ..flow
    }
}

/// The flow once a note has left the trash.
pub open spec fn flow_without_trash(flow: FlowView, id: Uuid) -> FlowView {
    FlowView {
        selected_trash: if flow.selected_trash == Some(id) {
            None
        } else {
            flow.selected_trash
        },
        ..flow
    }
}

/// What changes where a note is thrown away.
pub open spec fn note_has_left(
    before: WorkspaceView,
    id: Uuid,
    was_open: bool,
    after: WorkspaceView,
) -> bool {
    &&& was_open == (before.active matches Some(document) && document.spec_id() == id)
    &&& after == (WorkspaceView {
        active: if was_open {
            None
        } else {
            before.active
        },
        unlocked: documents_without(before.unlocked, id),
        plain: cached_without(before.plain, id),
        notes: summaries_without(before.notes, id),
        flow: flow_without_note(before.flow, id),
        ..before
    })
}

/// A workspace once a note has left the trash.
pub open spec fn without_entry(before: WorkspaceView, id: Uuid) -> WorkspaceView {
    WorkspaceView {
        trash: entries_without(before.trash, id),
        flow: flow_without_trash(before.flow, id),
        ..before
    }
}

/// A workspace once the trash is emptied.
pub open spec fn without_trash(before: WorkspaceView) -> WorkspaceView {
    WorkspaceView {
        trash: seq![],
        flow: FlowView { selected_note: None, selected_trash: None, ..before.flow },
        ..before
    }
}

/// What changes where a note is moved: its path, wherever it is known.
pub open spec fn note_has_moved(
    before: WorkspaceView,
    id: Uuid,
    path: Seq<char>,
    after: WorkspaceView,
) -> bool {
    let cached = cached_from(before.plain, id, 0);
    let unlocked = document_from(before.unlocked, id, 0);
    let listed = summary_from(before.notes, id, 0);
    &&& after == (WorkspaceView {
        active: after.active,
        plain: after.plain,
        unlocked: after.unlocked,
        notes: after.notes,
        ..before
    })
    &&& match before.active {
        Some(document) => after.active matches Some(moved) && if document.spec_id()
            == id {
            &&& moved == document.with_note(moved.spec_note())
            &&& is_at(moved.spec_note(), document.spec_note(), path)
        } else {
            moved == document
        },
        None => after.active is None,
    }
    &&& if cached < before.plain.len() {
        &&& after.plain == before.plain.update(cached, after.plain[cached])
        &&& after.plain[cached].stamp == before.plain[cached].stamp
        &&& is_at(after.plain[cached].note, before.plain[cached].note, path)
    } else {
        after.plain == before.plain
    }
    &&& if unlocked < before.unlocked.len() {
        &&& after.unlocked == before.unlocked.update(
            unlocked,
            after.unlocked[unlocked],
        )
        &&& after.unlocked[unlocked] == before.unlocked[unlocked].with_note(
            after.unlocked[unlocked].spec_note(),
        )
        &&& is_at(
            after.unlocked[unlocked].spec_note(),
            before.unlocked[unlocked].spec_note(),
            path,
        )
    } else {
        after.unlocked == before.unlocked
    }
    &&& if listed < before.notes.len() {
        &&& after.notes == before.notes.update(listed, after.notes[listed])
        &&& after.notes[listed].relative_path@ == path
        &&& after.notes[listed] == (NoteSummary {
            relative_path: after.notes[listed].relative_path,
            ..before.notes[listed]
        })
    } else {
        after.notes == before.notes
    }
}

impl Workspace {
    /// Takes a note that went to the trash out of memory. Whether it was the
    /// open one comes back.
    pub fn note_trashed(&mut self, id: Uuid) -> (was_open: bool)
        ensures
            note_has_left(old(self)@, id, was_open, final(self)@),
            old(self)@.valid() ==> final(self)@.valid(),
    {
        let ghost before = self@;
        let was_open = match &self.active {
            Some(document) => document.id() == id,
            None => false,
        };
        self.drop_unlocked(id);
        if was_open {
            if let Some(mut document) = self.active.take() {
                document.clear_sensitive();
            }
        }
        self.drop_plain(id);
        let ghost all = self.notes@;
        let mut notes: Vec<NoteSummary> = Vec::new();
        notes.append(&mut self.notes);
        let mut kept: Vec<NoteSummary> = Vec::new();
        let mut done: usize = 0;
        let total: usize = notes.len();
        proof {
            assert(all.skip(0) == all);
            assert(notes@ =~= all);
        }
        while done < total
            invariant
                done <= total,
                total == all.len(),
                notes@ == all.skip(done as int),
                kept@ == summaries_without(all.take(done as int), id),
            decreases total - done,
        {
            let note = notes.remove(0);
            proof {
                let next = all.take(done + 1);
                assert(next.drop_last() == all.take(done as int));
                assert(next.last() == note);
                assert(notes@ =~= all.skip(done + 1));
            }
            if note.id != id {
                kept.push(note);
            }
            done += 1;
        }
        proof {
            assert(all.take(done as int) == all);
        }
        self.notes = kept;
        self.flow.note_moved_to_trash(id);
        proof {
            assert(self@ =~= WorkspaceView {
                active: if was_open {
                    None
                } else {
                    before.active
                },
                unlocked: documents_without(before.unlocked, id),
                plain: cached_without(before.plain, id),
                notes: summaries_without(before.notes, id),
                flow: flow_without_note(before.flow, id),
                ..before
            });
        }
        was_open
    }

    /// Takes an entry that left the trash, restored or deleted, out of the list.
    pub fn trash_left(&mut self, id: Uuid)
        ensures
            final(self)@ == without_entry(old(self)@, id),
            old(self)@.valid() ==> final(self)@.valid(),
    {
        let ghost before = self@;
        let ghost all = self.trash@;
        let mut entries: Vec<TrashEntry> = Vec::new();
        entries.append(&mut self.trash);
        let mut kept: Vec<TrashEntry> = Vec::new();
        let mut done: usize = 0;
        let total: usize = entries.len();
        proof {
            assert(all.skip(0) == all);
            assert(entries@ =~= all);
        }
        while done < total
            invariant
                done <= total,
                total == all.len(),
                entries@ == all.skip(done as int),
                kept@ == entries_without(all.take(done as int), id),
            decreases total - done,
        {
            let entry = entries.remove(0);
            proof {
                let next = all.take(done + 1);
                assert(next.drop_last() == all.take(done as int));
                assert(next.last() == entry);
                assert(entries@ =~= all.skip(done + 1));
            }
            if entry.id != id {
                kept.push(entry);
            }
            done += 1;
        }
        proof {
            assert(all.take(done as int) == all);
        }
        self.trash = kept;
        self.flow.note_restored(id);
        proof {
            assert(self@ =~= WorkspaceView {
                trash: entries_without(before.trash, id),
                flow: flow_without_trash(before.flow, id),
                ..before
            });
        }
    }

    /// Empties the list of the trash.
    pub fn trash_emptied(&mut self)
        ensures
            final(self)@ == without_trash(old(self)@),
            old(self)@.valid() ==> final(self)@.valid(),
    {
        self.trash = Vec::new();
        self.flow.clear_selection();
        proof {
            assert(self@ =~= WorkspaceView {
                trash: seq![],
                flow: FlowView { selected_note: None, selected_trash: None, ..old(self)@.flow },
                ..old(self)@
            });
        }
    }

    /// Gives a note its new path wherever it is held, so that nothing is ever
    /// written to the old one.
    pub fn note_moved(&mut self, id: Uuid, next_relative: &str)
        ensures
            note_has_moved(old(self)@, id, next_relative@, final(self)@),
            old(self)@.valid() ==> final(self)@.valid(),
    {
        let ghost before = self@;
        if let Some(document) = &mut self.active {
            if document.id() == id {
                let note = document.note_mut();
                note.relative_path = next_relative.to_owned();
            }
        }
        let ghost active = self@.active;
        let cached: usize = find_cached(&self.plain, id);
        if cached < self.plain.len() {
            self.plain[cached].note.relative_path = next_relative.to_owned();
        }
        let ghost plain = self@.plain;
        proof {
            lemma_cached_from(before.plain, id, 0);
            if cached < before.plain.len() {
                assert(plain =~= before.plain.update(cached as int, plain[cached as int]));
            }
        }
        let at: usize = find_document(&self.unlocked, id);
        if at < self.unlocked.len() {
            let note = self.unlocked[at].note_mut();
            note.relative_path = next_relative.to_owned();
        }
        let ghost unlocked = self@.unlocked;
        proof {
            lemma_document_from(before.unlocked, id, 0);
            if at < before.unlocked.len() {
                assert(unlocked =~= before.unlocked.update(at as int, unlocked[at as int]));
            }
        }
        let listed: usize = find_summary(&self.notes, id);
        if listed < self.notes.len() {
            self.notes[listed].relative_path = next_relative.to_owned();
        }
        proof {
            if listed < before.notes.len() {
                assert(self@.notes =~= before.notes.update(
                    listed as int,
                    self@.notes[listed as int],
                ));
            }
            assert(self@ =~= WorkspaceView {
                active,
                plain,
                unlocked,
                notes: self@.notes,
                ..before
            });
        }
    }
}

/// Whether a note is another at a path.
pub open spec fn is_at(note: Note, old: Note, path: Seq<char>) -> bool {
    &&& note.relative_path@ == path
    &&& note.metadata == old.metadata
    &&& note.body == old.body
}

} // verus!
