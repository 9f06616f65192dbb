//! What follows when a row is selected or an action is about a selected row.

use vstd::prelude::*;

use crate::crypto::note::EncryptedSession;
use crate::ident::Uuid;
use crate::model::Note;
use crate::ui_state::{RowTarget, ViewMode};
use crate::vault::FileStamp;
use crate::workspace::document::{
    documents_without, ActiveDocument, Workspace, WorkspaceView,
};

verus! {

/// Rows that were selected in quick succession. Only the last one is opened.
pub struct PendingSelection {
    target: Option<RowTarget>,
    armed: bool,
}

/// What is pending.
#[verifier::ext_equal]
pub struct PendingView {
    pub target: Option<RowTarget>,
    pub armed: bool,
}

impl View for PendingSelection {
    type V = PendingView;

    closed spec fn view(&self) -> PendingView {
        PendingView { target: self.target, armed: self.armed }
    }
}

impl PendingSelection {
    pub fn new() -> (pending: PendingSelection)
        ensures
            pending@ == (PendingView { target: None, armed: false }),
    {
        PendingSelection { target: None, armed: false }
    }

    /// Notes that a row was selected. Whether a timer is to be started comes
    /// back: there is never more than one.
    pub fn request(&mut self, target: RowTarget) -> (arm: bool)
        ensures
            arm == !old(self)@.armed,
            final(self)@ == requested(old(self)@, target),
    {
        let arm = !self.armed;
        self.target = Some(target);
        self.armed = true;
        arm
    }

    /// Whether a timer is running.
    pub fn is_armed(&self) -> (armed: bool)
        ensures
            armed == self@.armed,
    {
        self.armed
    }

    /// Takes what is to be opened when the timer has run out. Nothing where the
    /// vault was switched since, or the row is gone.
    pub fn fire(&mut self, is_current: bool, is_listed: bool) -> (target: Option<RowTarget>)
        ensures
            target == (if is_current && is_listed {
                old(self)@.target
            } else {
                None
            }),
            final(self)@ == (PendingView { target: None, armed: false }),
    {
        self.armed = false;
        let target = self.target.take();
        if is_current && is_listed {
            target
        } else {
            None
        }
    }

    /// The row that is pending.
    pub fn target(&self) -> (target: Option<RowTarget>)
        ensures
            target == self@.target,
    {
        self.target
    }

    /// Forgets what is pending.
    pub fn cancel(&mut self)
        ensures
            final(self)@ == (PendingView { target: None, armed: false }),
    {
        self.armed = false;
        self.target = None;
    }
}

/// However many rows were selected, the last one is opened, and one timer runs.
pub proof fn law_last_selection_wins(before: PendingView, rows: Seq<RowTarget>)
    requires
        rows.len() > 0,
    ensures
        after_requests(before, rows).target == Some(rows.last()),
        after_requests(before, rows).armed,
    decreases rows.len(),
{
    if rows.len() > 1 {
        law_last_selection_wins(before, rows.drop_last());
    }
}

/// What is pending after one more row was selected.
pub open spec fn requested(before: PendingView, target: RowTarget) -> PendingView {
    PendingView { target: Some(target), armed: true }
}

/// What is pending after rows were selected one after the other.
pub open spec fn after_requests(before: PendingView, rows: Seq<RowTarget>) -> PendingView
    decreases rows.len(),
{
    if rows.len() == 0 {
        before
    } else {
        requested(after_requests(before, rows.drop_last()), rows.last())
    }
}

/// What opening a row leads to.
#[derive(Clone, Copy, Debug, PartialEq, Eq, Structural)]
pub enum Dispatch {
    /// The note is open already.
    AlreadyOpen,
    /// The open note is left, and then this one is opened.
    Leave(Uuid),
    ShowTrash(Uuid),
}

impl Workspace {
    /// Decides what opening a row leads to.
    pub fn plan_dispatch(&self, target: RowTarget) -> (dispatch: Dispatch)
        ensures
            dispatch == (match target {
                RowTarget::Note(id) => match self@.active {
                    Some(document) => if document.spec_id() == id {
                        Dispatch::AlreadyOpen
                    } else {
                        Dispatch::Leave(id)
                    },
                    None => Dispatch::Leave(id),
                },
                RowTarget::Trash(id) => Dispatch::ShowTrash(id),
            }),
    {
        match target {
            RowTarget::Note(id) => {
                let open = match &self.active {
                    Some(document) => document.id() == id,
                    None => false,
                };
                if open {
                    Dispatch::AlreadyOpen
                } else {
                    Dispatch::Leave(id)
                }
            },
            RowTarget::Trash(id) => Dispatch::ShowTrash(id),
        }
    }

    /// The note that is thrown away: the one of the selected row, or else the
    /// selected one. None in the view of the trash.
    pub fn note_to_trash(&self, selected: Option<RowTarget>) -> (id: Option<Uuid>)
        ensures
            id == (if self@.flow.view is Trash {
                None
            } else {
                match selected {
                    Some(RowTarget::Note(id)) => Some(id),
                    _ => self@.flow.selected_note,
                }
            }),
    {
        if let ViewMode::Trash = self.flow.view() {
            return None;
        }
        match selected {
            Some(RowTarget::Note(id)) => Some(id),
            _ => self.flow.selected_note(),
        }
    }

    /// The entry of the trash that is restored or deleted: the one of the
    /// selected row, or else the selected one.
    pub fn entry_in_trash(&self, selected: Option<RowTarget>) -> (id: Option<Uuid>)
        ensures
            id == (match selected {
                Some(RowTarget::Trash(id)) => Some(id),
                _ => self@.flow.selected_trash,
            }),
    {
        match selected {
            Some(RowTarget::Trash(id)) => Some(id),
            _ => self.flow.selected_trash(),
        }
    }

    /// Takes the open note out to be encrypted. Nothing where it is encrypted
    /// already or no note is open.
    pub fn take_plain_active(&mut self) -> (taken: Option<(Note, FileStamp)>)
        ensures
            match old(self)@.active {
                Some(ActiveDocument::Plain { note, stamp }) => {
                    &&& taken == Some((note, stamp))
                    &&& final(self)@ == (WorkspaceView { active: None, ..old(self)@ })
                },
                _ => taken is None && final(self)@ == old(self)@,
            },
    {
        match self.active.take() {
            Some(ActiveDocument::Plain { note, stamp }) => Some((note, stamp)),
            other => {
                self.active = other;
                None
            },
        }
    }

    /// Puts a note back whose encryption failed.
    pub fn put_plain_active(&mut self, note: Note, stamp: FileStamp)
        ensures
            final(self)@ == (WorkspaceView {
                active: Some(ActiveDocument::Plain { note, stamp }),
                ..old(self)@
            }),
    {
        self.active = Some(ActiveDocument::Plain { note, stamp });
    }

    /// Takes over a note that was encrypted.
    pub fn note_encrypted(&mut self, note: Note, stamp: FileStamp, session: EncryptedSession, now: u64)
        ensures
            final(self)@ == (WorkspaceView {
                active: Some(ActiveDocument::Encrypted { note, stamp, session }),
                last_activity: Some(now),
                ..old(self)@
            }),
    {
        self.active = Some(ActiveDocument::Encrypted { note, stamp, session });
        self.last_activity = Some(now);
    }

    /// Takes over a note whose password was changed. What was held of it under
    /// the old password is dropped.
    pub fn password_changed(
        &mut self,
        note: Note,
        stamp: FileStamp,
        session: EncryptedSession,
        now: u64,
    )
        ensures
            final(self)@ == (WorkspaceView {
                active: Some(ActiveDocument::Encrypted { note, stamp, session }),
                unlocked: documents_without(old(self)@.unlocked, note.metadata.id),
                body_dirty: false,
                title_dirty: false,
                last_activity: Some(now),
                ..old(self)@
            }),
            old(self)@.valid() ==> final(self)@.valid(),
    {
        let id = note.metadata.id;
        if let Some(mut previous) = self.active.take() {
            previous.clear_sensitive();
        }
        if let Some(mut stale) = self.take_unlocked(id) {
            stale.clear_sensitive();
        }
        self.body_dirty = false;
        self.title_dirty = false;
        self.last_activity = Some(now);
        self.active = Some(ActiveDocument::Encrypted { note, stamp, session });
    }

    /// Takes over a note whose encryption was removed.
    pub fn encryption_removed(&mut self, note: Note, stamp: FileStamp)
        ensures
            final(self)@ == (WorkspaceView {
                active: Some(ActiveDocument::Plain { note, stamp }),
                unlocked: documents_without(old(self)@.unlocked, note.metadata.id),
                body_dirty: false,
                title_dirty: false,
                last_activity: None,
                ..old(self)@
            }),
            old(self)@.valid() ==> final(self)@.valid(),
    {
        let id = note.metadata.id;
        if let Some(mut previous) = self.active.take() {
            previous.clear_sensitive();
        }
        if let Some(mut stale) = self.take_unlocked(id) {
            stale.clear_sensitive();
        }
        self.body_dirty = false;
        self.title_dirty = false;
        self.last_activity = None;
        self.active = Some(ActiveDocument::Plain { note, stamp });
    }
}

} // verus!
