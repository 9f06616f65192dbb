//! Changes that do not come from the editor: marks of a note, changes on disk,
//! and the passing of time.

use vstd::prelude::*;

use crate::config::{LockingConfig, SortOrder};
use crate::ident::Uuid;
use crate::model::{Note, NoteMetadata, NoteSummary};
use crate::sort::{ordered, sort_notes};
use crate::text::copy_text;
use crate::ui_state::RowTarget;
use crate::vault::{FileStamp, TrashEntry};
use crate::workspace::document::{
    find_summary, lemma_summary_from, summary_from, Workspace, WorkspaceView,
};

verus! {

// Marks.

/// A mark of a note that can be set and taken away.
#[derive(Clone, Copy, Debug, PartialEq, Eq, Structural)]
pub enum NoteFlag {
    Pinned,
    Favourite,
    Archived,
}

impl NoteFlag {
    /// The mark of a note.
    pub open spec fn of(self, metadata: NoteMetadata) -> bool {
        match self {
            NoteFlag::Pinned => metadata.pinned,
            NoteFlag::Favourite => metadata.favourite,
            NoteFlag::Archived => metadata.archived,
        }
    }

    /// A note with the mark set or taken away, and nothing else changed.
    pub open spec fn put(self, metadata: NoteMetadata, value: bool) -> NoteMetadata {
        match self {
            NoteFlag::Pinned => NoteMetadata { pinned: value, ..metadata },
            NoteFlag::Favourite => NoteMetadata { favourite: value, ..metadata },
            NoteFlag::Archived => NoteMetadata { archived: value, ..metadata },
        }
    }

    pub fn get(self, metadata: &NoteMetadata) -> (value: bool)
        ensures
            value == self.of(*metadata),
    {
        match self {
            NoteFlag::Pinned => metadata.pinned,
            NoteFlag::Favourite => metadata.favourite,
            NoteFlag::Archived => metadata.archived,
        }
    }

    pub fn set(self, metadata: &mut NoteMetadata, value: bool)
        ensures
            *final(metadata) == self.put(*old(metadata), value),
    {
        match self {
            NoteFlag::Pinned => {
                metadata.pinned = value;
            },
            NoteFlag::Favourite => {
                metadata.favourite = value;
            },
            NoteFlag::Archived => {
                metadata.archived = value;
            },
        }
    }

    /// Sets the mark where it is not set, and takes it away where it is.
    pub fn toggle(self, metadata: &mut NoteMetadata)
        ensures
            *final(metadata) == self.put(*old(metadata), !self.of(*old(metadata))),
    {
        let next = !self.get(metadata);
        self.set(metadata, next);
    }

    pub open spec fn spec_name(self) -> Seq<char> {
        match self {
            NoteFlag::Pinned => "pinned"@,
            NoteFlag::Favourite => "favourite"@,
            NoteFlag::Archived => "archived"@,
        }
    }

    pub fn action_name(self) -> (name: &'static str)
        ensures
            name@ == self.spec_name(),
    {
        match self {
            NoteFlag::Pinned => "pinned",
            NoteFlag::Favourite => "favourite",
            NoteFlag::Archived => "archived",
        }
    }

    /// What the window says once the mark is set, and once it is taken away.
    pub fn status_labels(self) -> (labels: (&'static str, &'static str))
        ensures
            labels.0@ == (match self {
                NoteFlag::Pinned => "Pinned"@,
                NoteFlag::Favourite => "Added to Favourites"@,
                NoteFlag::Archived => "Archived"@,
            }),
            labels.1@ == (match self {
                NoteFlag::Pinned => "Unpinned"@,
                NoteFlag::Favourite => "Removed from Favourites"@,
                NoteFlag::Archived => "Unarchived"@,
            }),
    {
        match self {
            NoteFlag::Pinned => ("Pinned", "Unpinned"),
            NoteFlag::Favourite => ("Added to Favourites", "Removed from Favourites"),
            NoteFlag::Archived => ("Archived", "Unarchived"),
        }
    }

    /// The mark as a list of notes knows it.
    pub open spec fn shown(self, summary: NoteSummary) -> bool {
        match self {
            NoteFlag::Pinned => summary.pinned,
            NoteFlag::Favourite => summary.favourite,
            NoteFlag::Archived => summary.archived,
        }
    }

    pub fn is_shown(self, summary: &NoteSummary) -> (value: bool)
        ensures
            value == self.shown(*summary),
    {
        match self {
            NoteFlag::Pinned => summary.pinned,
            NoteFlag::Favourite => summary.favourite,
            NoteFlag::Archived => summary.archived,
        }
    }
}

/// Setting and taking away again leaves a note as it was.
pub proof fn law_toggling_twice_changes_nothing(flag: NoteFlag, metadata: NoteMetadata)
    ensures
        ({
            let once = flag.put(metadata, !flag.of(metadata));
            flag.put(once, !flag.of(once)) == metadata
        }),
{
}

/// How a mark of a note is changed.
#[derive(Debug, PartialEq, Eq)]
pub enum TogglePlan {
    /// There is no such note.
    Nothing,
    /// The note is locked. What its password protects is not changed blindly.
    Refuse(String),
    /// In the open note, which is then saved.
    InEditor,
    /// In the file of the note.
    InFile(String),
}

/// What the window says where a locked note is to be marked.
pub open spec fn unlock_first(flag: NoteFlag) -> Seq<char> {
    "Unlock this encrypted note before changing its "@ + flag.spec_name() + " state."@
}

impl Workspace {
    /// Decides how a mark of a note is changed. A locked note is refused: its
    /// marks are sealed with it.
    pub fn plan_toggle(&self, flag: NoteFlag, id: Uuid) -> (plan: TogglePlan)
        ensures
            ({
                let at = summary_from(self@.notes, id, 0);
                let open = self@.active matches Some(document) && document.spec_id() == id;
                if self@.vault is None || at == self@.notes.len() {
                    plan is Nothing
                } else if open {
                    plan is InEditor
                } else if self@.notes[at].encrypted {
                    plan matches TogglePlan::Refuse(text) && text@ == unlock_first(flag)
                } else {
                    plan matches TogglePlan::InFile(path) && path@
                        == self@.notes[at].relative_path@
                }
            }),
    {
        let at: usize = find_summary(&self.notes, id);
        if self.vault.is_none() || at == self.notes.len() {
            return TogglePlan::Nothing;
        }
        let open = match &self.active {
            Some(document) => document.id() == id,
            None => false,
        };
        if open {
            return TogglePlan::InEditor;
        }
        if self.notes[at].encrypted {
            let mut text: String = "Unlock this encrypted note before changing its ".to_owned();
            text.append(flag.action_name());
            text.append(" state.");
            return TogglePlan::Refuse(text);
        }
        TogglePlan::InFile(copy_text(&self.notes[at].relative_path))
    }

    /// Changes a mark of the open note, which is then to be saved.
    pub fn toggle_active(&mut self, flag: NoteFlag)
        ensures
            match old(self)@.active {
                Some(document) => {
                    let note = document.spec_note();
                    let metadata = flag.put(note.metadata, !flag.of(note.metadata));
                    final(self)@ == (WorkspaceView {
                        active: Some(document.with_note(Note { metadata, ..note })),
                        body_dirty: true,
                        ..old(self)@
                    })
                },
                None => final(self)@ == old(self)@,
            },
    {
        if let Some(document) = &mut self.active {
            let note = document.note_mut();
            flag.toggle(&mut note.metadata);
            self.body_dirty = true;
        }
    }

    /// Takes the summary of a note over that was changed in its file.
    pub fn file_toggled(&mut self, summary: NoteSummary)
        ensures
            ({
                let at = summary_from(old(self)@.notes, summary.id, 0);
                final(self)@ == (WorkspaceView {
                    notes: if at < old(self)@.notes.len() {
                        old(self)@.notes.update(at, summary)
                    } else {
                        old(self)@.notes
                    },
                    ..old(self)@
                })
            }),
    {
        let at: usize = find_summary(&self.notes, summary.id);
        if at < self.notes.len() {
            self.notes[at] = summary;
        }
        proof {
            let place = summary_from(old(self)@.notes, summary.id, 0);
            assert(self@ =~= WorkspaceView {
                notes: if place < old(self)@.notes.len() {
                    old(self)@.notes.update(place, summary)
                } else {
                    old(self)@.notes
                },
                ..old(self)@
            });
        }
    }

    /// Brings the notes in order once a mark was changed. What the window says
    /// comes back, with the place of the note.
    pub fn finish_toggle(&mut self, flag: NoteFlag, id: Uuid, order: Option<SortOrder>) -> (done: Option<
        (usize, &'static str),
    >)
        ensures
            final(self)@ == (WorkspaceView { notes: ordered(order, old(self)@.notes), ..old(self)@ }),
            ({
                let at = summary_from(final(self)@.notes, id, 0);
                match done {
                    None => at == final(self)@.notes.len(),
                    Some((index, status)) => {
                        &&& index == at
                        &&& index < final(self)@.notes.len()
                        &&& status@ == (match (flag, flag.shown(final(self)@.notes[at])) {
                            (NoteFlag::Pinned, true) => "Pinned"@,
                            (NoteFlag::Pinned, false) => "Unpinned"@,
                            (NoteFlag::Favourite, true) => "Added to Favourites"@,
                            (NoteFlag::Favourite, false) => "Removed from Favourites"@,
                            (NoteFlag::Archived, true) => "Archived"@,
                            (NoteFlag::Archived, false) => "Unarchived"@,
                        })
                    },
                }
            }),
    {
        sort_notes(&mut self.notes, order);
        proof {
            assert(self@ =~= WorkspaceView {
                notes: ordered(order, old(self)@.notes),
                ..old(self)@
            });
        }
        let at: usize = find_summary(&self.notes, id);
        if at == self.notes.len() {
            return None;
        }
        let (on_label, off_label) = flag.status_labels();
        if flag.is_shown(&self.notes[at]) {
            Some((at, on_label))
        } else {
            Some((at, off_label))
        }
    }
}

// Changes on disk.

/// The lists on the way from those in memory to those that were found.
#[verifier::ext_equal]
pub struct MergeState {
    pub merged: Seq<NoteSummary>,
    /// The notes whose place in the list may have changed.
    pub moved: Seq<Uuid>,
    /// What was found and is not taken over yet.
    pub rest: Seq<NoteSummary>,
}

/// What a known note becomes where it was found again: what was found, but for
/// a note that is being edited, of which only the path is taken over.
pub open spec fn taken_over(old: NoteSummary, found: NoteSummary, kept: Option<Uuid>) -> NoteSummary {
    if kept == Some(old.id) {
        NoteSummary { relative_path: found.relative_path, ..old }
    } else {
        found
    }
}

/// The lists once some known notes are dealt with.
pub open spec fn merge_state(
    known: Seq<NoteSummary>,
    found: Seq<NoteSummary>,
    kept: Option<Uuid>,
) -> MergeState
    decreases known.len(),
{
    if known.len() == 0 {
        MergeState { merged: seq![], moved: seq![], rest: found }
    } else {
        let before = merge_state(known.drop_last(), found, kept);
        let old = known.last();
        let at = summary_from(before.rest, old.id, 0);
        if at >= before.rest.len() {
            before
        } else {
            let new = before.rest[at];
            MergeState {
                merged: before.merged.push(taken_over(old, new, kept)),
                moved: if old.pinned != new.pinned || old.archived != new.archived {
                    before.moved.push(new.id)
                } else {
                    before.moved
                },
                rest: before.rest.remove(at),
            }
        }
    }
}

/// The notes once those that were found are taken over: known ones in the order
/// they have, then new ones.
pub open spec fn merged_notes(
    known: Seq<NoteSummary>,
    found: Seq<NoteSummary>,
    kept: Option<Uuid>,
) -> Seq<NoteSummary> {
    merge_state(known, found, kept).merged + merge_state(known, found, kept).rest
}

impl Workspace {
    /// Takes the notes over that were found on disk. The summary of a note that
    /// is being edited keeps all but its path. The notes whose place in the list
    /// may have changed come back.
    pub fn merge_notes(&mut self, found: Vec<NoteSummary>, kept: Option<Uuid>) -> (moved: Vec<Uuid>)
        ensures
            final(self)@ == (WorkspaceView {
                notes: merged_notes(old(self)@.notes, found@, kept),
                ..old(self)@
            }),
            moved@ == merge_state(old(self)@.notes, found@, kept).moved,
    {
        let ghost all = self.notes@;
        let ghost scanned = found@;
        let mut known: Vec<NoteSummary> = Vec::new();
        known.append(&mut self.notes);
        let mut rest = found;
        let mut merged: Vec<NoteSummary> = Vec::new();
        let mut moved: Vec<Uuid> = Vec::new();
        let mut done: usize = 0;
        let total: usize = known.len();
        proof {
            assert(known@ =~= all);
            assert(all.skip(0) == all);
            assert(merge_state(all.take(0), scanned, kept) =~= MergeState {
                merged: seq![],
                moved: seq![],
                rest: scanned,
            });
        }
        while done < total
            invariant
                done <= total,
                total == all.len(),
                known@ == all.skip(done as int),
                merge_state(all.take(done as int), scanned, kept) == (MergeState {
                    merged: merged@,
                    moved: moved@,
                    rest: rest@,
                }),
            decreases total - done,
        {
            let mut old_summary = known.remove(0);
            let ghost before = old_summary;
            proof {
                let next = all.take(done + 1);
                assert(next.drop_last() == all.take(done as int));
                assert(next.last() == old_summary);
                assert(known@ =~= all.skip(done + 1));
            }
            let at: usize = find_summary(&rest, old_summary.id);
            if at < rest.len() {
                let new_summary = rest.remove(at);
                if old_summary.pinned != new_summary.pinned || old_summary.archived
                    != new_summary.archived {
                    moved.push(new_summary.id);
                }
                let is_kept = match kept {
                    Some(id) => id == old_summary.id,
                    None => false,
                };
                if is_kept {
                    old_summary.relative_path = new_summary.relative_path;
                    merged.push(old_summary);
                } else {
                    merged.push(new_summary);
                }
            }
            done += 1;
        }
        proof {
            assert(all.take(done as int) == all);
        }
        merged.append(&mut rest);
        self.notes = merged;
        proof {
            assert(self@ =~= WorkspaceView {
                notes: merged_notes(all, scanned, kept),
                ..old(self)@
            });
        }
        moved
    }
}

/// The identifiers of notes.
pub open spec fn ids_of(notes: Seq<NoteSummary>) -> Seq<Uuid> {
    Seq::new(notes.len(), |i: int| notes[i].id)
}

/// The list holds the notes that were found, each once, and no other. The one
/// that is being edited keeps what the editor holds of it.
pub proof fn law_merged_list_is_what_was_found(
    known: Seq<NoteSummary>,
    found: Seq<NoteSummary>,
    kept: Option<Uuid>,
)
    ensures
        ids_of(merged_notes(known, found, kept)).to_multiset() == ids_of(found).to_multiset(),
    decreases known.len(),
{
    broadcast use vstd::seq_lib::group_to_multiset_ensures;

    let after = merge_state(known, found, kept);
    if known.len() == 0 {
        assert(merged_notes(known, found, kept) =~= found);
    } else {
        let shorter = known.drop_last();
        law_merged_list_is_what_was_found(shorter, found, kept);
        let before = merge_state(shorter, found, kept);
        let old = known.last();
        let at = summary_from(before.rest, old.id, 0);
        lemma_summary_from(before.rest, old.id, 0);
        if at < before.rest.len() {
            let new = before.rest[at];
            let one = ids_of(before.merged + before.rest);
            let two = ids_of(after.merged + after.rest);
            let place = before.merged.len() as int;
            // The identifier at `place + at` goes to `place`; all others keep their order.
            assert(one.remove(place + at).insert(place, old.id) =~= two);
            vstd::seq_lib::to_multiset_remove(one, place + at);
            vstd::seq_lib::to_multiset_insert(one.remove(place + at), place, old.id);
            assert(one[place + at] == old.id);
            assert(one.to_multiset().remove(old.id).insert(old.id) =~= one.to_multiset()) by {
                vstd::seq_lib::to_multiset_contains(one, old.id);
            }
        }
    }
}

/// The first entry from a place on with an identifier, or the number of entries.
pub open spec fn entry_from(entries: Seq<TrashEntry>, id: Uuid, at: int) -> int
    decreases entries.len() - at,
{
    if at >= entries.len() {
        entries.len() as int
    } else if entries[at].id == id {
        at
    } else {
        entry_from(entries, id, at + 1)
    }
}

fn find_entry(entries: &[TrashEntry], id: Uuid) -> (found: usize)
    ensures
        found == entry_from(entries@, id, 0),
        found <= entries@.len(),
{
    let mut at: usize = 0;
    while at < entries.len() && entries[at].id != id
        invariant
            at <= entries@.len(),
            entry_from(entries@, id, at as int) == entry_from(entries@, id, 0),
        decreases entries@.len() - at,
    {
        at += 1;
    }
    at
}

/// The entries of the trash that are taken over, and those that are left.
pub open spec fn trash_state(known: Seq<TrashEntry>, found: Seq<TrashEntry>) -> (
    Seq<TrashEntry>,
    Seq<TrashEntry>,
)
    decreases known.len(),
{
    if known.len() == 0 {
        (seq![], found)
    } else {
        let (merged, rest) = trash_state(known.drop_last(), found);
        let at = entry_from(rest, known.last().id, 0);
        if at >= rest.len() {
            (merged, rest)
        } else {
            (merged.push(rest[at]), rest.remove(at))
        }
    }
}

impl Workspace {
    /// Takes the entries of the trash over that were found on disk: known ones
    /// in the order they have, then new ones.
    pub fn merge_trash(&mut self, found: Vec<TrashEntry>)
        ensures
            final(self)@ == (WorkspaceView {
                trash: trash_state(old(self)@.trash, found@).0 + trash_state(
                    old(self)@.trash,
                    found@,
                ).1,
                ..old(self)@
            }),
    {
        let ghost all = self.trash@;
        let ghost scanned = found@;
        let mut known: Vec<TrashEntry> = Vec::new();
        known.append(&mut self.trash);
        let mut rest = found;
        let mut merged: Vec<TrashEntry> = Vec::new();
        let mut done: usize = 0;
        let total: usize = known.len();
        proof {
            assert(known@ =~= all);
        }
        while done < total
            invariant
                done <= total,
                total == all.len(),
                known@ == all,
                trash_state(all.take(done as int), scanned) == (merged@, rest@),
            decreases total - done,
        {
            proof {
                let next = all.take(done + 1);
                assert(next.drop_last() == all.take(done as int));
                assert(next.last() == all[done as int]);
            }
            let at: usize = find_entry(&rest, known[done].id);
            if at < rest.len() {
                let entry = rest.remove(at);
                merged.push(entry);
            }
            done += 1;
        }
        proof {
            assert(all.take(done as int) == all);
        }
        merged.append(&mut rest);
        self.trash = merged;
        proof {
            assert(self@ =~= WorkspaceView {
                trash: trash_state(all, scanned).0 + trash_state(all, scanned).1,
                ..old(self)@
            });
        }
    }
}

/// Whether the list has to be built anew: its rows are not those that are shown.
pub fn rows_changed(wanted: &[RowTarget], shown: &[RowTarget]) -> (changed: bool)
    ensures
        changed == (wanted@ != shown@),
{
    if wanted.len() != shown.len() {
        return true;
    }
    let mut index: usize = 0;
    while index < wanted.len()
        invariant
            index <= wanted@.len(),
            wanted@.len() == shown@.len(),
            forall|i: int| 0 <= i < index ==> wanted@[i] == shown@[i],
        decreases wanted@.len() - index,
    {
        if wanted[index] != shown[index] {
            return true;
        }
        index += 1;
    }
    proof {
        assert(wanted@ =~= shown@);
    }
    false
}

/// What is done when the watcher has reported.
#[derive(Debug, PartialEq, Eq)]
pub enum WatchStep {
    /// Nothing, until the next time.
    Wait,
    /// The files are compared with what was written last.
    Compare,
    /// The watcher is given up, with this status.
    Stop(String),
}

/// What the watcher has reported since it was asked last.
#[derive(Debug, PartialEq, Eq)]
pub enum WatchReport {
    /// There is no watcher.
    Absent,
    Quiet,
    Changed,
    Failed(String),
}

impl Workspace {
    /// Decides what a report of the watcher leads to. While a row is being
    /// selected, something is unsaved or the vault is locked, changes wait.
    pub fn watch_step(&self, selecting: bool, report: WatchReport) -> (step: WatchStep)
        ensures
            ({
                let clean = !self@.body_dirty && !self@.title_dirty;
                let locked = self@.vault matches Some(vault) && vault.locked;
                if selecting {
                    step is Wait
                } else {
                    match report {
                        WatchReport::Changed => if clean && !locked && self@.vault is Some {
                            step is Compare
                        } else {
                            step is Wait
                        },
                        WatchReport::Failed(error) => step matches WatchStep::Stop(status)
                            && status@ == "Filesystem watcher failed: "@ + error@,
                        _ => step is Wait,
                    }
                }
            }),
    {
        if selecting {
            return WatchStep::Wait;
        }
        match report {
            WatchReport::Changed => {
                let open = match &self.vault {
                    Some(vault) => !vault.locked,
                    None => false,
                };
                if !self.body_dirty && !self.title_dirty && open {
                    WatchStep::Compare
                } else {
                    WatchStep::Wait
                }
            },
            WatchReport::Failed(error) => {
                let mut status: String = "Filesystem watcher failed: ".to_owned();
                status.append(&error);
                WatchStep::Stop(status)
            },
            _ => WatchStep::Wait,
        }
    }

    /// Decides what follows from a change on disk that did not come from here.
    /// `current` is what the file of the open note is like now, or why that
    /// could not be told. A status keeps the list as it is.
    pub fn external_change(&self, current: Option<core::result::Result<FileStamp, String>>) -> (outcome:
        core::result::Result<Option<Uuid>, String>)
        requires
            self@.active is Some && self@.vault is Some ==> current is Some,
        ensures
            match self@.active {
                None => outcome matches Ok(kept) && kept is None,
                Some(document) => match current {
                    Some(Ok(stamp)) => if stamp == document.spec_stamp() {
                        outcome == Ok::<Option<Uuid>, String>(Some(document.spec_id()))
                    } else {
                        outcome matches Err(status) && status@
                            == "The open note changed on disk. Save is blocked until you reload or preserve your editor text."@
                    },
                    Some(Err(error)) => outcome matches Err(status) && status@
                        == "Could not verify external changes: "@ + error@,
                    None => outcome == Ok::<Option<Uuid>, String>(Some(document.spec_id())),
                },
            },
    {
        match &self.active {
            None => Ok(None),
            Some(document) => match current {
                Some(Ok(stamp)) => {
                    if stamp == document.stamp() {
                        Ok(Some(document.id()))
                    } else {
                        Err(
                            "The open note changed on disk. Save is blocked until you reload or preserve your editor text.".to_owned(),
                        )
                    }
                },
                Some(Err(error)) => {
                    let mut status: String = "Could not verify external changes: ".to_owned();
                    status.append(&error);
                    Err(status)
                },
                None => Ok(Some(document.id())),
            },
        }
    }
}

// Time.

/// Whether everything is locked when the window is no longer the active one.
pub fn locks_on_leaving_window(config: &LockingConfig) -> (locks: bool)
    ensures
        locks == (config.on_focus_loss || config.on_minimize),
{
    config.on_focus_loss || config.on_minimize
}

impl Workspace {
    /// Whether everything is locked because nothing secret was used for as long
    /// as the settings allow.
    pub fn idle_expired(&self, after_minutes: u32, now: u64) -> (expired: bool)
        ensures
            expired == (match self@.last_activity {
                Some(last) => after_minutes > 0 && now - last >= after_minutes * 60_000,
                None => false,
            }),
    {
        if after_minutes == 0 {
            return false;
        }
        match self.last_activity {
            Some(last) => {
                if now < last {
                    return false;
                }
                now - last >= after_minutes as u64 * 60_000
            },
            None => false,
        }
    }
}

/// The delay after which a body is saved, within bounds.
pub fn autosave_delay(configured: u64) -> (delay: u64)
    ensures
        delay == (if configured < 500 {
            500u64
        } else if configured > 1_000 {
            1_000u64
        } else {
            configured
        }),
{
    if configured < 500 {
        500
    } else if configured > 1_000 {
        1_000
    } else {
        configured
    }
}

/// The delay after which a title is committed, within bounds.
pub fn title_delay(configured: u64) -> (delay: u64)
    ensures
        delay == (if configured < 1_000 {
            1_000u64
        } else if configured > 5_000 {
            5_000u64
        } else {
            configured
        }),
{
    if configured < 1_000 {
        1_000
    } else if configured > 5_000 {
        5_000
    } else {
        configured
    }
}

} // verus!
