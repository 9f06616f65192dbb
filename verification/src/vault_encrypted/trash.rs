//! What the trash of an encrypted vault does to its manifest.

use vstd::prelude::*;

use super::manifest::{
    holds_text, notes_shown, trash_shown, with_notebook, Manifest, ManifestView, NoteRecord,
    NoteView, TrashRecord, TrashView,
};
use super::notes::{
    find_place, is_missing, is_taken, lemma_note_from, lies_at, object_ids, place_of,
    places_distinct, sealed_name,
};
use crate::constants::DEFAULT_NOTEBOOK;
use crate::error::{Error, Result};
use crate::ident::Uuid;
use crate::model::{locked_note_suffix, locked_title, Timestamp};
use crate::paths::{
    encrypted_note_filename, ensure_relative_note_path, file_name, file_name_of, is_invalid_path,
    join_path, joined, valid_note_path,
};
use crate::storage::{has_parent, stands_in_directory};
use crate::text::{copy_text, lemma_texts_push, texts};
use crate::vault::{
    is_not_found, parent_of, parent_path, sort_trash, trash_ordered, TrashEntry,
};

verus! {

/// The first record from a place on of a note, or the number of records where
/// there is none.
pub open spec fn trash_from(trash: Seq<TrashView>, note_id: Uuid, at: int) -> int
    decreases trash.len() - at,
{
    if at >= trash.len() {
        trash.len() as int
    } else if trash[at].note_id == note_id {
        at
    } else {
        trash_from(trash, note_id, at + 1)
    }
}

proof fn lemma_trash_from(trash: Seq<TrashView>, note_id: Uuid, at: int)
    requires
        0 <= at <= trash.len(),
    ensures
        ({
            let found = trash_from(trash, note_id, at);
            &&& at <= found <= trash.len()
            &&& found < trash.len() ==> trash[found].note_id == note_id
            &&& forall|i: int| at <= i < found ==> (#[trigger] trash[i]).note_id != note_id
        }),
    decreases trash.len() - at,
{
    if at < trash.len() && trash[at].note_id != note_id {
        lemma_trash_from(trash, note_id, at + 1);
    }
}

/// The title under which the trash lists a note: that of one with a password of
/// its own is not known.
pub open spec fn trash_title(snote: bool, note_id: Uuid, title: Seq<char>) -> Seq<char> {
    if snote {
        locked_title(note_id)
    } else {
        title
    }
}

/// A manifest once the note at a place is thrown away.
pub open spec fn thrown_away(
    manifest: ManifestView,
    at: int,
    relative: Seq<char>,
    note_id: Uuid,
    title: Seq<char>,
    now: Timestamp,
) -> ManifestView {
    let note = manifest.notes[at];
    ManifestView {
        notes: manifest.notes.remove(at),
        trash: manifest.trash.push(
            TrashView {
                object_id: note.object_id,
                object_uuid: note.object_uuid,
                note_id,
                original: relative,
                trashed_at: now,
                snote: note.snote,
                title: trash_title(note.snote, note_id, title),
            },
        ),
        ..manifest
    }
}

/// The notebook that a thrown away note lay in.
pub open spec fn original_notebook(original: Seq<char>) -> Seq<char> {
    if has_parent(original) {
        parent_path(original)
    } else {
        DEFAULT_NOTEBOOK@
    }
}

/// The file name that a thrown away note had.
pub open spec fn original_name(original: Seq<char>) -> Seq<char> {
    match file_name(original) {
        Some(name) => name,
        None => seq![],
    }
}

/// Whether a thrown away note can go to where it was: its notebook is still
/// there, and nothing has its name.
pub open spec fn can_go_back(manifest: ManifestView, original: Seq<char>) -> bool {
    &&& manifest.notebooks.contains(original_notebook(original))
    &&& !is_taken(manifest.notes, original_notebook(original), original_name(original))
}

/// The notebook that a note from the trash goes to.
pub open spec fn restore_notebook(manifest: ManifestView, record: TrashView) -> Seq<char> {
    if can_go_back(manifest, record.original) {
        original_notebook(record.original)
    } else {
        DEFAULT_NOTEBOOK@
    }
}

/// The file name that a note from the trash gets.
pub open spec fn restore_name(manifest: ManifestView, record: TrashView) -> Seq<char> {
    if !can_go_back(manifest, record.original) && record.snote {
        sealed_name(record.note_id)
    } else {
        original_name(record.original)
    }
}

/// Whether there is no place for a note from the trash.
pub open spec fn has_no_place(manifest: ManifestView, record: TrashView) -> bool {
    !can_go_back(manifest, record.original) && is_taken(
        manifest.notes,
        restore_notebook(manifest, record),
        restore_name(manifest, record),
    )
}

/// A manifest once the note at a place of the trash is restored.
pub open spec fn restored(manifest: ManifestView, at: int) -> ManifestView {
    let record = manifest.trash[at];
    let notebook = restore_notebook(manifest, record);
    ManifestView {
        notebooks: with_notebook(manifest.notebooks, notebook),
        notes: manifest.notes.push(
            NoteView {
                object_id: record.object_id,
                object_uuid: record.object_uuid,
                notebook,
                filename: restore_name(manifest, record),
                snote: record.snote,
            },
        ),
        trash: manifest.trash.remove(at),
        ..manifest
    }
}

/// Whether an entry shows a record of the trash.
pub open spec fn shows(entry: TrashEntry, record: TrashView) -> bool {
    &&& entry.id == record.note_id
    &&& entry.title@ == record.title
    &&& entry.encrypted == record.snote
    &&& entry.original_relative_path@ == record.original
    &&& entry.trashed_at == record.trashed_at
}

/// A manifest without what was in its trash.
pub open spec fn emptied(manifest: ManifestView) -> ManifestView {
    ManifestView { trash: seq![], ..manifest }
}

/// The names of the objects of the trash.
pub open spec fn trash_objects(trash: Seq<TrashView>) -> Seq<Seq<char>> {
    Seq::new(trash.len(), |i: int| trash[i].object_id)
}

/// What comes of throwing a note of a manifest away.
pub open spec fn note_is_thrown_away(
    before: ManifestView,
    relative: Seq<char>,
    note_id: Uuid,
    title: Seq<char>,
    now: Timestamp,
    outcome: Result<TrashEntry>,
    after: ManifestView,
) -> bool {
    let at = place_of(before.notes, relative);
    &&& if !valid_note_path(relative) {
        outcome matches Err(error) && is_invalid_path(error, relative)
    } else if at == before.notes.len() {
        outcome matches Err(error) && is_missing(error, relative)
    } else {
        &&& outcome matches Ok(entry)
        &&& after == thrown_away(before, at, relative, note_id, title, now)
        &&& shows(entry, after.trash.last())
    }
    &&& outcome is Err ==> after == before
}

/// What comes of restoring a note from the trash of a manifest.
pub open spec fn note_is_restored(
    before: ManifestView,
    id: Uuid,
    outcome: Result<String>,
    after: ManifestView,
) -> bool {
    let at = trash_from(before.trash, id, 0);
    let record = before.trash[at];
    let path = joined(restore_notebook(before, record), restore_name(before, record));
    &&& if at == before.trash.len() {
        outcome matches Err(error) && is_not_found(error, id.spec_hyphenated())
    } else if has_no_place(before, record) {
        outcome matches Err(Error::AlreadyExists(taken)) && taken@ == path
    } else {
        &&& outcome matches Ok(back)
        &&& back@ == path
        &&& after == restored(before, at)
    }
    &&& outcome is Err ==> after == before
}

/// What comes of deleting a note in the trash of a manifest for good.
pub open spec fn note_is_destroyed(
    before: ManifestView,
    id: Uuid,
    outcome: Result<String>,
    after: ManifestView,
) -> bool {
    let at = trash_from(before.trash, id, 0);
    match outcome {
        Ok(object_id) => {
            &&& at < before.trash.len()
            &&& object_id@ == before.trash[at].object_id
            &&& after == (ManifestView { trash: before.trash.remove(at), ..before })
        },
        Err(error) => {
            &&& at == before.trash.len()
            &&& is_not_found(error, id.spec_hyphenated())
            &&& after == before
        },
    }
}

impl Manifest {
    fn find_in_trash(&self, note_id: Uuid) -> (found: usize)
        ensures
            found == trash_from(self@.trash, note_id, 0),
            found <= self@.trash.len(),
    {
        let ghost all = self@.trash;
        let mut at: usize = 0;
        while at < self.trash.len() && self.trash[at].note_id != note_id
            invariant
                at <= self.trash@.len(),
                all == self@.trash,
                trash_from(all, note_id, at as int) == trash_from(all, note_id, 0),
            decreases self.trash@.len() - at,
        {
            proof {
                assert(all[at as int] == self.trash@[at as int].shown());
            }
            at += 1;
        }
        proof {
            if at < self.trash@.len() {
                assert(all[at as int] == self.trash@[at as int].shown());
            }
        }
        at
    }

    /// Throws a note away. `note_id` is the identifier in the note itself and
    /// `title` its title, where it is in the clear.
    pub fn move_to_trash(&mut self, relative: &str, note_id: Uuid, title: &str, now: Timestamp) -> (outcome:
        Result<TrashEntry>)
        ensures
            note_is_thrown_away(
                old(self)@,
                relative@,
                note_id,
                title@,
                now,
                outcome,
                final(self)@,
            ),
            outcome is Err ==> *final(self) == *old(self),
    {
        if let Err(error) = ensure_relative_note_path(relative) {
            return Err(error);
        }
        let index: usize = match self.find_note(relative) {
            Ok(index) => index,
            Err(error) => {
                return Err(error);
            },
        };
        let ghost notes = self.notes@;
        let ghost trash = self.trash@;
        proof {
            assert(self@.notes[index as int] == notes[index as int].shown());
        }
        let record = self.notes.remove(index);
        let shown = if record.snote {
            let mut shown: String = "Locked Note · ".to_owned();
            shown.append(&locked_note_suffix(note_id));
            shown
        } else {
            title.to_owned()
        };
        let entry = TrashEntry {
            id: note_id,
            title: copy_text(&shown),
            encrypted: record.snote,
            original_relative_path: relative.to_owned(),
            trashed_at: now,
        };
        let thrown = TrashRecord {
            object_id: record.object_id,
            object_uuid: record.object_uuid,
            note_id,
            original_relative_path: relative.to_owned(),
            trashed_at: now,
            snote: record.snote,
            title: shown,
        };
        self.trash.push(thrown);
        proof {
            assert(notes_shown(self.notes@) =~= notes_shown(notes).remove(index as int));
            assert(trash_shown(self.trash@) =~= trash_shown(trash).push(thrown.shown()));
        }
        Ok(entry)
    }

    /// The notes in the trash, the one that was thrown away last first.
    pub fn scan_trash(&self) -> (entries: Vec<TrashEntry>)
        ensures
            exists|listed: Seq<TrashEntry>|
                {
                    &&& listed.len() == self@.trash.len()
                    &&& forall|i: int|
                        0 <= i < listed.len() ==> shows(#[trigger] listed[i], self@.trash[i])
                    &&& entries@ == #[trigger] trash_ordered(listed)
                },
    {
        let mut entries: Vec<TrashEntry> = Vec::new();
        let mut index: usize = 0;
        while index < self.trash.len()
            invariant
                index <= self.trash@.len(),
                entries@.len() == index,
                forall|i: int|
                    0 <= i < index ==> shows(#[trigger] entries@[i], self@.trash[i]),
            decreases self.trash@.len() - index,
        {
            proof {
                assert(self@.trash[index as int] == self.trash@[index as int].shown());
            }
            let record = &self.trash[index];
            entries.push(
                TrashEntry {
                    id: record.note_id,
                    title: copy_text(&record.title),
                    encrypted: record.snote,
                    original_relative_path: copy_text(&record.original_relative_path),
                    trashed_at: record.trashed_at,
                },
            );
            index += 1;
        }
        let ghost listed = entries@;
        sort_trash(&mut entries);
        proof {
            assert(entries@ == trash_ordered(listed));
        }
        entries
    }

    /// Takes a note out of the trash: back to where it was, or, where its
    /// notebook is gone or its name taken, to the notebook that every vault has.
    pub fn restore_from_trash(&mut self, id: Uuid) -> (outcome: Result<String>)
        ensures
            note_is_restored(old(self)@, id, outcome, final(self)@),
            outcome is Err ==> *final(self) == *old(self),
            old(self)@.has_inbox() ==> final(self)@.has_inbox(),
    {
        let index: usize = self.find_in_trash(id);
        if index == self.trash.len() {
            return Err(Error::NoteNotFound(id.hyphenated()));
        }
        proof {
            lemma_trash_from(self@.trash, id, 0);
            assert(self@.trash[index as int] == self.trash@[index as int].shown());
        }
        let original = copy_text(&self.trash[index].original_relative_path);
        let snote = self.trash[index].snote;
        let mut notebook: String = if stands_in_directory(&original) {
            parent_of(&original)
        } else {
            DEFAULT_NOTEBOOK.to_owned()
        };
        let mut filename: String = match file_name_of(&original) {
            Some(name) => name,
            None => String::new(),
        };
        proof {
            assert(filename@ =~= original_name(original@));
        }
        let known = holds_text(&self.notebooks, &notebook);
        let collides = find_place(&self.notes, &notebook, &filename) < self.notes.len();
        let back = known && !collides;
        if !back {
            notebook = DEFAULT_NOTEBOOK.to_owned();
            if snote {
                filename = encrypted_note_filename(id);
            }
            if find_place(&self.notes, &notebook, &filename) < self.notes.len() {
                return Err(Error::AlreadyExists(join_path(&notebook, &filename)));
            }
        }
        let ghost before = self@;
        if !holds_text(&self.notebooks, &notebook) {
            let ghost notebooks = self.notebooks@;
            let added = copy_text(&notebook);
            self.notebooks.push(added);
            proof {
                lemma_texts_push(notebooks, added);
            }
        }
        proof {
            assert(texts(self.notebooks@) == with_notebook(before.notebooks, notebook@));
            if before.has_inbox() {
                let k = choose|k: int|
                    0 <= k < before.notebooks.len() && before.notebooks[k] == DEFAULT_NOTEBOOK@;
                assert(texts(self.notebooks@)[k] == DEFAULT_NOTEBOOK@);
            }
        }
        let ghost notes = self.notes@;
        let ghost trash = self.trash@;
        let path = join_path(&notebook, &filename);
        let record = self.trash.remove(index);
        let note = NoteRecord {
            object_id: record.object_id,
            object_uuid: record.object_uuid,
            notebook,
            filename,
            snote: record.snote,
        };
        self.notes.push(note);
        proof {
            assert(notes_shown(self.notes@) =~= notes_shown(notes).push(note.shown()));
            assert(trash_shown(self.trash@) =~= trash_shown(trash).remove(index as int));
            assert(self@ =~= restored(before, index as int));
        }
        Ok(path)
    }

    /// Takes a note out of the trash for good. The object that held it comes back.
    pub fn permanently_delete(&mut self, id: Uuid) -> (outcome: Result<String>)
        ensures
            note_is_destroyed(old(self)@, id, outcome, final(self)@),
            outcome is Err ==> *final(self) == *old(self),
    {
        let index: usize = self.find_in_trash(id);
        if index == self.trash.len() {
            return Err(Error::NoteNotFound(id.hyphenated()));
        }
        let ghost trash = self.trash@;
        let record = self.trash.remove(index);
        proof {
            assert(trash_shown(self.trash@) =~= trash_shown(trash).remove(index as int));
        }
        Ok(record.object_id)
    }

    /// Takes every note out of the trash for good. The objects that held them
    /// come back in order.
    pub fn empty_trash(&mut self) -> (removed: Vec<String>)
        ensures
            final(self)@ == emptied(old(self)@),
            texts(removed@) == trash_objects(old(self)@.trash),
    {
        let ghost before = self@;
        let mut removed: Vec<String> = Vec::new();
        proof {
            assert(before.trash.skip(0) == before.trash);
            assert(texts(removed@) =~= trash_objects(before.trash).take(0));
        }
        while self.trash.len() > 0
            invariant
                removed@.len() <= before.trash.len(),
                self@ == (ManifestView { trash: before.trash.skip(removed@.len() as int), ..before }),
                texts(removed@) == trash_objects(before.trash).take(removed@.len() as int),
            decreases self.trash@.len(),
        {
            let ghost done = removed@;
            let ghost all = self@.trash;
            let id = self.trash[0].note_id;
            proof {
                assert(all[0] == self.trash@[0].shown());
            }
            match self.permanently_delete(id) {
                Ok(object_id) => {
                    removed.push(object_id);
                    proof {
                        lemma_texts_push(done, object_id);
                        assert(all.remove(0) =~= before.trash.skip(done.len() as int + 1));
                        assert(texts(removed@) =~= trash_objects(before.trash).take(
                            removed@.len() as int,
                        ));
                    }
                },
                Err(_) => {},
            }
        }
        proof {
            assert(self@.trash.len() == 0);
            assert(self@.trash =~= seq![]);
            assert(texts(removed@) =~= trash_objects(before.trash));
        }
        removed
    }
}

/// A note that is thrown away and restored is again where it was, with the same
/// object, and the trash holds what it held before.
pub proof fn law_restoring_undoes_throwing_away(
    manifest: ManifestView,
    relative: Seq<char>,
    note_id: Uuid,
    title: Seq<char>,
    now: Timestamp,
)
    requires
        valid_note_path(relative),
        place_of(manifest.notes, relative) < manifest.notes.len(),
        manifest.notebooks.contains(manifest.notes[place_of(manifest.notes, relative)].notebook),
        places_distinct(manifest.notes),
        forall|i: int|
            0 <= i < manifest.trash.len() ==> (#[trigger] manifest.trash[i]).note_id != note_id,
    ensures
        ({
            let at = place_of(manifest.notes, relative);
            let thrown = thrown_away(manifest, at, relative, note_id, title, now);
            let found = trash_from(thrown.trash, note_id, 0);
            let back = restored(thrown, found);
            &&& found == manifest.trash.len()
            &&& !has_no_place(thrown, thrown.trash[found])
            &&& back == (ManifestView {
                notes: manifest.notes.remove(at).push(manifest.notes[at]),
                ..manifest
            })
        }),
{
    let at = place_of(manifest.notes, relative);
    let thrown = thrown_away(manifest, at, relative, note_id, title, now);
    let found = trash_from(thrown.trash, note_id, 0);
    let name = file_name(relative)->Some_0;
    lemma_note_from(manifest.notes, parent_path(relative), name, 0);
    lemma_trash_from(thrown.trash, note_id, 0);
    assert(thrown.trash[manifest.trash.len() as int].note_id == note_id);
    assert(found == manifest.trash.len()) by {
        if found < manifest.trash.len() {
            assert(thrown.trash[found] == manifest.trash[found]);
        }
    }
    let note = manifest.notes[at];
    assert(lies_at(note, parent_path(relative), name));
    assert forall|i: int| 0 <= i < thrown.notes.len() implies !lies_at(
        #[trigger] thrown.notes[i],
        note.notebook,
        note.filename,
    ) by {
        if i < at {
            assert(!lies_at(manifest.notes[i], manifest.notes[at].notebook, manifest.notes[at].filename));
        } else {
            assert(!lies_at(manifest.notes[at], manifest.notes[i + 1].notebook, manifest.notes[i + 1].filename));
        }
    }
    assert(thrown.trash.remove(found) =~= manifest.trash);
}

/// Emptying the trash of a sealed vault leaves a trash in which nothing is listed,
/// and every note where it was.
pub proof fn law_emptied_trash_lists_nothing(manifest: ManifestView, listed: Seq<TrashEntry>)
    requires
        listed.len() == emptied(manifest).trash.len(),
    ensures
        trash_ordered(listed) == Seq::<TrashEntry>::empty(),
        emptied(manifest).notes == manifest.notes,
        emptied(manifest).notebooks == manifest.notebooks,
{
    assert(listed =~= Seq::<TrashEntry>::empty());
}

/// Throwing a note away keeps its object known, as restoring it does.
pub proof fn law_trash_keeps_objects(
    manifest: ManifestView,
    at: int,
    relative: Seq<char>,
    note_id: Uuid,
    title: Seq<char>,
    now: Timestamp,
    object_id: Seq<char>,
)
    ensures
        0 <= at < manifest.notes.len() ==> (object_ids(manifest).contains(object_id) <==> object_ids(
            thrown_away(manifest, at, relative, note_id, title, now),
        ).contains(object_id)),
        0 <= at < manifest.trash.len() ==> (object_ids(manifest).contains(object_id) <==> object_ids(
            restored(manifest, at),
        ).contains(object_id)),
{
    lemma_known(manifest, object_id);
    if 0 <= at < manifest.notes.len() {
        let after = thrown_away(manifest, at, relative, note_id, title, now);
        lemma_known(after, object_id);
        if is_known(manifest, object_id) {
            if exists|i: int|
                0 <= i < manifest.notes.len() && (#[trigger] manifest.notes[i]).object_id
                    == object_id {
                let k = choose|k: int|
                    0 <= k < manifest.notes.len() && (#[trigger] manifest.notes[k]).object_id
                        == object_id;
                if k == at {
                    assert(after.trash[manifest.trash.len() as int].object_id == object_id);
                } else if k < at {
                    assert(after.notes[k].object_id == object_id);
                } else {
                    assert(after.notes[k - 1].object_id == object_id);
                }
            } else if exists|i: int|
                0 <= i < manifest.trash.len() && (#[trigger] manifest.trash[i]).object_id
                    == object_id {
                let k = choose|k: int|
                    0 <= k < manifest.trash.len() && (#[trigger] manifest.trash[k]).object_id
                        == object_id;
                assert(after.trash[k].object_id == object_id);
            }
        }
        if is_known(after, object_id) {
            if exists|i: int|
                0 <= i < after.notes.len() && (#[trigger] after.notes[i]).object_id == object_id {
                let k = choose|k: int|
                    0 <= k < after.notes.len() && (#[trigger] after.notes[k]).object_id
                        == object_id;
                if k < at {
                    assert(manifest.notes[k].object_id == object_id);
                } else {
                    assert(manifest.notes[k + 1].object_id == object_id);
                }
            } else if exists|i: int|
                0 <= i < after.trash.len() && (#[trigger] after.trash[i]).object_id == object_id {
                let k = choose|k: int|
                    0 <= k < after.trash.len() && (#[trigger] after.trash[k]).object_id
                        == object_id;
                if k < manifest.trash.len() {
                    assert(manifest.trash[k].object_id == object_id);
                } else {
                    assert(manifest.notes[at].object_id == object_id);
                }
            }
        }
    }
    if 0 <= at < manifest.trash.len() {
        let after = restored(manifest, at);
        lemma_known(after, object_id);
        if is_known(manifest, object_id) {
            if exists|i: int|
                0 <= i < manifest.notes.len() && (#[trigger] manifest.notes[i]).object_id
                    == object_id {
                let k = choose|k: int|
                    0 <= k < manifest.notes.len() && (#[trigger] manifest.notes[k]).object_id
                        == object_id;
                assert(after.notes[k].object_id == object_id);
            } else if exists|i: int|
                0 <= i < manifest.trash.len() && (#[trigger] manifest.trash[i]).object_id
                    == object_id {
                let k = choose|k: int|
                    0 <= k < manifest.trash.len() && (#[trigger] manifest.trash[k]).object_id
                        == object_id;
                if k == at {
                    assert(after.notes[manifest.notes.len() as int].object_id == object_id);
                } else if k < at {
                    assert(after.trash[k].object_id == object_id);
                } else {
                    assert(after.trash[k - 1].object_id == object_id);
                }
            }
        }
        if is_known(after, object_id) {
            if exists|i: int|
                0 <= i < after.notes.len() && (#[trigger] after.notes[i]).object_id == object_id {
                let k = choose|k: int|
                    0 <= k < after.notes.len() && (#[trigger] after.notes[k]).object_id
                        == object_id;
                if k < manifest.notes.len() {
                    assert(manifest.notes[k].object_id == object_id);
                } else {
                    assert(manifest.trash[at].object_id == object_id);
                }
            } else if exists|i: int|
                0 <= i < after.trash.len() && (#[trigger] after.trash[i]).object_id == object_id {
                let k = choose|k: int|
                    0 <= k < after.trash.len() && (#[trigger] after.trash[k]).object_id
                        == object_id;
                if k < at {
                    assert(manifest.trash[k].object_id == object_id);
                } else {
                    assert(manifest.trash[k + 1].object_id == object_id);
                }
            }
        }
    }
}

/// Whether a record of a manifest names an object.
spec fn is_known(manifest: ManifestView, object_id: Seq<char>) -> bool {
    ||| exists|i: int|
        0 <= i < manifest.notes.len() && (#[trigger] manifest.notes[i]).object_id == object_id
    ||| exists|i: int|
        0 <= i < manifest.trash.len() && (#[trigger] manifest.trash[i]).object_id == object_id
    ||| exists|i: int|
        0 <= i < manifest.recovery.len() && (#[trigger] manifest.recovery[i]).object_id == object_id
    ||| exists|i: int|
        0 <= i < manifest.attachments.len() && (#[trigger] manifest.attachments[i]).object_id
            == object_id
}

proof fn lemma_known(manifest: ManifestView, object_id: Seq<char>)
    ensures
        object_ids(manifest).contains(object_id) <==> is_known(manifest, object_id),
{
    let all = object_ids(manifest);
    let notes = manifest.notes.len() as int;
    let trash = manifest.trash.len() as int;
    let recovery = manifest.recovery.len() as int;
    if all.contains(object_id) {
        let k = choose|k: int| 0 <= k < all.len() && all[k] == object_id;
        if k < notes {
            assert(manifest.notes[k].object_id == object_id);
        } else if k < notes + trash {
            assert(manifest.trash[k - notes].object_id == object_id);
        } else if k < notes + trash + recovery {
            assert(manifest.recovery[k - notes - trash].object_id == object_id);
        } else {
            assert(manifest.attachments[k - notes - trash - recovery].object_id == object_id);
        }
    }
    assert forall|i: int|
        0 <= i < manifest.notes.len() && (
        #[trigger] manifest.notes[i]).object_id == object_id implies all.contains(object_id) by {
        assert(all[i] == object_id);
    }
    assert forall|i: int|
        0 <= i < manifest.trash.len() && (
        #[trigger] manifest.trash[i]).object_id == object_id implies all.contains(object_id) by {
        assert(all[notes + i] == object_id);
    }
    assert forall|i: int|
        0 <= i < manifest.recovery.len() && (
        #[trigger] manifest.recovery[i]).object_id == object_id implies all.contains(object_id) by {
        assert(all[notes + trash + i] == object_id);
    }
    assert forall|i: int|
        0 <= i < manifest.attachments.len() && (
        #[trigger] manifest.attachments[i]).object_id == object_id implies all.contains(
        object_id,
    ) by {
        assert(all[notes + trash + recovery + i] == object_id);
    }
}

} // verus!
