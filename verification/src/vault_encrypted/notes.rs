//! What the operations on notes do to the manifest of an encrypted vault.

use vstd::prelude::*;

use super::manifest::{
    notes_shown, recovery_shown, attachments_shown, with_notebook, AttachmentRecord, AttachmentView,
    Manifest, ManifestView, NoteRecord, NoteView, RecoveryRecord, RecoveryView, MANIFEST_NAME,
};
use crate::constants::MIN_PASSWORD_LENGTH;
use crate::error::{Error, Result};
use crate::ident::Uuid;
use crate::model::{Note, NoteSummary};
use crate::paths::{
    encrypted_note_filename, ensure_relative_note_path, file_name, file_name_of, is_invalid_path,
    join_path, joined, note_filename, short_id, title_slug, valid_note_path, valid_path,
};
use crate::sort::{ordered, sort_notes};
use crate::text::{copy_text, lemma_texts_push, same_text, texts};
use crate::vault::{
    check_password_policy, has_extension, is_not_found, is_weak_password, normalized_title,
    parent_of, parent_path, require_encrypted, require_plain, title_text,
};

verus! {

// Finding a note.

/// Whether a note lies in a notebook under a file name.
pub open spec fn lies_at(note: NoteView, notebook: Seq<char>, filename: Seq<char>) -> bool {
    note.notebook == notebook && note.filename == filename
}

/// The first note from a place on that lies in a notebook under a file name,
/// or the number of notes where there is none.
pub open spec fn note_from(
    notes: Seq<NoteView>,
    notebook: Seq<char>,
    filename: Seq<char>,
    at: int,
) -> int
    decreases notes.len() - at,
{
    if at >= notes.len() {
        notes.len() as int
    } else if lies_at(notes[at], notebook, filename) {
        at
    } else {
        note_from(notes, notebook, filename, at + 1)
    }
}

/// Whether a note lies in a notebook under a file name.
pub open spec fn is_taken(notes: Seq<NoteView>, notebook: Seq<char>, filename: Seq<char>) -> bool {
    exists|i: int| 0 <= i < notes.len() && lies_at(#[trigger] notes[i], notebook, filename)
}

/// The place of the note with a path, or the number of notes where there is none.
pub open spec fn place_of(notes: Seq<NoteView>, relative: Seq<char>) -> int {
    match file_name(relative) {
        Some(name) => note_from(notes, parent_path(relative), name, 0),
        None => notes.len() as int,
    }
}

/// The error for a path that no note has.
pub open spec fn is_missing(error: Error, relative: Seq<char>) -> bool {
    if file_name(relative) is None {
        is_invalid_path(error, relative)
    } else {
        is_not_found(error, relative)
    }
}

pub proof fn lemma_note_from(
    notes: Seq<NoteView>,
    notebook: Seq<char>,
    filename: Seq<char>,
    at: int,
)
    requires
        0 <= at <= notes.len(),
    ensures
        ({
            let found = note_from(notes, notebook, filename, at);
            &&& at <= found <= notes.len()
            &&& found < notes.len() ==> lies_at(notes[found], notebook, filename)
            &&& forall|i: int|
                at <= i < found ==> !lies_at(#[trigger] notes[i], notebook, filename)
        }),
    decreases notes.len() - at,
{
    if at < notes.len() && !lies_at(notes[at], notebook, filename) {
        lemma_note_from(notes, notebook, filename, at + 1);
    }
}

pub fn find_place(notes: &[NoteRecord], notebook: &str, filename: &str) -> (found: usize)
    ensures
        found == note_from(notes_shown(notes@), notebook@, filename@, 0),
        found <= notes@.len(),
        found < notes@.len() <==> is_taken(notes_shown(notes@), notebook@, filename@),
{
    let ghost all = notes_shown(notes@);
    let mut at: usize = 0;
    while at < notes.len() && !(same_text(&notes[at].notebook, notebook) && same_text(
        &notes[at].filename,
        filename,
    ))
        invariant
            at <= notes@.len(),
            all == notes_shown(notes@),
            note_from(all, notebook@, filename@, at as int) == note_from(
                all,
                notebook@,
                filename@,
                0,
            ),
        decreases notes@.len() - at,
    {
        proof {
            assert(all[at as int] == notes@[at as int].shown());
        }
        at += 1;
    }
    proof {
        lemma_note_from(all, notebook@, filename@, 0);
        if at < notes@.len() {
            assert(all[at as int] == notes@[at as int].shown());
        }
    }
    at
}

// The objects.

/// The names of all objects that a manifest knows.
pub open spec fn object_ids(manifest: ManifestView) -> Seq<Seq<char>> {
    Seq::new(manifest.notes.len(), |i: int| manifest.notes[i].object_id) + Seq::new(
        manifest.trash.len(),
        |i: int| manifest.trash[i].object_id,
    ) + Seq::new(manifest.recovery.len(), |i: int| manifest.recovery[i].object_id) + Seq::new(
        manifest.attachments.len(),
        |i: int| manifest.attachments[i].object_id,
    )
}

/// Whether a file of the store is neither the manifest nor an object that the
/// manifest knows.
pub open spec fn is_orphan(manifest: ManifestView, name: Seq<char>) -> bool {
    name != MANIFEST_NAME@ && !object_ids(manifest).contains(name)
}

/// Those of the names that are neither the manifest nor a known object.
pub open spec fn orphans_among(manifest: ManifestView, names: Seq<Seq<char>>) -> Seq<Seq<char>>
    decreases names.len(),
{
    if names.len() == 0 {
        seq![]
    } else {
        let before = orphans_among(manifest, names.drop_last());
        if is_orphan(manifest, names.last()) {
            before.push(names.last())
        } else {
            before
        }
    }
}

impl Manifest {
    /// The names of all objects that the manifest knows.
    pub fn all_object_ids(&self) -> (ids: Vec<String>)
        ensures
            texts(ids@) == object_ids(self@),
    {
        let ghost in_notes = Seq::new(self@.notes.len(), |i: int| self@.notes[i].object_id);
        let ghost in_trash = Seq::new(self@.trash.len(), |i: int| self@.trash[i].object_id);
        let ghost in_recovery = Seq::new(
            self@.recovery.len(),
            |i: int| self@.recovery[i].object_id,
        );
        let ghost in_attachments = Seq::new(
            self@.attachments.len(),
            |i: int| self@.attachments[i].object_id,
        );
        let mut ids: Vec<String> = Vec::new();
        let mut index: usize = 0;
        while index < self.notes.len()
            invariant
                index <= self.notes@.len(),
                in_notes.len() == self.notes@.len(),
                forall|i: int|
                    0 <= i < in_notes.len() ==> in_notes[i] == (#[trigger] self.notes@[i]).object_id@,
                texts(ids@) == in_notes.take(index as int),
            decreases self.notes@.len() - index,
        {
            let ghost done = ids@;
            let id = copy_text(&self.notes[index].object_id);
            ids.push(id);
            proof {
                lemma_texts_push(done, id);
                assert(in_notes.take(index + 1) =~= in_notes.take(index as int).push(id@));
            }
            index += 1;
        }
        let ghost head = in_notes;
        proof {
            assert(texts(ids@) =~= head);
        }
        let mut index: usize = 0;
        while index < self.trash.len()
            invariant
                index <= self.trash@.len(),
                in_trash.len() == self.trash@.len(),
                forall|i: int|
                    0 <= i < in_trash.len() ==> in_trash[i] == (#[trigger] self.trash@[i]).object_id@,
                texts(ids@) == head + in_trash.take(index as int),
            decreases self.trash@.len() - index,
        {
            let ghost done = ids@;
            let id = copy_text(&self.trash[index].object_id);
            ids.push(id);
            proof {
                lemma_texts_push(done, id);
                assert(head + in_trash.take(index + 1) =~= (head + in_trash.take(
                    index as int,
                )).push(id@));
            }
            index += 1;
        }
        let ghost head = in_notes + in_trash;
        proof {
            assert(texts(ids@) =~= head);
        }
        let mut index: usize = 0;
        while index < self.recovery.len()
            invariant
                index <= self.recovery@.len(),
                in_recovery.len() == self.recovery@.len(),
                forall|i: int|
                    0 <= i < in_recovery.len() ==> in_recovery[i] == (
                    #[trigger] self.recovery@[i]).object_id@,
                texts(ids@) == head + in_recovery.take(index as int),
            decreases self.recovery@.len() - index,
        {
            let ghost done = ids@;
            let id = copy_text(&self.recovery[index].object_id);
            ids.push(id);
            proof {
                lemma_texts_push(done, id);
                assert(head + in_recovery.take(index + 1) =~= (head + in_recovery.take(
                    index as int,
                )).push(id@));
            }
            index += 1;
        }
        let ghost head = in_notes + in_trash + in_recovery;
        proof {
            assert(texts(ids@) =~= head);
        }
        let mut index: usize = 0;
        while index < self.attachments.len()
            invariant
                index <= self.attachments@.len(),
                in_attachments.len() == self.attachments@.len(),
                forall|i: int|
                    0 <= i < in_attachments.len() ==> in_attachments[i] == (
                    #[trigger] self.attachments@[i]).object_id@,
                texts(ids@) == head + in_attachments.take(index as int),
            decreases self.attachments@.len() - index,
        {
            let ghost done = ids@;
            let id = copy_text(&self.attachments[index].object_id);
            ids.push(id);
            proof {
                lemma_texts_push(done, id);
                assert(head + in_attachments.take(index + 1) =~= (head + in_attachments.take(
                    index as int,
                )).push(id@));
            }
            index += 1;
        }
        proof {
            assert(texts(ids@) =~= object_ids(self@));
        }
        ids
    }

    /// Those of the files of the store that are to be put aside when the vault
    /// is opened: objects that no manifest came to know of. Nothing is deleted.
    pub fn reconcile(&self, names: &[String]) -> (aside: Vec<String>)
        ensures
            texts(aside@) == orphans_among(self@, texts(names@)),
    {
        let known = self.all_object_ids();
        let ghost all = texts(names@);
        let mut aside: Vec<String> = Vec::new();
        let mut index: usize = 0;
        proof {
            assert(texts(aside@) =~= orphans_among(self@, all.take(0)));
        }
        while index < names.len()
            invariant
                index <= names@.len(),
                all == texts(names@),
                texts(known@) == object_ids(self@),
                texts(aside@) == orphans_among(self@, all.take(index as int)),
            decreases names@.len() - index,
        {
            proof {
                let next = all.take(index + 1);
                assert(next.drop_last() =~= all.take(index as int));
                assert(next.last() == names@[index as int]@);
            }
            if !same_text(&names[index], MANIFEST_NAME) && !super::manifest::holds_text(
                &known,
                &names[index],
            ) {
                let ghost done = aside@;
                let name = copy_text(&names[index]);
                aside.push(name);
                proof {
                    lemma_texts_push(done, name);
                }
            }
            index += 1;
        }
        proof {
            assert(all.take(index as int) == all);
        }
        aside
    }
}

/// What is put aside when the vault is opened is exactly what is neither the
/// manifest nor an object that the manifest knows.
pub proof fn law_only_orphans_are_put_aside(
    manifest: ManifestView,
    names: Seq<Seq<char>>,
    name: Seq<char>,
)
    ensures
        orphans_among(manifest, names).contains(name) <==> names.contains(name) && is_orphan(
            manifest,
            name,
        ),
    decreases names.len(),
{
    if names.len() > 0 {
        let shorter = names.drop_last();
        law_only_orphans_are_put_aside(manifest, shorter, name);
        let before = orphans_among(manifest, shorter);
        let all = orphans_among(manifest, names);
        if names.contains(name) {
            let k = choose|k: int| 0 <= k < names.len() && names[k] == name;
            if k < shorter.len() {
                assert(shorter[k] == name);
                assert(shorter.contains(name));
            }
        }
        if shorter.contains(name) {
            let k = choose|k: int| 0 <= k < shorter.len() && shorter[k] == name;
            assert(names[k] == name);
        }
        if before.contains(name) {
            let k = choose|k: int| 0 <= k < before.len() && before[k] == name;
            assert(all[k] == name);
        }
        if names.last() == name && is_orphan(manifest, name) {
            assert(all[all.len() - 1] == name);
            assert(names[names.len() - 1] == name);
        }
        if all.contains(name) && !before.contains(name) {
            let k = choose|k: int| 0 <= k < all.len() && all[k] == name;
            if k < before.len() {
                assert(before[k] == name);
            }
            assert(names[names.len() - 1] == name);
        }
    }
}

// Operations on notes.

/// The file name of a note in the clear.
pub open spec fn plain_name(title: Seq<char>, id: Uuid) -> Seq<char> {
    title_slug(title) + "--"@ + short_id(id) + ".md"@
}

/// The file name of a note with a password of its own.
pub open spec fn sealed_name(id: Uuid) -> Seq<char> {
    "encrypted--"@ + short_id(id) + ".snote"@
}

/// A manifest with another file name and mark for the note at a place.
pub open spec fn with_name(manifest: ManifestView, at: int, filename: Seq<char>, snote: bool) -> ManifestView {
    ManifestView {
        notes: manifest.notes.update(at, NoteView { filename, snote, ..manifest.notes[at] }),
        ..manifest
    }
}

/// A manifest with another notebook for the note at a place.
pub open spec fn with_note_in(manifest: ManifestView, at: int, notebook: Seq<char>) -> ManifestView {
    ManifestView {
        notes: manifest.notes.update(at, NoteView { notebook, ..manifest.notes[at] }),
        ..manifest
    }
}

/// The outcome of looking for the note with a path that has to be valid.
pub open spec fn is_found(manifest: ManifestView, relative: Seq<char>, outcome: Result<usize>) -> bool {
    if !valid_note_path(relative) {
        outcome matches Err(error) && is_invalid_path(error, relative)
    } else {
        match outcome {
            Ok(index) => index == place_of(manifest.notes, relative) && index
                < manifest.notes.len(),
            Err(error) => place_of(manifest.notes, relative) == manifest.notes.len() && is_missing(
                error,
                relative,
            ),
        }
    }
}

/// What comes of creating a note in a manifest.
pub open spec fn note_is_created(
    before: ManifestView,
    title: Seq<char>,
    notebook: Seq<char>,
    id: Uuid,
    object_id: Seq<char>,
    outcome: Result<String>,
    after: ManifestView,
) -> bool {
    match outcome {
        Ok(path) => {
            &&& valid_path(notebook)
            &&& path@ == joined(notebook, plain_name(title, id))
            &&& after == (ManifestView {
                notebooks: with_notebook(before.notebooks, notebook),
                notes: before.notes.push(
                    NoteView {
                        object_id,
                        object_uuid: id,
                        notebook,
                        filename: plain_name(title, id),
                        snote: false,
                    },
                ),
                ..before
            })
        },
        Err(error) => {
            &&& !valid_path(notebook)
            &&& is_invalid_path(error, notebook)
            &&& after == before
        },
    }
}

/// What comes of giving a note of a manifest another title.
pub open spec fn title_is_committed(
    before: ManifestView,
    relative: Seq<char>,
    id: Uuid,
    title: Seq<char>,
    outcome: Result<String>,
    after: ManifestView,
) -> bool {
    let at = place_of(before.notes, relative);
    let name = plain_name(title_text(title), id);
    &&& if !has_extension(relative, "md"@) {
        outcome matches Err(error) && error is WrongNoteType
    } else if !valid_note_path(relative) {
        outcome matches Err(error) && is_invalid_path(error, relative)
    } else if at == before.notes.len() {
        outcome matches Err(error) && is_missing(error, relative)
    } else {
        &&& outcome matches Ok(path)
        &&& path@ == (if before.notes[at].filename == name {
            relative
        } else {
            joined(before.notes[at].notebook, name)
        })
        &&& after == with_name(before, at, name, before.notes[at].snote)
    }
    &&& outcome is Err ==> after == before
}

/// What comes of giving a note of a manifest a password of its own.
pub open spec fn note_is_sealed(
    before: ManifestView,
    relative: Seq<char>,
    id: Uuid,
    password: Seq<char>,
    outcome: Result<String>,
    after: ManifestView,
) -> bool {
    let at = place_of(before.notes, relative);
    &&& if !has_extension(relative, "md"@) {
        outcome matches Err(error) && error is WrongNoteType
    } else if password.len() < MIN_PASSWORD_LENGTH {
        outcome matches Err(error) && is_weak_password(error)
    } else if !valid_note_path(relative) {
        outcome matches Err(error) && is_invalid_path(error, relative)
    } else if at == before.notes.len() {
        outcome matches Err(error) && is_missing(error, relative)
    } else {
        &&& outcome matches Ok(path)
        &&& path@ == joined(before.notes[at].notebook, sealed_name(id))
        &&& after == with_name(before, at, sealed_name(id), true)
    }
    &&& outcome is Err ==> after == before
}

/// What comes of taking a note's own password away in a manifest.
pub open spec fn note_is_unsealed(
    before: ManifestView,
    relative: Seq<char>,
    id: Uuid,
    title: Seq<char>,
    outcome: Result<String>,
    after: ManifestView,
) -> bool {
    let at = place_of(before.notes, relative);
    &&& if !valid_note_path(relative) {
        outcome matches Err(error) && is_invalid_path(error, relative)
    } else if !has_extension(relative, "snote"@) {
        outcome matches Err(error) && error is WrongNoteType
    } else if at == before.notes.len() {
        outcome matches Err(error) && is_missing(error, relative)
    } else {
        &&& outcome matches Ok(path)
        &&& path@ == joined(before.notes[at].notebook, plain_name(title, id))
        &&& after == with_name(before, at, plain_name(title, id), false)
    }
    &&& outcome is Err ==> after == before
}

/// What comes of moving a note of a manifest to a notebook.
pub open spec fn note_is_moved(
    before: ManifestView,
    relative: Seq<char>,
    notebook: Seq<char>,
    outcome: Result<String>,
    after: ManifestView,
) -> bool {
    let created = ManifestView {
        notebooks: with_notebook(before.notebooks, notebook),
        ..before
    };
    let at = place_of(before.notes, relative);
    let filename = before.notes[at].filename;
    if !valid_note_path(relative) {
        &&& outcome matches Err(error)
        &&& is_invalid_path(error, relative)
        &&& after == before
    } else if !valid_path(notebook) {
        &&& outcome matches Err(error)
        &&& is_invalid_path(error, notebook)
        &&& after == before
    } else if at == before.notes.len() {
        &&& outcome matches Err(error)
        &&& is_missing(error, relative)
        &&& after == created
    } else if before.notes[at].notebook == notebook {
        &&& outcome matches Ok(path)
        &&& path@ == relative
        &&& after == created
    } else if is_taken(before.notes, notebook, filename) {
        &&& outcome matches Err(Error::AlreadyExists(path))
        &&& path@ == joined(notebook, filename)
        &&& after == created
    } else {
        &&& outcome matches Ok(path)
        &&& path@ == joined(notebook, filename)
        &&& after == with_note_in(created, at, notebook)
    }
}

/// What comes of looking for a note in the clear.
pub open spec fn plain_is_found(
    manifest: ManifestView,
    relative: Seq<char>,
    outcome: Result<usize>,
) -> bool {
    let at = place_of(manifest.notes, relative);
    if valid_note_path(relative) && (!has_extension(relative, "md"@) || (at < manifest.notes.len()
        && manifest.notes[at].snote)) {
        outcome matches Err(error) && error is WrongNoteType
    } else {
        is_found(manifest, relative, outcome)
    }
}

/// What comes of looking for a note with a password of its own.
pub open spec fn sealed_is_found(
    manifest: ManifestView,
    relative: Seq<char>,
    outcome: Result<usize>,
) -> bool {
    let at = place_of(manifest.notes, relative);
    if valid_note_path(relative) && (!has_extension(relative, "snote"@) || (at
        < manifest.notes.len() && !manifest.notes[at].snote)) {
        outcome matches Err(error) && error is WrongNoteType
    } else {
        is_found(manifest, relative, outcome)
    }
}

impl Manifest {
    /// The place of the note with a path.
    pub fn find_note(&self, relative: &str) -> (outcome: Result<usize>)
        ensures
            match outcome {
                Ok(index) => index == place_of(self@.notes, relative@) && index < self@.notes.len(),
                Err(error) => place_of(self@.notes, relative@) == self@.notes.len() && is_missing(
                    error,
                    relative@,
                ),
            },
    {
        match file_name_of(relative) {
            Some(filename) => {
                let index: usize = find_place(&self.notes, &parent_of(relative), &filename);
                if index < self.notes.len() {
                    Ok(index)
                } else {
                    Err(Error::NoteNotFound(relative.to_owned()))
                }
            },
            None => Err(Error::InvalidPath(relative.to_owned())),
        }
    }

    fn find_valid(&self, relative: &str) -> (outcome: Result<usize>)
        ensures
            is_found(self@, relative@, outcome),
    {
        if let Err(error) = ensure_relative_note_path(relative) {
            return Err(error);
        }
        self.find_note(relative)
    }

    /// The place of a note in the clear that is to be read.
    pub fn load_note(&self, relative: &str) -> (outcome: Result<usize>)
        ensures
            plain_is_found(self@, relative@, outcome),
    {
        if let Err(error) = ensure_relative_note_path(relative) {
            return Err(error);
        }
        if let Err(error) = require_plain(relative) {
            return Err(error);
        }
        match self.find_note(relative) {
            Ok(index) => {
                proof {
                    assert(self@.notes[index as int].snote == self.notes@[index as int].snote);
                }
                if self.notes[index].snote {
                    Err(Error::WrongNoteType)
                } else {
                    Ok(index)
                }
            },
            Err(error) => Err(error),
        }
    }

    /// The place of a note with a password of its own that is to be read.
    pub fn load_encrypted_note(&self, relative: &str) -> (outcome: Result<usize>)
        ensures
            sealed_is_found(self@, relative@, outcome),
    {
        if let Err(error) = ensure_relative_note_path(relative) {
            return Err(error);
        }
        if let Err(error) = require_encrypted(relative) {
            return Err(error);
        }
        match self.find_note(relative) {
            Ok(index) => {
                proof {
                    assert(self@.notes[index as int].snote == self.notes@[index as int].snote);
                }
                if self.notes[index].snote {
                    Ok(index)
                } else {
                    Err(Error::WrongNoteType)
                }
            },
            Err(error) => Err(error),
        }
    }

    /// The place of a note in the clear that is to be written.
    pub fn save_note(&self, relative: &str) -> (outcome: Result<usize>)
        ensures
            if !has_extension(relative@, "md"@) {
                outcome matches Err(error) && error is WrongNoteType
            } else {
                is_found(self@, relative@, outcome)
            },
    {
        if let Err(error) = require_plain(relative) {
            return Err(error);
        }
        self.find_valid(relative)
    }

    /// The place of a note with a password of its own that is to be written.
    pub fn save_encrypted_note(&self, relative: &str) -> (outcome: Result<usize>)
        ensures
            if !has_extension(relative@, "snote"@) {
                outcome matches Err(error) && error is WrongNoteType
            } else {
                is_found(self@, relative@, outcome)
            },
    {
        if let Err(error) = require_encrypted(relative) {
            return Err(error);
        }
        self.find_valid(relative)
    }

    /// The place of a note that is to get another password.
    pub fn change_encrypted_password(&self, relative: &str, new_password: &str) -> (outcome: Result<
        usize,
    >)
        ensures
            if valid_note_path(relative@) && !has_extension(relative@, "snote"@) {
                outcome matches Err(error) && error is WrongNoteType
            } else if valid_note_path(relative@) && new_password@.len() < MIN_PASSWORD_LENGTH {
                outcome matches Err(error) && is_weak_password(error)
            } else {
                is_found(self@, relative@, outcome)
            },
    {
        if let Err(error) = ensure_relative_note_path(relative) {
            return Err(error);
        }
        if let Err(error) = require_encrypted(relative) {
            return Err(error);
        }
        if let Err(error) = check_password_policy(new_password) {
            return Err(error);
        }
        self.find_note(relative)
    }

    /// Adds a note in the clear, and its notebook where there is none yet.
    pub fn create_note(&mut self, title: &str, notebook: &str, id: Uuid, object_id: String) -> (outcome:
        Result<String>)
        ensures
            note_is_created(
                old(self)@,
                title@,
                notebook@,
                id,
                object_id@,
                outcome,
                final(self)@,
            ),
            outcome is Err ==> *final(self) == *old(self),
            old(self)@.has_inbox() ==> final(self)@.has_inbox(),
    {
        if let Err(error) = self.create_notebook(notebook) {
            return Err(error);
        }
        let ghost before = self.notes@;
        let filename = note_filename(title, id);
        let path = join_path(notebook, &filename);
        let record = NoteRecord {
            object_id,
            object_uuid: id,
            notebook: notebook.to_owned(),
            filename,
            snote: false,
        };
        self.notes.push(record);
        proof {
            assert(notes_shown(self.notes@) =~= notes_shown(before).push(record.shown()));
        }
        Ok(path)
    }

    fn rename_note(&mut self, index: usize, filename: String, snote: bool) -> (path: String)
        requires
            index < old(self)@.notes.len(),
        ensures
            final(self)@ == with_name(old(self)@, index as int, filename@, snote),
            path@ == joined(old(self)@.notes[index as int].notebook, filename@),
    {
        let ghost before = self.notes@;
        let path = join_path(&self.notes[index].notebook, &filename);
        self.notes[index].filename = filename;
        self.notes[index].snote = snote;
        proof {
            assert(notes_shown(self.notes@) =~= notes_shown(before).update(
                index as int,
                self.notes@[index as int].shown(),
            ));
        }
        path
    }

    /// Gives a note in the clear another title. The file name follows; the
    /// identifier and the object stay.
    pub fn commit_title(&mut self, relative: &str, id: Uuid, title: &str) -> (outcome: Result<
        String,
    >)
        ensures
            title_is_committed(old(self)@, relative@, id, title@, outcome, final(self)@),
            outcome is Err ==> *final(self) == *old(self),
    {
        let index: usize = match self.save_note(relative) {
            Ok(index) => index,
            Err(error) => {
                return Err(error);
            },
        };
        let filename = note_filename(&normalized_title(title), id);
        proof {
            assert(self@.notes[index as int] == self.notes@[index as int].shown());
        }
        if same_text(&self.notes[index].filename, &filename) {
            proof {
                assert(self@.notes.update(index as int, self@.notes[index as int])
                    =~= self@.notes);
            }
            return Ok(relative.to_owned());
        }
        let snote = self.notes[index].snote;
        Ok(self.rename_note(index, filename, snote))
    }

    /// Gives a note a password of its own. Its file name no longer tells the title.
    pub fn encrypt_note(&mut self, relative: &str, id: Uuid, password: &str) -> (outcome: Result<
        String,
    >)
        ensures
            note_is_sealed(old(self)@, relative@, id, password@, outcome, final(self)@),
            outcome is Err ==> *final(self) == *old(self),
    {
        if let Err(error) = require_plain(relative) {
            return Err(error);
        }
        if let Err(error) = check_password_policy(password) {
            return Err(error);
        }
        match self.find_valid(relative) {
            Ok(index) => Ok(self.rename_note(index, encrypted_note_filename(id), true)),
            Err(error) => Err(error),
        }
    }

    /// Takes the password of its own from a note.
    pub fn remove_encryption(&mut self, relative: &str, id: Uuid, title: &str) -> (outcome: Result<
        String,
    >)
        ensures
            note_is_unsealed(old(self)@, relative@, id, title@, outcome, final(self)@),
            outcome is Err ==> *final(self) == *old(self),
    {
        if let Err(error) = ensure_relative_note_path(relative) {
            return Err(error);
        }
        if let Err(error) = require_encrypted(relative) {
            return Err(error);
        }
        match self.find_note(relative) {
            Ok(index) => Ok(self.rename_note(index, note_filename(title, id), false)),
            Err(error) => Err(error),
        }
    }

    /// Moves a note into a notebook, which is added where there is none yet,
    /// even if the note cannot be moved. The object is not touched: it does not
    /// know where its note lies.
    pub fn move_note(&mut self, relative: &str, destination_notebook: &str) -> (outcome: Result<
        String,
    >)
        ensures
            note_is_moved(
                old(self)@,
                relative@,
                destination_notebook@,
                outcome,
                final(self)@,
            ),
            !valid_note_path(relative@) || !valid_path(destination_notebook@) ==> *final(self)
                == *old(self),
            old(self)@.has_inbox() ==> final(self)@.has_inbox(),
    {
        if let Err(error) = ensure_relative_note_path(relative) {
            return Err(error);
        }
        if let Err(error) = self.create_notebook(destination_notebook) {
            return Err(error);
        }
        let index: usize = match self.find_note(relative) {
            Ok(index) => index,
            Err(error) => {
                return Err(error);
            },
        };
        let ghost before = self.notes@;
        proof {
            assert(self@.notes[index as int] == self.notes@[index as int].shown());
        }
        if same_text(&self.notes[index].notebook, destination_notebook) {
            return Ok(relative.to_owned());
        }
        let filename = copy_text(&self.notes[index].filename);
        let path = join_path(destination_notebook, &filename);
        if find_place(&self.notes, destination_notebook, &filename) < self.notes.len() {
            return Err(Error::AlreadyExists(path));
        }
        self.notes[index].notebook = destination_notebook.to_owned();
        proof {
            assert(notes_shown(self.notes@) =~= notes_shown(before).update(
                index as int,
                self.notes@[index as int].shown(),
            ));
        }
        Ok(path)
    }
}

/// Whether no two notes lie in the same notebook under the same file name.
pub open spec fn places_distinct(notes: Seq<NoteView>) -> bool {
    forall|i: int, j: int|
        0 <= i < j < notes.len() ==> !lies_at(
            #[trigger] notes[i],
            (#[trigger] notes[j]).notebook,
            notes[j].filename,
        )
}

/// Moving a note to where nothing is keeps the places of the notes apart, and
/// the note is found at its new path.
pub proof fn law_moving_keeps_places_distinct(manifest: ManifestView, at: int, notebook: Seq<char>)
    requires
        0 <= at < manifest.notes.len(),
        places_distinct(manifest.notes),
        !is_taken(manifest.notes, notebook, manifest.notes[at].filename),
    ensures
        places_distinct(with_note_in(manifest, at, notebook).notes),
        note_from(
            with_note_in(manifest, at, notebook).notes,
            notebook,
            manifest.notes[at].filename,
            0,
        ) == at,
{
    let filename = manifest.notes[at].filename;
    let moved = with_note_in(manifest, at, notebook).notes;
    assert forall|i: int, j: int| 0 <= i < j < moved.len() implies !lies_at(
        #[trigger] moved[i],
        (#[trigger] moved[j]).notebook,
        moved[j].filename,
    ) by {
        assert(!lies_at(manifest.notes[i], notebook, filename));
        assert(!lies_at(manifest.notes[j], notebook, filename));
        assert(!lies_at(manifest.notes[i], manifest.notes[j].notebook, manifest.notes[j].filename));
    }
    lemma_note_from(moved, notebook, filename, 0);
    let found = note_from(moved, notebook, filename, 0);
    assert(lies_at(moved[at], notebook, filename));
    if found < at {
        assert(!lies_at(manifest.notes[found], notebook, filename));
    }
}

/// No operation on a note other than throwing it away changes which objects
/// the manifest knows.
pub proof fn law_objects_are_kept(
    manifest: ManifestView,
    at: int,
    filename: Seq<char>,
    snote: bool,
    notebook: Seq<char>,
)
    requires
        0 <= at < manifest.notes.len(),
    ensures
        object_ids(with_name(manifest, at, filename, snote)) == object_ids(manifest),
        object_ids(with_note_in(manifest, at, notebook)) == object_ids(manifest),
{
    assert(object_ids(with_name(manifest, at, filename, snote)) =~= object_ids(manifest));
    assert(object_ids(with_note_in(manifest, at, notebook)) =~= object_ids(manifest));
}

// Recovery and attachments.

/// The unsaved edits of all notes but one.
pub open spec fn recovery_without(records: Seq<RecoveryView>, note_id: Uuid) -> Seq<RecoveryView>
    decreases records.len(),
{
    if records.len() == 0 {
        seq![]
    } else {
        let before = recovery_without(records.drop_last(), note_id);
        if records.last().note_id == note_id {
            before
        } else {
            before.push(records.last())
        }
    }
}

/// The objects of the unsaved edits of a note.
pub open spec fn recovery_objects(records: Seq<RecoveryView>, note_id: Uuid) -> Seq<Seq<char>>
    decreases records.len(),
{
    if records.len() == 0 {
        seq![]
    } else {
        let before = recovery_objects(records.drop_last(), note_id);
        if records.last().note_id == note_id {
            before.push(records.last().object_id)
        } else {
            before
        }
    }
}

/// The first attachment from a place on with a note and a name, or the number
/// of attachments where there is none.
pub open spec fn attachment_from(
    records: Seq<AttachmentView>,
    note_id: Uuid,
    name: Seq<char>,
    at: int,
) -> int
    decreases records.len() - at,
{
    if at >= records.len() {
        records.len() as int
    } else if records[at].note_id == note_id && records[at].name == name {
        at
    } else {
        attachment_from(records, note_id, name, at + 1)
    }
}

/// What comes of keeping the unsaved edits of a note.
pub open spec fn recovery_is_written(
    before: ManifestView,
    relative: Seq<char>,
    note_id: Uuid,
    object_id: Seq<char>,
    object_uuid: Uuid,
    outcome: Result<()>,
    after: ManifestView,
) -> bool {
    &&& outcome is Ok <==> has_extension(relative, "md"@)
    &&& outcome matches Err(error) ==> error is WrongNoteType && after == before
    &&& outcome is Ok ==> after == (ManifestView {
        recovery: recovery_without(before.recovery, note_id).push(
            RecoveryView { object_id, object_uuid, note_id },
        ),
        ..before
    })
}

/// A manifest with one more attachment.
pub open spec fn with_attachment(
    manifest: ManifestView,
    note_id: Uuid,
    name: Seq<char>,
    object_id: Seq<char>,
    object_uuid: Uuid,
) -> ManifestView {
    ManifestView {
        attachments: manifest.attachments.push(
            AttachmentView { object_id, object_uuid, note_id, name },
        ),
        ..manifest
    }
}

impl Manifest {
    /// Takes the unsaved edits of a note out. The objects that held them come back.
    pub fn remove_recovery(&mut self, note_id: Uuid) -> (removed: Vec<String>)
        ensures
            final(self)@ == (ManifestView {
                recovery: recovery_without(old(self)@.recovery, note_id),
                ..old(self)@
            }),
            texts(removed@) == recovery_objects(old(self)@.recovery, note_id),
    {
        let ghost all = self@.recovery;
        let mut kept: Vec<RecoveryRecord> = Vec::new();
        let mut removed: Vec<String> = Vec::new();
        let mut index: usize = 0;
        proof {
            assert(recovery_shown(kept@) =~= recovery_without(all.take(0), note_id));
            assert(texts(removed@) =~= recovery_objects(all.take(0), note_id));
        }
        while index < self.recovery.len()
            invariant
                index <= self.recovery@.len(),
                *self == *old(self),
                all == self@.recovery,
                recovery_shown(kept@) == recovery_without(all.take(index as int), note_id),
                texts(removed@) == recovery_objects(all.take(index as int), note_id),
            decreases self.recovery@.len() - index,
        {
            let ghost done = kept@;
            let ghost gone = removed@;
            proof {
                let next = all.take(index + 1);
                assert(next.drop_last() =~= all.take(index as int));
                assert(next.last() == self.recovery@[index as int].shown());
            }
            let record = &self.recovery[index];
            let object_id = copy_text(&record.object_id);
            if record.note_id == note_id {
                removed.push(object_id);
                proof {
                    lemma_texts_push(gone, object_id);
                }
            } else {
                let copy = RecoveryRecord {
                    object_id,
                    object_uuid: record.object_uuid,
                    note_id: record.note_id,
                };
                kept.push(copy);
                proof {
                    assert(copy.shown() == record.shown());
                    assert(recovery_shown(kept@) =~= recovery_shown(done).push(copy.shown()));
                }
            }
            index += 1;
        }
        self.recovery = kept;
        proof {
            assert(all.take(index as int) == all);
        }
        removed
    }

    /// Keeps an unsaved edit of a note in the clear, in place of earlier ones.
    pub fn write_recovery(
        &mut self,
        relative: &str,
        note_id: Uuid,
        object_id: String,
        object_uuid: Uuid,
    ) -> (outcome: Result<()>)
        ensures
            recovery_is_written(
                old(self)@,
                relative@,
                note_id,
                object_id@,
                object_uuid,
                outcome,
                final(self)@,
            ),
            outcome is Err ==> *final(self) == *old(self),
    {
        if let Err(error) = require_plain(relative) {
            return Err(error);
        }
        self.remove_recovery(note_id);
        let ghost before = self.recovery@;
        let record = RecoveryRecord { object_id, object_uuid, note_id };
        self.recovery.push(record);
        proof {
            assert(recovery_shown(self.recovery@) =~= recovery_shown(before).push(record.shown()));
        }
        Ok(())
    }

    /// Adds a file to a note.
    pub fn write_attachment(
        &mut self,
        note_id: Uuid,
        logical_name: &str,
        object_id: String,
        object_uuid: Uuid,
    )
        ensures
            final(self)@ == with_attachment(
                old(self)@,
                note_id,
                logical_name@,
                object_id@,
                object_uuid,
            ),
    {
        let ghost before = self.attachments@;
        let record = AttachmentRecord {
            object_id,
            object_uuid,
            note_id,
            logical_name: logical_name.to_owned(),
        };
        self.attachments.push(record);
        proof {
            assert(attachments_shown(self.attachments@) =~= attachments_shown(before).push(
                record.shown(),
            ));
        }
    }

    /// The place of the file of a note with a name.
    pub fn read_attachment(&self, note_id: Uuid, logical_name: &str) -> (outcome: Result<usize>)
        ensures
            ({
                let at = attachment_from(self@.attachments, note_id, logical_name@, 0);
                match outcome {
                    Ok(index) => index == at && index < self@.attachments.len(),
                    Err(error) => at == self@.attachments.len() && is_not_found(
                        error,
                        logical_name@,
                    ),
                }
            }),
    {
        let ghost all = self@.attachments;
        let mut at: usize = 0;
        while at < self.attachments.len()
            invariant
                at <= self.attachments@.len(),
                all == self@.attachments,
                attachment_from(all, note_id, logical_name@, at as int) == attachment_from(
                    all,
                    note_id,
                    logical_name@,
                    0,
                ),
            decreases self.attachments@.len() - at,
        {
            proof {
                assert(all[at as int] == self.attachments@[at as int].shown());
            }
            if self.attachments[at].note_id == note_id && same_text(
                &self.attachments[at].logical_name,
                logical_name,
            ) {
                return Ok(at);
            }
            at += 1;
        }
        Err(Error::NoteNotFound(logical_name.to_owned()))
    }
}

/// Saving an unsaved edit and then dropping it leaves none of the note, and
/// those of other notes as they were.
pub proof fn law_dropped_recovery_is_gone(
    records: Seq<RecoveryView>,
    record: RecoveryView,
)
    ensures
        recovery_without(
            recovery_without(records, record.note_id).push(record),
            record.note_id,
        ) == recovery_without(records, record.note_id),
{
    let kept = recovery_without(records, record.note_id);
    lemma_without_again(records, record.note_id);
    assert(kept.push(record).drop_last() =~= kept);
}

proof fn lemma_without_again(records: Seq<RecoveryView>, note_id: Uuid)
    ensures
        recovery_without(recovery_without(records, note_id), note_id) == recovery_without(
            records,
            note_id,
        ),
    decreases records.len(),
{
    if records.len() > 0 {
        lemma_without_again(records.drop_last(), note_id);
        let before = recovery_without(records.drop_last(), note_id);
        if records.last().note_id != note_id {
            assert(before.push(records.last()).drop_last() =~= before);
        }
    }
}

// The list of notes.

/// Whether a list holds, for each note of a manifest, its summary: a
/// placeholder for one with a password of its own.
pub open spec fn summarised(
    notes: Seq<NoteView>,
    read: Seq<Option<Note>>,
    summaries: Seq<NoteSummary>,
) -> bool {
    &&& summaries.len() == notes.len()
    &&& forall|i: int|
        0 <= i < notes.len() ==> if notes[i].snote {
            (#[trigger] summaries[i]).is_placeholder(
                notes[i].object_uuid,
                joined(notes[i].notebook, notes[i].filename),
            )
        } else {
            summaries[i].summarises(read[i]->Some_0)
        }
}

impl Manifest {
    /// The summaries of all notes in order. `read` holds the notes in the clear
    /// at the places of their records.
    pub fn scan_notes(&self, read: &[Option<Note>]) -> (summaries: Vec<NoteSummary>)
        requires
            read@.len() == self@.notes.len(),
            forall|i: int|
                0 <= i < read@.len() ==> (!(#[trigger] self@.notes[i]).snote ==> read@[i] is Some),
        ensures
            exists|unordered: Seq<NoteSummary>|
                summarised(self@.notes, read@, unordered) && summaries@ == #[trigger] ordered(
                    None,
                    unordered,
                ),
    {
        let mut summaries: Vec<NoteSummary> = Vec::new();
        let mut index: usize = 0;
        while index < self.notes.len()
            invariant
                index <= self.notes@.len(),
                read@.len() == self@.notes.len(),
                forall|i: int|
                    0 <= i < read@.len() ==> (!(#[trigger] self@.notes[i]).snote
                        ==> read@[i] is Some),
                summarised(self@.notes.take(index as int), read@, summaries@),
            decreases self.notes@.len() - index,
        {
            proof {
                assert(self@.notes[index as int] == self.notes@[index as int].shown());
            }
            let record = &self.notes[index];
            if record.snote {
                summaries.push(NoteSummary::locked(record.object_uuid, record.relative_path()));
            } else if let Some(note) = &read[index] {
                summaries.push(NoteSummary::from(note));
            }
            index += 1;
        }
        let ghost unordered = summaries@;
        proof {
            assert(self@.notes.take(index as int) == self@.notes);
        }
        sort_notes(&mut summaries, None);
        proof {
            assert(summarised(self@.notes, read@, unordered));
            assert(summaries@ == ordered(None, unordered));
        }
        summaries
    }
}

} // verus!
