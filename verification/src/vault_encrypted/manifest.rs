//! The manifest of an encrypted vault: which notebooks and notes it has, which
//! sealed object holds which note, and what lies in the trash.
//!
//! On disk there are only sealed objects with random names. All the structure
//! is in the manifest, which is sealed itself.

use vstd::prelude::*;

use crate::config::{SessionStateView, VaultSessionState};
use crate::constants::DEFAULT_NOTEBOOK;
use crate::crypto::vault::is_invalid_vault;
use crate::error::{Error, Result};
use crate::ident::Uuid;
use crate::model::Timestamp;
use crate::paths::{
    is_invalid_path, join_path, joined, valid_name, valid_path, validate_notebook_name,
    validate_notebook_path,
};
use crate::text::{
    chars_of, copy_text, copy_texts, decimal, lemma_texts_push, matches_at, push_decimal, same_text,
    stands_at, string_between, texts, trimmed,
};
use crate::vault::{
    insert_notebook, is_reserved, is_reserved_error, parent_of, renamed_path, row_place, rows_of,
    NotebookEntry, NotebookRow, Vault,
};

verus! {

/// The file name of the keyfile in the state directory.
pub const KEYFILE_NAME: &'static str = "vault.keys";

/// The directory of the sealed objects in the state directory.
pub const STORE_DIR: &'static str = "store";

/// The file name of the sealed manifest.
pub const MANIFEST_NAME: &'static str = "manifest";

/// The directory of the store for objects that the manifest does not know.
pub const ORPHAN_DIR: &'static str = "orphans";

/// The version of the manifest's layout.
pub const MANIFEST_SCHEMA: u32 = 1;

/// The identifier of the manifest as an object.
pub const MANIFEST_OBJECT_ID: u128 = 0x5e11a7001a9e57009bd0d4ade3904601;

/// A note of the vault, and the object that holds it.
#[derive(Debug, PartialEq, Eq)]
pub struct NoteRecord {
    pub object_id: String,
    pub object_uuid: Uuid,
    pub notebook: String,
    pub filename: String,
    /// Whether the note has a password of its own.
    pub snote: bool,
}

/// A note in the trash, and the object that holds it.
#[derive(Debug, PartialEq, Eq)]
pub struct TrashRecord {
    pub object_id: String,
    pub object_uuid: Uuid,
    pub note_id: Uuid,
    pub original_relative_path: String,
    pub trashed_at: Timestamp,
    pub snote: bool,
    pub title: String,
}

/// An edit of a note that could not be saved, and the object that holds it.
#[derive(Debug, PartialEq, Eq)]
pub struct RecoveryRecord {
    pub object_id: String,
    pub object_uuid: Uuid,
    pub note_id: Uuid,
}

/// A file that belongs to a note, and the object that holds it.
#[derive(Debug, PartialEq, Eq)]
pub struct AttachmentRecord {
    pub object_id: String,
    pub object_uuid: Uuid,
    pub note_id: Uuid,
    pub logical_name: String,
}

/// The structure of an encrypted vault.
#[derive(Debug, PartialEq, Eq)]
pub struct Manifest {
    pub schema: u32,
    pub created_at: Timestamp,
    /// The paths of the notebooks.
    pub notebooks: Vec<String>,
    pub notes: Vec<NoteRecord>,
    pub trash: Vec<TrashRecord>,
    pub recovery: Vec<RecoveryRecord>,
    pub attachments: Vec<AttachmentRecord>,
    /// The use of the vault, which is sealed with the rest.
    pub session: VaultSessionState,
}

#[verifier::ext_equal]
pub struct NoteView {
    pub object_id: Seq<char>,
    pub object_uuid: Uuid,
    pub notebook: Seq<char>,
    pub filename: Seq<char>,
    pub snote: bool,
}

#[verifier::ext_equal]
pub struct TrashView {
    pub object_id: Seq<char>,
    pub object_uuid: Uuid,
    pub note_id: Uuid,
    pub original: Seq<char>,
    pub trashed_at: Timestamp,
    pub snote: bool,
    pub title: Seq<char>,
}

#[verifier::ext_equal]
pub struct RecoveryView {
    pub object_id: Seq<char>,
    pub object_uuid: Uuid,
    pub note_id: Uuid,
}

#[verifier::ext_equal]
pub struct AttachmentView {
    pub object_id: Seq<char>,
    pub object_uuid: Uuid,
    pub note_id: Uuid,
    pub name: Seq<char>,
}

/// What a manifest says, with its texts as sequences.
#[verifier::ext_equal]
pub struct ManifestView {
    pub schema: u32,
    pub created_at: Timestamp,
    pub notebooks: Seq<Seq<char>>,
    pub notes: Seq<NoteView>,
    pub trash: Seq<TrashView>,
    pub recovery: Seq<RecoveryView>,
    pub attachments: Seq<AttachmentView>,
    pub session: SessionStateView,
}

impl NoteRecord {
    pub open spec fn shown(&self) -> NoteView {
        NoteView {
            object_id: self.object_id@,
            object_uuid: self.object_uuid,
            notebook: self.notebook@,
            filename: self.filename@,
            snote: self.snote,
        }
    }

    /// The path of the note below the notes of the vault.
    pub fn relative_path(&self) -> (path: String)
        ensures
            path@ == joined(self.notebook@, self.filename@),
    {
        join_path(&self.notebook, &self.filename)
    }

    /// This record once more.
    pub fn copy(&self) -> (copy: NoteRecord)
        ensures
            copy.shown() == self.shown(),
    {
        NoteRecord {
            object_id: copy_text(&self.object_id),
            object_uuid: self.object_uuid,
            notebook: copy_text(&self.notebook),
            filename: copy_text(&self.filename),
            snote: self.snote,
        }
    }
}

impl TrashRecord {
    pub open spec fn shown(&self) -> TrashView {
        TrashView {
            object_id: self.object_id@,
            object_uuid: self.object_uuid,
            note_id: self.note_id,
            original: self.original_relative_path@,
            trashed_at: self.trashed_at,
            snote: self.snote,
            title: self.title@,
        }
    }
}

impl RecoveryRecord {
    pub open spec fn shown(&self) -> RecoveryView {
        RecoveryView {
            object_id: self.object_id@,
            object_uuid: self.object_uuid,
            note_id: self.note_id,
        }
    }
}

impl AttachmentRecord {
    pub open spec fn shown(&self) -> AttachmentView {
        AttachmentView {
            object_id: self.object_id@,
            object_uuid: self.object_uuid,
            note_id: self.note_id,
            name: self.logical_name@,
        }
    }
}

pub open spec fn notes_shown(list: Seq<NoteRecord>) -> Seq<NoteView> {
    Seq::new(list.len(), |i: int| list[i].shown())
}

pub open spec fn trash_shown(list: Seq<TrashRecord>) -> Seq<TrashView> {
    Seq::new(list.len(), |i: int| list[i].shown())
}

pub open spec fn recovery_shown(list: Seq<RecoveryRecord>) -> Seq<RecoveryView> {
    Seq::new(list.len(), |i: int| list[i].shown())
}

pub open spec fn attachments_shown(list: Seq<AttachmentRecord>) -> Seq<AttachmentView> {
    Seq::new(list.len(), |i: int| list[i].shown())
}

impl View for Manifest {
    type V = ManifestView;

    open spec fn view(&self) -> ManifestView {
        ManifestView {
            schema: self.schema,
            created_at: self.created_at,
            notebooks: texts(self.notebooks@),
            notes: notes_shown(self.notes@),
            trash: trash_shown(self.trash@),
            recovery: recovery_shown(self.recovery@),
            attachments: attachments_shown(self.attachments@),
            session: self.session@,
        }
    }
}

impl ManifestView {
    /// Whether the notebook that every vault has is there.
    pub open spec fn has_inbox(self) -> bool {
        self.notebooks.contains(DEFAULT_NOTEBOOK@)
    }
}

// Notebooks.

/// Whether a notebook is another, or lies within it.
pub open spec fn lies_under(notebook: Seq<char>, top: Seq<char>) -> bool {
    notebook == top || stands_at(notebook, top + seq!['/'], 0)
}

/// A notebook's path once one at its front is renamed.
pub open spec fn follow_rename(notebook: Seq<char>, from: Seq<char>, to: Seq<char>) -> Seq<char> {
    if lies_under(notebook, from) {
        to + notebook.skip(from.len() as int)
    } else {
        notebook
    }
}

/// A list of notebooks once one is renamed.
pub open spec fn notebooks_renamed(
    notebooks: Seq<Seq<char>>,
    from: Seq<char>,
    to: Seq<char>,
) -> Seq<Seq<char>> {
    Seq::new(notebooks.len(), |i: int| follow_rename(notebooks[i], from, to))
}

/// A list of notes once a notebook is renamed.
pub open spec fn notes_renamed(notes: Seq<NoteView>, from: Seq<char>, to: Seq<char>) -> Seq<
    NoteView,
> {
    Seq::new(
        notes.len(),
        |i: int|
            NoteView { notebook: follow_rename(notes[i].notebook, from, to), ..notes[i] },
    )
}

/// How many notes lie in a notebook or within it.
pub open spec fn notes_under(notes: Seq<NoteView>, top: Seq<char>) -> nat
    decreases notes.len(),
{
    if notes.len() == 0 {
        0
    } else {
        notes_under(notes.drop_last(), top) + (if lies_under(notes.last().notebook, top) {
            1nat
        } else {
            0nat
        })
    }
}

/// How many notes lie right in a notebook.
pub open spec fn notes_right_in(notes: Seq<NoteView>, notebook: Seq<char>) -> nat
    decreases notes.len(),
{
    if notes.len() == 0 {
        0
    } else {
        notes_right_in(notes.drop_last(), notebook) + (if notes.last().notebook == notebook {
            1nat
        } else {
            0nat
        })
    }
}

/// The notebooks that neither are another nor lie within it.
pub open spec fn notebooks_outside(notebooks: Seq<Seq<char>>, top: Seq<char>) -> Seq<Seq<char>>
    decreases notebooks.len(),
{
    if notebooks.len() == 0 {
        seq![]
    } else {
        let before = notebooks_outside(notebooks.drop_last(), top);
        if lies_under(notebooks.last(), top) {
            before
        } else {
            before.push(notebooks.last())
        }
    }
}

/// The notebooks with one more, unless it is there.
pub open spec fn with_notebook(notebooks: Seq<Seq<char>>, notebook: Seq<char>) -> Seq<Seq<char>> {
    if notebooks.contains(notebook) {
        notebooks
    } else {
        notebooks.push(notebook)
    }
}

/// Creating a notebook of a sealed vault again changes nothing.
pub proof fn law_adding_a_notebook_again(notebooks: Seq<Seq<char>>, notebook: Seq<char>)
    ensures
        with_notebook(with_notebook(notebooks, notebook), notebook) == with_notebook(
            notebooks,
            notebook,
        ),
        with_notebook(notebooks, notebook).contains(notebook),
{
    let more = notebooks.push(notebook);
    assert(more[notebooks.len() as int] == notebook);
}

/// The notebooks with the numbers of their notes, in the order of their paths.
pub open spec fn manifest_rows(notebooks: Seq<Seq<char>>, notes: Seq<NoteView>) -> Seq<NotebookRow>
    decreases notebooks.len(),
{
    if notebooks.len() == 0 {
        seq![]
    } else {
        let before = manifest_rows(notebooks.drop_last(), notes);
        let last = notebooks.last();
        before.insert(
            row_place(before, last, 0),
            NotebookRow { path: last, count: notes_right_in(notes, last) },
        )
    }
}

fn is_under(notebook: &str, top: &str) -> (under: bool)
    ensures
        under == lies_under(notebook@, top@),
{
    if same_text(notebook, top) {
        return true;
    }
    let chars = chars_of(notebook);
    let mut prefix = chars_of(top);
    prefix.push('/');
    proof {
        assert(prefix@ =~= top@ + seq!['/']);
    }
    matches_at(&chars, &prefix, 0)
}

fn renamed_notebook(notebook: &str, from: &str, to: &str) -> (renamed: String)
    ensures
        renamed@ == follow_rename(notebook@, from@, to@),
{
    if !is_under(notebook, from) {
        return notebook.to_owned();
    }
    let chars = chars_of(notebook);
    let prefix = chars_of(from);
    let rest = string_between(&chars, prefix.len(), chars.len());
    let mut renamed: String = to.to_owned();
    renamed.append(&rest);
    proof {
        assert(rest@ =~= notebook@.skip(from@.len() as int));
    }
    renamed
}

pub fn holds_text(list: &[String], text: &str) -> (holds: bool)
    ensures
        holds == texts(list@).contains(text@),
{
    let mut index: usize = 0;
    while index < list.len()
        invariant
            index <= list@.len(),
            forall|i: int| 0 <= i < index ==> texts(list@)[i] != text@,
        decreases list@.len() - index,
    {
        if same_text(&list[index], text) {
            proof {
                assert(texts(list@)[index as int] == text@);
            }
            return true;
        }
        index += 1;
    }
    false
}

fn count_right_in(notes: &[NoteRecord], notebook: &str) -> (count: usize)
    ensures
        count == notes_right_in(notes_shown(notes@), notebook@),
{
    let ghost all = notes_shown(notes@);
    let mut count: usize = 0;
    let mut index: usize = 0;
    while index < notes.len()
        invariant
            index <= notes@.len(),
            count <= index,
            all == notes_shown(notes@),
            count == notes_right_in(all.take(index as int), notebook@),
        decreases notes@.len() - index,
    {
        proof {
            let next = all.take(index + 1);
            assert(next.drop_last() =~= all.take(index as int));
            assert(next.last() == notes@[index as int].shown());
        }
        if same_text(&notes[index].notebook, notebook) {
            count += 1;
        }
        index += 1;
    }
    proof {
        assert(all.take(index as int) == all);
    }
    count
}

fn count_under(notes: &[NoteRecord], top: &str) -> (count: usize)
    ensures
        count == notes_under(notes_shown(notes@), top@),
{
    let ghost all = notes_shown(notes@);
    let mut count: usize = 0;
    let mut index: usize = 0;
    while index < notes.len()
        invariant
            index <= notes@.len(),
            count <= index,
            all == notes_shown(notes@),
            count == notes_under(all.take(index as int), top@),
        decreases notes@.len() - index,
    {
        proof {
            let next = all.take(index + 1);
            assert(next.drop_last() =~= all.take(index as int));
            assert(next.last() == notes@[index as int].shown());
        }
        if is_under(&notes[index].notebook, top) {
            count += 1;
        }
        index += 1;
    }
    proof {
        assert(all.take(index as int) == all);
    }
    count
}

/// What comes of adding a notebook to a manifest.
pub open spec fn notebook_is_added(
    before: ManifestView,
    relative: Seq<char>,
    outcome: Result<()>,
    after: ManifestView,
) -> bool {
    match outcome {
        Ok(_) => {
            &&& valid_path(relative)
            &&& after == (ManifestView {
                notebooks: with_notebook(before.notebooks, relative),
                ..before
            })
        },
        Err(error) => {
            &&& !valid_path(relative)
            &&& is_invalid_path(error, relative)
            &&& after == before
        },
    }
}

/// What comes of renaming a notebook of a manifest.
pub open spec fn notebook_is_renamed(
    before: ManifestView,
    relative: Seq<char>,
    new_name: Seq<char>,
    outcome: Result<String>,
    after: ManifestView,
) -> bool {
    let next = renamed_path(relative, new_name);
    &&& if !valid_path(relative) {
        outcome matches Err(error) && is_invalid_path(error, relative)
    } else if is_reserved(relative) {
        outcome matches Err(error) && is_reserved_error(error, relative)
    } else if !valid_name(trimmed(new_name)) {
        outcome matches Err(error) && is_invalid_path(error, new_name)
    } else if next == relative {
        outcome matches Ok(path) && path@ == relative
    } else if is_reserved(next) {
        outcome matches Err(error) && is_reserved_error(error, next)
    } else if before.notebooks.contains(next) {
        outcome matches Err(Error::AlreadyExists(path)) && path@ == next
    } else {
        outcome matches Ok(path) && path@ == next
    }
    &&& outcome is Err ==> after == before
    &&& outcome matches Ok(path) ==> after == (if path@ == relative {
        before
    } else {
        ManifestView {
            notebooks: notebooks_renamed(before.notebooks, relative, path@),
            notes: notes_renamed(before.notes, relative, path@),
            ..before
        }
    })
}

/// What comes of deleting a notebook of a manifest.
pub open spec fn notebook_is_deleted(
    before: ManifestView,
    relative: Seq<char>,
    outcome: Result<()>,
    after: ManifestView,
) -> bool {
    &&& if !valid_path(relative) {
        outcome matches Err(error) && is_invalid_path(error, relative)
    } else if is_reserved(relative) {
        outcome matches Err(error) && is_reserved_error(error, relative)
    } else if notes_under(before.notes, relative) > 0 {
        outcome matches Err(Error::NotebookNotEmpty { relative_path, note_count })
            && relative_path@ == relative && note_count == notes_under(before.notes, relative)
    } else {
        outcome is Ok
    }
    &&& outcome is Err ==> after == before
    &&& outcome is Ok ==> after == (ManifestView {
        notebooks: notebooks_outside(before.notebooks, relative),
        ..before
    })
}

impl Manifest {
    /// The manifest of a new vault.
    pub fn fresh(now: Timestamp) -> (manifest: Manifest)
        ensures
            manifest@.schema == MANIFEST_SCHEMA,
            manifest@.created_at == now,
            manifest@.notebooks == seq![DEFAULT_NOTEBOOK@],
            manifest@.notes.len() == 0,
            manifest@.trash.len() == 0,
            manifest@.recovery.len() == 0,
            manifest@.attachments.len() == 0,
            manifest.session.is_empty_state(),
            manifest@.has_inbox(),
    {
        let mut notebooks: Vec<String> = Vec::new();
        let inbox: String = DEFAULT_NOTEBOOK.to_owned();
        notebooks.push(inbox);
        proof {
            assert(texts(notebooks@) =~= seq![DEFAULT_NOTEBOOK@]);
            assert(texts(notebooks@)[0] == DEFAULT_NOTEBOOK@);
        }
        Manifest {
            schema: MANIFEST_SCHEMA,
            created_at: now,
            notebooks,
            notes: Vec::new(),
            trash: Vec::new(),
            recovery: Vec::new(),
            attachments: Vec::new(),
            session: VaultSessionState::default(),
        }
    }

    /// Refuses a manifest of another layout.
    pub fn check_schema(&self) -> (outcome: Result<()>)
        ensures
            outcome is Ok <==> self@.schema == MANIFEST_SCHEMA,
            outcome matches Err(error) ==> is_invalid_vault(
                error,
                "unsupported manifest schema "@ + decimal(self@.schema as nat),
            ),
    {
        if self.schema != MANIFEST_SCHEMA {
            let mut message: String = "unsupported manifest schema ".to_owned();
            push_decimal(&mut message, self.schema as u64);
            return Err(Error::InvalidEncryptedVault(message));
        }
        Ok(())
    }

    /// The notebooks of the vault in the order of their paths.
    pub fn list_notebooks(&self) -> (entries: Vec<NotebookEntry>)
        ensures
            rows_of(entries@) == manifest_rows(self@.notebooks, self@.notes),
    {
        let ghost all = self@.notebooks;
        let mut entries: Vec<NotebookEntry> = Vec::new();
        let mut index: usize = 0;
        proof {
            assert(rows_of(entries@) =~= manifest_rows(all.take(0), self@.notes));
        }
        while index < self.notebooks.len()
            invariant
                index <= self.notebooks@.len(),
                all == self@.notebooks,
                rows_of(entries@) == manifest_rows(all.take(index as int), self@.notes),
            decreases self.notebooks@.len() - index,
        {
            proof {
                let next = all.take(index + 1);
                assert(next.drop_last() =~= all.take(index as int));
                assert(next.last() == self.notebooks@[index as int]@);
            }
            let notebook = copy_text(&self.notebooks[index]);
            let direct_note_count: usize = count_right_in(&self.notes, &notebook);
            insert_notebook(
                &mut entries,
                NotebookEntry { relative_path: notebook, direct_note_count },
            );
            index += 1;
        }
        proof {
            assert(all.take(index as int) == all);
        }
        entries
    }

    /// Adds a notebook, unless it is there.
    pub fn create_notebook(&mut self, relative: &str) -> (outcome: Result<()>)
        ensures
            notebook_is_added(old(self)@, relative@, outcome, final(self)@),
            outcome is Err ==> *final(self) == *old(self),
            old(self)@.has_inbox() ==> final(self)@.has_inbox(),
    {
        if let Err(error) = validate_notebook_path(relative) {
            return Err(error);
        }
        if !holds_text(&self.notebooks, relative) {
            let ghost before = self.notebooks@;
            let notebook = copy_text(relative);
            self.notebooks.push(notebook);
            proof {
                lemma_texts_push(before, notebook);
                if old(self)@.has_inbox() {
                    let k = choose|k: int|
                        0 <= k < texts(before).len() && texts(before)[k] == DEFAULT_NOTEBOOK@;
                    assert(self@.notebooks[k] == DEFAULT_NOTEBOOK@);
                }
            }
        }
        proof {
            assert(self@ =~= ManifestView {
                notebooks: with_notebook(old(self)@.notebooks, relative@),
                ..old(self)@
            });
        }
        Ok(())
    }

    /// Renames a notebook, and with it all that lies within it. Nothing is
    /// sealed again: an object does not know where its note lies.
    pub fn rename_notebook(&mut self, relative: &str, new_name: &str) -> (outcome: Result<String>)
        ensures
            notebook_is_renamed(old(self)@, relative@, new_name@, outcome, final(self)@),
            outcome is Err ==> *final(self) == *old(self),
            old(self)@.has_inbox() ==> final(self)@.has_inbox(),
    {
        if let Err(error) = validate_notebook_path(relative) {
            return Err(error);
        }
        if Vault::is_reserved_notebook(relative) {
            return Err(Error::ReservedNotebook { relative_path: relative.to_owned() });
        }
        let name = match validate_notebook_name(new_name) {
            Ok(name) => name,
            Err(error) => {
                return Err(error);
            },
        };
        let next = join_path(&parent_of(relative), &name);
        if same_text(&next, relative) {
            return Ok(next);
        }
        if Vault::is_reserved_notebook(&next) {
            return Err(Error::ReservedNotebook { relative_path: next });
        }
        if holds_text(&self.notebooks, &next) {
            return Err(Error::AlreadyExists(next));
        }
        let ghost before = self@;
        let mut index: usize = 0;
        while index < self.notebooks.len()
            invariant
                index <= self.notebooks@.len(),
                self.notebooks@.len() == before.notebooks.len(),
                self.schema == before.schema,
                self.created_at == before.created_at,
                self@.notes == before.notes,
                self@.trash == before.trash,
                self@.recovery == before.recovery,
                self@.attachments == before.attachments,
                self.session@ == before.session,
                forall|i: int|
                    0 <= i < index ==> (#[trigger] self.notebooks@[i])@ == follow_rename(
                        before.notebooks[i],
                        relative@,
                        next@,
                    ),
                forall|i: int|
                    index <= i < self.notebooks@.len() ==> (#[trigger] self.notebooks@[i])@
                        == before.notebooks[i],
            decreases self.notebooks@.len() - index,
        {
            let renamed = renamed_notebook(&self.notebooks[index], relative, &next);
            self.notebooks[index] = renamed;
            index += 1;
        }
        let ghost renamed_notebooks = self.notebooks@;
        let mut index: usize = 0;
        while index < self.notes.len()
            invariant
                index <= self.notes@.len(),
                self.notes@.len() == before.notes.len(),
                self.schema == before.schema,
                self.created_at == before.created_at,
                self.notebooks@ == renamed_notebooks,
                self@.trash == before.trash,
                self@.recovery == before.recovery,
                self@.attachments == before.attachments,
                self.session@ == before.session,
                forall|i: int|
                    0 <= i < index ==> (#[trigger] self.notes@[i]).shown() == notes_renamed(
                        before.notes,
                        relative@,
                        next@,
                    )[i],
                forall|i: int|
                    index <= i < self.notes@.len() ==> (#[trigger] self.notes@[i]).shown()
                        == before.notes[i],
            decreases self.notes@.len() - index,
        {
            let renamed = renamed_notebook(&self.notes[index].notebook, relative, &next);
            proof {
                assert(self.notes@[index as int].shown() == before.notes[index as int]);
            }
            self.notes[index].notebook = renamed;
            proof {
                assert(self.notes@[index as int].shown() =~= notes_renamed(
                    before.notes,
                    relative@,
                    next@,
                )[index as int]);
            }
            index += 1;
        }
        proof {
            assert(texts(self.notebooks@) =~= notebooks_renamed(
                before.notebooks,
                relative@,
                next@,
            ));
            assert(notes_shown(self.notes@) =~= notes_renamed(before.notes, relative@, next@));
            if before.has_inbox() {
                let k = choose|k: int|
                    0 <= k < before.notebooks.len() && before.notebooks[k] == DEFAULT_NOTEBOOK@;
                lemma_inbox_is_not_under(relative@);
                assert(self@.notebooks[k] == DEFAULT_NOTEBOOK@);
            }
        }
        Ok(next)
    }

    /// Deletes a notebook and all that lie within it, where no note lies in them.
    pub fn delete_notebook(&mut self, relative: &str) -> (outcome: Result<()>)
        ensures
            notebook_is_deleted(old(self)@, relative@, outcome, final(self)@),
            outcome is Err ==> *final(self) == *old(self),
            old(self)@.has_inbox() ==> final(self)@.has_inbox(),
    {
        if let Err(error) = validate_notebook_path(relative) {
            return Err(error);
        }
        if Vault::is_reserved_notebook(relative) {
            return Err(Error::ReservedNotebook { relative_path: relative.to_owned() });
        }
        let note_count: usize = count_under(&self.notes, relative);
        if note_count > 0 {
            return Err(
                Error::NotebookNotEmpty { relative_path: relative.to_owned(), note_count },
            );
        }
        let ghost all = self@.notebooks;
        let mut kept: Vec<String> = Vec::new();
        let mut index: usize = 0;
        proof {
            assert(texts(kept@) =~= notebooks_outside(all.take(0), relative@));
        }
        while index < self.notebooks.len()
            invariant
                index <= self.notebooks@.len(),
                *self == *old(self),
                all == self@.notebooks,
                texts(kept@) == notebooks_outside(all.take(index as int), relative@),
            decreases self.notebooks@.len() - index,
        {
            proof {
                let next = all.take(index + 1);
                assert(next.drop_last() =~= all.take(index as int));
                assert(next.last() == self.notebooks@[index as int]@);
            }
            if !is_under(&self.notebooks[index], relative) {
                let ghost done = kept@;
                let notebook = copy_text(&self.notebooks[index]);
                kept.push(notebook);
                proof {
                    lemma_texts_push(done, notebook);
                }
            }
            index += 1;
        }
        self.notebooks = kept;
        proof {
            assert(all.take(index as int) == all);
            if old(self)@.has_inbox() {
                lemma_inbox_is_not_under(relative@);
                lemma_outside_keeps(all, relative@, DEFAULT_NOTEBOOK@);
            }
            assert(self@ =~= ManifestView {
                notebooks: notebooks_outside(old(self)@.notebooks, relative@),
                ..old(self)@
            });
        }
        Ok(())
    }
}

/// The notebook that every vault has lies in no other that can be renamed or deleted.
proof fn lemma_inbox_is_not_under(top: Seq<char>)
    requires
        !is_reserved(top),
    ensures
        !lies_under(DEFAULT_NOTEBOOK@, top),
{
    reveal_strlit("Inbox");
    if stands_at(DEFAULT_NOTEBOOK@, top + seq!['/'], 0) {
        assert(DEFAULT_NOTEBOOK@.subrange(0, (top.len() + 1) as int)[top.len() as int] == '/');
        assert(DEFAULT_NOTEBOOK@[top.len() as int] == '/');
    }
}

proof fn lemma_outside_keeps(notebooks: Seq<Seq<char>>, top: Seq<char>, kept: Seq<char>)
    requires
        notebooks.contains(kept),
        !lies_under(kept, top),
    ensures
        notebooks_outside(notebooks, top).contains(kept),
    decreases notebooks.len(),
{
    let k = choose|k: int| 0 <= k < notebooks.len() && notebooks[k] == kept;
    let before = notebooks_outside(notebooks.drop_last(), top);
    let all = notebooks_outside(notebooks, top);
    if k == notebooks.len() - 1 {
        assert(all[all.len() - 1] == kept);
    } else {
        assert(notebooks.drop_last()[k] == kept);
        lemma_outside_keeps(notebooks.drop_last(), top, kept);
        let m = choose|m: int| 0 <= m < before.len() && before[m] == kept;
        assert(all[m] == kept);
    }
}

/// What lay in a notebook or within it lies in or within it under its new name,
/// and nothing else moves. No note changes its file name or its object.
pub proof fn law_renaming_moves_what_lies_within(
    notes: Seq<NoteView>,
    from: Seq<char>,
    to: Seq<char>,
    at: int,
)
    requires
        0 <= at < notes.len(),
    ensures
        ({
            let after = notes_renamed(notes, from, to)[at];
            &&& lies_under(notes[at].notebook, from) ==> lies_under(after.notebook, to)
            &&& !lies_under(notes[at].notebook, from) ==> after == notes[at]
            &&& after.filename == notes[at].filename
            &&& after.object_id == notes[at].object_id
            &&& after.object_uuid == notes[at].object_uuid
            &&& after.snote == notes[at].snote
        }),
{
    let notebook = notes[at].notebook;
    if lies_under(notebook, from) {
        lemma_follow_rename(notebook, from, to);
    }
}

proof fn lemma_follow_rename(notebook: Seq<char>, from: Seq<char>, to: Seq<char>)
    requires
        lies_under(notebook, from),
    ensures
        lies_under(follow_rename(notebook, from, to), to),
        follow_rename(follow_rename(notebook, from, to), to, from) == notebook,
{
    let rest = notebook.skip(from.len() as int);
    let after = to + rest;
    if notebook == from {
        assert(after =~= to);
        assert(to.skip(to.len() as int) =~= seq![]);
        assert(from + seq![] =~= from);
    } else {
        let marked = from + seq!['/'];
        assert(notebook.subrange(0, marked.len() as int) == marked);
        assert(notebook.subrange(0, marked.len() as int)[from.len() as int] == '/');
        assert(after.subrange(0, (to + seq!['/']).len() as int) =~= to + seq!['/']);
        assert(after.skip(to.len() as int) =~= rest);
        assert(from + rest =~= notebook) by {
            assert forall|i: int| 0 <= i < from.len() implies notebook[i] == from[i] by {
                assert(notebook.subrange(0, marked.len() as int)[i] == marked[i]);
            }
        }
    }
}

/// Renaming a notebook and then giving it its old name back restores every
/// path, where nothing lay under the new name before.
pub proof fn law_renaming_back_restores(
    manifest: ManifestView,
    from: Seq<char>,
    to: Seq<char>,
)
    requires
        forall|i: int|
            0 <= i < manifest.notebooks.len() ==> !lies_under(
                #[trigger] manifest.notebooks[i],
                to,
            ),
        forall|i: int|
            0 <= i < manifest.notes.len() ==> !lies_under(
                (#[trigger] manifest.notes[i]).notebook,
                to,
            ),
    ensures
        notebooks_renamed(notebooks_renamed(manifest.notebooks, from, to), to, from)
            == manifest.notebooks,
        notes_renamed(notes_renamed(manifest.notes, from, to), to, from) == manifest.notes,
{
    let notebooks = notebooks_renamed(manifest.notebooks, from, to);
    let notes = notes_renamed(manifest.notes, from, to);
    assert forall|i: int| 0 <= i < notebooks.len() implies #[trigger] notebooks_renamed(
        notebooks,
        to,
        from,
    )[i] == manifest.notebooks[i] by {
        if lies_under(manifest.notebooks[i], from) {
            lemma_follow_rename(manifest.notebooks[i], from, to);
        }
    }
    assert(notebooks_renamed(notebooks, to, from) =~= manifest.notebooks);
    assert forall|i: int| 0 <= i < notes.len() implies #[trigger] notes_renamed(notes, to, from)[i]
        == manifest.notes[i] by {
        if lies_under(manifest.notes[i].notebook, from) {
            lemma_follow_rename(manifest.notes[i].notebook, from, to);
        }
    }
    assert(notes_renamed(notes, to, from) =~= manifest.notes);
}

impl Manifest {
    /// The use of the vault.
    pub fn set_session_state(&mut self, session: VaultSessionState)
        ensures
            final(self)@ == (ManifestView { session: session@, ..old(self)@ }),
    {
        self.session = session;
    }

    /// This manifest once more.
    pub fn copy(&self) -> (copy: Manifest)
        ensures
            copy@ == self@,
    {
        let mut notes: Vec<NoteRecord> = Vec::new();
        let mut index: usize = 0;
        while index < self.notes.len()
            invariant
                index <= self.notes@.len(),
                notes_shown(notes@) == notes_shown(self.notes@).take(index as int),
            decreases self.notes@.len() - index,
        {
            let ghost done = notes@;
            let record = self.notes[index].copy();
            notes.push(record);
            proof {
                assert(notes_shown(notes@) =~= notes_shown(done).push(record.shown()));
                assert(notes_shown(notes@) =~= notes_shown(self.notes@).take(index + 1));
            }
            index += 1;
        }
        let mut trash: Vec<TrashRecord> = Vec::new();
        let mut index: usize = 0;
        while index < self.trash.len()
            invariant
                index <= self.trash@.len(),
                trash_shown(trash@) == trash_shown(self.trash@).take(index as int),
            decreases self.trash@.len() - index,
        {
            let ghost done = trash@;
            let found = &self.trash[index];
            let record = TrashRecord {
                object_id: copy_text(&found.object_id),
                object_uuid: found.object_uuid,
                note_id: found.note_id,
                original_relative_path: copy_text(&found.original_relative_path),
                trashed_at: found.trashed_at,
                snote: found.snote,
                title: copy_text(&found.title),
            };
            trash.push(record);
            proof {
                assert(record.shown() == found.shown());
                assert(trash_shown(trash@) =~= trash_shown(done).push(record.shown()));
                assert(trash_shown(trash@) =~= trash_shown(self.trash@).take(index + 1));
            }
            index += 1;
        }
        let mut recovery: Vec<RecoveryRecord> = Vec::new();
        let mut index: usize = 0;
        while index < self.recovery.len()
            invariant
                index <= self.recovery@.len(),
                recovery_shown(recovery@) == recovery_shown(self.recovery@).take(index as int),
            decreases self.recovery@.len() - index,
        {
            let ghost done = recovery@;
            let found = &self.recovery[index];
            let record = RecoveryRecord {
                object_id: copy_text(&found.object_id),
                object_uuid: found.object_uuid,
                note_id: found.note_id,
            };
            recovery.push(record);
            proof {
                assert(record.shown() == found.shown());
                assert(recovery_shown(recovery@) =~= recovery_shown(done).push(record.shown()));
                assert(recovery_shown(recovery@) =~= recovery_shown(self.recovery@).take(
                    index + 1,
                ));
            }
            index += 1;
        }
        let mut attachments: Vec<AttachmentRecord> = Vec::new();
        let mut index: usize = 0;
        while index < self.attachments.len()
            invariant
                index <= self.attachments@.len(),
                attachments_shown(attachments@) == attachments_shown(self.attachments@).take(
                    index as int,
                ),
            decreases self.attachments@.len() - index,
        {
            let ghost done = attachments@;
            let found = &self.attachments[index];
            let record = AttachmentRecord {
                object_id: copy_text(&found.object_id),
                object_uuid: found.object_uuid,
                note_id: found.note_id,
                logical_name: copy_text(&found.logical_name),
            };
            attachments.push(record);
            proof {
                assert(record.shown() == found.shown());
                assert(attachments_shown(attachments@) =~= attachments_shown(done).push(
                    record.shown(),
                ));
                assert(attachments_shown(attachments@) =~= attachments_shown(
                    self.attachments@,
                ).take(index + 1));
            }
            index += 1;
        }
        let copy = Manifest {
            schema: self.schema,
            created_at: self.created_at,
            notebooks: copy_texts(&self.notebooks),
            notes,
            trash,
            recovery,
            attachments,
            session: self.session.copy(),
        };
        proof {
            assert(copy@ =~= self@);
        }
        copy
    }
}

} // verus!
