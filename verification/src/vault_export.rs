//! Export of an encrypted vault: a new ordinary vault with copies of all notes
//! in the clear. The source is only read.
//!
//! The new vault is built in a directory of its own beside the destination and
//! becomes the destination by one rename, once it is complete. What is decided
//! on the way is decided here.

use vstd::prelude::*;

use crate::crypto::primitives::{random_bytes, SecretBytes};
use crate::crypto::vault::{object_in, ObjectType, VaultKeys};
use crate::error::{Error, Result};
use crate::ident::{hex_digits, push_hex, Uuid};
use crate::bytes::{be_value, read_be};
use crate::paths::{
    file_name, file_name_of, join_path, joined, paths_equal, path_starts_with, same_path,
    starts_with_path,
};
use crate::storage::{has_parent, stands_in_directory};
use crate::text::{copy_text, decimal, lemma_texts_push, push_decimal, texts};
use crate::vault::{parent_of, parent_path};
use crate::vault_encrypted::manifest::{Manifest, ManifestView, NoteView, TrashView};
use crate::vault_encrypted::store::{is_object_error, object_path, store_blob_path};

verus! {

/// What the name of the directory starts with in which a vault is built.
pub const TEMP_PREFIX: &'static str = ".senatorial-export-";

/// What the name of that directory ends with.
pub const TEMP_SUFFIX: &'static str = ".tmp";

// Progress.

/// How far an export is, and whether it is to stop.
#[derive(Debug, PartialEq, Eq)]
pub struct ExportProgress {
    done: usize,
    total: usize,
    cancelled: bool,
}

impl ExportProgress {
    pub closed spec fn spec_done(&self) -> usize {
        self.done
    }

    pub closed spec fn spec_total(&self) -> usize {
        self.total
    }

    pub closed spec fn spec_cancelled(&self) -> bool {
        self.cancelled
    }

    pub fn new() -> (progress: ExportProgress)
        ensures
            progress.spec_done() == 0,
            progress.spec_total() == 0,
            !progress.spec_cancelled(),
    {
        ExportProgress { done: 0, total: 0, cancelled: false }
    }

    /// How many objects have been copied.
    pub fn done(&self) -> (done: usize)
        ensures
            done == self.spec_done(),
    {
        self.done
    }

    /// How many objects there are to copy. None until the manifest has been read.
    pub fn total(&self) -> (total: usize)
        ensures
            total == self.spec_total(),
    {
        self.total
    }

    /// Asks for a stop at the next object.
    pub fn request_cancel(&mut self)
        ensures
            final(self).spec_cancelled(),
            final(self).spec_done() == old(self).spec_done(),
            final(self).spec_total() == old(self).spec_total(),
    {
        self.cancelled = true;
    }

    /// Whether a stop was asked for.
    pub fn is_cancelled(&self) -> (cancelled: bool)
        ensures
            cancelled == self.spec_cancelled(),
    {
        self.cancelled
    }

    pub fn set_total(&mut self, total: usize)
        ensures
            final(self).spec_total() == total,
            final(self).spec_done() == old(self).spec_done(),
            final(self).spec_cancelled() == old(self).spec_cancelled(),
    {
        self.total = total;
    }

    /// Counts one object as copied.
    pub fn tick(&mut self)
        ensures
            final(self).spec_done() == old(self).spec_done().wrapping_add(1),
            final(self).spec_total() == old(self).spec_total(),
            final(self).spec_cancelled() == old(self).spec_cancelled(),
    {
        self.done = self.done.wrapping_add(1);
    }

    /// Stops the export where a stop was asked for.
    pub fn cancel_point(&self) -> (outcome: Result<()>)
        ensures
            outcome is Ok <==> !self.spec_cancelled(),
            outcome matches Err(error) ==> error is ExportCancelled,
    {
        if self.cancelled {
            Err(Error::ExportCancelled)
        } else {
            Ok(())
        }
    }
}

impl Default for ExportProgress {
    fn default() -> (progress: ExportProgress)
        ensures
            progress.spec_done() == 0,
            progress.spec_total() == 0,
            !progress.spec_cancelled(),
    {
        ExportProgress::new()
    }
}

// The destination.

/// What was found out of the place that an export is to go to.
#[derive(Debug, PartialEq, Eq)]
pub struct DestinationFacts {
    /// The source with all links resolved.
    pub source_resolved: String,
    /// The destination with all links resolved, as far as it exists.
    pub destination_resolved: String,
    pub exists: bool,
    /// Whether something is in it.
    pub has_entries: bool,
    /// Whether the directory that it stands in exists.
    pub parent_is_dir: bool,
    /// Whether a vault or files of notes are in it.
    pub holds_vault: bool,
}

/// The directory that the destination stands in.
pub open spec fn destination_parent(destination: Seq<char>) -> Seq<char> {
    if has_parent(destination) {
        parent_path(destination)
    } else {
        "."@
    }
}

/// What speaks against a destination.
pub open spec fn destination_fault(destination: Seq<char>, facts: DestinationFacts) -> Option<
    Seq<char>,
> {
    let source = facts.source_resolved@;
    let resolved = facts.destination_resolved@;
    if destination.len() == 0 {
        Some("no destination folder was chosen"@)
    } else if same_path(resolved, source) {
        Some("the destination is the Secure Vault itself"@)
    } else if path_starts_with(resolved, source) {
        Some("the destination is inside the Secure Vault"@)
    } else if path_starts_with(source, resolved) {
        Some("the Secure Vault is inside the destination"@)
    } else if facts.exists && facts.has_entries {
        Some(destination + " already exists and is not empty"@)
    } else if !facts.exists && !facts.parent_is_dir {
        Some(destination_parent(destination) + " is not an existing folder"@)
    } else if facts.holds_vault {
        Some(destination + " already contains a vault or note files"@)
    } else {
        None
    }
}

fn invalid_target(message: String) -> (outcome: Result<()>)
    ensures
        outcome == Err::<(), Error>(Error::ExportTargetInvalid(message)),
{
    Err(Error::ExportTargetInvalid(message))
}

fn parent_of_destination(destination: &str) -> (parent: String)
    ensures
        parent@ == destination_parent(destination@),
{
    if stands_in_directory(destination) {
        parent_of(destination)
    } else {
        ".".to_owned()
    }
}

/// Refuses a destination that could harm the source or anything else.
pub fn validate_destination(destination: &str, facts: &DestinationFacts) -> (outcome: Result<()>)
    ensures
        match destination_fault(destination@, *facts) {
            None => outcome is Ok,
            Some(text) => outcome matches Err(Error::ExportTargetInvalid(message)) && message@
                == text,
        },
{
    if destination.is_empty() {
        return invalid_target("no destination folder was chosen".to_owned());
    }
    if paths_equal(&facts.destination_resolved, &facts.source_resolved) {
        return invalid_target("the destination is the Secure Vault itself".to_owned());
    }
    if starts_with_path(&facts.destination_resolved, &facts.source_resolved) {
        return invalid_target("the destination is inside the Secure Vault".to_owned());
    }
    if starts_with_path(&facts.source_resolved, &facts.destination_resolved) {
        return invalid_target("the Secure Vault is inside the destination".to_owned());
    }
    if facts.exists {
        if facts.has_entries {
            let mut message: String = destination.to_owned();
            message.append(" already exists and is not empty");
            return invalid_target(message);
        }
    } else if !facts.parent_is_dir {
        let mut message = parent_of_destination(destination);
        message.append(" is not an existing folder");
        return invalid_target(message);
    }
    if facts.holds_vault {
        let mut message: String = destination.to_owned();
        message.append(" already contains a vault or note files");
        return invalid_target(message);
    }
    Ok(())
}

/// A destination that is accepted and the source lie apart: neither is the
/// other or lies within it. What is there already is empty.
pub proof fn law_accepted_destination_is_apart(destination: Seq<char>, facts: DestinationFacts)
    requires
        destination_fault(destination, facts) is None,
    ensures
        !path_starts_with(facts.destination_resolved@, facts.source_resolved@),
        !path_starts_with(facts.source_resolved@, facts.destination_resolved@),
        facts.exists ==> !facts.has_entries,
        !facts.holds_vault,
{
}

/// One step to the part of a path that exists: the directory that it stands in
/// and its last name, which does not exist. None where there is no more.
pub fn step_to_existing(path: &str) -> (step: Option<(String, String)>)
    ensures
        match step {
            Some((parent, name)) => {
                &&& file_name(path@) == Some(name@)
                &&& parent@ == parent_path(path@)
            },
            None => file_name(path@) is None,
        },
{
    match file_name_of(path) {
        Some(name) => Some((parent_of(path), name)),
        None => None,
    }
}

/// A path with names behind it, the last of them first.
pub open spec fn path_with(base: Seq<char>, tail: Seq<Seq<char>>) -> Seq<char>
    decreases tail.len(),
{
    if tail.len() == 0 {
        base
    } else {
        path_with(joined(base, tail.last()), tail.drop_last())
    }
}

/// The resolved path of something whose front part exists. `tail` holds the
/// names behind that part, the last of them first.
pub fn resolve_partial(existing: &str, tail: &[String]) -> (resolved: String)
    ensures
        resolved@ == path_with(existing@, texts(tail@)),
{
    let ghost all = texts(tail@);
    let mut resolved: String = existing.to_owned();
    let mut left: usize = tail.len();
    proof {
        assert(all.take(left as int) == all);
    }
    while left > 0
        invariant
            left <= tail@.len(),
            all == texts(tail@),
            path_with(resolved@, all.take(left as int)) == path_with(existing@, all),
        decreases left,
    {
        proof {
            assert(all.take(left as int).last() == tail@[left - 1]@);
            assert(all.take(left as int).drop_last() =~= all.take(left - 1));
        }
        left -= 1;
        resolved = join_path(&resolved, &tail[left]);
    }
    resolved
}

/// The name of the directory that a vault is built in.
pub open spec fn temp_name(token: Seq<char>) -> Seq<char> {
    TEMP_PREFIX@ + token + TEMP_SUFFIX@
}

/// The directory that the destination stands in.
pub open spec fn temp_base(destination: Seq<char>) -> Seq<char> {
    if parent_path(destination).len() == 0 {
        "."@
    } else {
        destination_parent(destination)
    }
}

/// The directory beside the destination whose name has the digits of eight bytes.
pub fn temp_path(destination: &str, bytes: &[u8]) -> (path: String)
    requires
        bytes@.len() == 8,
    ensures
        path@ == joined(
            temp_base(destination@),
            temp_name(hex_digits(be_value(bytes@), 16)),
        ),
{
    let value: u128 = read_be(bytes, 0, 8);
    let mut name: String = TEMP_PREFIX.to_owned();
    push_hex(&mut name, value, 16);
    name.append(TEMP_SUFFIX);
    let parent = parent_of(destination);
    let base: String = if parent.as_str().is_empty() {
        ".".to_owned()
    } else {
        parent_of_destination(destination)
    };
    proof {
        assert(bytes@.subrange(0, 8) == bytes@);
        assert(name@ == temp_name(hex_digits(value as nat, 16)));
    }
    join_path(&base, &name)
}

/// A directory beside the destination to build the vault in. Its name is random.
pub fn temp_candidate(destination: &str) -> (outcome: Result<String>)
    ensures
        match outcome {
            Ok(path) => exists|bytes: Seq<u8>|
                bytes.len() == 8 && path@ == joined(
                    temp_base(destination@),
                    temp_name(hex_digits(#[trigger] be_value(bytes), 16)),
                ),
            Err(error) => error is Encryption,
        },
{
    match random_bytes(8) {
        Ok(bytes) => {
            let path = temp_path(destination, &bytes);
            proof {
                assert(path@ == joined(
                    temp_base(destination@),
                    temp_name(hex_digits(be_value(bytes@), 16)),
                ));
            }
            Ok(path)
        },
        Err(failure) => Err(Error::Encryption(failure.to_string())),
    }
}

/// How often a name for the directory is tried.
pub const TEMP_TRIES: usize = 50;

/// What follows from a name that was tried for the directory.
#[derive(Debug, PartialEq, Eq)]
pub enum TempStep {
    Take,
    TryAgain,
    Fail(Error),
}

/// Decides what follows from a name for the directory. `tried` counts the names
/// so far, this one among them; `taken` tells whether something stands there.
pub fn temp_step(tried: usize, taken: bool) -> (step: TempStep)
    ensures
        match step {
            TempStep::Take => !taken,
            TempStep::TryAgain => taken && tried < TEMP_TRIES,
            TempStep::Fail(error) => {
                &&& taken && tried >= TEMP_TRIES
                &&& error matches Error::ExportTargetInvalid(message) && message@
                    == "could not create a temporary export directory"@
            },
        },
{
    if !taken {
        TempStep::Take
    } else if tried < TEMP_TRIES {
        TempStep::TryAgain
    } else {
        TempStep::Fail(
            Error::ExportTargetInvalid("could not create a temporary export directory".to_owned()),
        )
    }
}

// What is copied.

/// What comes of counting the objects that an export copies: it carries over no
/// attachments, so a vault with any is refused.
pub open spec fn is_copy_count(manifest: ManifestView, outcome: Result<usize>) -> bool {
    match outcome {
        Ok(total) => {
            &&& manifest.attachments.len() == 0
            &&& total == manifest.notes.len() + manifest.trash.len()
        },
        Err(error) => {
            &&& manifest.attachments.len() > 0
            &&& error matches Error::ExportUnsupportedContent { attachments }
            &&& attachments == manifest.attachments.len()
        },
    }
}

/// The number of objects to copy. A vault with attachments is refused before
/// anything is written: an ordinary vault has no place for them.
pub fn objects_to_copy(manifest: &Manifest) -> (outcome: Result<usize>)
    requires
        manifest@.notes.len() + manifest@.trash.len() <= usize::MAX,
    ensures
        is_copy_count(manifest@, outcome),
{
    if manifest.attachments.len() > 0 {
        return Err(
            Error::ExportUnsupportedContent { attachments: manifest.attachments.len() },
        );
    }
    Ok(manifest.notes.len() + manifest.trash.len())
}

/// The notebooks with a name.
pub open spec fn named(notebooks: Seq<Seq<char>>) -> Seq<Seq<char>>
    decreases notebooks.len(),
{
    if notebooks.len() == 0 {
        seq![]
    } else {
        let before = named(notebooks.drop_last());
        if notebooks.last().len() == 0 {
            before
        } else {
            before.push(notebooks.last())
        }
    }
}

/// The notebooks that the new vault gets, empty ones among them.
pub fn notebooks_to_create(manifest: &Manifest) -> (notebooks: Vec<String>)
    ensures
        texts(notebooks@) == named(manifest@.notebooks),
{
    let ghost all = manifest@.notebooks;
    let mut notebooks: Vec<String> = Vec::new();
    let mut index: usize = 0;
    proof {
        assert(texts(notebooks@) =~= named(all.take(0)));
    }
    while index < manifest.notebooks.len()
        invariant
            index <= manifest.notebooks@.len(),
            all == manifest@.notebooks,
            texts(notebooks@) == named(all.take(index as int)),
        decreases manifest.notebooks@.len() - index,
    {
        proof {
            let next = all.take(index + 1);
            assert(next.drop_last() =~= all.take(index as int));
            assert(next.last() == manifest.notebooks@[index as int]@);
        }
        if !manifest.notebooks[index].as_str().is_empty() {
            let ghost done = notebooks@;
            let notebook = copy_text(&manifest.notebooks[index]);
            notebooks.push(notebook);
            proof {
                lemma_texts_push(done, notebook);
            }
        }
        index += 1;
    }
    proof {
        assert(all.take(index as int) == all);
    }
    notebooks
}

/// One object to copy: where it is read and where what it holds is written.
#[derive(Debug, PartialEq, Eq)]
pub struct ObjectCopy {
    pub source: String,
    pub object_type: ObjectType,
    pub object_uuid: Uuid,
    pub target: String,
}

/// The type of the object of a note.
pub open spec fn type_of(snote: bool) -> ObjectType {
    if snote {
        ObjectType::InnerSnote
    } else {
        ObjectType::Note
    }
}

fn object_type_of(snote: bool) -> (object_type: ObjectType)
    ensures
        object_type == type_of(snote),
{
    if snote {
        ObjectType::InnerSnote
    } else {
        ObjectType::Note
    }
}

/// Whether this copies a note to its place below the notes of the new vault.
pub open spec fn copies_note(
    copy: ObjectCopy,
    state_dir: Seq<char>,
    temp: Seq<char>,
    note: NoteView,
) -> bool {
    &&& copy.source@ == object_path(state_dir, note.object_id)
    &&& copy.object_type == type_of(note.snote)
    &&& copy.object_uuid == note.object_uuid
    &&& copy.target@ == joined(joined(temp, "Notes"@), joined(note.notebook, note.filename))
}

/// The file of a note in the trash of an ordinary vault.
pub open spec fn trash_target(temp: Seq<char>, record: TrashView) -> Seq<char> {
    joined(
        joined(temp, "Trash"@),
        record.note_id.spec_hyphenated() + (if record.snote {
            ".snote"@
        } else {
            ".md"@
        }),
    )
}

/// Whether this copies a note of the trash to the trash of the new vault.
pub open spec fn copies_trash(
    copy: ObjectCopy,
    state_dir: Seq<char>,
    temp: Seq<char>,
    record: TrashView,
) -> bool {
    &&& copy.source@ == object_path(state_dir, record.object_id)
    &&& copy.object_type == type_of(record.snote)
    &&& copy.object_uuid == record.object_uuid
    &&& copy.target@ == trash_target(temp, record)
}

/// Whether these copy the notes, one by one.
pub open spec fn copies_notes(
    copies: Seq<ObjectCopy>,
    state_dir: Seq<char>,
    temp: Seq<char>,
    notes: Seq<NoteView>,
) -> bool {
    &&& copies.len() == notes.len()
    &&& forall|i: int|
        0 <= i < copies.len() ==> copies_note(#[trigger] copies[i], state_dir, temp, notes[i])
}

/// The copies of all notes, in order.
pub fn note_copies(manifest: &Manifest, state_dir: &str, temp: &str) -> (copies: Vec<ObjectCopy>)
    ensures
        copies_notes(copies@, state_dir@, temp@, manifest@.notes),
{
    let mut copies: Vec<ObjectCopy> = Vec::new();
    let mut index: usize = 0;
    while index < manifest.notes.len()
        invariant
            index <= manifest.notes@.len(),
            copies@.len() == index,
            forall|i: int|
                0 <= i < index ==> copies_note(
                    #[trigger] copies@[i],
                    state_dir@,
                    temp@,
                    manifest@.notes[i],
                ),
        decreases manifest.notes@.len() - index,
    {
        proof {
            assert(manifest@.notes[index as int] == manifest.notes@[index as int].shown());
        }
        let record = &manifest.notes[index];
        copies.push(
            ObjectCopy {
                source: store_blob_path(state_dir, &record.object_id),
                object_type: object_type_of(record.snote),
                object_uuid: record.object_uuid,
                target: join_path(&join_path(temp, "Notes"), &record.relative_path()),
            },
        );
        index += 1;
    }
    copies
}

/// Whether these copy the notes of the trash, one by one.
pub open spec fn copies_all_trash(
    copies: Seq<ObjectCopy>,
    state_dir: Seq<char>,
    temp: Seq<char>,
    trash: Seq<TrashView>,
) -> bool {
    &&& copies.len() == trash.len()
    &&& forall|i: int|
        0 <= i < copies.len() ==> copies_trash(#[trigger] copies[i], state_dir, temp, trash[i])
}

/// The copies of all notes of the trash, in order.
pub fn trash_copies(manifest: &Manifest, state_dir: &str, temp: &str) -> (copies: Vec<ObjectCopy>)
    ensures
        copies_all_trash(copies@, state_dir@, temp@, manifest@.trash),
{
    let mut copies: Vec<ObjectCopy> = Vec::new();
    let mut index: usize = 0;
    while index < manifest.trash.len()
        invariant
            index <= manifest.trash@.len(),
            copies@.len() == index,
            forall|i: int|
                0 <= i < index ==> copies_trash(
                    #[trigger] copies@[i],
                    state_dir@,
                    temp@,
                    manifest@.trash[i],
                ),
        decreases manifest.trash@.len() - index,
    {
        proof {
            assert(manifest@.trash[index as int] == manifest.trash@[index as int].shown());
        }
        let record = &manifest.trash[index];
        let mut name = record.note_id.hyphenated();
        if record.snote {
            name.append(".snote");
        } else {
            name.append(".md");
        }
        copies.push(
            ObjectCopy {
                source: store_blob_path(state_dir, &record.object_id),
                object_type: object_type_of(record.snote),
                object_uuid: record.object_uuid,
                target: join_path(&join_path(temp, "Trash"), &name),
            },
        );
        index += 1;
    }
    copies
}

/// What is written for an object: what it holds, byte for byte. Of a note with
/// a password of its own that is its container, which that password still opens.
pub fn copied_bytes(keys: &VaultKeys, copy: &ObjectCopy, blob: &[u8]) -> (outcome: Result<
    SecretBytes,
>)
    requires
        keys@.valid(),
    ensures
        match object_in(keys@, copy.object_type, copy.object_uuid, blob@) {
            Some((bytes, _)) => outcome matches Ok(plaintext) && plaintext@ == bytes,
            None => outcome matches Err(error) && is_object_error(
                keys@,
                copy.object_type,
                copy.object_uuid,
                blob@,
                error,
            ),
        },
{
    match keys.open(copy.object_type, copy.object_uuid, blob) {
        Ok((plaintext, _)) => Ok(plaintext),
        Err(error) => Err(error),
    }
}

// The end of an export.

/// What a finished export made.
#[derive(Debug, PartialEq, Eq)]
pub struct ExportReport {
    pub destination: String,
    /// Notes in the clear.
    pub notes: usize,
    /// Notes with a password of their own.
    pub snotes: usize,
    /// Notebooks, empty ones among them.
    pub notebooks: usize,
    /// Notes in the trash.
    pub trashed: usize,
}

/// How many of the notes have a password of their own.
pub open spec fn snotes_among(notes: Seq<NoteView>) -> nat
    decreases notes.len(),
{
    if notes.len() == 0 {
        0
    } else {
        snotes_among(notes.drop_last()) + (if notes.last().snote {
            1nat
        } else {
            0nat
        })
    }
}

/// Whether this reports what an export carried over.
pub open spec fn is_report(
    manifest: ManifestView,
    destination: Seq<char>,
    report: ExportReport,
) -> bool {
    &&& report.destination@ == destination
    &&& report.snotes == snotes_among(manifest.notes)
    &&& report.notes + report.snotes == manifest.notes.len()
    &&& report.notebooks == named(manifest.notebooks).len()
    &&& report.trashed == manifest.trash.len()
}

/// What the export of a vault makes.
pub fn report(manifest: &Manifest, destination: &str) -> (report: ExportReport)
    ensures
        is_report(manifest@, destination@, report),
{
    let ghost all = manifest@.notes;
    let mut snotes: usize = 0;
    let mut index: usize = 0;
    while index < manifest.notes.len()
        invariant
            index <= manifest.notes@.len(),
            all == manifest@.notes,
            snotes <= index,
            snotes == snotes_among(all.take(index as int)),
        decreases manifest.notes@.len() - index,
    {
        proof {
            let next = all.take(index + 1);
            assert(next.drop_last() =~= all.take(index as int));
            assert(next.last() == manifest.notes@[index as int].shown());
        }
        if manifest.notes[index].snote {
            snotes += 1;
        }
        index += 1;
    }
    proof {
        assert(all.take(index as int) == all);
    }
    let notebooks = notebooks_to_create(manifest);
    proof {
        assert(texts(notebooks@).len() == notebooks@.len());
    }
    ExportReport {
        destination: destination.to_owned(),
        notes: manifest.notes.len() - snotes,
        snotes,
        notebooks: notebooks.len(),
        trashed: manifest.trash.len(),
    }
}

/// The text for a vault that holds another number of things than its source.
pub open spec fn count_text(found: nat, what: Seq<char>, wanted: nat) -> Seq<char> {
    "built vault holds "@ + decimal(found) + what + " but the source has "@ + decimal(wanted)
}

fn count_error(found: usize, what: &str, wanted: usize) -> (error: Error)
    ensures
        error matches Error::ExportFailed(message) && message@ == count_text(
            found as nat,
            what@,
            wanted as nat,
        ),
{
    let mut message: String = "built vault holds ".to_owned();
    push_decimal(&mut message, found as u64);
    message.append(what);
    message.append(" but the source has ");
    push_decimal(&mut message, wanted as u64);
    Error::ExportFailed(message)
}

/// What comes of comparing the vault that was built with its source.
pub open spec fn is_built_check(
    manifest: ManifestView,
    scanned: usize,
    scanned_trash: usize,
    outcome: Result<()>,
) -> bool {
    if scanned != manifest.notes.len() {
        outcome matches Err(Error::ExportFailed(message)) && message@ == count_text(
            scanned as nat,
            " notes"@,
            manifest.notes.len(),
        )
    } else if scanned_trash != manifest.trash.len() {
        outcome matches Err(Error::ExportFailed(message)) && message@ == count_text(
            scanned_trash as nat,
            " trashed notes"@,
            manifest.trash.len(),
        )
    } else {
        outcome is Ok
    }
}

/// Refuses a built vault that does not hold as many notes as its source.
pub fn check_built(manifest: &Manifest, scanned: usize, scanned_trash: usize) -> (outcome: Result<
    (),
>)
    ensures
        is_built_check(manifest@, scanned, scanned_trash, outcome),
{
    if scanned != manifest.notes.len() {
        return Err(count_error(scanned, " notes", manifest.notes.len()));
    }
    if scanned_trash != manifest.trash.len() {
        return Err(count_error(scanned_trash, " trashed notes", manifest.trash.len()));
    }
    Ok(())
}

/// The error for a rename that failed because the destination is on another
/// filesystem.
pub fn other_filesystem(destination: &str) -> (error: Error)
    ensures
        error matches Error::ExportFailed(message) && message@ == "the destination "@ + destination@
            + " is on a different filesystem than its parent, so the export could not be finalized with an atomic move; nothing was written there"@,
{
    let mut message: String = "the destination ".to_owned();
    message.append(destination);
    message.append(
        " is on a different filesystem than its parent, so the export could not be finalized with an atomic move; nothing was written there",
    );
    Error::ExportFailed(message)
}

/// The outcome of an export once what it left behind has been removed, or could
/// not be: then the place of what is left is what matters.
pub fn conclude(outcome: Result<ExportReport>, temp: &str, left_behind: bool) -> (concluded: Result<
    ExportReport,
>)
    ensures
        match outcome {
            Ok(_) => concluded == outcome,
            Err(error) => if left_behind {
                concluded matches Err(Error::ExportCleanupFailed { temp: place }) && place@ == temp@
            } else {
                concluded == outcome
            },
        },
{
    match outcome {
        Ok(report) => Ok(report),
        Err(error) => if left_behind {
            Err(Error::ExportCleanupFailed { temp: temp.to_owned() })
        } else {
            Err(error)
        },
    }
}

} // verus!
