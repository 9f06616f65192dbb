//! A vault whose notes are files: where everything lies, what an operation
//! does to it and when an operation is refused.
//!
//! The functions here decide. They take what was found on disk as plain values
//! and say which files and directories are to be touched.

use vstd::prelude::*;
use vstd::utf8::encode_utf8;

use crate::constants::{DEFAULT_NOTEBOOK, MIN_PASSWORD_LENGTH, VAULT_STATE_DIR};
use crate::crypto::note::{
    container_key, decrypt, encrypt_new, freshly_sealed, header_in, is_encryption_error,
    is_invalid_note, note_fault, note_fault_text, payload_in, OpenedNote,
};
use crate::error::{Error, Result};
use crate::ident::Uuid;
use crate::model::Timestamp;
use crate::paths::{
    components, components_of, encrypted_note_filename, ensure_relative_note_path, extension,
    extension_of, file_name, file_name_of, is_invalid_path, join_path, joined, note_filename,
    paths_equal, same_path, short_id, title_slug, valid_name, valid_note_path, valid_path,
    validate_notebook_name, validate_notebook_path,
};
use crate::text::{
    chars_of, comes_before, copy_text, decimal, lemma_text_order,
    lemma_text_order_transitive, lemma_texts_push, matches_at, push_decimal, same_text,
    string_between, text_before, texts, trim, trimmed,
};

verus! {

/// A vault, by the path of its directory.
#[derive(Debug)]
pub struct Vault {
    root: String,
}

/// What a file was like when it was read or written last.
#[derive(Clone, Copy, Debug, PartialEq, Eq, Structural)]
pub struct FileStamp {
    pub modified: Timestamp,
    pub length: u64,
    /// A hash of the contents.
    pub fingerprint: u64,
}

impl FileStamp {
    /// Whether a file is likely to be unchanged, as far as its time and length
    /// tell. A file that is not there has none.
    pub fn metadata_matches(&self, found: Option<(Timestamp, u64)>) -> (matches: bool)
        ensures
            matches == (found == Some((self.modified, self.length))),
    {
        match found {
            Some((modified, length)) => length == self.length && modified == self.modified,
            None => false,
        }
    }
}

/// A notebook of a vault.
#[derive(Debug, PartialEq, Eq)]
pub struct NotebookEntry {
    /// Below the directory of the vault's notes.
    pub relative_path: String,
    /// Notes right in the notebook, not those of the notebooks within it.
    pub direct_note_count: usize,
}

/// A note in the trash.
#[derive(Debug, PartialEq, Eq)]
pub struct TrashEntry {
    pub id: Uuid,
    pub title: String,
    pub encrypted: bool,
    pub original_relative_path: String,
    pub trashed_at: Timestamp,
}

impl TrashEntry {
    /// Whether two entries show the same.
    pub open spec fn same_as(&self, other: TrashEntry) -> bool {
        &&& self.id == other.id
        &&& self.title@ == other.title@
        &&& self.encrypted == other.encrypted
        &&& self.original_relative_path@ == other.original_relative_path@
        &&& self.trashed_at == other.trashed_at
    }

    /// This entry once more.
    pub fn copy(&self) -> (copy: TrashEntry)
        ensures
            copy.same_as(*self),
    {
        TrashEntry {
            id: self.id,
            title: copy_text(&self.title),
            encrypted: self.encrypted,
            original_relative_path: copy_text(&self.original_relative_path),
            trashed_at: self.trashed_at,
        }
    }
}

/// What stands on disk at a component of a path.
#[derive(Debug, PartialEq, Eq)]
pub enum ComponentState {
    Present,
    Symlink,
    Missing,
    /// It could not be told, for this reason.
    Failed(String),
}

/// A directory below the notes of a vault, with what stands right in it.
#[derive(Debug, PartialEq, Eq)]
pub struct FolderListing {
    /// Empty for the directory of the notes itself.
    pub relative_path: String,
    /// The names of the regular files.
    pub files: Vec<String>,
    /// Whether there are symbolic links or anything else that is neither a
    /// file nor a directory.
    pub has_others: bool,
}

// Where everything lies.

impl Vault {
    /// The path of the vault's directory.
    pub closed spec fn spec_root(&self) -> Seq<char> {
        self.root@
    }

    pub open spec fn spec_notes_dir(&self) -> Seq<char> {
        joined(self.spec_root(), "Notes"@)
    }

    pub open spec fn spec_trash_dir(&self) -> Seq<char> {
        joined(self.spec_root(), "Trash"@)
    }

    pub open spec fn spec_state_dir(&self) -> Seq<char> {
        joined(self.spec_root(), VAULT_STATE_DIR@)
    }

    /// The vault at a path.
    pub fn at(root: &str) -> (vault: Vault)
        ensures
            vault.spec_root() == root@,
    {
        Vault { root: root.to_owned() }
    }

    /// The vault at a path, which must be that of a directory.
    pub fn open(root: &str, is_dir: bool) -> (outcome: Result<Vault>)
        ensures
            match outcome {
                Ok(vault) => is_dir && vault.spec_root() == root@,
                Err(error) => !is_dir && is_invalid_path(error, root@),
            },
    {
        if !is_dir {
            return Err(Error::InvalidPath(root.to_owned()));
        }
        Ok(Vault::at(root))
    }

    pub fn root(&self) -> (root: &str)
        ensures
            root@ == self.spec_root(),
    {
        self.root.as_str()
    }

    pub fn notes_dir(&self) -> (path: String)
        ensures
            path@ == self.spec_notes_dir(),
    {
        join_path(&self.root, "Notes")
    }

    pub fn attachments_dir(&self) -> (path: String)
        ensures
            path@ == joined(self.spec_root(), "Attachments"@),
    {
        join_path(&self.root, "Attachments")
    }

    pub fn trash_dir(&self) -> (path: String)
        ensures
            path@ == self.spec_trash_dir(),
    {
        join_path(&self.root, "Trash")
    }

    pub fn state_dir(&self) -> (path: String)
        ensures
            path@ == self.spec_state_dir(),
    {
        join_path(&self.root, VAULT_STATE_DIR)
    }

    pub fn history_dir(&self) -> (path: String)
        ensures
            path@ == joined(self.spec_state_dir(), "history"@),
    {
        join_path(&self.state_dir(), "history")
    }

    pub fn recovery_dir(&self) -> (path: String)
        ensures
            path@ == joined(self.spec_state_dir(), "recovery"@),
    {
        join_path(&self.state_dir(), "recovery")
    }

    /// The directories that a new vault has, in the order in which they are made.
    pub fn initial_directories(&self) -> (paths: Vec<String>)
        ensures
            texts(paths@) == seq![
                self.spec_root(),
                self.spec_notes_dir(),
                joined(self.spec_notes_dir(), DEFAULT_NOTEBOOK@),
                joined(self.spec_root(), "Attachments"@),
                self.spec_trash_dir(),
                self.spec_state_dir(),
                joined(self.spec_state_dir(), "history"@),
                joined(self.spec_state_dir(), "recovery"@),
            ],
    {
        let mut paths: Vec<String> = Vec::new();
        paths.push(copy_text(&self.root));
        paths.push(self.notes_dir());
        paths.push(join_path(&self.notes_dir(), DEFAULT_NOTEBOOK));
        paths.push(self.attachments_dir());
        paths.push(self.trash_dir());
        paths.push(self.state_dir());
        paths.push(self.history_dir());
        paths.push(self.recovery_dir());
        proof {
            assert(texts(paths@) =~= seq![
                self.spec_root(),
                self.spec_notes_dir(),
                joined(self.spec_notes_dir(), DEFAULT_NOTEBOOK@),
                joined(self.spec_root(), "Attachments"@),
                self.spec_trash_dir(),
                self.spec_state_dir(),
                joined(self.spec_state_dir(), "history"@),
                joined(self.spec_state_dir(), "recovery"@),
            ]);
        }
        paths
    }

    /// The file that keeps an edit of a note that could not be saved.
    pub fn recovery_path(&self, id: Uuid) -> (path: String)
        ensures
            path@ == joined(
                joined(self.spec_state_dir(), "recovery"@),
                id.spec_hyphenated() + ".md"@,
            ),
    {
        let mut name = id.hyphenated();
        name.append(".md");
        join_path(&self.recovery_dir(), &name)
    }

    /// The file that says where a note in the trash came from.
    pub open spec fn spec_trash_record(&self, id: Uuid) -> Seq<char> {
        joined(self.spec_trash_dir(), id.spec_hyphenated() + ".trash.toml"@)
    }

    /// The file of a note in the trash.
    pub open spec fn spec_trashed_note(&self, id: Uuid, encrypted: bool) -> Seq<char> {
        joined(
            self.spec_trash_dir(),
            id.spec_hyphenated() + (if encrypted {
                ".snote"@
            } else {
                ".md"@
            }),
        )
    }

    pub fn trash_record_path(&self, id: Uuid) -> (path: String)
        ensures
            path@ == self.spec_trash_record(id),
    {
        let mut name = id.hyphenated();
        name.append(".trash.toml");
        join_path(&self.trash_dir(), &name)
    }

    pub fn trashed_note_path(&self, id: Uuid, encrypted: bool) -> (path: String)
        ensures
            path@ == self.spec_trashed_note(id, encrypted),
    {
        let mut name = id.hyphenated();
        if encrypted {
            name.append(".snote");
        } else {
            name.append(".md");
        }
        join_path(&self.trash_dir(), &name)
    }
}

// Links.

/// A base with the first `count` components of a path behind it.
pub open spec fn component_path(base: Seq<char>, parts: Seq<Seq<char>>, count: int) -> Seq<char>
    decreases count,
{
    if count <= 0 {
        base
    } else {
        joined(component_path(base, parts, count - 1), parts[count - 1])
    }
}

/// The paths that lead from a base to a path, one for each component.
pub fn component_paths(base: &str, relative: &str) -> (paths: Vec<String>)
    ensures
        texts(paths@) == Seq::new(
            components(relative@).len(),
            |i: int| component_path(base@, components(relative@), i + 1),
        ),
{
    let parts = components_of(relative);
    let ghost all = components(relative@);
    let mut paths: Vec<String> = Vec::new();
    let mut current = copy_text(base);
    let mut index: usize = 0;
    while index < parts.len()
        invariant
            index <= parts@.len(),
            texts(parts@) == all,
            current@ == component_path(base@, all, index as int),
            texts(paths@) == Seq::new(
                index as nat,
                |i: int| component_path(base@, all, i + 1),
            ),
        decreases parts@.len() - index,
    {
        proof {
            assert(all[index as int] == parts@[index as int]@);
        }
        let ghost done = paths@;
        current = join_path(&current, &parts[index]);
        let path = copy_text(&current);
        paths.push(path);
        index += 1;
        proof {
            lemma_texts_push(done, path);
            assert(texts(paths@) =~= Seq::new(
                index as nat,
                |i: int| component_path(base@, all, i + 1),
            ));
        }
    }
    paths
}

/// The first component from `at` on that is not there as it should be.
pub open spec fn first_absent(found: Seq<ComponentState>, at: int) -> int
    decreases found.len() - at,
{
    if at >= found.len() {
        found.len() as int
    } else if found[at] is Present {
        first_absent(found, at + 1)
    } else {
        at
    }
}

/// Whether a path leads to something without following a symbolic link, as far
/// as it exists.
pub open spec fn free_of_links(found: Seq<ComponentState>) -> bool {
    let at = first_absent(found, 0);
    at < found.len() ==> found[at] is Missing
}

/// The directory that is made for a notebook, where its path is valid and free of
/// links.
pub open spec fn notebook_made(
    notes_dir: Seq<char>,
    relative: Seq<char>,
    found: Seq<ComponentState>,
) -> Option<Seq<char>> {
    if valid_path(relative) && free_of_links(found) {
        Some(joined(notes_dir, relative))
    } else {
        None
    }
}

proof fn lemma_nothing_absent(found: Seq<ComponentState>, at: int)
    requires
        0 <= at <= found.len(),
        forall|i: int| 0 <= i < found.len() ==> (#[trigger] found[i]) is Present,
    ensures
        first_absent(found, at) == found.len(),
    decreases found.len() - at,
{
    if at < found.len() {
        assert(found[at] is Present);
        lemma_nothing_absent(found, at + 1);
    }
}

/// Creating a notebook again, now that all of its path is there, gives the same
/// directory, and no part of it is left to make.
pub proof fn law_creating_a_notebook_again(
    notes_dir: Seq<char>,
    relative: Seq<char>,
    found: Seq<ComponentState>,
    later: Seq<ComponentState>,
)
    requires
        notebook_made(notes_dir, relative, found) is Some,
        later.len() == found.len(),
        forall|i: int| 0 <= i < later.len() ==> (#[trigger] later[i]) is Present,
    ensures
        notebook_made(notes_dir, relative, later) == notebook_made(notes_dir, relative, found),
        first_absent(later, 0) == later.len(),
{
    lemma_nothing_absent(later, 0);
}

/// Whether this is the error for a path that is not free of links, or that
/// could not be looked at.
pub open spec fn is_link_error(
    error: Error,
    base: Seq<char>,
    relative: Seq<char>,
    found: Seq<ComponentState>,
) -> bool {
    let at = first_absent(found, 0);
    let path = component_path(base, components(relative), at + 1);
    match found[at] {
        ComponentState::Symlink => is_invalid_path(
            error,
            "symbolic links are not allowed in vault paths: "@ + path,
        ),
        ComponentState::Failed(reason) => error matches Error::Io { path: at_path, source }
            && at_path@ == path && source@ == reason@,
        _ => false,
    }
}

/// Refuses a path that leads over a symbolic link. `found` says what stands at
/// each of its components.
pub fn reject_symlink_components(base: &str, relative: &str, found: &[ComponentState]) -> (outcome:
    Result<()>)
    requires
        found@.len() == components(relative@).len(),
    ensures
        match outcome {
            Ok(_) => free_of_links(found@),
            Err(error) => !free_of_links(found@) && is_link_error(
                error,
                base@,
                relative@,
                found@,
            ),
        },
{
    let paths = component_paths(base, relative);
    let mut index: usize = 0;
    proof {
        assert(texts(paths@).len() == found@.len());
    }
    while index < found.len()
        invariant
            index <= found@.len(),
            found@.len() == components(relative@).len(),
            paths@.len() == found@.len(),
            first_absent(found@, index as int) == first_absent(found@, 0),
            texts(paths@) == Seq::new(
                components(relative@).len(),
                |i: int| component_path(base@, components(relative@), i + 1),
            ),
        decreases found@.len() - index,
    {
        proof {
            assert(texts(paths@)[index as int] == paths@[index as int]@);
        }
        match &found[index] {
            ComponentState::Present => {},
            ComponentState::Symlink => {
                let mut message: String = "symbolic links are not allowed in vault paths: ".to_owned();
                message.append(&paths[index]);
                return Err(Error::InvalidPath(message));
            },
            ComponentState::Missing => {
                return Ok(());
            },
            ComponentState::Failed(reason) => {
                return Err(
                    Error::Io { path: copy_text(&paths[index]), source: copy_text(reason) },
                );
            },
        }
        index += 1;
    }
    Ok(())
}

impl Vault {
    /// The file of a note. `found` says what stands at each component of its path.
    pub fn note_path(&self, relative: &str, found: &[ComponentState]) -> (outcome: Result<String>)
        requires
            found@.len() == components(relative@).len(),
        ensures
            match outcome {
                Ok(path) => {
                    &&& valid_note_path(relative@)
                    &&& free_of_links(found@)
                    &&& path@ == joined(self.spec_notes_dir(), relative@)
                },
                Err(error) => if valid_note_path(relative@) {
                    !free_of_links(found@) && is_link_error(
                        error,
                        self.spec_notes_dir(),
                        relative@,
                        found@,
                    )
                } else {
                    is_invalid_path(error, relative@)
                },
            },
    {
        let checked = match ensure_relative_note_path(relative) {
            Ok(checked) => checked,
            Err(error) => {
                return Err(error);
            },
        };
        if let Err(error) = reject_symlink_components(&self.notes_dir(), relative, found) {
            return Err(error);
        }
        Ok(join_path(&self.notes_dir(), &checked))
    }

    /// What the file of a note is like, once its path is found in order.
    pub fn current_stamp(&self, relative: &str, found: &[ComponentState], read: Result<FileStamp>) -> (outcome:
        Result<FileStamp>)
        requires
            found@.len() == components(relative@).len(),
        ensures
            valid_note_path(relative@) && free_of_links(found@) ==> outcome == read,
            !valid_note_path(relative@) ==> (outcome matches Err(error) && is_invalid_path(
                error,
                relative@,
            )),
            valid_note_path(relative@) && !free_of_links(found@) ==> (outcome matches Err(error)
                && is_link_error(error, self.spec_notes_dir(), relative@, found@)),
    {
        match self.note_path(relative, found) {
            Ok(_) => read,
            Err(error) => Err(error),
        }
    }

    /// The directory that is made for a notebook.
    pub fn create_notebook(&self, relative: &str, found: &[ComponentState]) -> (outcome: Result<String>)
        requires
            found@.len() == components(relative@).len(),
        ensures
            match outcome {
                Ok(path) => notebook_made(self.spec_notes_dir(), relative@, found@) == Some(path@),
                Err(error) => {
                    &&& notebook_made(self.spec_notes_dir(), relative@, found@) is None
                    &&& if valid_path(relative@) {
                        is_link_error(error, self.spec_notes_dir(), relative@, found@)
                    } else {
                        is_invalid_path(error, relative@)
                    }
                },
            },
    {
        let checked = match validate_notebook_path(relative) {
            Ok(checked) => checked,
            Err(error) => {
                return Err(error);
            },
        };
        if let Err(error) = reject_symlink_components(&self.notes_dir(), relative, found) {
            return Err(error);
        }
        Ok(join_path(&self.notes_dir(), &checked))
    }

    /// Whether a notebook is the one that every vault has, which can be neither
    /// renamed nor deleted. A notebook within it can.
    pub fn is_reserved_notebook(relative: &str) -> (reserved: bool)
        ensures
            reserved == is_reserved(relative@),
    {
        paths_equal(relative, DEFAULT_NOTEBOOK)
    }
}

/// Whether a path is that of the notebook that every vault has.
pub open spec fn is_reserved(relative: Seq<char>) -> bool {
    same_path(relative, DEFAULT_NOTEBOOK@)
}

/// Where a path ends without the separators and the dots for the directory
/// itself that stand at its end.
pub open spec fn tail_end(path: Seq<char>, end: int) -> int
    decreases end,
{
    if end > 1 && (path[end - 1] == '/' || (path[end - 1] == '.' && path[end - 2] == '/')) {
        tail_end(path, end - 1)
    } else {
        end
    }
}

/// Where the component starts that ends at a place.
pub open spec fn component_start(path: Seq<char>, end: int) -> int
    decreases end,
{
    if end <= 0 || path[end - 1] == '/' {
        end
    } else {
        component_start(path, end - 1)
    }
}

/// A path without its last component, and without separators at its end.
pub open spec fn parent_path(path: Seq<char>) -> Seq<char> {
    let whole = tail_end(path, path.len() as int);
    path.take(tail_end(path, component_start(path, whole)))
}

fn end_of_tail(path: &[char], end: usize) -> (at: usize)
    requires
        end <= path@.len(),
    ensures
        at == tail_end(path@, end as int),
        at <= end,
{
    let mut at: usize = end;
    while at > 1 && (path[at - 1] == '/' || (path[at - 1] == '.' && path[at - 2] == '/'))
        invariant
            at <= end <= path@.len(),
            tail_end(path@, at as int) == tail_end(path@, end as int),
        decreases at,
    {
        at -= 1;
    }
    at
}

/// A path without its last component.
pub fn parent_of(path: &str) -> (parent: String)
    ensures
        parent@ == parent_path(path@),
{
    let chars = chars_of(path);
    let whole: usize = end_of_tail(&chars, chars.len());
    let mut start: usize = whole;
    while start > 0 && chars[start - 1] != '/'
        invariant
            start <= whole <= chars@.len(),
            component_start(chars@, start as int) == component_start(chars@, whole as int),
        decreases start,
    {
        start -= 1;
    }
    let end: usize = end_of_tail(&chars, start);
    proof {
        assert(chars@.subrange(0, end as int) =~= chars@.take(end as int));
    }
    string_between(&chars, 0, end)
}

// Rules that more than one operation follows.

/// A title without whitespace around it, or `Untitled`.
pub open spec fn title_text(title: Seq<char>) -> Seq<char> {
    if trimmed(title).len() == 0 {
        "Untitled"@
    } else {
        trimmed(title)
    }
}

pub fn normalized_title(title: &str) -> (normalized: String)
    ensures
        normalized@ == title_text(title@),
        normalized@.len() > 0,
{
    let inner = trim(title);
    proof {
        reveal_strlit("Untitled");
    }
    if inner.as_str().is_empty() {
        "Untitled".to_owned()
    } else {
        inner
    }
}

/// Whether an error refuses a password that is too short.
pub open spec fn is_weak_password(error: Error) -> bool {
    error matches Error::WeakPassword(message) && message@ == "SenatorialNotes requires at least "@
        + decimal(MIN_PASSWORD_LENGTH as nat) + " characters"@
}

/// Refuses a password that is too short.
pub fn check_password_policy(password: &str) -> (outcome: Result<()>)
    ensures
        outcome is Ok <==> password@.len() >= MIN_PASSWORD_LENGTH,
        outcome matches Err(error) ==> is_weak_password(error),
{
    if chars_of(password).len() < MIN_PASSWORD_LENGTH {
        let mut message: String = "SenatorialNotes requires at least ".to_owned();
        push_decimal(&mut message, MIN_PASSWORD_LENGTH as u64);
        message.append(" characters");
        return Err(Error::WeakPassword(message));
    }
    Ok(())
}

/// Refuses to write over a file that is not the one that was read.
pub fn verify_stamp(path: &str, expected: Option<FileStamp>, current: FileStamp) -> (outcome: Result<
    (),
>)
    ensures
        outcome is Ok <==> (expected matches Some(stamp) ==> stamp == current),
        outcome matches Err(error) ==> (error matches Error::ExternalModification(changed)
            && changed@ == path@),
{
    if let Some(stamp) = expected {
        if stamp != current {
            return Err(Error::ExternalModification(path.to_owned()));
        }
    }
    Ok(())
}

/// Refuses to write to a path where something is.
pub fn refuse_existing(path: &str, exists: bool) -> (outcome: Result<()>)
    ensures
        outcome is Ok <==> !exists,
        outcome matches Err(error) ==> (error matches Error::AlreadyExists(taken) && taken@ == path@),
{
    if exists {
        return Err(Error::AlreadyExists(path.to_owned()));
    }
    Ok(())
}

/// Whether the name that a path ends with has an extension.
pub open spec fn has_extension(path: Seq<char>, wanted: Seq<char>) -> bool {
    file_name(path) matches Some(name) && extension(name) == Some(wanted)
}

pub fn ends_with_extension(path: &str, wanted: &str) -> (has: bool)
    ensures
        has == has_extension(path@, wanted@),
{
    match file_name_of(path) {
        Some(name) => match extension_of(&name) {
            Some(found) => same_text(&found, wanted),
            None => false,
        },
        None => false,
    }
}

/// What a file holds that is a note.
#[derive(Clone, Copy, Debug, PartialEq, Eq, Structural)]
pub enum NoteFile {
    Plain,
    Encrypted,
}

/// Whether a file is a note, and of which kind: its name tells.
pub fn note_file(path: &str) -> (kind: Option<NoteFile>)
    ensures
        match kind {
            Some(NoteFile::Plain) => has_extension(path@, "md"@),
            Some(NoteFile::Encrypted) => has_extension(path@, "snote"@),
            None => !has_extension(path@, "md"@) && !has_extension(path@, "snote"@),
        },
{
    if ends_with_extension(path, "md") {
        Some(NoteFile::Plain)
    } else if ends_with_extension(path, "snote") {
        Some(NoteFile::Encrypted)
    } else {
        None
    }
}

/// Whether a file is a note of either kind.
pub open spec fn is_note_file(path: Seq<char>) -> bool {
    has_extension(path, "md"@) || has_extension(path, "snote"@)
}

/// Whether a directory has a note right in it.
pub open spec fn lists_note(folder: FolderListing) -> bool {
    exists|i: int| 0 <= i < folder.files@.len() && is_note_file((#[trigger] folder.files@[i])@)
}

/// Whether a folder holds a vault or notes already, so that no sealed vault may be
/// made in it. `listing` holds the folder and all directories below it.
pub fn target_is_taken(has_state: bool, listing: &[FolderListing]) -> (taken: bool)
    ensures
        taken == (has_state || exists|i: int|
            0 <= i < listing@.len() && lists_note(#[trigger] listing@[i])),
{
    if has_state {
        return true;
    }
    let mut index: usize = 0;
    while index < listing.len()
        invariant
            index <= listing@.len(),
            forall|i: int| 0 <= i < index ==> !lists_note(#[trigger] listing@[i]),
        decreases listing@.len() - index,
    {
        let folder = &listing[index];
        let mut at: usize = 0;
        while at < folder.files.len()
            invariant
                index < listing@.len(),
                *folder == listing@[index as int],
                at <= folder.files@.len(),
                forall|i: int|
                    0 <= i < at ==> !is_note_file((#[trigger] folder.files@[i])@),
            decreases folder.files@.len() - at,
        {
            if note_file(&folder.files[at]).is_some() {
                proof {
                    assert(is_note_file(folder.files@[at as int]@));
                    assert(lists_note(listing@[index as int]));
                }
                return true;
            }
            at += 1;
        }
        index += 1;
    }
    false
}

/// Refuses a path that is not that of a note in the clear.
pub fn require_plain(path: &str) -> (outcome: Result<()>)
    ensures
        outcome is Ok <==> has_extension(path@, "md"@),
        outcome matches Err(error) ==> error is WrongNoteType,
{
    if ends_with_extension(path, "md") {
        Ok(())
    } else {
        Err(Error::WrongNoteType)
    }
}

/// Refuses a path that is not that of an encrypted note.
pub fn require_encrypted(path: &str) -> (outcome: Result<()>)
    ensures
        outcome is Ok <==> has_extension(path@, "snote"@),
        outcome matches Err(error) ==> error is WrongNoteType,
{
    if ends_with_extension(path, "snote") {
        Ok(())
    } else {
        Err(Error::WrongNoteType)
    }
}

// Notebooks.

/// Whether a name is that of a note's file.
pub open spec fn is_note_name(name: Seq<char>) -> bool {
    extension(name) == Some("md"@) || extension(name) == Some("snote"@)
}

fn names_note(name: &str) -> (is: bool)
    ensures
        is == is_note_name(name@),
{
    match extension_of(name) {
        Some(found) => same_text(&found, "md") || same_text(&found, "snote"),
        None => false,
    }
}

/// How many of the names are those of notes.
pub open spec fn notes_among(files: Seq<Seq<char>>) -> nat
    decreases files.len(),
{
    if files.len() == 0 {
        0
    } else {
        notes_among(files.drop_last()) + (if is_note_name(files.last()) {
            1nat
        } else {
            0nat
        })
    }
}

/// How many notes stand in the directories.
pub open spec fn notes_in(listing: Seq<FolderListing>) -> nat
    decreases listing.len(),
{
    if listing.len() == 0 {
        0
    } else {
        notes_in(listing.drop_last()) + notes_among(texts(listing.last().files@))
    }
}

/// Whether something stands in the directories that is no note.
pub open spec fn has_unmanaged(listing: Seq<FolderListing>) -> bool {
    exists|i: int| 0 <= i < listing.len() && folder_unmanaged(#[trigger] listing[i])
}

/// Whether something stands right in a directory that is no note.
pub open spec fn folder_unmanaged(folder: FolderListing) -> bool {
    folder.has_others || notes_among(texts(folder.files@)) < folder.files@.len()
}

proof fn lemma_notes_among_bound(files: Seq<Seq<char>>)
    ensures
        notes_among(files) <= files.len(),
    decreases files.len(),
{
    if files.len() > 0 {
        lemma_notes_among_bound(files.drop_last());
    }
}

fn count_notes(files: &[String]) -> (count: usize)
    ensures
        count == notes_among(texts(files@)),
        count <= files@.len(),
{
    let ghost all = texts(files@);
    let mut count: usize = 0;
    let mut index: usize = 0;
    while index < files.len()
        invariant
            index <= files@.len(),
            count <= index,
            all == texts(files@),
            count == notes_among(all.take(index as int)),
        decreases files@.len() - index,
    {
        proof {
            let next = all.take(index + 1);
            assert(next.drop_last() =~= all.take(index as int));
            assert(next.last() == files@[index as int]@);
        }
        if names_note(&files[index]) {
            count += 1;
        }
        index += 1;
    }
    proof {
        assert(all.take(index as int) == all);
    }
    count
}

/// Whether one list of components stands before another.
pub open spec fn parts_before(left: Seq<Seq<char>>, right: Seq<Seq<char>>) -> bool
    decreases left.len(),
{
    if right.len() == 0 {
        false
    } else if left.len() == 0 {
        true
    } else if left[0] == right[0] {
        parts_before(left.drop_first(), right.drop_first())
    } else {
        text_before(left[0], right[0])
    }
}

/// Whether one path stands before another, component by component.
pub open spec fn path_before(left: Seq<char>, right: Seq<char>) -> bool {
    parts_before(components(left), components(right))
}

pub fn path_comes_before(left: &str, right: &str) -> (before: bool)
    ensures
        before == path_before(left@, right@),
{
    let one = components_of(left);
    let two = components_of(right);
    let ghost a = components(left@);
    let ghost b = components(right@);
    let mut index: usize = 0;
    proof {
        assert(a.skip(0) == a);
        assert(b.skip(0) == b);
    }
    while index < one.len() && index < two.len()
        invariant
            index <= one@.len(),
            index <= two@.len(),
            a == texts(one@),
            b == texts(two@),
            a == components(left@),
            b == components(right@),
            parts_before(a.skip(index as int), b.skip(index as int)) == parts_before(a, b),
        decreases one@.len() - index,
    {
        proof {
            assert(a.skip(index as int).drop_first() == a.skip(index + 1));
            assert(b.skip(index as int).drop_first() == b.skip(index + 1));
            assert(a[index as int] == one@[index as int]@);
            assert(b[index as int] == two@[index as int]@);
        }
        if !same_text(&one[index], &two[index]) {
            return comes_before(&one[index], &two[index]);
        }
        index += 1;
    }
    index < two.len()
}

/// A notebook with the number of its notes.
pub struct NotebookRow {
    pub path: Seq<char>,
    pub count: nat,
}

/// Where a notebook goes among others.
pub open spec fn row_place(rows: Seq<NotebookRow>, path: Seq<char>, at: int) -> int
    decreases rows.len() - at,
{
    if at >= rows.len() {
        rows.len() as int
    } else if path_before(path, rows[at].path) {
        at
    } else {
        row_place(rows, path, at + 1)
    }
}

/// The notebooks that the directories are, in the order of their paths. The
/// directory of the notes itself is none.
pub open spec fn notebook_rows(listing: Seq<FolderListing>) -> Seq<NotebookRow>
    decreases listing.len(),
{
    if listing.len() == 0 {
        seq![]
    } else {
        let before = notebook_rows(listing.drop_last());
        let last = listing.last();
        if last.relative_path@.len() == 0 {
            before
        } else {
            before.insert(
                row_place(before, last.relative_path@, 0),
                NotebookRow {
                    path: last.relative_path@,
                    count: notes_among(texts(last.files@)),
                },
            )
        }
    }
}

/// The notebooks of a list as rows.
pub open spec fn rows_of(entries: Seq<NotebookEntry>) -> Seq<NotebookRow> {
    Seq::new(
        entries.len(),
        |i: int|
            NotebookRow {
                path: entries[i].relative_path@,
                count: entries[i].direct_note_count as nat,
            },
    )
}

/// Puts a notebook in its place in a list.
pub fn insert_notebook(entries: &mut Vec<NotebookEntry>, entry: NotebookEntry)
    ensures
        rows_of(final(entries)@) == rows_of(old(entries)@).insert(
            row_place(rows_of(old(entries)@), entry.relative_path@, 0),
            NotebookRow {
                path: entry.relative_path@,
                count: entry.direct_note_count as nat,
            },
        ),
{
    let ghost rows = rows_of(entries@);
    let ghost row = NotebookRow {
        path: entry.relative_path@,
        count: entry.direct_note_count as nat,
    };
    let mut at: usize = 0;
    while at < entries.len() && !path_comes_before(&entry.relative_path, &entries[at].relative_path)
        invariant
            at <= entries@.len(),
            *entries == *old(entries),
            rows == rows_of(entries@),
            row_place(rows, entry.relative_path@, at as int) == row_place(
                rows,
                entry.relative_path@,
                0,
            ),
        decreases entries@.len() - at,
    {
        proof {
            assert(rows[at as int].path == entries@[at as int].relative_path@);
        }
        at += 1;
    }
    proof {
        if at < entries@.len() {
            assert(rows[at as int].path == entries@[at as int].relative_path@);
        }
        assert(at == row_place(rows, entry.relative_path@, 0));
    }
    entries.insert(at, entry);
    proof {
        assert(rows_of(entries@) =~= rows.insert(at as int, row));
    }
}

/// What a change of a notebook's name comes to.
#[derive(Debug, PartialEq, Eq)]
pub enum NotebookRename {
    Unchanged,
    /// The directory `from` becomes `to`, unless something is there.
    Move { from: String, to: String, next_relative: String },
}

/// The path of a notebook with another name.
pub open spec fn renamed_path(relative: Seq<char>, name: Seq<char>) -> Seq<char> {
    joined(parent_path(relative), trimmed(name))
}

/// A `ReservedNotebook` error for a path.
pub open spec fn is_reserved_error(error: Error, path: Seq<char>) -> bool {
    error matches Error::ReservedNotebook { relative_path } && relative_path@ == path
}

/// What comes of renaming a notebook in the directory of the notes.
pub open spec fn notebook_renames(
    notes: Seq<char>,
    relative: Seq<char>,
    new_name: Seq<char>,
    found: Seq<ComponentState>,
    is_dir: bool,
    outcome: Result<NotebookRename>,
) -> bool {
    let old_path = joined(notes, relative);
    let next = renamed_path(relative, new_name);
    if !valid_path(relative) {
        outcome matches Err(error) && is_invalid_path(error, relative)
    } else if is_reserved(relative) {
        outcome matches Err(error) && is_reserved_error(error, relative)
    } else if !free_of_links(found) {
        outcome matches Err(error) && is_link_error(
            error,
            notes,
            relative,
            found,
        )
    } else if !is_dir {
        outcome matches Err(error) && is_invalid_path(
            error,
            "notebook not found: "@ + old_path,
        )
    } else if !valid_name(trimmed(new_name)) {
        outcome matches Err(error) && is_invalid_path(error, new_name)
    } else if same_path(next, relative) {
        outcome matches Ok(rename) && rename is Unchanged
    } else if is_reserved(next) {
        outcome matches Err(error) && is_reserved_error(error, next)
    } else {
        outcome matches Ok(NotebookRename::Move { from, to, next_relative }) && from@
            == old_path && to@ == joined(notes, next)
            && next_relative@ == next
    }
}

/// What comes of deleting a notebook in the directory of the notes.
pub open spec fn notebook_goes(
    notes: Seq<char>,
    relative: Seq<char>,
    found: Seq<ComponentState>,
    is_dir: bool,
    listing: Seq<FolderListing>,
    outcome: Result<String>,
) -> bool {
    let path = joined(notes, relative);
    if !valid_path(relative) {
        outcome matches Err(error) && is_invalid_path(error, relative)
    } else if is_reserved(relative) {
        outcome matches Err(error) && is_reserved_error(error, relative)
    } else if !free_of_links(found) {
        outcome matches Err(error) && is_link_error(
            error,
            notes,
            relative,
            found,
        )
    } else if !is_dir {
        outcome matches Err(error) && is_invalid_path(
            error,
            "notebook not found: "@ + path,
        )
    } else if notes_in(listing) > 0 {
        outcome matches Err(Error::NotebookNotEmpty { relative_path, note_count })
            && relative_path@ == relative && note_count == notes_in(listing)
    } else if has_unmanaged(listing) {
        outcome matches Err(Error::NotebookHasUnmanagedContent { relative_path })
            && relative_path@ == relative
    } else {
        outcome matches Ok(removed) && removed@ == path
    }
}

impl Vault {
    /// The notebooks of the vault. `listing` holds the directory of the notes
    /// and all below it, symbolic links left out.
    pub fn list_notebooks(&self, listing: &[FolderListing]) -> (entries: Vec<NotebookEntry>)
        ensures
            rows_of(entries@) == notebook_rows(listing@),
    {
        let mut entries: Vec<NotebookEntry> = Vec::new();
        let mut index: usize = 0;
        proof {
            assert(rows_of(entries@) =~= notebook_rows(listing@.take(0)));
        }
        while index < listing.len()
            invariant
                index <= listing@.len(),
                rows_of(entries@) == notebook_rows(listing@.take(index as int)),
            decreases listing@.len() - index,
        {
            proof {
                let next = listing@.take(index + 1);
                assert(next.drop_last() =~= listing@.take(index as int));
                assert(next.last() == listing@[index as int]);
            }
            let folder = &listing[index];
            if !folder.relative_path.as_str().is_empty() {
                insert_notebook(
                    &mut entries,
                    NotebookEntry {
                        relative_path: copy_text(&folder.relative_path),
                        direct_note_count: count_notes(&folder.files),
                    },
                );
            }
            index += 1;
        }
        proof {
            assert(listing@.take(index as int) == listing@);
        }
        entries
    }

    /// Decides on a new name for a notebook, which stays where it is among the
    /// others. `found` says what stands at each component of its path.
    pub fn rename_notebook(
        &self,
        relative: &str,
        new_name: &str,
        found: &[ComponentState],
        is_dir: bool,
    ) -> (outcome: Result<NotebookRename>)
        requires
            found@.len() == components(relative@).len(),
        ensures
            notebook_renames(
                self.spec_notes_dir(),
                relative@,
                new_name@,
                found@,
                is_dir,
                outcome,
            ),
    {
        if let Err(error) = validate_notebook_path(relative) {
            return Err(error);
        }
        if Vault::is_reserved_notebook(relative) {
            return Err(Error::ReservedNotebook { relative_path: relative.to_owned() });
        }
        if let Err(error) = reject_symlink_components(&self.notes_dir(), relative, found) {
            return Err(error);
        }
        let from = join_path(&self.notes_dir(), relative);
        if !is_dir {
            let mut message: String = "notebook not found: ".to_owned();
            message.append(&from);
            return Err(Error::InvalidPath(message));
        }
        let name = match validate_notebook_name(new_name) {
            Ok(name) => name,
            Err(error) => {
                return Err(error);
            },
        };
        let next_relative = join_path(&parent_of(relative), &name);
        if paths_equal(&next_relative, relative) {
            return Ok(NotebookRename::Unchanged);
        }
        if Vault::is_reserved_notebook(&next_relative) {
            return Err(Error::ReservedNotebook { relative_path: next_relative });
        }
        let to = join_path(&self.notes_dir(), &next_relative);
        Ok(NotebookRename::Move { from, to, next_relative })
    }

    /// Decides on the deletion of a notebook. `listing` holds its directory and
    /// all below it. The directory that comes back holds nothing but empty
    /// directories.
    pub fn delete_notebook(
        &self,
        relative: &str,
        found: &[ComponentState],
        is_dir: bool,
        listing: &[FolderListing],
    ) -> (outcome: Result<String>)
        requires
            found@.len() == components(relative@).len(),
            notes_in(listing@) <= usize::MAX,
        ensures
            notebook_goes(
                self.spec_notes_dir(),
                relative@,
                found@,
                is_dir,
                listing@,
                outcome,
            ),
    {
        if let Err(error) = validate_notebook_path(relative) {
            return Err(error);
        }
        if Vault::is_reserved_notebook(relative) {
            return Err(Error::ReservedNotebook { relative_path: relative.to_owned() });
        }
        if let Err(error) = reject_symlink_components(&self.notes_dir(), relative, found) {
            return Err(error);
        }
        let path = join_path(&self.notes_dir(), relative);
        if !is_dir {
            let mut message: String = "notebook not found: ".to_owned();
            message.append(&path);
            return Err(Error::InvalidPath(message));
        }
        let mut note_count: usize = 0;
        let mut unmanaged = false;
        let mut index: usize = 0;
        while index < listing.len()
            invariant
                index <= listing@.len(),
                notes_in(listing@) <= usize::MAX,
                note_count == notes_in(listing@.take(index as int)),
                unmanaged == has_unmanaged(listing@.take(index as int)),
            decreases listing@.len() - index,
        {
            let folder = &listing[index];
            let here: usize = count_notes(&folder.files);
            proof {
                let done = listing@.take(index as int);
                let next = listing@.take(index + 1);
                assert(next.drop_last() =~= done);
                assert(next.last() == *folder);
                lemma_notes_in_prefix(listing@, index + 1);
                lemma_notes_among_bound(texts(folder.files@));
                if unmanaged {
                    let k = choose|k: int| 0 <= k < done.len() && folder_unmanaged(#[trigger] done[k]);
                    assert(folder_unmanaged(next[k]));
                }
                if folder_unmanaged(*folder) {
                    assert(folder_unmanaged(next[index as int]));
                }
                if has_unmanaged(next) {
                    let k = choose|k: int| 0 <= k < next.len() && folder_unmanaged(#[trigger] next[k]);
                    if k < index {
                        assert(folder_unmanaged(done[k]));
                    }
                }
            }
            note_count += here;
            if folder.has_others || here < folder.files.len() {
                unmanaged = true;
            }
            index += 1;
        }
        proof {
            assert(listing@.take(index as int) == listing@);
        }
        if note_count > 0 {
            return Err(
                Error::NotebookNotEmpty { relative_path: relative.to_owned(), note_count },
            );
        }
        if unmanaged {
            return Err(
                Error::NotebookHasUnmanagedContent { relative_path: relative.to_owned() },
            );
        }
        Ok(path)
    }
}

proof fn lemma_notes_in_prefix(listing: Seq<FolderListing>, upto: int)
    requires
        0 <= upto <= listing.len(),
    ensures
        notes_in(listing.take(upto)) <= notes_in(listing),
    decreases listing.len(),
{
    if upto < listing.len() {
        lemma_notes_in_prefix(listing.drop_last(), upto);
        assert(listing.drop_last().take(upto) =~= listing.take(upto));
    } else {
        assert(listing.take(upto) == listing);
    }
}

/// A notebook that may be deleted holds no file at all.
pub proof fn law_only_empty_notebooks_are_deleted(listing: Seq<FolderListing>, at: int)
    requires
        notes_in(listing) == 0,
        !has_unmanaged(listing),
        0 <= at < listing.len(),
    ensures
        listing[at].files@.len() == 0,
        !listing[at].has_others,
{
    assert(!folder_unmanaged(listing[at]));
    lemma_notes_in_prefix(listing, at + 1);
    let next = listing.take(at + 1);
    assert(next.last() == listing[at]);
}

/// The notebooks are listed in the order of their paths.
pub proof fn law_notebooks_are_in_order(listing: Seq<FolderListing>)
    ensures
        rows_in_order(notebook_rows(listing)),
    decreases listing.len(),
{
    if listing.len() > 0 {
        law_notebooks_are_in_order(listing.drop_last());
        let before = notebook_rows(listing.drop_last());
        let last = listing.last();
        if last.relative_path@.len() > 0 {
            lemma_row_placed(before, last.relative_path@, notes_among(texts(last.files@)));
        }
    }
}

/// Whether no notebook stands behind one that it should stand before.
pub open spec fn rows_in_order(rows: Seq<NotebookRow>) -> bool {
    forall|i: int, j: int|
        0 <= i < j < rows.len() ==> !path_before((#[trigger] rows[j]).path, (#[trigger] rows[i]).path)
}

proof fn lemma_row_place(rows: Seq<NotebookRow>, path: Seq<char>, at: int)
    requires
        0 <= at <= rows.len(),
    ensures
        at <= row_place(rows, path, at) <= rows.len(),
        forall|i: int|
            at <= i < row_place(rows, path, at) ==> !path_before(path, (#[trigger] rows[i]).path),
        row_place(rows, path, at) < rows.len() ==> path_before(
            path,
            rows[row_place(rows, path, at)].path,
        ),
    decreases rows.len() - at,
{
    if at < rows.len() && !path_before(path, rows[at].path) {
        lemma_row_place(rows, path, at + 1);
    }
}

/// A notebook put in its place keeps the order.
pub proof fn lemma_row_placed(rows: Seq<NotebookRow>, path: Seq<char>, count: nat)
    requires
        rows_in_order(rows),
    ensures
        rows_in_order(rows.insert(row_place(rows, path, 0), NotebookRow { path, count })),
{
    let at = row_place(rows, path, 0);
    lemma_row_place(rows, path, 0);
    let after = rows.insert(at, NotebookRow { path, count });
    assert forall|i: int, j: int| 0 <= i < j < after.len() implies !path_before(
        (#[trigger] after[j]).path,
        (#[trigger] after[i]).path,
    ) by {
        if j < at {
            assert(after[i] == rows[i] && after[j] == rows[j]);
        } else if i > at {
            assert(after[i] == rows[i - 1] && after[j] == rows[j - 1]);
        } else if j == at {
            assert(after[i] == rows[i]);
        } else if i == at {
            assert(after[j] == rows[j - 1]);
            let new = components(path);
            let first = components(rows[at].path);
            let other = components(rows[j - 1].path);
            lemma_parts_order(new, first);
            lemma_parts_order(new, other);
            lemma_parts_order(first, other);
            if j - 1 > at && parts_before(other, new) {
                lemma_parts_order_transitive(other, new, first);
            }
        } else {
            assert(after[i] == rows[i] && after[j] == rows[j - 1]);
        }
    }
}

/// Of two lists of components at most one stands before the other.
pub proof fn lemma_parts_order(left: Seq<Seq<char>>, right: Seq<Seq<char>>)
    ensures
        !(parts_before(left, right) && parts_before(right, left)),
        left != right ==> parts_before(left, right) || parts_before(right, left),
    decreases left.len(),
{
    if left.len() > 0 && right.len() > 0 {
        lemma_text_order(left[0], right[0]);
        if left[0] == right[0] {
            lemma_parts_order(left.drop_first(), right.drop_first());
            if left.drop_first() == right.drop_first() {
                assert(left =~= seq![left[0]] + left.drop_first());
                assert(right =~= seq![right[0]] + right.drop_first());
            }
        }
    } else if left.len() == 0 && right.len() == 0 {
        assert(left =~= right);
    }
}

proof fn lemma_parts_order_transitive(
    one: Seq<Seq<char>>,
    two: Seq<Seq<char>>,
    three: Seq<Seq<char>>,
)
    requires
        parts_before(one, two),
        parts_before(two, three),
    ensures
        parts_before(one, three),
    decreases one.len(),
{
    if one.len() > 0 {
        lemma_text_order(one[0], two[0]);
        lemma_text_order(two[0], three[0]);
        lemma_text_order(one[0], three[0]);
        if one[0] == two[0] && two[0] == three[0] {
            lemma_parts_order_transitive(one.drop_first(), two.drop_first(), three.drop_first());
        } else if text_before(one[0], two[0]) && text_before(two[0], three[0]) {
            lemma_text_order_transitive(one[0], two[0], three[0]);
        }
    }
}

// Notes.

/// What a move of a note comes to.
#[derive(Debug, PartialEq, Eq)]
pub enum NoteMove {
    Unchanged,
    /// The file `from` becomes `to`, and nothing that is there is replaced.
    Move { from: String, to: String, next_relative: String },
}

/// The path of a note in another notebook. Its file keeps its name.
pub open spec fn moved_path(relative: Seq<char>, notebook: Seq<char>) -> Seq<char> {
    match file_name(relative) {
        Some(name) => joined(notebook, name),
        None => notebook,
    }
}

pub fn moved_note_path(relative: &str, notebook: &str) -> (path: String)
    ensures
        path@ == moved_path(relative@, notebook@),
{
    match file_name_of(relative) {
        Some(name) => join_path(notebook, &name),
        None => notebook.to_owned(),
    }
}

/// A `NoteNotFound` error for a path.
pub open spec fn is_not_found(error: Error, path: Seq<char>) -> bool {
    error matches Error::NoteNotFound(missing) && missing@ == path
}

/// What was found on disk for the move of a note: at each component of the
/// note's path, of the notebook's and of the note's new path, and whether the
/// note is a file.
#[derive(Debug)]
pub struct MoveFacts {
    pub source: Vec<ComponentState>,
    pub is_file: bool,
    pub notebook: Vec<ComponentState>,
    pub target: Vec<ComponentState>,
}

/// What comes of moving a note to another notebook.
pub open spec fn note_moves(
    notes: Seq<char>,
    relative: Seq<char>,
    destination: Seq<char>,
    facts: MoveFacts,
    outcome: Result<NoteMove>,
) -> bool {
    let source = joined(notes, relative);
    let next = moved_path(relative, destination);
    if !valid_note_path(relative) {
        outcome matches Err(error) && is_invalid_path(error, relative)
    } else if !free_of_links(facts.source@) {
        outcome matches Err(error) && is_link_error(
            error,
            notes,
            relative,
            facts.source@,
        )
    } else if !facts.is_file {
        outcome matches Err(error) && is_not_found(error, source)
    } else if !valid_path(destination) {
        outcome matches Err(error) && is_invalid_path(error, destination)
    } else if !free_of_links(facts.notebook@) {
        outcome matches Err(error) && is_link_error(
            error,
            notes,
            destination,
            facts.notebook@,
        )
    } else if same_path(next, relative) {
        outcome matches Ok(moved) && moved is Unchanged
    } else if !valid_note_path(next) {
        outcome matches Err(error) && is_invalid_path(error, next)
    } else if !free_of_links(facts.target@) {
        outcome matches Err(error) && is_link_error(error, notes, next, facts.target@)
    } else {
        outcome matches Ok(NoteMove::Move { from, to, next_relative }) && from@
            == source && to@ == joined(notes, next) && next_relative@ == next
    }
}

impl Vault {
    /// Decides on the move of a note into a notebook. Nothing of the note
    /// itself changes, in the clear or encrypted.
    pub fn move_note(&self, relative: &str, destination_notebook: &str, facts: &MoveFacts) -> (outcome:
        Result<NoteMove>)
        requires
            facts.source@.len() == components(relative@).len(),
            facts.notebook@.len() == components(destination_notebook@).len(),
            facts.target@.len() == components(
                moved_path(relative@, destination_notebook@),
            ).len(),
        ensures
            note_moves(
                self.spec_notes_dir(),
                relative@,
                destination_notebook@,
                *facts,
                outcome,
            ),
    {
        let from = match self.note_path(relative, &facts.source) {
            Ok(from) => from,
            Err(error) => {
                return Err(error);
            },
        };
        if !facts.is_file {
            return Err(Error::NoteNotFound(from));
        }
        if let Err(error) = self.create_notebook(destination_notebook, &facts.notebook) {
            return Err(error);
        }
        let next_relative = moved_note_path(relative, destination_notebook);
        if paths_equal(&next_relative, relative) {
            return Ok(NoteMove::Unchanged);
        }
        match self.note_path(&next_relative, &facts.target) {
            Ok(to) => Ok(NoteMove::Move { from, to, next_relative }),
            Err(error) => Err(error),
        }
    }
}

/// The path of a new note in a notebook.
pub open spec fn new_note_path(notebook: Seq<char>, title: Seq<char>, id: Uuid) -> Seq<char> {
    joined(notebook, title_slug(title) + "--"@ + short_id(id) + ".md"@)
}

/// The path of a new note in a notebook.
pub fn place_new_note(notebook: &str, title: &str, id: Uuid) -> (path: String)
    ensures
        path@ == new_note_path(notebook@, title@, id),
{
    join_path(notebook, &note_filename(title, id))
}

/// What the title of a note becomes, and where its file goes with it.
#[derive(Debug, PartialEq, Eq)]
pub struct TitleCommit {
    pub title: String,
    pub next_relative: String,
    /// Whether the file goes elsewhere. Nothing may be there then.
    pub renames: bool,
}

/// Decides on a new title for a note in the clear. The identifier stays, and
/// the file is renamed where its name no longer fits.
pub fn plan_title(relative: &str, id: Uuid, title: &str) -> (outcome: Result<TitleCommit>)
    ensures
        match outcome {
            Ok(commit) => {
                &&& has_extension(relative@, "md"@)
                &&& commit.title@ == title_text(title@)
                &&& commit.next_relative@ == new_note_path(
                    parent_path(relative@),
                    title_text(title@),
                    id,
                )
                &&& commit.renames == !same_path(commit.next_relative@, relative@)
            },
            Err(error) => !has_extension(relative@, "md"@) && error is WrongNoteType,
        },
{
    if let Err(error) = require_plain(relative) {
        return Err(error);
    }
    let title = normalized_title(title);
    let next_relative = place_new_note(&parent_of(relative), &title, id);
    let renames = !paths_equal(&next_relative, relative);
    Ok(TitleCommit { title, next_relative, renames })
}

/// The path of a note once it is encrypted.
pub open spec fn encrypted_path(relative: Seq<char>, id: Uuid) -> Seq<char> {
    joined(parent_path(relative), "encrypted--"@ + short_id(id) + ".snote"@)
}

/// Decides on the encryption of a note: where its file goes.
pub fn plan_encryption(relative: &str, id: Uuid, password: &str) -> (outcome: Result<String>)
    ensures
        match outcome {
            Ok(next) => {
                &&& has_extension(relative@, "md"@)
                &&& password@.len() >= MIN_PASSWORD_LENGTH
                &&& next@ == encrypted_path(relative@, id)
            },
            Err(error) => if has_extension(relative@, "md"@) {
                password@.len() < MIN_PASSWORD_LENGTH && is_weak_password(error)
            } else {
                error is WrongNoteType
            },
        },
{
    if let Err(error) = require_plain(relative) {
        return Err(error);
    }
    if let Err(error) = check_password_policy(password) {
        return Err(error);
    }
    Ok(join_path(&parent_of(relative), &encrypted_note_filename(id)))
}

/// Decides where the file of a note goes once its encryption is removed.
pub fn plan_decryption(relative: &str, id: Uuid, title: &str) -> (outcome: Result<String>)
    ensures
        match outcome {
            Ok(next) => {
                &&& has_extension(relative@, "snote"@)
                &&& next@ == new_note_path(parent_path(relative@), title@, id)
            },
            Err(error) => !has_extension(relative@, "snote"@) && error is WrongNoteType,
        },
{
    if let Err(error) = require_encrypted(relative) {
        return Err(error);
    }
    Ok(place_new_note(&parent_of(relative), title, id))
}

// Passwords.

/// Encrypts the payload of a container anew under another password. The old
/// password is checked by opening the container with it.
pub fn rekey_container(container: &[u8], old_password: &str, new_password: &str) -> (outcome: Result<
    Vec<u8>,
>)
    requires
        container@.len() <= isize::MAX,
    ensures
        match outcome {
            Ok(rekeyed) => {
                &&& new_password@.len() >= MIN_PASSWORD_LENGTH
                &&& encode_utf8(old_password@).len() <= 0xffff_ffff
                &&& encode_utf8(new_password@).len() <= 0xffff_ffff
                &&& payload_in(
                    container@,
                    container_key(container@, encode_utf8(old_password@)),
                ) is Some
                &&& payload_in(
                    rekeyed@,
                    container_key(rekeyed@, encode_utf8(new_password@)),
                ) == payload_in(
                    container@,
                    container_key(container@, encode_utf8(old_password@)),
                )
                &&& header_in(rekeyed@).note_id == header_in(container@).note_id
                &&& payload_in(
                    container@,
                    container_key(container@, encode_utf8(old_password@)),
                ) matches Some(payload)
                &&& freshly_sealed(
                    rekeyed@,
                    encode_utf8(new_password@),
                    header_in(container@).note_id,
                    payload,
                )
            },
            Err(error) => if new_password@.len() < MIN_PASSWORD_LENGTH {
                is_weak_password(error)
            } else {
                match note_fault(container@) {
                    Some(fault) => is_invalid_note(error, note_fault_text(fault)),
                    None => if encode_utf8(old_password@).len() > 0xffff_ffff {
                        error is Encryption
                    } else if payload_in(
                        container@,
                        container_key(container@, encode_utf8(old_password@)),
                    ) is None {
                        error is DecryptionFailed
                    } else {
                        error is Encryption
                    },
                }
            },
        },
{
    if let Err(error) = check_password_policy(new_password) {
        return Err(error);
    }
    let opened = match decrypt(container, old_password) {
        Ok(opened) => opened,
        Err(error) => {
            return Err(error);
        },
    };
    let payload = opened.payload.as_slice();
    match encrypt_new(opened.header.note_id, payload, new_password) {
        Ok((rekeyed, _session)) => Ok(rekeyed),
        Err(error) => Err(error),
    }
}

/// Checks a container that was written under a new password: the new password
/// must open it, and the old one must not unless it is the same.
pub fn verify_rekeyed(written: &[u8], old_password: &str, new_password: &str) -> (outcome: Result<
    OpenedNote,
>)
    ensures
        match outcome {
            Ok(opened) => {
                &&& payload_in(
                    written@,
                    container_key(written@, encode_utf8(new_password@)),
                ) == Some(opened.payload@)
                &&& opened.header@ == header_in(written@)
                &&& opened.session@.valid()
                &&& new_password@ != old_password@ ==> encode_utf8(old_password@).len()
                    > 0xffff_ffff || payload_in(
                    written@,
                    container_key(written@, encode_utf8(old_password@)),
                ) is None
            },
            Err(error) => {
                ||| is_encryption_error(error, "re-key verification failed"@) && (encode_utf8(
                    new_password@,
                ).len() > 0xffff_ffff || payload_in(
                    written@,
                    container_key(written@, encode_utf8(new_password@)),
                ) is None)
                ||| is_encryption_error(
                    error,
                    "re-key verification failed: the previous password still unlocks the note"@,
                ) && new_password@ != old_password@ && payload_in(
                    written@,
                    container_key(written@, encode_utf8(old_password@)),
                ) is Some
            },
        },
{
    let opened = match decrypt(written, new_password) {
        Ok(opened) => opened,
        Err(_) => {
            return Err(Error::Encryption("re-key verification failed".to_owned()));
        },
    };
    if !same_text(new_password, old_password) {
        if let Ok(_) = decrypt(written, old_password) {
            return Err(
                Error::Encryption(
                    "re-key verification failed: the previous password still unlocks the note".to_owned(),
                ),
            );
        }
    }
    Ok(opened)
}

// The trash.

/// Where a note goes when it is thrown away.
#[derive(Debug, PartialEq, Eq)]
pub struct TrashMove {
    pub from: String,
    pub trashed_file: String,
    pub record_path: String,
    pub entry: TrashEntry,
}

/// What comes of throwing a note away.
pub open spec fn note_goes_to_trash(
    vault: Vault,
    relative: Seq<char>,
    found: Seq<ComponentState>,
    id: Uuid,
    title: Seq<char>,
    now: Timestamp,
    taken: bool,
    outcome: Result<TrashMove>,
) -> bool {
    let encrypted = has_extension(relative, "snote"@);
    if !valid_note_path(relative) {
        outcome matches Err(error) && is_invalid_path(error, relative)
    } else if !free_of_links(found) {
        outcome matches Err(error) && is_link_error(
            error,
            vault.spec_notes_dir(),
            relative,
            found,
        )
    } else if taken {
        outcome matches Err(Error::AlreadyExists(path)) && path@
            == vault.spec_trashed_note(id, encrypted)
    } else {
        outcome matches Ok(trash) && {
            &&& trash.from@ == joined(vault.spec_notes_dir(), relative)
            &&& trash.trashed_file@ == vault.spec_trashed_note(id, encrypted)
            &&& trash.record_path@ == vault.spec_trash_record(id)
            &&& trash.entry.id == id
            &&& trash.entry.title@ == (if encrypted {
                "Locked Note"@
            } else {
                title
            })
            &&& trash.entry.encrypted == encrypted
            &&& trash.entry.original_relative_path@ == relative
            &&& trash.entry.trashed_at == now
        }
    }
}

/// What comes of restoring a note from the trash.
pub open spec fn note_comes_back(
    vault: Vault,
    id: Uuid,
    encrypted: bool,
    original: Seq<char>,
    title: Seq<char>,
    original_taken: bool,
    fallback_taken: bool,
    outcome: Result<String>,
) -> bool {
    let fallback = fallback_path(id, encrypted, title);
    if !original_taken {
        outcome matches Ok(path) && path@ == original
    } else if !fallback_taken {
        outcome matches Ok(path) && path@ == fallback
    } else {
        outcome matches Err(Error::AlreadyExists(path)) && path@ == joined(
            vault.spec_notes_dir(),
            fallback,
        )
    }
}

impl Vault {
    /// Decides on throwing a note away. An encrypted note is listed without its
    /// title, which is not known. Nothing may be at the two paths yet.
    pub fn move_to_trash(
        &self,
        relative: &str,
        found: &[ComponentState],
        id: Uuid,
        title: &str,
        now: Timestamp,
        taken: bool,
    ) -> (outcome: Result<TrashMove>)
        requires
            found@.len() == components(relative@).len(),
        ensures
            note_goes_to_trash(
                *self,
                relative@,
                found@,
                id,
                title@,
                now,
                taken,
                outcome,
            ),
    {
        let from = match self.note_path(relative, found) {
            Ok(from) => from,
            Err(error) => {
                return Err(error);
            },
        };
        let encrypted = ends_with_extension(relative, "snote");
        let trashed_file = self.trashed_note_path(id, encrypted);
        if taken {
            return Err(Error::AlreadyExists(trashed_file));
        }
        let shown = if encrypted {
            "Locked Note".to_owned()
        } else {
            title.to_owned()
        };
        Ok(
            TrashMove {
                from,
                trashed_file,
                record_path: self.trash_record_path(id),
                entry: TrashEntry {
                    id,
                    title: shown,
                    encrypted,
                    original_relative_path: relative.to_owned(),
                    trashed_at: now,
                },
            },
        )
    }

    /// Where a note from the trash goes: to where it was, and where something
    /// else is by now, to the notebook that every vault has.
    pub fn restore_from_trash(
        &self,
        id: Uuid,
        encrypted: bool,
        original: &str,
        title: &str,
        original_taken: bool,
        fallback_taken: bool,
    ) -> (outcome: Result<String>)
        ensures
            note_comes_back(
                *self,
                id,
                encrypted,
                original@,
                title@,
                original_taken,
                fallback_taken,
                outcome,
            ),
    {
        if !original_taken {
            return Ok(original.to_owned());
        }
        let fallback = restore_fallback(id, encrypted, title);
        if fallback_taken {
            return Err(Error::AlreadyExists(join_path(&self.notes_dir(), &fallback)));
        }
        Ok(fallback)
    }

    /// The notes that are deleted when the trash is emptied, in order.
    pub fn empty_trash(&self, entries: &[TrashEntry]) -> (ids: Vec<Uuid>)
        ensures
            ids@ == ids_in_trash(entries@),
    {
        let mut ids: Vec<Uuid> = Vec::new();
        let mut index: usize = 0;
        while index < entries.len()
            invariant
                index <= entries@.len(),
                ids@ == ids_in_trash(entries@.take(index as int)),
            decreases entries@.len() - index,
        {
            ids.push(entries[index].id);
            index += 1;
            proof {
                assert(ids@ =~= ids_in_trash(entries@.take(index as int)));
            }
        }
        proof {
            assert(entries@.take(index as int) == entries@);
        }
        ids
    }
}

/// The identifiers of the notes in the trash.
pub open spec fn ids_in_trash(entries: Seq<TrashEntry>) -> Seq<Uuid> {
    Seq::new(entries.len(), |i: int| entries[i].id)
}

/// What is left of the trash once notes are deleted for good.
pub open spec fn left_in_trash(entries: Seq<TrashEntry>, deleted: Seq<Uuid>) -> Seq<TrashEntry>
    decreases entries.len(),
{
    if entries.len() == 0 {
        entries
    } else {
        let before = left_in_trash(entries.drop_last(), deleted);
        if deleted.contains(entries.last().id) {
            before
        } else {
            before.push(entries.last())
        }
    }
}

proof fn lemma_nothing_left(entries: Seq<TrashEntry>, deleted: Seq<Uuid>)
    requires
        forall|i: int| 0 <= i < entries.len() ==> deleted.contains((#[trigger] entries[i]).id),
    ensures
        left_in_trash(entries, deleted).len() == 0,
    decreases entries.len(),
{
    if entries.len() > 0 {
        assert(deleted.contains(entries[entries.len() - 1].id));
        assert forall|i: int| 0 <= i < entries.drop_last().len() implies deleted.contains(
            (#[trigger] entries.drop_last()[i]).id,
        ) by {
            assert(entries.drop_last()[i] == entries[i]);
        }
        lemma_nothing_left(entries.drop_last(), deleted);
    }
}

/// Deleting the notes that emptying the trash names leaves an empty trash: as
/// many are named as there are entries, and none of them is left.
pub proof fn law_emptying_leaves_no_entry(entries: Seq<TrashEntry>)
    ensures
        ids_in_trash(entries).len() == entries.len(),
        trash_ordered(left_in_trash(entries, ids_in_trash(entries))) == Seq::<TrashEntry>::empty(),
{
    let ids = ids_in_trash(entries);
    assert forall|i: int| 0 <= i < entries.len() implies ids.contains(
        (#[trigger] entries[i]).id,
    ) by {
        assert(ids[i] == entries[i].id);
    }
    lemma_nothing_left(entries, ids);
    assert(left_in_trash(entries, ids) =~= Seq::<TrashEntry>::empty());
}

/// The path of a note in the notebook that every vault has.
pub open spec fn fallback_path(id: Uuid, encrypted: bool, title: Seq<char>) -> Seq<char> {
    if encrypted {
        joined(DEFAULT_NOTEBOOK@, "encrypted--"@ + short_id(id) + ".snote"@)
    } else {
        new_note_path(DEFAULT_NOTEBOOK@, title, id)
    }
}

pub fn restore_fallback(id: Uuid, encrypted: bool, title: &str) -> (path: String)
    ensures
        path@ == fallback_path(id, encrypted, title@),
{
    if encrypted {
        join_path(DEFAULT_NOTEBOOK, &encrypted_note_filename(id))
    } else {
        place_new_note(DEFAULT_NOTEBOOK, title, id)
    }
}

/// Refuses a record of the trash that is not the one that its file name says.
pub fn check_trash_record(expected: Uuid, recorded: Uuid) -> (outcome: Result<()>)
    ensures
        outcome is Ok <==> expected == recorded,
        outcome matches Err(error) ==> (error matches Error::Configuration(message) && message@
            == "trash record UUID does not match its filename"@),
{
    if expected == recorded {
        Ok(())
    } else {
        Err(Error::Configuration("trash record UUID does not match its filename".to_owned()))
    }
}

/// Whether a file of the trash says where a note came from.
pub open spec fn is_trash_record(name: Seq<char>) -> bool {
    ".trash.toml"@.len() <= name.len() && name.skip(name.len() - ".trash.toml"@.len())
        == ".trash.toml"@
}

pub fn names_trash_record(name: &str) -> (is: bool)
    ensures
        is == is_trash_record(name@),
{
    let chars = chars_of(name);
    let suffix = chars_of(".trash.toml");
    if chars.len() < suffix.len() {
        return false;
    }
    let at: usize = chars.len() - suffix.len();
    proof {
        assert(name@.skip(at as int) =~= name@.subrange(at as int, at + suffix@.len()));
    }
    matches_at(&chars, &suffix, at)
}

/// Where an entry goes among entries that are in order: the one that was thrown
/// away last comes first.
pub open spec fn trash_place(entries: Seq<TrashEntry>, entry: TrashEntry, at: int) -> int
    decreases entries.len() - at,
{
    if at >= entries.len() {
        entries.len() as int
    } else if entries[at].trashed_at.spec_before(entry.trashed_at) {
        at
    } else {
        trash_place(entries, entry, at + 1)
    }
}

/// The entries in order. Those of the same moment keep the order that they have.
pub open spec fn trash_ordered(entries: Seq<TrashEntry>) -> Seq<TrashEntry>
    decreases entries.len(),
{
    if entries.len() == 0 {
        entries
    } else {
        let before = trash_ordered(entries.drop_last());
        before.insert(trash_place(before, entries.last(), 0), entries.last())
    }
}

/// Sorts the entries of the trash.
pub fn sort_trash(entries: &mut Vec<TrashEntry>)
    ensures
        final(entries)@ == trash_ordered(old(entries)@),
{
    let ghost all = entries@;
    let mut sorted: Vec<TrashEntry> = Vec::new();
    let mut done: usize = 0;
    let total: usize = entries.len();
    proof {
        assert(all.skip(0) == all);
    }
    while done < total
        invariant
            done <= total,
            total == all.len(),
            entries@ == all.skip(done as int),
            sorted@ == trash_ordered(all.take(done as int)),
        decreases total - done,
    {
        let entry = entries.remove(0);
        proof {
            let next = all.take(done + 1);
            assert(next.drop_last() == all.take(done as int));
            assert(next.last() == entry);
            assert(entries@ =~= all.skip(done + 1));
        }
        let mut at: usize = 0;
        while at < sorted.len() && !sorted[at].trashed_at.before(&entry.trashed_at)
            invariant
                at <= sorted@.len(),
                trash_place(sorted@, entry, at as int) == trash_place(sorted@, entry, 0),
            decreases sorted@.len() - at,
        {
            at += 1;
        }
        sorted.insert(at, entry);
        done += 1;
    }
    proof {
        assert(all.take(done as int) == all);
    }
    *entries = sorted;
}

/// Sorting the trash keeps every entry and puts the latest first.
pub proof fn law_trash_is_in_order(entries: Seq<TrashEntry>)
    ensures
        trash_ordered(entries).len() == entries.len(),
        trash_ordered(entries).to_multiset() == entries.to_multiset(),
        forall|i: int, j: int|
            0 <= i < j < entries.len() ==> !(#[trigger] trash_ordered(
                entries,
            )[i]).trashed_at.spec_before((#[trigger] trash_ordered(entries)[j]).trashed_at),
    decreases entries.len(),
{
    if entries.len() > 0 {
        let shorter = entries.drop_last();
        let entry = entries.last();
        law_trash_is_in_order(shorter);
        let before = trash_ordered(shorter);
        let at = trash_place(before, entry, 0);
        lemma_trash_place(before, entry, 0);
        let after = before.insert(at, entry);
        assert forall|i: int, j: int| 0 <= i < j < after.len() implies !(
        #[trigger] after[i]).trashed_at.spec_before((#[trigger] after[j]).trashed_at) by {
            if j < at {
                assert(after[i] == before[i] && after[j] == before[j]);
            } else if i > at {
                assert(after[i] == before[i - 1] && after[j] == before[j - 1]);
            } else if j == at {
                assert(after[i] == before[i]);
            } else if i == at {
                assert(after[j] == before[j - 1]);
                if j - 1 > at {
                    assert(!before[at].trashed_at.spec_before(before[j - 1].trashed_at));
                }
            } else {
                assert(after[i] == before[i] && after[j] == before[j - 1]);
            }
        }
        broadcast use vstd::seq_lib::group_to_multiset_ensures;

        vstd::seq_lib::to_multiset_insert(before, at, entry);
        assert(shorter.push(entry) == entries);
    }
}

proof fn lemma_trash_place(entries: Seq<TrashEntry>, entry: TrashEntry, at: int)
    requires
        0 <= at <= entries.len(),
    ensures
        at <= trash_place(entries, entry, at) <= entries.len(),
        forall|i: int|
            at <= i < trash_place(entries, entry, at) ==> !(
            #[trigger] entries[i]).trashed_at.spec_before(entry.trashed_at),
        trash_place(entries, entry, at) < entries.len() ==> entries[trash_place(
            entries,
            entry,
            at,
        )].trashed_at.spec_before(entry.trashed_at),
    decreases entries.len() - at,
{
    if at < entries.len() && !entries[at].trashed_at.spec_before(entry.trashed_at) {
        lemma_trash_place(entries, entry, at + 1);
    }
}

} // verus!
