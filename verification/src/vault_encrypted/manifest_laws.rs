//! What the operations on a manifest keep and change.

use vstd::prelude::*;

use crate::constants::DEFAULT_NOTEBOOK;
use crate::error::Result;
use crate::ident::Uuid;
use crate::model::Timestamp;
use crate::path_laws::{law_a_joined_name_stands_right_in_its_directory, one_name};
use crate::paths::{
    file_name, is_right_in, joined, same_path, title_slug, valid_note_path, valid_path,
};
use crate::text::trimmed;
use crate::vault::{has_extension, parent_path, NotebookRow, TrashEntry};
use crate::vault_encrypted::manifest::{
    lies_under, manifest_rows, notebook_is_added, notebook_is_deleted, notebook_is_renamed,
    notebooks_outside, notes_right_in, notes_under, AttachmentView, ManifestView, NoteView,
    RecoveryView, TrashView,
};
use crate::vault_encrypted::notes::{
    attachment_from, is_taken, lemma_note_from, lies_at, note_from, note_is_created, note_is_moved,
    note_is_sealed, note_is_unsealed, place_of, plain_is_found, plain_name, recovery_is_written,
    recovery_objects, recovery_without, sealed_is_found, sealed_name, title_is_committed,
    with_attachment,
};
use crate::vault_encrypted::trash::{
    note_is_destroyed, note_is_restored, note_is_thrown_away, trash_from,
};
use crate::vault_laws::{law_a_new_note_stands_in_its_notebook, no_separator};

verus! {

// Notebooks.

/// What lies within a notebook is what its path and a separator start; a notebook
/// whose name merely starts with the same characters lies outside.
pub proof fn law_only_what_is_within_lies_under(
    top: Seq<char>,
    rest: Seq<char>,
    character: char,
)
    ensures
        lies_under(top, top),
        lies_under(top + seq!['/'] + rest, top),
        character != '/' ==> !lies_under(top + seq![character] + rest, top),
{
    let within = top + seq!['/'] + rest;
    assert(within.subrange(0, top.len() as int + 1) =~= top + seq!['/']);
    let beside = top + seq![character] + rest;
    if character != '/' && lies_under(beside, top) {
        assert(beside.len() > top.len());
        let start = top + seq!['/'];
        assert(beside.subrange(0, start.len() as int)[top.len() as int] == start[top.len() as int]);
        assert(beside[top.len() as int] == character);
    }
}

/// A notebook that was added is there, and so are all that were there before; no
/// note changes.
pub proof fn law_an_added_notebook_is_there(
    before: ManifestView,
    relative: Seq<char>,
    outcome: Result<()>,
    after: ManifestView,
    other: Seq<char>,
)
    requires
        notebook_is_added(before, relative, outcome, after),
    ensures
        outcome is Ok <==> valid_path(relative),
        outcome is Ok ==> after.notebooks.contains(relative),
        after.notebooks.contains(other) <==> before.notebooks.contains(other) || outcome is Ok
            && other == relative,
        after.notes == before.notes,
        after.trash == before.trash,
        after.recovery == before.recovery,
        after.attachments == before.attachments,
{
    let list = before.notebooks;
    if outcome is Ok && !list.contains(relative) {
        let more = list.push(relative);
        assert(more[list.len() as int] == relative);
        if list.contains(other) {
            let i = choose|i: int| 0 <= i < list.len() && list[i] == other;
            assert(more[i] == other);
        }
        if more.contains(other) && other != relative {
            let i = choose|i: int| 0 <= i < more.len() && more[i] == other;
            assert(list[i] == other);
        }
    }
}

/// A notebook is deleted only where no note lies in it or within it; it goes with
/// the notebooks within it, every other one stays, and no note changes.
pub proof fn law_a_deleted_notebook_takes_no_note(
    before: ManifestView,
    relative: Seq<char>,
    outcome: Result<()>,
    after: ManifestView,
    notebook: Seq<char>,
    at: int,
)
    requires
        notebook_is_deleted(before, relative, outcome, after),
    ensures
        after.notes == before.notes,
        after.trash == before.trash,
        outcome is Err ==> after == before,
        outcome is Ok && 0 <= at < before.notes.len() ==> !lies_under(
            before.notes[at].notebook,
            relative,
        ),
        outcome is Ok ==> (after.notebooks.contains(notebook) <==> before.notebooks.contains(
            notebook,
        ) && !lies_under(notebook, relative)),
        same_path(relative, DEFAULT_NOTEBOOK@) ==> outcome is Err,
        valid_path(relative) && !same_path(relative, DEFAULT_NOTEBOOK@) && (forall|i: int|
            0 <= i < before.notes.len() ==> !lies_under(
                (#[trigger] before.notes[i]).notebook,
                relative,
            )) ==> outcome is Ok,
{
    lemma_notebooks_outside(before.notebooks, relative, notebook);
    if outcome is Ok && 0 <= at < before.notes.len() {
        lemma_notes_under(before.notes, relative, at);
    }
    if forall|i: int|
        0 <= i < before.notes.len() ==> !lies_under(
            (#[trigger] before.notes[i]).notebook,
            relative,
        ) {
        lemma_no_notes_under(before.notes, relative);
    }
}

proof fn lemma_notebooks_outside(notebooks: Seq<Seq<char>>, top: Seq<char>, notebook: Seq<char>)
    ensures
        notebooks_outside(notebooks, top).contains(notebook) <==> notebooks.contains(notebook)
            && !lies_under(notebook, top),
    decreases notebooks.len(),
{
    if notebooks.len() > 0 {
        let front = notebooks.drop_last();
        lemma_notebooks_outside(front, top, notebook);
        let before = notebooks_outside(front, top);
        let all = notebooks_outside(notebooks, top);
        if before.contains(notebook) {
            let i = choose|i: int| 0 <= i < before.len() && before[i] == notebook;
            assert(all[i] == notebook);
        }
        if all.contains(notebook) {
            let i = choose|i: int| 0 <= i < all.len() && all[i] == notebook;
            if i < before.len() {
                assert(before[i] == notebook);
                let k = choose|k: int| 0 <= k < front.len() && front[k] == notebook;
                assert(notebooks[k] == notebook);
            } else {
                assert(notebooks[notebooks.len() - 1] == notebook);
            }
        }
        if notebooks.contains(notebook) && !lies_under(notebook, top) {
            let k = choose|k: int| 0 <= k < notebooks.len() && notebooks[k] == notebook;
            if k < front.len() {
                assert(front[k] == notebook);
            } else {
                assert(all[before.len() as int] == notebook);
            }
        }
    }
}

proof fn lemma_notes_under(notes: Seq<NoteView>, top: Seq<char>, at: int)
    requires
        0 <= at < notes.len(),
        notes_under(notes, top) == 0,
    ensures
        !lies_under(notes[at].notebook, top),
    decreases notes.len(),
{
    if at < notes.len() - 1 {
        lemma_notes_under(notes.drop_last(), top, at);
    }
}

proof fn lemma_no_notes_under(notes: Seq<NoteView>, top: Seq<char>)
    requires
        forall|i: int|
            0 <= i < notes.len() ==> !lies_under((#[trigger] notes[i]).notebook, top),
    ensures
        notes_under(notes, top) == 0,
    decreases notes.len(),
{
    if notes.len() > 0 {
        let front = notes.drop_last();
        assert forall|i: int| 0 <= i < front.len() implies !lies_under(
            (#[trigger] front[i]).notebook,
            top,
        ) by {
            assert(front[i] == notes[i]);
        }
        lemma_no_notes_under(front, top);
        assert(notes.last() == notes[notes.len() - 1]);
    }
}

/// Renaming a notebook gives it the new name and keeps what is in it: every note
/// keeps its file, its object and its mark, those in the notebook or within it go
/// along, those outside stay, and a notebook that is there is never replaced.
pub proof fn law_a_rename_takes_the_notes_along(
    before: ManifestView,
    directory: Seq<char>,
    name: Seq<char>,
    new_name: Seq<char>,
    outcome: Result<String>,
    after: ManifestView,
    at: int,
)
    requires
        one_name(name),
        notebook_is_renamed(before, joined(directory, name), new_name, outcome, after),
    ensures
        ({
            let relative = joined(directory, name);
            &&& outcome is Err ==> after == before
            &&& same_path(relative, DEFAULT_NOTEBOOK@) ==> outcome is Err
            &&& outcome matches Ok(path) ==> {
                &&& path@ == relative || is_right_in(path@, directory) && file_name(path@) == Some(
                    trimmed(new_name),
                ) && !before.notebooks.contains(path@)
                &&& after.notes.len() == before.notes.len()
                &&& after.notebooks.len() == before.notebooks.len()
                &&& after.trash == before.trash
                &&& after.recovery == before.recovery
                &&& after.attachments == before.attachments
                &&& 0 <= at < before.notes.len() ==> {
                    let old_note = before.notes[at];
                    let note = after.notes[at];
                    &&& note.filename == old_note.filename
                    &&& note.object_id == old_note.object_id
                    &&& note.object_uuid == old_note.object_uuid
                    &&& note.snote == old_note.snote
                    &&& !lies_under(old_note.notebook, relative) ==> note.notebook
                        == old_note.notebook
                    &&& lies_under(old_note.notebook, relative) ==> note.notebook == path@
                        + old_note.notebook.skip(relative.len() as int)
                }
                &&& 0 <= at < before.notebooks.len() ==> {
                    &&& !lies_under(before.notebooks[at], relative) ==> after.notebooks[at]
                        == before.notebooks[at]
                    &&& before.notebooks[at] == relative ==> after.notebooks[at] == path@
                }
            }
        }),
{
    let relative = joined(directory, name);
    if outcome is Ok {
        crate::vault_laws::law_a_renamed_notebook_stays_in_place(directory, name, new_name);
        let path = outcome->Ok_0@;
        if path == relative {
            if 0 <= at < before.notes.len() && lies_under(before.notes[at].notebook, relative) {
                let notebook = before.notes[at].notebook;
                lemma_under_starts(notebook, relative);
                assert(relative + notebook.skip(relative.len() as int) =~= notebook);
            }
        } else {
            assert(relative.skip(relative.len() as int) =~= seq![]);
            assert(path + Seq::<char>::empty() =~= path);
        }
    }
}

proof fn lemma_under_starts(notebook: Seq<char>, top: Seq<char>)
    requires
        lies_under(notebook, top),
    ensures
        top.len() <= notebook.len(),
        notebook.take(top.len() as int) == top,
{
    if notebook != top {
        let start = top + seq!['/'];
        assert(notebook.subrange(0, start.len() as int) == start);
        assert forall|i: int| 0 <= i < top.len() implies notebook[i] == top[i] by {
            assert(notebook.subrange(0, start.len() as int)[i] == start[i]);
        }
    }
    assert(notebook.take(top.len() as int) =~= top);
}

/// Each notebook has one row, with the number of notes that lie right in it.
pub proof fn law_every_notebook_has_a_row(notebooks: Seq<Seq<char>>, notes: Seq<NoteView>)
    ensures
        manifest_rows(notebooks, notes).to_multiset() == notebooks.map_values(
            |notebook: Seq<char>|
                NotebookRow {
                    path: notebook,
                    count: notes.filter(|note: NoteView| note.notebook == notebook).len(),
                },
        ).to_multiset(),
    decreases notebooks.len(),
{
    broadcast use vstd::seq_lib::group_to_multiset_ensures;

    let row = |notebook: Seq<char>|
        NotebookRow {
            path: notebook,
            count: notes.filter(|note: NoteView| note.notebook == notebook).len(),
        };
    if notebooks.len() == 0 {
        assert(manifest_rows(notebooks, notes) =~= notebooks.map_values(row));
    } else {
        let front = notebooks.drop_last();
        let last = notebooks.last();
        law_every_notebook_has_a_row(front, notes);
        lemma_counted(notes, last);
        let before = manifest_rows(front, notes);
        lemma_place(before, last, 0);
        assert(notebooks.map_values(row) =~= front.map_values(row).push(row(last)));
    }
}

proof fn lemma_place(rows: Seq<NotebookRow>, path: Seq<char>, at: int)
    requires
        0 <= at <= rows.len(),
    ensures
        at <= crate::vault::row_place(rows, path, at) <= rows.len(),
    decreases rows.len() - at,
{
    if at < rows.len() {
        lemma_place(rows, path, at + 1);
    }
}

proof fn lemma_counted(notes: Seq<NoteView>, notebook: Seq<char>)
    ensures
        notes_right_in(notes, notebook) == notes.filter(
            |note: NoteView| note.notebook == notebook,
        ).len(),
    decreases notes.len(),
{
    reveal(Seq::filter);
    if notes.len() > 0 {
        lemma_counted(notes.drop_last(), notebook);
    }
}

// Notes.

/// A new note lies right in its notebook, which is listed then, in the clear and
/// under its own identifier; all other notes stay as they are.
pub proof fn law_a_created_note_is_there(
    before: ManifestView,
    title: Seq<char>,
    notebook: Seq<char>,
    id: Uuid,
    object_id: Seq<char>,
    outcome: Result<String>,
    after: ManifestView,
)
    requires
        note_is_created(before, title, notebook, id, object_id, outcome, after),
        no_separator(title_slug(title)),
    ensures
        outcome is Ok <==> valid_path(notebook),
        outcome is Err ==> after == before,
        outcome matches Ok(path) ==> {
            &&& is_right_in(path@, notebook)
            &&& valid_note_path(path@)
            &&& has_extension(path@, seq!['m', 'd'])
            &&& after.notes.len() == before.notes.len() + 1
            &&& after.notes.drop_last() == before.notes
            &&& after.notes.last().notebook == notebook
            &&& file_name(path@) == Some(after.notes.last().filename)
            &&& after.notes.last().object_id == object_id
            &&& after.notes.last().object_uuid == id
            &&& !after.notes.last().snote
            &&& after.notebooks.contains(notebook)
            &&& notes_right_in(after.notes, notebook) == notes_right_in(before.notes, notebook) + 1
            &&& after.trash == before.trash
        },
{
    if outcome is Ok {
        law_a_new_note_stands_in_its_notebook(notebook, title, id);
        let name = plain_name(title, id);
        reveal_strlit("--");
        reveal_strlit(".md");
        assert("--"@ =~= seq!['-', '-']);
        assert(".md"@ =~= seq!['.', 'm', 'd']);
        assert(name =~= title_slug(title) + seq!['-', '-'] + crate::paths::short_id(id) + seq![
            '.',
            'm',
            'd',
        ]);
        assert(after.notes.drop_last() =~= before.notes);
        if !before.notebooks.contains(notebook) {
            assert(after.notebooks[before.notebooks.len() as int] == notebook);
        }
    }
}

/// Whether one note changed its name and its mark, and nothing else changed.
pub open spec fn only_name_changes(before: ManifestView, after: ManifestView, at: int) -> bool {
    &&& 0 <= at < before.notes.len()
    &&& after.notes.len() == before.notes.len()
    &&& after.notes[at].object_id == before.notes[at].object_id
    &&& after.notes[at].object_uuid == before.notes[at].object_uuid
    &&& after.notes[at].notebook == before.notes[at].notebook
    &&& forall|i: int|
        0 <= i < before.notes.len() && i != at ==> #[trigger] after.notes[i] == before.notes[i]
    &&& after.notebooks == before.notebooks
    &&& after.trash == before.trash
    &&& after.recovery == before.recovery
    &&& after.attachments == before.attachments
    &&& after.session == before.session
}

/// The first note at a path, where there is one.
pub open spec fn first_at_path(notes: Seq<NoteView>, path: Seq<char>, at: int) -> bool {
    &&& 0 <= at < notes.len()
    &&& file_name(path) == Some(notes[at].filename)
    &&& notes[at].notebook == parent_path(path)
    &&& forall|i: int|
        0 <= i < at ==> !((#[trigger] notes[i]).notebook == parent_path(path) && file_name(path)
            == Some(notes[i].filename))
}

proof fn lemma_place_is_first(notes: Seq<NoteView>, path: Seq<char>)
    ensures
        0 <= place_of(notes, path) <= notes.len(),
        place_of(notes, path) < notes.len() ==> first_at_path(notes, path, place_of(notes, path)),
        place_of(notes, path) == notes.len() ==> forall|i: int|
            0 <= i < notes.len() ==> !((#[trigger] notes[i]).notebook == parent_path(path)
                && file_name(path) == Some(notes[i].filename)),
{
    if let Some(name) = file_name(path) {
        lemma_note_from(notes, parent_path(path), name, 0);
        let at = note_from(notes, parent_path(path), name, 0);
        assert forall|i: int| 0 <= i < at implies !((#[trigger] notes[i]).notebook == parent_path(
            path,
        ) && file_name(path) == Some(notes[i].filename)) by {
            assert(!lies_at(notes[i], parent_path(path), name));
        }
    }
}

/// Looking for a note in the clear finds the first one at its path, and never one
/// with a password of its own; looking for one with a password finds no other.
pub proof fn law_a_note_is_found_at_its_path(
    manifest: ManifestView,
    path: Seq<char>,
    plain: Result<usize>,
    sealed: Result<usize>,
)
    requires
        plain_is_found(manifest, path, plain),
        sealed_is_found(manifest, path, sealed),
    ensures
        plain matches Ok(index) ==> first_at_path(manifest.notes, path, index as int)
            && !manifest.notes[index as int].snote && has_extension(path, seq!['m', 'd']),
        sealed matches Ok(index) ==> first_at_path(manifest.notes, path, index as int)
            && manifest.notes[index as int].snote && has_extension(
            path,
            seq!['s', 'n', 'o', 't', 'e'],
        ),
        plain is Err || sealed is Err,
        valid_note_path(path) && has_extension(path, seq!['m', 'd']) && (exists|at: int|
            first_at_path(manifest.notes, path, at) && !manifest.notes[at].snote) ==> plain is Ok,
        valid_note_path(path) && has_extension(path, seq!['s', 'n', 'o', 't', 'e']) && (exists|
            at: int,
        |
            first_at_path(manifest.notes, path, at) && manifest.notes[at].snote) ==> sealed is Ok,
{
    lemma_place_is_first(manifest.notes, path);
    reveal_strlit("md");
    reveal_strlit("snote");
    assert("md"@ =~= seq!['m', 'd']);
    assert("snote"@ =~= seq!['s', 'n', 'o', 't', 'e']);
    let at = place_of(manifest.notes, path);
    if exists|k: int| first_at_path(manifest.notes, path, k) {
        let k = choose|k: int| first_at_path(manifest.notes, path, k);
        assert(at == k);
    }
}

/// A note that gets another title keeps its notebook and its object, and no other
/// note changes.
pub proof fn law_a_title_changes_one_name(
    before: ManifestView,
    path: Seq<char>,
    id: Uuid,
    title: Seq<char>,
    outcome: Result<String>,
    after: ManifestView,
)
    requires
        title_is_committed(before, path, id, title, outcome, after),
    ensures
        outcome is Err ==> after == before,
        outcome is Ok ==> exists|at: int|
            first_at_path(before.notes, path, at) && #[trigger] only_name_changes(before, after, at)
                && after.notes[at].snote == before.notes[at].snote,
{
    lemma_place_is_first(before.notes, path);
    let at = place_of(before.notes, path);
    if outcome is Ok {
        assert(only_name_changes(before, after, at));
    }
}

/// Giving a note a password of its own marks it, hides its title in its name and
/// keeps its notebook and its object; it takes a password that is long enough, and
/// no other note changes. Taking the password away undoes the mark.
pub proof fn law_sealing_marks_one_note(
    before: ManifestView,
    path: Seq<char>,
    id: Uuid,
    password: Seq<char>,
    outcome: Result<String>,
    after: ManifestView,
)
    requires
        note_is_sealed(before, path, id, password, outcome, after),
    ensures
        outcome is Err ==> after == before,
        password.len() < crate::constants::MIN_PASSWORD_LENGTH ==> outcome is Err,
        outcome matches Ok(next) ==> exists|at: int|
            {
                &&& first_at_path(before.notes, path, at)
                &&& #[trigger] only_name_changes(before, after, at)
                &&& after.notes[at].snote
                &&& is_right_in(next@, before.notes[at].notebook)
                &&& file_name(next@) == Some(after.notes[at].filename)
                &&& has_extension(next@, seq!['s', 'n', 'o', 't', 'e'])
            },
{
    lemma_place_is_first(before.notes, path);
    let at = place_of(before.notes, path);
    if outcome is Ok {
        assert(only_name_changes(before, after, at));
        let notebook = before.notes[at].notebook;
        lemma_sealed_name(id);
        law_a_joined_name_stands_right_in_its_directory(notebook, sealed_name(id), notebook);
    }
}

proof fn lemma_sealed_name(id: Uuid)
    ensures
        one_name(sealed_name(id)),
        crate::paths::extension(sealed_name(id)) == Some(seq!['s', 'n', 'o', 't', 'e']),
{
    reveal_strlit("encrypted--");
    reveal_strlit(".snote");
    crate::ident_laws::law_digits_stand_for_the_identifier(id);
    let stem = "encrypted--"@ + crate::paths::short_id(id);
    let ending = seq!['s', 'n', 'o', 't', 'e'];
    let name = sealed_name(id);
    assert(name =~= stem + seq!['.'] + ending);
    assert forall|i: int| 0 <= i < name.len() implies name[i] != '/' by {
        if 11 <= i < 19 {
            assert(name[i] == id.spec_simple()[i - 11]);
        }
    }
    crate::path_laws::law_an_extension_stands_behind_the_last_dot(stem, ending);
}

/// Taking the password of a note away takes its mark and keeps its notebook and its
/// object; no other note changes.
pub proof fn law_unsealing_unmarks_one_note(
    before: ManifestView,
    path: Seq<char>,
    id: Uuid,
    title: Seq<char>,
    outcome: Result<String>,
    after: ManifestView,
)
    requires
        note_is_unsealed(before, path, id, title, outcome, after),
    ensures
        outcome is Err ==> after == before,
        outcome is Ok ==> exists|at: int|
            {
                &&& first_at_path(before.notes, path, at)
                &&& #[trigger] only_name_changes(before, after, at)
                &&& !after.notes[at].snote
            },
{
    lemma_place_is_first(before.notes, path);
    let at = place_of(before.notes, path);
    if outcome is Ok {
        assert(only_name_changes(before, after, at));
    }
}

/// A note that is moved lies right in the notebook then, under the name and with the
/// object that it had; no note is replaced, and no other note changes.
pub proof fn law_a_moved_note_changes_its_notebook_alone(
    before: ManifestView,
    path: Seq<char>,
    notebook: Seq<char>,
    outcome: Result<String>,
    after: ManifestView,
    i: int,
)
    requires
        note_is_moved(before, path, notebook, outcome, after),
    ensures
        outcome is Err ==> after.notes == before.notes,
        after.notes.len() == before.notes.len(),
        after.trash == before.trash,
        after.recovery == before.recovery,
        after.attachments == before.attachments,
        outcome is Ok ==> after.notebooks.contains(notebook),
        outcome is Ok && 0 <= i < before.notes.len() ==> {
            &&& after.notes[i].filename == before.notes[i].filename
            &&& after.notes[i].object_id == before.notes[i].object_id
            &&& after.notes[i].object_uuid == before.notes[i].object_uuid
            &&& after.notes[i].snote == before.notes[i].snote
            &&& first_at_path(before.notes, path, i) ==> after.notes[i].notebook == notebook
            &&& !first_at_path(before.notes, path, i) ==> after.notes[i].notebook
                == before.notes[i].notebook
        },
        outcome is Ok && 0 <= i < before.notes.len() && !first_at_path(before.notes, path, i) && !(
        exists|at: int|
            first_at_path(before.notes, path, at) && before.notes[at].notebook == notebook)
            ==> !(exists|at: int|
            first_at_path(before.notes, path, at) && lies_at(
                before.notes[i],
                notebook,
                before.notes[at].filename,
            )),
{
    lemma_place_is_first(before.notes, path);
    let at = place_of(before.notes, path);
    if !before.notebooks.contains(notebook) {
        let more = before.notebooks.push(notebook);
        assert(more[before.notebooks.len() as int] == notebook);
    }
    if outcome is Ok && 0 <= i < before.notes.len() {
        if first_at_path(before.notes, path, i) {
            assert(i == at);
        }
        if exists|k: int|
            first_at_path(before.notes, path, k) && lies_at(
                before.notes[i],
                notebook,
                before.notes[k].filename,
            ) {
            let k = choose|k: int|
                first_at_path(before.notes, path, k) && lies_at(
                    before.notes[i],
                    notebook,
                    before.notes[k].filename,
                );
            assert(k == at);
            if before.notes[at].notebook != notebook {
                assert(is_taken(before.notes, notebook, before.notes[at].filename));
            }
        }
    }
}

// The trash.

/// A note that is thrown away leaves the notes and is listed in the trash with its
/// object, its mark and where it was; no other note and no other record changes, and
/// the trash knows no title of a note with a password of its own.
pub proof fn law_a_thrown_note_is_in_the_trash(
    before: ManifestView,
    path: Seq<char>,
    note_id: Uuid,
    title: Seq<char>,
    now: Timestamp,
    outcome: Result<TrashEntry>,
    after: ManifestView,
)
    requires
        note_is_thrown_away(before, path, note_id, title, now, outcome, after),
    ensures
        outcome is Err ==> after == before,
        outcome matches Ok(entry) ==> exists|at: int|
            {
                &&& #[trigger] first_at_path(before.notes, path, at)
                &&& after.notes == before.notes.remove(at)
                &&& after.trash.drop_last() == before.trash
                &&& after.trash.last().object_id == before.notes[at].object_id
                &&& after.trash.last().object_uuid == before.notes[at].object_uuid
                &&& after.trash.last().snote == before.notes[at].snote
                &&& after.trash.last().note_id == note_id
                &&& after.trash.last().original == path
                &&& after.trash.last().trashed_at == now
                &&& !before.notes[at].snote ==> after.trash.last().title == title
                &&& before.notes[at].snote ==> after.trash.last().title
                    == crate::model::locked_title(note_id)
                &&& entry.id == note_id
                &&& entry.title@ == after.trash.last().title
                &&& entry.encrypted == before.notes[at].snote
                &&& entry.original_relative_path@ == path
                &&& entry.trashed_at == now
            },
        after.notebooks == before.notebooks,
        after.recovery == before.recovery,
        after.attachments == before.attachments,
{
    lemma_place_is_first(before.notes, path);
    let at = place_of(before.notes, path);
    if outcome is Ok {
        assert(after.trash.drop_last() =~= before.trash);
        assert(first_at_path(before.notes, path, at));
    }
}

/// The first record of a note in the trash, where there is one.
pub open spec fn first_in_trash(trash: Seq<TrashView>, id: Uuid, at: int) -> bool {
    &&& 0 <= at < trash.len()
    &&& trash[at].note_id == id
    &&& forall|i: int| 0 <= i < at ==> (#[trigger] trash[i]).note_id != id
}

proof fn lemma_first_in_trash(trash: Seq<TrashView>, id: Uuid, at: int)
    requires
        0 <= at <= trash.len(),
        forall|i: int| 0 <= i < at ==> (#[trigger] trash[i]).note_id != id,
    ensures
        at <= trash_from(trash, id, at) <= trash.len(),
        trash_from(trash, id, at) < trash.len() ==> first_in_trash(
            trash,
            id,
            trash_from(trash, id, at),
        ),
        trash_from(trash, id, at) == trash.len() ==> forall|i: int|
            0 <= i < trash.len() ==> (#[trigger] trash[i]).note_id != id,
    decreases trash.len() - at,
{
    if at < trash.len() && trash[at].note_id != id {
        lemma_first_in_trash(trash, id, at + 1);
    }
}

/// A note that is restored leaves the trash and is a note again, with the object and
/// the mark that it had; it goes to where it was if its notebook is there and its
/// place is free, and else into the notebook that every vault has. No other note
/// changes, and none is replaced.
pub proof fn law_a_restored_note_is_a_note_again(
    before: ManifestView,
    id: Uuid,
    outcome: Result<String>,
    after: ManifestView,
)
    requires
        note_is_restored(before, id, outcome, after),
    ensures
        outcome is Err ==> after == before,
        outcome matches Ok(path) ==> exists|at: int|
            {
                let record = before.trash[at];
                let note = after.notes.last();
                &&& #[trigger] first_in_trash(before.trash, id, at)
                &&& after.trash == before.trash.remove(at)
                &&& after.notes.drop_last() == before.notes
                &&& note.object_id == record.object_id
                &&& note.object_uuid == record.object_uuid
                &&& note.snote == record.snote
                &&& path@ == joined(note.notebook, note.filename)
                &&& after.notebooks.contains(note.notebook)
                &&& note.notebook == DEFAULT_NOTEBOOK@ || note.notebook == parent_path(
                    record.original,
                ) && file_name(record.original) == Some(note.filename) || note.notebook
                    == parent_path(record.original) && file_name(record.original) is None
                &&& forall|i: int|
                    0 <= i < before.notes.len() ==> !lies_at(
                        #[trigger] before.notes[i],
                        note.notebook,
                        note.filename,
                    )
            },
        outcome is Ok ==> exists|i: int|
            0 <= i < before.trash.len() && (#[trigger] before.trash[i]).note_id == id,
        after.recovery == before.recovery,
        after.attachments == before.attachments,
{
    lemma_first_in_trash(before.trash, id, 0);
    let at = trash_from(before.trash, id, 0);
    if outcome is Ok {
        assert(first_in_trash(before.trash, id, at));
        assert(after.notes.drop_last() =~= before.notes);
        let note = after.notes.last();
        if !before.notebooks.contains(note.notebook) {
            assert(after.notebooks[before.notebooks.len() as int] == note.notebook);
        }
        assert forall|i: int| 0 <= i < before.notes.len() implies !lies_at(
            #[trigger] before.notes[i],
            note.notebook,
            note.filename,
        ) by {
            if lies_at(before.notes[i], note.notebook, note.filename) {
                assert(is_taken(before.notes, note.notebook, note.filename));
            }
        }
        assert(before.trash[at].note_id == id);
    }
}

/// Deleting a note in the trash for good takes its own record and names its own
/// object; nothing else changes.
pub proof fn law_one_record_is_destroyed(
    before: ManifestView,
    id: Uuid,
    outcome: Result<String>,
    after: ManifestView,
)
    requires
        note_is_destroyed(before, id, outcome, after),
    ensures
        outcome is Err ==> after == before,
        outcome is Ok <==> exists|i: int|
            0 <= i < before.trash.len() && (#[trigger] before.trash[i]).note_id == id,
        outcome matches Ok(object_id) ==> exists|at: int|
            #[trigger] first_in_trash(before.trash, id, at) && after.trash == before.trash.remove(
                at,
            ) && object_id@ == before.trash[at].object_id,
        after.notes == before.notes,
        after.notebooks == before.notebooks,
        after.recovery == before.recovery,
        after.attachments == before.attachments,
{
    lemma_first_in_trash(before.trash, id, 0);
    let at = trash_from(before.trash, id, 0);
    if outcome is Ok {
        assert(first_in_trash(before.trash, id, at));
        assert(before.trash[at].note_id == id);
    }
}

// Unsaved edits and attachments.

/// A note has one record of unsaved edits once they are kept, that of the edits that
/// were kept last; the records of other notes stay as they are.
pub proof fn law_the_last_edits_are_kept(
    before: ManifestView,
    path: Seq<char>,
    note_id: Uuid,
    object_id: Seq<char>,
    object_uuid: Uuid,
    outcome: Result<()>,
    after: ManifestView,
)
    requires
        recovery_is_written(before, path, note_id, object_id, object_uuid, outcome, after),
    ensures
        outcome is Err ==> after == before,
        outcome is Ok <==> has_extension(path, seq!['m', 'd']),
        outcome is Ok ==> after.recovery == before.recovery.filter(
            |record: RecoveryView| record.note_id != note_id,
        ).push(RecoveryView { object_id, object_uuid, note_id }),
        after.notes == before.notes,
        after.trash == before.trash,
        after.attachments == before.attachments,
        recovery_objects(before.recovery, note_id) == before.recovery.filter(
            |record: RecoveryView| record.note_id == note_id,
        ).map_values(|record: RecoveryView| record.object_id),
{
    reveal_strlit("md");
    assert("md"@ =~= seq!['m', 'd']);
    lemma_recovery(before.recovery, note_id);
}

proof fn lemma_recovery(records: Seq<RecoveryView>, note_id: Uuid)
    ensures
        recovery_without(records, note_id) == records.filter(
            |record: RecoveryView| record.note_id != note_id,
        ),
        recovery_objects(records, note_id) == records.filter(
            |record: RecoveryView| record.note_id == note_id,
        ).map_values(|record: RecoveryView| record.object_id),
    decreases records.len(),
{
    reveal(Seq::filter);
    let kept = records.filter(|record: RecoveryView| record.note_id != note_id);
    let own = records.filter(|record: RecoveryView| record.note_id == note_id);
    let ids = own.map_values(|record: RecoveryView| record.object_id);
    if records.len() > 0 {
        lemma_recovery(records.drop_last(), note_id);
        let front = records.drop_last().filter(|record: RecoveryView| record.note_id == note_id);
        assert(ids =~= recovery_objects(records, note_id)) by {
            if records.last().note_id == note_id {
                assert(own == front.push(records.last()));
            }
        }
    } else {
        assert(recovery_without(records, note_id) =~= kept);
        assert(recovery_objects(records, note_id) =~= ids);
    }
}

/// An attachment that was written is read by its note and its name, unless one of
/// these was there before, which is read then; other attachments are read as before.
pub proof fn law_an_attachment_is_read_back(
    manifest: ManifestView,
    note_id: Uuid,
    name: Seq<char>,
    object_id: Seq<char>,
    object_uuid: Uuid,
    other_id: Uuid,
    other: Seq<char>,
)
    ensures
        ({
            let after = with_attachment(manifest, note_id, name, object_id, object_uuid);
            let at = attachment_from(after.attachments, note_id, name, 0);
            let old_at = attachment_from(manifest.attachments, other_id, other, 0);
            &&& at < after.attachments.len()
            &&& after.attachments[at].note_id == note_id
            &&& after.attachments[at].name == name
            &&& attachment_from(manifest.attachments, note_id, name, 0)
                == manifest.attachments.len() ==> after.attachments[at].object_id == object_id
            &&& old_at < manifest.attachments.len() ==> attachment_from(
                after.attachments,
                other_id,
                other,
                0,
            ) == old_at && after.attachments[old_at] == manifest.attachments[old_at]
            &&& after.notes == manifest.notes
            &&& after.trash == manifest.trash
        }),
{
    let after = with_attachment(manifest, note_id, name, object_id, object_uuid);
    let record = after.attachments.last();
    lemma_attachment_pushed(manifest.attachments, record, note_id, name, 0);
    lemma_attachment_pushed(manifest.attachments, record, other_id, other, 0);
}

proof fn lemma_attachment_pushed(
    records: Seq<AttachmentView>,
    record: AttachmentView,
    note_id: Uuid,
    name: Seq<char>,
    at: int,
)
    requires
        0 <= at <= records.len(),
    ensures
        ({
            let found = attachment_from(records, note_id, name, at);
            let more = attachment_from(records.push(record), note_id, name, at);
            &&& at <= found <= records.len()
            &&& found < records.len() ==> more == found && records[found].note_id == note_id
                && records[found].name == name
            &&& found == records.len() && record.note_id == note_id && record.name == name
                ==> more == records.len()
        }),
    decreases records.len() - at,
{
    let all = records.push(record);
    if at < records.len() {
        assert(all[at] == records[at]);
        if !(records[at].note_id == note_id && records[at].name == name) {
            lemma_attachment_pushed(records, record, note_id, name, at + 1);
        }
    } else {
        assert(all[at] == record);
    }
}

} // verus!
