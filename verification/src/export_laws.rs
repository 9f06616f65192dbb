//! What an export keeps: every note in its notebook, every note of the trash in
//! the trash, every notebook, and nothing in the place of anything else.

use vstd::prelude::*;

use crate::crypto::vault::{object_in, KeysView, ObjectType};
use crate::error::Result;
use crate::path_laws::{
    goes_behind, law_a_joined_name_stands_right_in_its_directory,
    law_joining_puts_components_behind, law_one_name_is_one_component, one_name,
};
use crate::paths::{components, file_name, is_right_in, joined, same_path, valid_path};
use crate::storage::has_parent;
use crate::vault::{parent_path, Vault};
use crate::vault_encrypted::manifest::{notes_right_in, ManifestView, NoteView, TrashView};
use crate::vault_export::{
    copies_all_trash, copies_note, copies_notes, copies_trash, is_built_check, is_copy_count,
    is_report, named, path_with, snotes_among, temp_base, temp_name, ExportReport, ObjectCopy,
    TEMP_PREFIX,
};

verus! {

/// Whether a note has a place: a notebook that is a valid path, or none, and a
/// file name.
pub open spec fn has_place(note: NoteView) -> bool {
    (note.notebook.len() == 0 || valid_path(note.notebook)) && one_name(note.filename)
}

/// The directory of a notebook in a vault at a root.
pub open spec fn notebook_dir(root: Seq<char>, notebook: Seq<char>) -> Seq<char> {
    if notebook.len() == 0 {
        joined(root, "Notes"@)
    } else {
        joined(joined(root, "Notes"@), notebook)
    }
}

proof fn lemma_no_components()
    ensures
        components(Seq::<char>::empty()) == Seq::<Seq<char>>::empty(),
{
    let none = Seq::<char>::empty();
    crate::text::lemma_split_whole(none, '/');
    reveal_with_fuel(crate::paths::components_upto, 2);
    assert(components(none) =~= Seq::<Seq<char>>::empty());
}

proof fn lemma_notes_name()
    ensures
        one_name("Notes"@),
        one_name("Trash"@),
{
    reveal_strlit("Notes");
    reveal_strlit("Trash");
    assert("Notes"@.len() == 5 && "Trash"@.len() == 5);
    assert(seq!['.'].len() == 1 && seq!['.', '.'].len() == 2);
}

/// Below the notes of the new vault a copy stands at the path that its note has in the
/// sealed vault, whatever that path is, so long as it does not lead elsewhere.
pub proof fn law_a_copy_stands_at_the_path_of_its_note(
    copy: ObjectCopy,
    state_dir: Seq<char>,
    temp: Seq<char>,
    note: NoteView,
)
    requires
        copies_note(copy, state_dir, temp, note),
        goes_behind(joined(note.notebook, note.filename)),
    ensures
        components(copy.target@) == components(temp) + seq!["Notes"@] + components(
            joined(note.notebook, note.filename),
        ),
{
    lemma_notes_name();
    law_one_name_is_one_component("Notes"@);
    law_joining_puts_components_behind(temp, "Notes"@);
    law_joining_puts_components_behind(
        joined(temp, "Notes"@),
        joined(note.notebook, note.filename),
    );
}

/// A copy of a note, with a password of its own or without, keeps the note's
/// place: below the notes of the new vault it stands right in the directory of the
/// note's notebook, under the note's file name.
pub proof fn law_a_copied_note_keeps_its_notebook(
    copy: ObjectCopy,
    state_dir: Seq<char>,
    temp: Seq<char>,
    note: NoteView,
)
    requires
        copies_note(copy, state_dir, temp, note),
        has_place(note),
    ensures
        components(copy.target@) == components(temp) + seq!["Notes"@] + components(note.notebook)
            + seq![note.filename],
        file_name(copy.target@) == Some(note.filename),
        is_right_in(copy.target@, notebook_dir(temp, note.notebook)),
        forall|notebook: Seq<char>|
            (notebook.len() == 0 || valid_path(notebook)) ==> (is_right_in(
                copy.target@,
                #[trigger] notebook_dir(temp, notebook),
            ) <==> same_path(notebook, note.notebook)),
{
    lemma_notes_name();
    lemma_no_components();
    let name = note.filename;
    law_one_name_is_one_component("Notes"@);
    law_one_name_is_one_component(name);
    law_joining_puts_components_behind(temp, "Notes"@);
    let base = joined(temp, "Notes"@);
    let place = joined(note.notebook, name);
    law_a_joined_name_stands_right_in_its_directory(note.notebook, name, note.notebook);
    if note.notebook.len() == 0 {
        assert(note.notebook =~= Seq::<char>::empty());
        assert(place == name);
    } else {
        assert(place.len() > 0);
        assert(place[0] == note.notebook[0]);
        assert(goes_behind(place)) by {
            let stem = if note.notebook.last() == '/' {
                note.notebook.drop_last()
            } else {
                note.notebook
            };
            assert(place =~= stem + seq!['/'] + name);
            crate::path_laws::law_a_separator_parts_a_text(stem, name, '/');
            let front = crate::text::split_on(stem, '/');
            assert(crate::text::split_on(place, '/')[0] == front[0]);
            if note.notebook.last() == '/' {
                let none = Seq::<char>::empty();
                assert(note.notebook =~= stem + seq!['/'] + none);
                crate::path_laws::law_a_separator_parts_a_text(stem, none, '/');
                assert(crate::text::split_on(note.notebook, '/')[0] == front[0]);
            }
        }
    }
    law_joining_puts_components_behind(base, place);
    let parts = components(copy.target@);
    let front = components(temp) + seq!["Notes"@];
    assert(components(base) == front);
    assert(parts == front + components(place));
    assert(components(place) == components(note.notebook).push(name));
    assert(parts =~= front + components(note.notebook) + seq![name]);
    assert(parts.last() == name);
    assert(name != seq!['/']) by {
        if name == seq!['/'] {
            assert(name[0] == '/');
        }
    }
    assert forall|notebook: Seq<char>|
        notebook.len() == 0 || valid_path(notebook) implies (is_right_in(
        copy.target@,
        #[trigger] notebook_dir(temp, notebook),
    ) <==> same_path(notebook, note.notebook)) by {
        let dir = notebook_dir(temp, notebook);
        if notebook.len() == 0 {
            assert(notebook =~= Seq::<char>::empty());
            assert(components(dir) =~= front + components(notebook));
        } else {
            law_joining_puts_components_behind(base, notebook);
            assert(components(dir) == front + components(notebook));
        }
        assert(parts.drop_last() =~= front + components(note.notebook));
        assert((front + components(note.notebook)).skip(front.len() as int)
            =~= components(note.notebook));
        assert((front + components(notebook)).skip(front.len() as int) =~= components(notebook));
    }
}

/// Copies of notes that lie at different places are written to different files, so
/// that none replaces another.
pub proof fn law_copies_do_not_replace_each_other(
    one: ObjectCopy,
    two: ObjectCopy,
    state_dir: Seq<char>,
    temp: Seq<char>,
    first: NoteView,
    second: NoteView,
)
    requires
        copies_note(one, state_dir, temp, first),
        copies_note(two, state_dir, temp, second),
        has_place(first),
        has_place(second),
    ensures
        same_path(one.target@, two.target@) <==> same_path(first.notebook, second.notebook)
            && first.filename == second.filename,
{
    law_a_copied_note_keeps_its_notebook(one, state_dir, temp, first);
    law_a_copied_note_keeps_its_notebook(two, state_dir, temp, second);
    let front = components(temp) + seq!["Notes"@];
    let left = components(one.target@);
    let right = components(two.target@);
    assert(left.last() == first.filename && right.last() == second.filename);
    assert(left.drop_last().skip(front.len() as int) =~= components(first.notebook));
    assert(right.drop_last().skip(front.len() as int) =~= components(second.notebook));
}

/// How many copies are written right into a directory.
pub open spec fn copies_right_in(copies: Seq<ObjectCopy>, directory: Seq<char>) -> nat
    decreases copies.len(),
{
    if copies.len() == 0 {
        0
    } else {
        copies_right_in(copies.drop_last(), directory) + (if is_right_in(
            copies.last().target@,
            directory,
        ) {
            1nat
        } else {
            0nat
        })
    }
}

/// Under each notebook the new vault has as many notes as the sealed one, where no
/// notebook is written in two ways.
pub proof fn law_every_notebook_keeps_its_notes(
    copies: Seq<ObjectCopy>,
    state_dir: Seq<char>,
    temp: Seq<char>,
    notes: Seq<NoteView>,
    notebook: Seq<char>,
)
    requires
        copies_notes(copies, state_dir, temp, notes),
        forall|i: int| 0 <= i < notes.len() ==> has_place(#[trigger] notes[i]),
        forall|i: int|
            0 <= i < notes.len() && same_path((#[trigger] notes[i]).notebook, notebook)
                ==> notes[i].notebook == notebook,
        valid_path(notebook),
    ensures
        copies_right_in(copies, notebook_dir(temp, notebook)) == notes_right_in(notes, notebook),
    decreases copies.len(),
{
    if copies.len() > 0 {
        let last = copies.len() - 1;
        assert(copies_note(copies[last], state_dir, temp, notes[last]));
        assert(has_place(notes[last]));
        law_a_copied_note_keeps_its_notebook(copies[last], state_dir, temp, notes[last]);
        assert(is_right_in(copies[last].target@, notebook_dir(temp, notebook)) <==> same_path(
            notebook,
            notes[last].notebook,
        ));
        assert forall|i: int| 0 <= i < copies.drop_last().len() implies copies_note(
            #[trigger] copies.drop_last()[i],
            state_dir,
            temp,
            notes.drop_last()[i],
        ) by {
            assert(copies_note(copies[i], state_dir, temp, notes[i]));
        }
        assert forall|i: int| 0 <= i < notes.drop_last().len() implies has_place(
            #[trigger] notes.drop_last()[i],
        ) by {
            assert(has_place(notes[i]));
        }
        law_every_notebook_keeps_its_notes(
            copies.drop_last(),
            state_dir,
            temp,
            notes.drop_last(),
            notebook,
        );
    }
}

/// A copy is read from the object of its note, and is opened as a container where
/// the note has a password of its own and as plain Markdown where it has none.
pub proof fn law_a_copy_reads_its_own_object(
    copy: ObjectCopy,
    state_dir: Seq<char>,
    temp: Seq<char>,
    note: NoteView,
    keys: KeysView,
    blob: Seq<u8>,
)
    requires
        copies_note(copy, state_dir, temp, note),
        one_name(note.object_id),
    ensures
        components(copy.source@) == components(state_dir) + seq!["store"@, note.object_id],
        note.snote ==> object_in(keys, copy.object_type, copy.object_uuid, blob) == object_in(
            keys,
            ObjectType::InnerSnote,
            note.object_uuid,
            blob,
        ),
        !note.snote ==> object_in(keys, copy.object_type, copy.object_uuid, blob) == object_in(
            keys,
            ObjectType::Note,
            note.object_uuid,
            blob,
        ),
{
    lemma_object_place(state_dir, note.object_id);
}

proof fn lemma_object_place(state_dir: Seq<char>, object_id: Seq<char>)
    requires
        one_name(object_id),
    ensures
        components(crate::vault_encrypted::store::object_path(state_dir, object_id)) == components(
            state_dir,
        ) + seq!["store"@, object_id],
{
    reveal_strlit("store");
    assert(one_name("store"@)) by {
        assert("store"@.len() == 5);
        assert(seq!['.'].len() == 1 && seq!['.', '.'].len() == 2);
    }
    law_a_joined_name_stands_right_in_its_directory(state_dir, "store"@, state_dir);
    let dir = joined(state_dir, "store"@);
    law_a_joined_name_stands_right_in_its_directory(dir, object_id, dir);
    assert(components(state_dir).push("store"@).push(object_id) =~= components(state_dir) + seq![
        "store"@,
        object_id,
    ]);
}

/// A note of the trash is copied to where an ordinary vault at the new root looks
/// for it, from its own object and with its own type.
pub proof fn law_copied_trash_is_found_again(
    copy: ObjectCopy,
    state_dir: Seq<char>,
    temp: Seq<char>,
    record: TrashView,
    vault: Vault,
)
    requires
        copies_trash(copy, state_dir, temp, record),
        one_name(record.object_id),
        vault.spec_root() == temp,
    ensures
        copy.target@ == vault.spec_trashed_note(record.note_id, record.snote),
        copy.object_uuid == record.object_uuid,
        record.snote ==> copy.object_type == ObjectType::InnerSnote,
        !record.snote ==> copy.object_type == ObjectType::Note,
        components(copy.source@) == components(state_dir) + seq!["store"@, record.object_id],
{
    lemma_object_place(state_dir, record.object_id);
}

/// The new vault gets every notebook that has a name and no other, in the order
/// and as often as the manifest lists them.
pub proof fn law_every_named_notebook_is_made(notebooks: Seq<Seq<char>>, notebook: Seq<char>)
    ensures
        named(notebooks).contains(notebook) <==> notebooks.contains(notebook) && notebook.len() > 0,
        named(notebooks) == notebooks.filter(|name: Seq<char>| name.len() > 0),
    decreases notebooks.len(),
{
    reveal(Seq::filter);
    if notebooks.len() > 0 {
        let before = named(notebooks.drop_last());
        let last = notebooks.last();
        law_every_named_notebook_is_made(notebooks.drop_last(), notebook);
        let all = named(notebooks);
        if before.contains(notebook) {
            let k = choose|k: int| 0 <= k < before.len() && before[k] == notebook;
            assert(all[k] == notebook);
        }
        if all.contains(notebook) {
            let k = choose|k: int| 0 <= k < all.len() && all[k] == notebook;
            if k < before.len() {
                assert(before[k] == notebook);
            }
        }
        if notebooks.contains(notebook) {
            let k = choose|k: int| 0 <= k < notebooks.len() && notebooks[k] == notebook;
            if k < notebooks.len() - 1 {
                assert(notebooks.drop_last()[k] == notebook);
            } else if notebook.len() > 0 {
                assert(all[before.len() as int] == notebook);
            }
        }
        if notebooks.drop_last().contains(notebook) {
            let k = choose|k: int|
                0 <= k < notebooks.drop_last().len() && notebooks.drop_last()[k] == notebook;
            assert(notebooks[k] == notebook);
        }
        if last == notebook {
            assert(notebooks[notebooks.len() - 1] == notebook);
        }
    }
}

/// The notes with a password of their own that an export reports are all of them.
pub proof fn law_reported_containers_are_counted(notes: Seq<NoteView>)
    ensures
        snotes_among(notes) == notes.filter(|note: NoteView| note.snote).len(),
        snotes_among(notes) <= notes.len(),
    decreases notes.len(),
{
    reveal(Seq::filter);
    if notes.len() > 0 {
        law_reported_containers_are_counted(notes.drop_last());
    }
}

/// Every note is copied, and every note of the trash; where all these are found again
/// in the vault that was built it is accepted, and where any is missing or one is
/// there too many it is not. A vault with attachments is not exported at all.
pub proof fn law_nothing_is_left_behind(
    manifest: ManifestView,
    copies: Seq<ObjectCopy>,
    trashed: Seq<ObjectCopy>,
    state_dir: Seq<char>,
    temp: Seq<char>,
    count: Result<usize>,
    scanned: usize,
    scanned_trash: usize,
    checked: Result<()>,
)
    requires
        copies_notes(copies, state_dir, temp, manifest.notes),
        copies_all_trash(trashed, state_dir, temp, manifest.trash),
        is_copy_count(manifest, count),
        is_built_check(manifest, scanned, scanned_trash, checked),
    ensures
        count matches Ok(total) ==> total == copies.len() + trashed.len(),
        count is Ok <==> manifest.attachments.len() == 0,
        checked is Ok <==> scanned == copies.len() && scanned_trash == trashed.len(),
        forall|i: int|
            0 <= i < copies.len() ==> (#[trigger] copies[i]).object_uuid
                == manifest.notes[i].object_uuid,
        forall|i: int|
            0 <= i < trashed.len() ==> (#[trigger] trashed[i]).object_uuid
                == manifest.trash[i].object_uuid,
{
}

/// A report counts every note once, as one with a password of its own or as one
/// without, every notebook with a name and every note of the trash.
pub proof fn law_a_report_counts_everything_once(
    manifest: ManifestView,
    destination: Seq<char>,
    report: ExportReport,
)
    requires
        is_report(manifest, destination, report),
    ensures
        report.destination@ == destination,
        report.snotes == manifest.notes.filter(|note: NoteView| note.snote).len(),
        report.notes == manifest.notes.filter(|note: NoteView| !note.snote).len(),
        report.notebooks == manifest.notebooks.filter(|name: Seq<char>| name.len() > 0).len(),
        report.trashed == manifest.trash.len(),
{
    law_reported_containers_are_counted(manifest.notes);
    law_every_named_notebook_is_made(manifest.notebooks, destination);
    lemma_two_kinds(manifest.notes);
}

proof fn lemma_two_kinds(notes: Seq<NoteView>)
    ensures
        notes.filter(|note: NoteView| note.snote).len() + notes.filter(
            |note: NoteView| !note.snote,
        ).len() == notes.len(),
    decreases notes.len(),
{
    reveal(Seq::filter);
    if notes.len() > 0 {
        lemma_two_kinds(notes.drop_last());
    }
}

/// The directory that a vault is built in stands right beside the destination, under
/// another name, so that it can take its place in one step.
pub proof fn law_a_vault_is_built_beside_its_place(destination: Seq<char>, token: Seq<char>)
    requires
        has_parent(destination),
        parent_path(destination).len() > 0,
        forall|i: int| 0 <= i < token.len() ==> #[trigger] token[i] != '/',
    ensures
        components(joined(temp_base(destination), temp_name(token))).drop_last() == components(
            destination,
        ).drop_last(),
        file_name(joined(temp_base(destination), temp_name(token))) == Some(temp_name(token)),
        temp_name(token)[0] == '.',
{
    let name = temp_name(token);
    reveal_strlit(".senatorial-export-");
    reveal_strlit(".tmp");
    let front = TEMP_PREFIX@;
    assert(name.len() > 2);
    assert forall|i: int| 0 <= i < name.len() implies name[i] != '/' by {
        if front.len() <= i < front.len() + token.len() {
            assert(name[i] == token[i - front.len()]);
        }
    }
    crate::vault_laws::law_the_parent_lacks_the_last_component(destination);
    law_a_joined_name_stands_right_in_its_directory(temp_base(destination), name, destination);
    let parts = components(joined(temp_base(destination), name));
    assert(parts.drop_last() =~= components(temp_base(destination)));
}

/// A path is resolved to what is there of it with the names behind it that are not
/// there yet, in their order.
pub proof fn law_missing_names_stand_behind(base: Seq<char>, tail: Seq<Seq<char>>)
    requires
        forall|i: int| 0 <= i < tail.len() ==> one_name(#[trigger] tail[i]),
    ensures
        components(path_with(base, tail)) == components(base) + tail.reverse(),
    decreases tail.len(),
{
    if tail.len() == 0 {
        assert(components(base) + tail.reverse() =~= components(base));
    } else {
        let front = tail.drop_last();
        let last = tail.last();
        assert(one_name(tail[tail.len() - 1]));
        assert forall|i: int| 0 <= i < front.len() implies one_name(#[trigger] front[i]) by {
            assert(front[i] == tail[i]);
        }
        law_a_joined_name_stands_right_in_its_directory(base, last, base);
        law_missing_names_stand_behind(joined(base, last), front);
        assert(components(base).push(last) + front.reverse() =~= components(base)
            + tail.reverse());
    }
}

} // verus!
