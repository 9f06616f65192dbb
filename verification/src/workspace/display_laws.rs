//! What the window shows of notes and vaults, and what it says.

use vstd::prelude::*;
use vstd::utf8::encode_utf8;

use crate::config::{AppConfig, SortOrder};
use crate::error::{message_of, Error};
use crate::ident::Uuid;
use crate::markdown_spans::{range_shows, span_shows, Span, SpanView};
use crate::model::{Note, NoteSummary};
use crate::path_laws::{law_a_joined_name_stands_right_in_its_directory, one_name};
use crate::paths::{components, file_name, joined, same_path};
use crate::search::{
    law_encrypted_notes_are_found_by_title_alone, law_title_body_and_every_tag_are_searched,
    matches_query,
};
use crate::sort::stands_before;
use crate::storage::{has_parent, temporary_path};
use crate::text::{contains_text, lowercase, texts, trimmed};
use crate::text_laws::{law_a_text_holds_what_stands_in_it, law_byte_ranges_hold_whole_characters};
use crate::ui_state::ViewMode;
use crate::vault::{is_trash_record, parent_path};
use crate::vault_encrypted::manifest::NoteView;
use crate::vault_encrypted::notes::summarised;
use crate::workspace::document::{active_is_shown, note_has_moved, summary_from, WorkspaceView};
use crate::workspace::document_laws::shows_nothing_protected;
use crate::workspace::listing::{includes, level_spaces, notebook_from};
use crate::workspace::session::{folder_name, shown_name};

verus! {

// Notes.

/// A copy of a summary is found by the same searches, shown in the same views and
/// sorted to the same place.
pub proof fn law_a_copy_is_listed_alike(
    one: NoteSummary,
    copy: NoteSummary,
    other: NoteSummary,
    view: ViewMode,
    recent: Seq<Uuid>,
    query: Seq<char>,
    order: Option<SortOrder>,
)
    requires
        copy.same_as(one),
    ensures
        includes(view, copy, recent) == includes(view, one, recent),
        matches_query(copy, query) ==> matches_query(one, query),
        stands_before(order, copy, other) == stands_before(order, one, other),
        stands_before(order, other, copy) == stands_before(order, other, one),
        copy.title@ == one.title@,
        copy.body@ == one.body@,
        copy.preview@ == one.preview@,
{
    if one.encrypted {
        law_encrypted_notes_are_found_by_title_alone(copy, one, query);
    } else {
        law_title_body_and_every_tag_are_searched(one, query);
        law_title_body_and_every_tag_are_searched(copy, query);
        assert(texts(copy.tags@).len() == texts(one.tags@).len());
        assert forall|i: int| 0 <= i < copy.tags@.len() implies #[trigger] copy.tags@[i]@
            == one.tags@[i]@ by {
            assert(texts(copy.tags@)[i] == texts(one.tags@)[i]);
        }
    }
}

/// Every note of a sealed vault has a summary: one in the clear shows the note, and
/// one with a password of its own shows nothing that the password protects.
pub proof fn law_a_sealed_note_is_listed_without_its_contents(
    notes: Seq<NoteView>,
    read: Seq<Option<Note>>,
    summaries: Seq<NoteSummary>,
    i: int,
)
    requires
        summarised(notes, read, summaries),
        0 <= i < notes.len(),
    ensures
        summaries.len() == notes.len(),
        notes[i].snote ==> shows_nothing_protected(summaries[i], notes[i].object_uuid)
            && summaries[i].relative_path@ == joined(notes[i].notebook, notes[i].filename),
        !notes[i].snote ==> (read[i] matches Some(note) ==> summaries[i].id == note.metadata.id
            && summaries[i].title@ == note.metadata.title@ && summaries[i].body@ == note.body@
            && !summaries[i].locked && !summaries[i].encrypted),
{
    assert(if notes[i].snote {
        summaries[i].is_placeholder(
            notes[i].object_uuid,
            joined(notes[i].notebook, notes[i].filename),
        )
    } else {
        summaries[i].summarises(read[i]->Some_0)
    });
}

proof fn lemma_summary_place(notes: Seq<NoteSummary>, id: Uuid, at: int)
    requires
        0 <= at <= notes.len(),
    ensures
        at <= summary_from(notes, id, at) <= notes.len(),
        summary_from(notes, id, at) < notes.len() ==> notes[summary_from(notes, id, at)].id == id,
        forall|i: int| at <= i < summary_from(notes, id, at) ==> (#[trigger] notes[i]).id != id,
    decreases notes.len() - at,
{
    if at < notes.len() && notes[at].id != id {
        lemma_summary_place(notes, id, at + 1);
    }
}

/// The list shows what the open note is: it is found there by its title, its body and
/// its tags where it is not encrypted, and is in the views that its marks say. No
/// other note of the list changes.
pub proof fn law_the_open_note_is_listed_as_it_is(
    before: WorkspaceView,
    limit: nat,
    updated: Option<usize>,
    after: WorkspaceView,
    query: Seq<char>,
    k: int,
    i: int,
    recent: Seq<Uuid>,
)
    requires
        active_is_shown(before, limit, updated, after),
    ensures
        updated is None ==> after == before,
        after.notes.len() == before.notes.len(),
        updated matches Some(index) ==> before.active matches Some(document) && {
            let note = document.spec_note();
            let summary = after.notes[index as int];
            &&& summary.id == note.metadata.id
            &&& summary.title@ == note.metadata.title@
            &&& summary.body@ == note.body@
            &&& summary.relative_path@ == note.relative_path@
            &&& !summary.locked
            &&& !summary.encrypted && contains_text(
                lowercase(note.body@),
                lowercase(trimmed(query)),
            ) ==> matches_query(summary, query)
            &&& !summary.encrypted && 0 <= k < note.metadata.tags@.len() && contains_text(
                lowercase(note.metadata.tags@[k]@),
                lowercase(trimmed(query)),
            ) ==> matches_query(summary, query)
            &&& includes(ViewMode::Pinned, summary, recent) <==> note.metadata.pinned
                && !note.metadata.archived
            &&& includes(ViewMode::Archive, summary, recent) <==> note.metadata.archived
            &&& includes(ViewMode::Favourites, summary, recent) <==> note.metadata.favourite
                && !note.metadata.archived
            &&& 0 <= i < before.notes.len() && i != index ==> after.notes[i] == before.notes[i]
        },
{
    if let Some(index) = updated {
        let document = before.active->Some_0;
        let note = document.spec_note();
        let summary = after.notes[index as int];
        lemma_summary_place(before.notes, note.metadata.id, 0);
        if !summary.encrypted {
            law_title_body_and_every_tag_are_searched(summary, query);
            if 0 <= k < note.metadata.tags@.len() {
                assert(texts(summary.tags@)[k] == note.metadata.tag_texts()[k]);
                assert(texts(summary.tags@).len() == summary.tags@.len());
                assert(summary.tags@[k]@ == note.metadata.tags@[k]@);
            }
        }
    }
}

/// A note that is moved has its new path wherever it is known: where it is open, where
/// it is kept in memory and in the list. Nothing else of it changes, and no other
/// note does.
pub proof fn law_a_moved_note_has_one_path(
    before: WorkspaceView,
    id: Uuid,
    path: Seq<char>,
    after: WorkspaceView,
    i: int,
)
    requires
        note_has_moved(before, id, path, after),
        0 <= i < before.notes.len(),
    ensures
        before.active matches Some(document) ==> document.spec_id() == id ==> (
        after.active matches Some(moved) && {
            &&& moved.spec_note().relative_path@ == path
            &&& moved.spec_note().body == document.spec_note().body
            &&& moved.spec_note().metadata == document.spec_note().metadata
        }),
        before.active matches Some(document) ==> document.spec_id() != id ==> after.active
            == before.active,
        after.notes.len() == before.notes.len(),
        before.notes[i].id != id ==> after.notes[i] == before.notes[i],
        before.notes[i].id == id && (forall|k: int|
            0 <= k < i ==> (#[trigger] before.notes[k]).id != id) ==> {
            &&& after.notes[i].relative_path@ == path
            &&& after.notes[i].title == before.notes[i].title
            &&& after.notes[i].body == before.notes[i].body
            &&& after.notes[i].tags == before.notes[i].tags
        },
        after.trash == before.trash,
        after.body_dirty == before.body_dirty,
        after.title_dirty == before.title_dirty,
        after.flow == before.flow,
{
    lemma_summary_place(before.notes, id, 0);
    let at = summary_from(before.notes, id, 0);
    if at < i {
        assert(before.notes[at].id == id);
    }
}

/// Nothing that was written in a note is left of it once it is cleared.
pub proof fn law_a_cleared_note_holds_no_text(before: Note, after: Note, i: int)
    requires
        after.is_cleared(before),
    ensures
        after.body@.len() == 0,
        after.metadata.title@.len() == 0,
        0 <= i < after.metadata.tags@.len() ==> after.metadata.tags@[i]@.len() == 0,
        after.metadata.id == before.metadata.id,
{
}

// Spans in bytes.

/// The bytes of a span are those of the characters that it is of: its content and each
/// of its markers, cut out of the encoded text, are encoded texts again.
pub proof fn law_a_span_in_bytes_cuts_whole_characters(
    text: Seq<char>,
    span: Span,
    expected: SpanView,
    i: int,
)
    requires
        span_shows(text, span, expected),
    ensures
        encode_utf8(text).subrange(
            span.content_range.start as int,
            span.content_range.end as int,
        ) == encode_utf8(text.subrange(expected.content.0, expected.content.1)),
        span.marker_ranges@.len() == expected.markers.len(),
        0 <= i < expected.markers.len() ==> encode_utf8(text).subrange(
            span.marker_ranges@[i].start as int,
            span.marker_ranges@[i].end as int,
        ) == encode_utf8(text.subrange(expected.markers[i].0, expected.markers[i].1)),
        span.kind == expected.kind,
{
    law_byte_ranges_hold_whole_characters(text, expected.content.0, expected.content.1);
    if 0 <= i < expected.markers.len() {
        assert(range_shows(text, span.marker_ranges@[i], expected.markers[i]));
        law_byte_ranges_hold_whole_characters(
            text,
            expected.markers[i].0,
            expected.markers[i].1,
        );
    }
}

// Files beside others.

/// A file is first written right beside the one that it replaces, under a hidden name
/// that holds the name and an identifier, so that two writers do not meet.
pub proof fn law_a_file_is_written_beside_its_place(
    path: Seq<char>,
    name: Seq<char>,
    one: Uuid,
    other: Uuid,
)
    requires
        has_parent(path),
        file_name(path) == Some(name),
        forall|i: int| 0 <= i < name.len() ==> name[i] != '/',
    ensures
        components(temporary_path(path, name, one)).drop_last() == components(path).drop_last(),
        file_name(temporary_path(path, name, one)) matches Some(found) && found[0] == '.'
            && contains_text(found, name),
        one != other ==> !same_path(
            temporary_path(path, name, one),
            temporary_path(path, name, other),
        ),
{
    crate::vault_laws::law_the_parent_lacks_the_last_component(path);
    lemma_hidden_name(name, one);
    lemma_hidden_name(name, other);
    let first = "."@ + name + "."@ + one.spec_simple() + ".tmp"@;
    let second = "."@ + name + "."@ + other.spec_simple() + ".tmp"@;
    let directory = parent_path(path);
    law_a_joined_name_stands_right_in_its_directory(directory, first, directory);
    law_a_joined_name_stands_right_in_its_directory(directory, second, directory);
    let parts = components(temporary_path(path, name, one));
    assert(parts.drop_last() =~= components(directory));
    reveal_strlit(".");
    reveal_strlit(".tmp");
    let behind = "."@ + one.spec_simple() + ".tmp"@;
    assert(first =~= "."@ + name + behind);
    law_a_text_holds_what_stands_in_it("."@, name, behind, first);
    if one != other && first == second {
        let from = name.len() as int + 2;
        crate::ident_laws::law_digits_stand_for_the_identifier(one);
        crate::ident_laws::law_digits_stand_for_the_identifier(other);
        assert(first.subrange(from, from + 32) =~= one.spec_simple());
        assert(second.subrange(from, from + 32) =~= other.spec_simple());
    }
}

proof fn lemma_hidden_name(name: Seq<char>, id: Uuid)
    requires
        forall|i: int| 0 <= i < name.len() ==> name[i] != '/',
    ensures
        one_name("."@ + name + "."@ + id.spec_simple() + ".tmp"@),
        ("."@ + name + "."@ + id.spec_simple() + ".tmp"@)[0] == '.',
{
    reveal_strlit(".");
    reveal_strlit(".tmp");
    crate::ident_laws::law_digits_stand_for_the_identifier(id);
    let hidden = "."@ + name + "."@ + id.spec_simple() + ".tmp"@;
    assert(hidden.len() == name.len() + 38);
    assert(seq!['.'].len() == 1 && seq!['.', '.'].len() == 2);
    assert forall|i: int| 0 <= i < hidden.len() implies hidden[i] != '/' by {
        if 1 <= i < 1 + name.len() {
            assert(hidden[i] == name[i - 1]);
        } else if 2 + name.len() <= i < 34 + name.len() {
            assert(hidden[i] == id.spec_simple()[i - 2 - name.len()]);
        }
    }
}

/// The record of a note in the trash is told by its name, and no file of a note is
/// taken for one.
pub proof fn law_records_are_told_by_their_names(stem: Seq<char>)
    ensures
        is_trash_record(stem + ".trash.toml"@),
        !is_trash_record(stem + ".md"@),
        !is_trash_record(stem + ".snote"@),
{
    reveal_strlit(".trash.toml");
    reveal_strlit(".md");
    reveal_strlit(".snote");
    let record = stem + ".trash.toml"@;
    assert(record.skip(record.len() - ".trash.toml"@.len()) =~= ".trash.toml"@);
    let plain = stem + ".md"@;
    let sealed = stem + ".snote"@;
    if is_trash_record(plain) {
        let tail = plain.skip(plain.len() - 11);
        assert(tail[10] == plain[plain.len() - 1]);
        assert(".trash.toml"@[10] == 'l');
    }
    if is_trash_record(sealed) {
        let tail = sealed.skip(sealed.len() - 11);
        assert(tail[10] == sealed[sealed.len() - 1]);
        assert(".trash.toml"@[10] == 'l');
    }
}

// Names and rows.

/// A vault is shown under the name that the user gave it, and else under that of its
/// folder.
pub proof fn law_a_given_name_is_shown(
    config: AppConfig,
    key: Seq<char>,
    directory: Seq<char>,
    folder: Seq<char>,
)
    requires
        one_name(folder),
    ensures
        ({
            let path = joined(directory, folder);
            match config.info_of(key) {
                Some(info) => match info.display_name {
                    Some(name) => shown_name(config, key, path) == name@,
                    None => shown_name(config, key, path) == folder,
                },
                None => shown_name(config, key, path) == folder,
            }
        }),
        folder_name(joined(directory, folder)) == folder,
{
    law_a_joined_name_stands_right_in_its_directory(directory, folder, directory);
}

/// The row of a notebook is the first with its path.
pub proof fn law_a_notebook_has_its_first_row(rows: Seq<Seq<char>>, path: Seq<char>)
    ensures
        ({
            let at = notebook_from(rows, path, 0);
            &&& 0 <= at <= rows.len()
            &&& at < rows.len() ==> same_path(rows[at], path)
            &&& forall|i: int| 0 <= i < at ==> !same_path(#[trigger] rows[i], path)
        }),
{
    lemma_notebook_from(rows, path, 0);
}

proof fn lemma_notebook_from(rows: Seq<Seq<char>>, path: Seq<char>, at: int)
    requires
        0 <= at <= rows.len(),
    ensures
        ({
            let found = notebook_from(rows, path, at);
            &&& at <= found <= rows.len()
            &&& found < rows.len() ==> same_path(rows[found], path)
            &&& forall|i: int| at <= i < found ==> !same_path(#[trigger] rows[i], path)
        }),
    decreases rows.len() - at,
{
    if at < rows.len() && !same_path(rows[at], path) {
        lemma_notebook_from(rows, path, at + 1);
    }
}

/// A notebook is set in by four spaces for each level.
pub proof fn law_each_level_takes_four_spaces(depth: nat)
    ensures
        level_spaces(depth).len() == 4 * depth,
        forall|i: int| 0 <= i < 4 * depth ==> #[trigger] level_spaces(depth)[i] == ' ',
    decreases depth,
{
    reveal_strlit("    ");
    if depth > 0 {
        let before = level_spaces((depth - 1) as nat);
        law_each_level_takes_four_spaces((depth - 1) as nat);
        let all = level_spaces(depth);
        assert forall|i: int| 0 <= i < 4 * depth implies #[trigger] all[i] == ' ' by {
            if i < before.len() {
                assert(all[i] == before[i]);
            } else {
                assert(all[i] == "    "@[i - before.len()]);
            }
        }
    }
}

// Messages.

/// What an error is about stands in what it says: a path, a notebook, or the reason
/// that was given.
pub proof fn law_a_message_names_its_subject(error: Error)
    ensures
        error matches Error::InvalidPath(path) ==> contains_text(message_of(error), path@),
        error matches Error::AlreadyExists(path) ==> contains_text(message_of(error), path@),
        error matches Error::NoteNotFound(path) ==> contains_text(message_of(error), path@),
        error matches Error::ExternalModification(path) ==> contains_text(
            message_of(error),
            path@,
        ),
        error matches Error::InvalidEncryptedVault(text) ==> contains_text(
            message_of(error),
            text@,
        ),
        error matches Error::InvalidEncryptedNote(text) ==> contains_text(message_of(error), text@),
        error matches Error::ExportFailed(text) ==> contains_text(message_of(error), text@),
        error matches Error::ExportTargetInvalid(text) ==> contains_text(message_of(error), text@),
        error matches Error::ExportCleanupFailed { temp } ==> contains_text(
            message_of(error),
            temp@,
        ),
        error matches Error::ReservedNotebook { relative_path } ==> contains_text(
            message_of(error),
            relative_path@,
        ),
{
    let message = message_of(error);
    let none = Seq::<char>::empty();
    match error {
        Error::InvalidPath(text)
        | Error::AlreadyExists(text)
        | Error::NoteNotFound(text)
        | Error::ExternalModification(text)
        | Error::InvalidEncryptedVault(text)
        | Error::InvalidEncryptedNote(text)
        | Error::ExportFailed(text)
        | Error::ExportTargetInvalid(text) => {
            let front = message.take(message.len() - text@.len());
            assert(message =~= front + text@ + none);
            law_a_text_holds_what_stands_in_it(front, text@, none, message);
        },
        Error::ExportCleanupFailed { temp } => {
            let front = message.take(message.len() - temp@.len());
            assert(message =~= front + temp@ + none);
            law_a_text_holds_what_stands_in_it(front, temp@, none, message);
        },
        Error::ReservedNotebook { relative_path } => {
            let behind = message.skip(relative_path@.len() as int);
            assert(message =~= none + relative_path@ + behind);
            law_a_text_holds_what_stands_in_it(none, relative_path@, behind, message);
        },
        _ => {},
    }
}

} // verus!
