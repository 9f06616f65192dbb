//! What becomes of the open note: what is saved, kept, locked and thrown away.

use vstd::prelude::*;

use crate::config::RECENTLY_OPENED_LIMIT;
use crate::ident::Uuid;
use crate::model::{locked_title, Note, NoteMetadata, NoteSummary};
use crate::text::trimmed;
use crate::vault::TrashEntry;
use crate::workspace::changes::{
    entry_from, merge_state, merged_notes, taken_over, trash_state, NoteFlag,
};
use crate::workspace::document::{
    active_is_locked, all_are_locked, body_is_edited, committed_title, displayed, document_from,
    documents_without, entries_without, is_save_plan, note_has_left, save_is_finished, stashed,
    summaries_without, summary_from, title_is_edited, without_entry, without_trash, ActiveDocument,
    SaveOutcome, SavePlan, WorkspaceView,
};

verus! {

// Saving.

/// Everything that was edited is saved: where something was, there is a plan, it
/// takes the body where the body was edited and the title where the title was and is
/// to be committed; and once it is carried out nothing of it counts as edited.
pub proof fn law_every_edit_is_saved(
    before: WorkspaceView,
    commit_title: bool,
    planned: Option<SavePlan>,
    outcome: SaveOutcome,
    report: (bool, String),
    after: WorkspaceView,
)
    requires
        is_save_plan(before, commit_title, planned),
        planned matches Some(plan) && save_is_finished(before, plan, outcome, report, after),
        outcome is Saved,
    ensures
        report.0,
        !after.body_dirty,
        commit_title ==> !after.title_dirty,
        !commit_title ==> after.title_dirty == before.title_dirty,
        planned matches Some(plan) && plan.body == before.body_dirty,
        planned matches Some(plan) && (plan.title matches Some(title) ==> title@.len() > 0 && (
        trimmed(before.title_draft).len() > 0 ==> title@ == trimmed(before.title_draft))),
        before.active matches Some(document) && after.active matches Some(next) && (
        next.spec_note() == document.spec_note()) && (outcome matches SaveOutcome::Saved(stamp)
            && next.spec_stamp() == stamp),
        after.notes == before.notes,
        after.title_draft == before.title_draft,
{
    reveal_strlit("Untitled");
}

/// There is nothing to save where nothing was edited, and something where the body
/// was, or the title was that is to be committed.
pub proof fn law_a_clean_note_is_not_saved(
    workspace: WorkspaceView,
    commit_title: bool,
    plan: Option<SavePlan>,
)
    requires
        is_save_plan(workspace, commit_title, plan),
    ensures
        !workspace.body_dirty && !workspace.title_dirty ==> plan is None,
        workspace.body_dirty ==> plan is Some,
        workspace.title_dirty && commit_title ==> plan is Some,
        !workspace.body_dirty && !commit_title ==> plan is None,
{
}

/// A save that failed changes nothing: all that was edited still counts as edited.
pub proof fn law_a_failed_save_forgets_nothing(
    before: WorkspaceView,
    plan: SavePlan,
    outcome: SaveOutcome,
    report: (bool, String),
    after: WorkspaceView,
)
    requires
        save_is_finished(before, plan, outcome, report, after),
        outcome is Failed,
    ensures
        !report.0,
        after == before,
{
}

/// An edit of the body of an open note counts as one, unless the note is only to be
/// read; an edit of the title keeps the draft. Neither changes a note of the list,
/// nor the note itself.
pub proof fn law_an_edit_is_noted(
    before: WorkspaceView,
    draft: Seq<char>,
    now: u64,
    schedule: bool,
    noted: bool,
    by_body: WorkspaceView,
    by_title: WorkspaceView,
)
    requires
        body_is_edited(before, now, schedule, by_body),
        title_is_edited(before, draft, now, noted, by_title),
    ensures
        before.active is Some && !before.read_only ==> schedule && by_body.body_dirty,
        before.active is None || before.read_only ==> !schedule && by_body == before,
        by_body.title_dirty == before.title_dirty,
        before.active is Some ==> noted && by_title.title_dirty && by_title.title_draft == draft,
        before.active is None ==> !noted && by_title == before,
        by_title.body_dirty == before.body_dirty,
        by_body.active == before.active,
        by_title.active == before.active,
        by_body.notes == before.notes,
        by_title.notes == before.notes,
{
}

/// A title is kept but for the whitespace round it, and a blank one is never given.
pub proof fn law_a_committed_title_is_not_blank(draft: Seq<char>)
    ensures
        committed_title(draft).len() > 0,
        trimmed(draft).len() > 0 ==> committed_title(draft) == trimmed(draft),
        committed_title(draft) == crate::vault::title_text(draft),
{
    reveal_strlit("Untitled");
}

// Opening and leaving.

/// The note that is shown is the open one, with its own title and nothing edited,
/// and it is the first of those that were opened last. Notes, trash and caches stay.
pub proof fn law_a_shown_note_is_open_and_clean(
    workspace: WorkspaceView,
    document: ActiveDocument,
    now: u64,
)
    ensures
        ({
            let after = displayed(workspace, document, now);
            &&& after.active == Some(document)
            &&& after.title_draft == document.spec_note().metadata.title@
            &&& !after.body_dirty
            &&& !after.title_dirty
            &&& after.session.recently_opened.len() > 0
            &&& after.session.recently_opened[0] == document.spec_id()
            &&& after.session.recently_opened.len() <= RECENTLY_OPENED_LIMIT
            &&& document is Encrypted ==> after.last_activity == Some(now)
            &&& after.notes == workspace.notes
            &&& after.trash == workspace.trash
            &&& after.unlocked == workspace.unlocked
            &&& after.plain == workspace.plain
            &&& after.flow == workspace.flow
        }),
{
    crate::config::law_put_in_front(
        workspace.session.recently_opened,
        document.spec_id(),
        RECENTLY_OPENED_LIMIT as int,
    );
}

/// No note is open once it was left. One that is locked on leaving is not kept in
/// memory, and neither is a note in the clear that was edited; no other note that was
/// kept is lost, but where the cache of notes in the clear is full.
pub proof fn law_leaving_keeps_no_locked_note(workspace: WorkspaceView, lock_on_leave: bool)
    ensures
        ({
            let after = stashed(workspace, lock_on_leave);
            &&& after.active is None
            &&& workspace.active matches Some(document) ==> document is Encrypted && lock_on_leave
                ==> after.unlocked == workspace.unlocked && after.plain == workspace.plain
            &&& workspace.active matches Some(document) ==> document is Plain && (
            workspace.body_dirty || workspace.title_dirty) ==> after.plain == workspace.plain
            &&& workspace.active matches Some(document) ==> document is Plain ==> after.unlocked
                == workspace.unlocked
            &&& workspace.active matches Some(document) ==> document is Encrypted ==> after.plain
                == workspace.plain
            &&& after.notes == workspace.notes
            &&& after.trash == workspace.trash
        }),
{
}

// Locking.

proof fn lemma_summary_place(notes: Seq<NoteSummary>, id: Uuid, at: int)
    requires
        0 <= at <= notes.len(),
    ensures
        at <= summary_from(notes, id, at) <= notes.len(),
        summary_from(notes, id, at) < notes.len() ==> notes[summary_from(notes, id, at)].id == id,
        forall|i: int| at <= i < summary_from(notes, id, at) ==> (#[trigger] notes[i]).id != id,
    decreases notes.len() - at,
{
    if at < notes.len() && notes[at].id != id {
        lemma_summary_place(notes, id, at + 1);
    }
}

/// Whether a summary shows nothing that a password protects.
pub open spec fn shows_nothing_protected(summary: NoteSummary, id: Uuid) -> bool {
    &&& summary.id == id
    &&& summary.title@ == locked_title(id)
    &&& summary.body@.len() == 0
    &&& summary.tags@.len() == 0
    &&& summary.encrypted
    &&& summary.locked
    &&& !summary.pinned
    &&& !summary.favourite
    &&& !summary.archived
}

/// Locking the open note leaves no note open and nothing of it in the list but that
/// it is there; all other notes of the list stay as they are. A note in the clear is
/// not locked.
pub proof fn law_a_locked_note_shows_nothing(
    before: WorkspaceView,
    locked: Option<Uuid>,
    after: WorkspaceView,
    i: int,
)
    requires
        active_is_locked(before, locked, after),
        0 <= i < before.notes.len(),
    ensures
        locked is Some <==> (before.active matches Some(document) && document is Encrypted),
        locked is None ==> after == before,
        locked matches Some(id) ==> {
            &&& after.active is None
            &&& before.active matches Some(document) && document.spec_id() == id
            &&& after.notes.len() == before.notes.len()
            &&& before.notes[i].id != id ==> after.notes[i] == before.notes[i]
            &&& before.notes[i].id == id && (forall|k: int|
                0 <= k < i ==> (#[trigger] before.notes[k]).id != id) ==> shows_nothing_protected(
                after.notes[i],
                id,
            )
            &&& after.unlocked == before.unlocked
        },
{
    if let Some(id) = locked {
        lemma_summary_place(before.notes, id, 0);
        let at = summary_from(before.notes, id, 0);
        if at < i {
            assert(before.notes[at].id == id);
        }
    }
}

/// Locking all notes leaves no encrypted note open or in memory; each that was
/// unlocked shows nothing in the list, and all other notes stay as they are.
pub proof fn law_locking_all_leaves_nothing_unlocked(
    before: WorkspaceView,
    locked: Seq<Uuid>,
    after: WorkspaceView,
    i: int,
)
    requires
        all_are_locked(before, locked, after),
        0 <= i < before.notes.len(),
    ensures
        after.unlocked.len() == 0,
        after.active matches Some(document) ==> document is Plain,
        before.active matches Some(document) ==> document is Plain ==> after.active
            == before.active,
        before.active matches Some(document) ==> document is Encrypted ==> locked.contains(
            document.spec_id(),
        ),
        forall|k: int|
            0 <= k < before.unlocked.len() ==> locked.contains(
                (#[trigger] before.unlocked[k]).spec_id(),
            ),
        after.notes.len() == before.notes.len(),
        !locked.contains(before.notes[i].id) ==> after.notes[i] == before.notes[i],
        after.notes[i] == before.notes[i] || shows_nothing_protected(
            after.notes[i],
            after.notes[i].id,
        ),
        after.plain == before.plain,
        after.trash == before.trash,
{
    let all = crate::workspace::document::all_unlocked(before);
    let named = crate::workspace::document::newly_locked(before);
    assert forall|k: int| 0 <= k < before.unlocked.len() implies locked.contains(
        (#[trigger] before.unlocked[k]).spec_id(),
    ) by {
        assert(all[k] == before.unlocked[k]);
        assert(locked[k] == named[k].0);
    }
    if let Some(document) = before.active {
        if document is Encrypted {
            let k = before.unlocked.len() as int;
            assert(all[k] == document);
            assert(locked[k] == named[k].0);
        }
    }
    if after.notes[i] != before.notes[i] {
        let k = choose|k: int|
            0 <= k < named.len() && i == summary_from(before.notes, (#[trigger] named[k]).0, 0)
                && after.notes[i].is_placeholder(named[k].0, named[k].1);
        lemma_summary_place(before.notes, named[k].0, 0);
        assert(locked[k] == named[k].0);
        assert(locked.contains(before.notes[i].id));
    }
}

// The trash.

proof fn lemma_summaries_filter(notes: Seq<NoteSummary>, id: Uuid)
    ensures
        summaries_without(notes, id) == notes.filter(|note: NoteSummary| note.id != id),
    decreases notes.len(),
{
    reveal(Seq::filter);
    if notes.len() > 0 {
        lemma_summaries_filter(notes.drop_last(), id);
    } else {
        assert(summaries_without(notes, id) =~= notes.filter(|note: NoteSummary| note.id != id));
    }
}

proof fn lemma_entries_filter(entries: Seq<TrashEntry>, id: Uuid)
    ensures
        entries_without(entries, id) == entries.filter(|entry: TrashEntry| entry.id != id),
    decreases entries.len(),
{
    reveal(Seq::filter);
    if entries.len() > 0 {
        lemma_entries_filter(entries.drop_last(), id);
    } else {
        assert(entries_without(entries, id) =~= entries.filter(|entry: TrashEntry| entry.id != id));
    }
}

proof fn lemma_document_gone(documents: Seq<ActiveDocument>, id: Uuid, at: int)
    requires
        0 <= at <= documents.len(),
    ensures
        at <= document_from(documents, id, at) <= documents.len(),
        document_from(documents, id, at) < documents.len() ==> documents[document_from(
            documents,
            id,
            at,
        )].spec_id() == id,
        document_from(documents, id, at) == documents.len() ==> forall|i: int|
            at <= i < documents.len() ==> (#[trigger] documents[i]).spec_id() != id,
    decreases documents.len() - at,
{
    if at < documents.len() && documents[at].spec_id() != id {
        lemma_document_gone(documents, id, at + 1);
    }
}

/// A note that was thrown away is in no list, is not open, is not kept in memory and
/// is not selected; every other note stays where it was.
pub proof fn law_a_thrown_note_is_nowhere(
    before: WorkspaceView,
    id: Uuid,
    was_open: bool,
    after: WorkspaceView,
    i: int,
)
    requires
        before.valid(),
        note_has_left(before, id, was_open, after),
    ensures
        after.notes == before.notes.filter(|note: NoteSummary| note.id != id),
        after.active matches Some(document) ==> document.spec_id() != id,
        before.active matches Some(document) ==> document.spec_id() != id ==> after.active
            == before.active,
        0 <= i < after.unlocked.len() ==> after.unlocked[i].spec_id() != id,
        0 <= i < before.unlocked.len() && before.unlocked[i].spec_id() != id
            ==> after.unlocked.contains(before.unlocked[i]),
        after.flow.selected_note != Some(id),
        before.flow.selected_note != Some(id) ==> after.flow.selected_note
            == before.flow.selected_note,
        after.flow.view == before.flow.view,
        after.trash == before.trash,
{
    lemma_summaries_filter(before.notes, id);
    lemma_document_gone(before.unlocked, id, 0);
    let at = document_from(before.unlocked, id, 0);
    let kept = documents_without(before.unlocked, id);
    if at < before.unlocked.len() {
        if 0 <= i < kept.len() {
            if i < at {
                assert(kept[i] == before.unlocked[i]);
                assert(before.unlocked[i].spec_id() != before.unlocked[at].spec_id());
            } else {
                assert(kept[i] == before.unlocked[i + 1]);
                assert(before.unlocked[at].spec_id() != before.unlocked[i + 1].spec_id());
            }
        }
        if 0 <= i < before.unlocked.len() && before.unlocked[i].spec_id() != id {
            if i < at {
                assert(kept[i] == before.unlocked[i]);
            } else {
                assert(kept[i - 1] == before.unlocked[i]);
            }
        }
    } else if 0 <= i < before.unlocked.len() {
        assert(kept[i] == before.unlocked[i]);
    }
}

/// A note that has left the trash is not listed there and not selected there; every
/// other entry stays. Emptying the trash leaves no entry and no selection, and neither
/// touches a note.
pub proof fn law_the_trash_lists_what_is_in_it(before: WorkspaceView, id: Uuid)
    ensures
        without_entry(before, id).trash == before.trash.filter(
            |entry: TrashEntry| entry.id != id,
        ),
        without_entry(before, id).flow.selected_trash != Some(id),
        without_entry(before, id).notes == before.notes,
        without_entry(before, id).active == before.active,
        without_trash(before).trash.len() == 0,
        without_trash(before).flow.selected_trash is None,
        without_trash(before).notes == before.notes,
        without_trash(before).active == before.active,
{
    lemma_entries_filter(before.trash, id);
}

// Marks and what is found on disk.

/// Setting a mark sets that mark and no other, and changes nothing else of the note.
pub proof fn law_a_mark_changes_itself_alone(
    flag: NoteFlag,
    other: NoteFlag,
    metadata: NoteMetadata,
    value: bool,
)
    ensures
        flag.of(flag.put(metadata, value)) == value,
        other != flag ==> other.of(flag.put(metadata, value)) == other.of(metadata),
        flag.put(metadata, value).id == metadata.id,
        flag.put(metadata, value).title == metadata.title,
        flag.put(metadata, value).tags == metadata.tags,
        flag.put(metadata, value).created_at == metadata.created_at,
        flag.put(metadata, value).updated_at == metadata.updated_at,
        flag.put(metadata, value).unknown == metadata.unknown,
        NoteFlag::Pinned.of(metadata) == metadata.pinned,
        NoteFlag::Favourite.of(metadata) == metadata.favourite,
        NoteFlag::Archived.of(metadata) == metadata.archived,
{
}

/// The list of notes shows the marks that a note has.
pub proof fn law_a_list_shows_the_marks(flag: NoteFlag, summary: NoteSummary, note: Note)
    requires
        summary.summarises(note),
    ensures
        flag.shown(summary) == flag.of(note.metadata),
{
}

/// A note that is being edited keeps all but its path where the list is read anew;
/// any other note becomes what was found.
pub proof fn law_an_edited_note_keeps_its_summary(
    old: NoteSummary,
    found: NoteSummary,
    kept: Option<Uuid>,
)
    ensures
        kept == Some(old.id) ==> {
            let after = taken_over(old, found, kept);
            &&& after.title == old.title
            &&& after.body == old.body
            &&& after.tags == old.tags
            &&& after.preview == old.preview
            &&& after.pinned == old.pinned
            &&& after.favourite == old.favourite
            &&& after.archived == old.archived
            &&& after.updated_at == old.updated_at
            &&& after.created_at == old.created_at
            &&& after.relative_path == found.relative_path
        },
        kept != Some(old.id) ==> taken_over(old, found, kept) == found,
{
}

proof fn lemma_rest_is_found(known: Seq<NoteSummary>, found: Seq<NoteSummary>, kept: Option<Uuid>)
    ensures
        forall|i: int|
            0 <= i < merge_state(known, found, kept).rest.len() ==> found.contains(
                #[trigger] merge_state(known, found, kept).rest[i],
            ),
    decreases known.len(),
{
    let state = merge_state(known, found, kept);
    if known.len() > 0 {
        let shorter = known.drop_last();
        lemma_rest_is_found(shorter, found, kept);
        let before = merge_state(shorter, found, kept);
        lemma_summary_place(before.rest, known.last().id, 0);
        let at = summary_from(before.rest, known.last().id, 0);
        assert forall|i: int| 0 <= i < state.rest.len() implies found.contains(
            #[trigger] state.rest[i],
        ) by {
            if at < before.rest.len() {
                if i < at {
                    assert(state.rest[i] == before.rest[i]);
                } else {
                    assert(state.rest[i] == before.rest[i + 1]);
                }
            }
        }
    }
}

/// Where the list of notes is read anew, every note of the list is one that was
/// found, or the one that is being edited with the path at which it was found.
pub proof fn law_the_list_becomes_what_was_found(
    known: Seq<NoteSummary>,
    found: Seq<NoteSummary>,
    kept: Option<Uuid>,
    i: int,
)
    requires
        0 <= i < merged_notes(known, found, kept).len(),
    ensures
        ({
            let note = merged_notes(known, found, kept)[i];
            found.contains(note) || kept == Some(note.id) && exists|k: int, j: int|
                0 <= k < known.len() && 0 <= j < found.len() && (#[trigger] known[k]).id == note.id
                    && (#[trigger] found[j]).id == note.id && note == (NoteSummary {
                    relative_path: found[j].relative_path,
                    ..known[k]
                })
        }),
{
    lemma_rest_is_found(known, found, kept);
    let state = merge_state(known, found, kept);
    if i < state.merged.len() {
        lemma_merged_is_found(known, found, kept, i);
    } else {
        assert(merged_notes(known, found, kept)[i] == state.rest[i - state.merged.len()]);
    }
}

proof fn lemma_merged_is_found(
    known: Seq<NoteSummary>,
    found: Seq<NoteSummary>,
    kept: Option<Uuid>,
    i: int,
)
    requires
        0 <= i < merge_state(known, found, kept).merged.len(),
    ensures
        ({
            let note = merge_state(known, found, kept).merged[i];
            found.contains(note) || kept == Some(note.id) && exists|k: int, j: int|
                0 <= k < known.len() && 0 <= j < found.len() && (#[trigger] known[k]).id == note.id
                    && (#[trigger] found[j]).id == note.id && note == (NoteSummary {
                    relative_path: found[j].relative_path,
                    ..known[k]
                })
        }),
    decreases known.len(),
{
    if known.len() > 0 {
        let shorter = known.drop_last();
        let before = merge_state(shorter, found, kept);
        let state = merge_state(known, found, kept);
        let note = state.merged[i];
        if i < before.merged.len() {
            lemma_merged_is_found(shorter, found, kept, i);
            assert(note == before.merged[i]);
            if !found.contains(note) {
                let (k, j) = choose|k: int, j: int|
                    0 <= k < shorter.len() && 0 <= j < found.len() && (
                    #[trigger] shorter[k]).id == note.id && (#[trigger] found[j]).id == note.id
                        && note == (NoteSummary {
                        relative_path: found[j].relative_path,
                        ..shorter[k]
                    });
                assert(known[k].id == note.id);
                assert(found[j].id == note.id);
            }
        } else {
            let old = known.last();
            lemma_rest_is_found(shorter, found, kept);
            lemma_summary_place(before.rest, old.id, 0);
            let at = summary_from(before.rest, old.id, 0);
            let new = before.rest[at];
            assert(found.contains(new));
            let j = choose|j: int| 0 <= j < found.len() && found[j] == new;
            assert(known[known.len() - 1].id == old.id);
            assert(found[j].id == old.id);
        }
    }
}

/// Where the trash is read anew, it lists what was found, each entry as often as it
/// was, and nothing else.
pub proof fn law_the_trash_becomes_what_was_found(
    known: Seq<TrashEntry>,
    found: Seq<TrashEntry>,
)
    ensures
        (trash_state(known, found).0 + trash_state(known, found).1).to_multiset()
            == found.to_multiset(),
    decreases known.len(),
{
    broadcast use vstd::seq_lib::group_to_multiset_ensures;

    let (merged, rest) = trash_state(known, found);
    if known.len() == 0 {
        assert(merged + rest =~= found);
    } else {
        let shorter = known.drop_last();
        law_the_trash_becomes_what_was_found(shorter, found);
        let before = trash_state(shorter, found);
        lemma_entry_place(before.1, known.last().id, 0);
        let at = entry_from(before.1, known.last().id, 0);
        if at < before.1.len() {
            let entry = before.1[at];
            assert(merged == before.0.push(entry));
            assert(rest == before.1.remove(at));
            let one = before.0 + before.1;
            let place = before.0.len() as int;
            assert(one.remove(place + at) =~= before.0 + rest);
            assert((before.0 + rest).insert(place, entry) =~= merged + rest);
            assert(one[place + at] == entry);
        }
    }
}

proof fn lemma_entry_place(entries: Seq<TrashEntry>, id: Uuid, at: int)
    requires
        0 <= at <= entries.len(),
    ensures
        at <= entry_from(entries, id, at) <= entries.len(),
    decreases entries.len() - at,
{
    if at < entries.len() {
        lemma_entry_place(entries, id, at + 1);
    }
}

} // verus!
