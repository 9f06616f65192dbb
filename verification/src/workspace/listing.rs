//! The lists of the window: notes, the trash, notebooks and tags.

use vstd::prelude::*;

use crate::config::{NoteListDensity, SortOrder};
use crate::constants::DEFAULT_NOTEBOOK;
use crate::ident::Uuid;
use crate::model::NoteSummary;
use crate::paths::{
    components, components_of, file_name, file_name_of, is_right_in, paths_equal, same_path,
    stands_right_in,
};
use crate::search::{matches_query, summary_matches};
use crate::sort::{ordered, sort_notes};
use crate::text::{
    chars_of, comes_before, contains_text, copy_text, equal_ascii_folded, join_texts, joined_texts,
    lowercase, same_ascii_folded, string_between, text_before, text_contains, texts, to_lowercase,
    trim, trimmed, words, words_of, lemma_texts_push,
};
use crate::ui_state::{
    row_at, row_from, RowTarget, SelectionCoordinator, ViewMode,
};
use crate::vault::{NotebookEntry, TrashEntry};

verus! {

// Which notes a view lists.

/// Whether a note belongs in a view. Views for every day leave archived notes
/// out. A notebook shows the notes right in it, not those of the notebooks
/// within it. A locked note is in no view that goes by what is protected.
pub open spec fn includes(view: ViewMode, note: NoteSummary, recent: Seq<Uuid>) -> bool {
    match view {
        ViewMode::AllNotes | ViewMode::RecentlyEdited => !note.archived,
        ViewMode::Notebook(path) => !note.archived && is_right_in(note.relative_path@, path@),
        ViewMode::RecentlyOpened => !note.archived && !note.locked && recent.contains(note.id),
        ViewMode::Favourites => !note.archived && note.favourite,
        ViewMode::Pinned => !note.archived && note.pinned,
        ViewMode::Archive => note.archived,
        ViewMode::EncryptedNotes => note.encrypted,
        ViewMode::Trash => false,
    }
}

pub fn view_includes(view: &ViewMode, summary: &NoteSummary, recently_opened: &[Uuid]) -> (included:
    bool)
    ensures
        included == includes(*view, *summary, recently_opened@),
{
    match view {
        ViewMode::AllNotes | ViewMode::RecentlyEdited => !summary.archived,
        ViewMode::Notebook(path) => {
            !summary.archived && stands_right_in(&summary.relative_path, path)
        },
        ViewMode::RecentlyOpened => {
            !summary.archived && !summary.locked && rank_of(recently_opened, summary.id)
                < recently_opened.len()
        },
        ViewMode::Favourites => !summary.archived && summary.favourite,
        ViewMode::Pinned => !summary.archived && summary.pinned,
        ViewMode::Archive => summary.archived,
        ViewMode::EncryptedNotes => summary.encrypted,
        ViewMode::Trash => false,
    }
}

/// The place of a note among those that were opened last, from a place on, or
/// the number of these where it is not among them.
pub open spec fn rank_from(recent: Seq<Uuid>, id: Uuid, at: int) -> int
    decreases recent.len() - at,
{
    if at >= recent.len() {
        recent.len() as int
    } else if recent[at] == id {
        at
    } else {
        rank_from(recent, id, at + 1)
    }
}

fn rank_of(recent: &[Uuid], id: Uuid) -> (rank: usize)
    ensures
        rank == rank_from(recent@, id, 0),
        rank <= recent@.len(),
        rank < recent@.len() <==> recent@.contains(id),
{
    let mut at: usize = 0;
    while at < recent.len() && recent[at] != id
        invariant
            at <= recent@.len(),
            rank_from(recent@, id, at as int) == rank_from(recent@, id, 0),
            forall|i: int| 0 <= i < at ==> recent@[i] != id,
        decreases recent@.len() - at,
    {
        at += 1;
    }
    at
}

/// Whether a note has a tag, whatever the case of ASCII letters.
pub open spec fn has_tag(note: NoteSummary, tag: Seq<char>) -> bool {
    exists|i: int|
        0 <= i < note.tags@.len() && same_ascii_folded(#[trigger] texts(note.tags@)[i], tag)
}

fn carries_tag(summary: &NoteSummary, tag: &str) -> (carries: bool)
    ensures
        carries == has_tag(*summary, tag@),
{
    let mut index: usize = 0;
    while index < summary.tags.len()
        invariant
            index <= summary.tags@.len(),
            forall|i: int|
                0 <= i < index ==> !same_ascii_folded(#[trigger] texts(summary.tags@)[i], tag@),
        decreases summary.tags@.len() - index,
    {
        proof {
            assert(texts(summary.tags@)[index as int] == summary.tags@[index as int]@);
        }
        if equal_ascii_folded(&summary.tags[index], tag) {
            return true;
        }
        index += 1;
    }
    false
}

/// What narrows a list of notes.
pub struct ListQuery<'a> {
    pub view: &'a ViewMode,
    pub tag: Option<&'a str>,
    pub search: &'a str,
    pub recently_opened: &'a [Uuid],
    pub sort_order: Option<SortOrder>,
}

/// Whether a note is listed.
pub open spec fn is_listed(query: ListQuery, note: NoteSummary) -> bool {
    &&& includes(*query.view, note, query.recently_opened@)
    &&& query.tag matches Some(tag) ==> has_tag(note, tag@)
    &&& matches_query(note, query.search@)
}

/// The notes that are listed, as they come.
pub open spec fn listed(query: ListQuery, notes: Seq<NoteSummary>) -> Seq<NoteSummary>
    decreases notes.len(),
{
    if notes.len() == 0 {
        seq![]
    } else {
        let before = listed(query, notes.drop_last());
        if is_listed(query, notes.last()) {
            before.push(notes.last())
        } else {
            before
        }
    }
}

/// Whether one note was opened after another. Notes that were not opened come
/// last, by their identifiers.
pub open spec fn opened_after(recent: Seq<Uuid>, left: NoteSummary, right: NoteSummary) -> bool {
    let one = rank_from(recent, left.id, 0);
    let two = rank_from(recent, right.id, 0);
    one < two || (one == two && left.id.value < right.id.value)
}

/// Where a note goes among notes by when they were opened.
pub open spec fn opened_place(
    recent: Seq<Uuid>,
    notes: Seq<NoteSummary>,
    note: NoteSummary,
    at: int,
) -> int
    decreases notes.len() - at,
{
    if at >= notes.len() {
        notes.len() as int
    } else if opened_after(recent, note, notes[at]) {
        at
    } else {
        opened_place(recent, notes, note, at + 1)
    }
}

/// The notes by when they were opened, the latest first.
pub open spec fn by_opening(recent: Seq<Uuid>, notes: Seq<NoteSummary>) -> Seq<NoteSummary>
    decreases notes.len(),
{
    if notes.len() == 0 {
        notes
    } else {
        let before = by_opening(recent, notes.drop_last());
        before.insert(opened_place(recent, before, notes.last(), 0), notes.last())
    }
}

/// The notes in the order of a view.
pub open spec fn arranged(query: ListQuery, notes: Seq<NoteSummary>) -> Seq<NoteSummary> {
    if query.view is RecentlyOpened {
        by_opening(query.recently_opened@, notes)
    } else {
        ordered(query.sort_order, notes)
    }
}

/// Whether summaries show the same one by one.
pub open spec fn same_notes(left: Seq<NoteSummary>, right: Seq<NoteSummary>) -> bool {
    left.len() == right.len() && forall|i: int|
        0 <= i < left.len() ==> (#[trigger] left[i]).same_as(right[i])
}

fn sort_by_opening(notes: &mut Vec<NoteSummary>, recent: &[Uuid])
    ensures
        final(notes)@ == by_opening(recent@, old(notes)@),
{
    let ghost all = notes@;
    let mut sorted: Vec<NoteSummary> = Vec::new();
    let mut done: usize = 0;
    let total: usize = notes.len();
    proof {
        assert(all.skip(0) == all);
    }
    while done < total
        invariant
            done <= total,
            total == all.len(),
            notes@ == all.skip(done as int),
            sorted@ == by_opening(recent@, all.take(done as int)),
        decreases total - done,
    {
        let note = notes.remove(0);
        proof {
            let next = all.take(done + 1);
            assert(next.drop_last() == all.take(done as int));
            assert(next.last() == note);
            assert(notes@ =~= all.skip(done + 1));
        }
        let rank: usize = rank_of(recent, note.id);
        let mut at: usize = 0;
        while at < sorted.len() && !comes_first(recent, rank, &note, &sorted[at])
            invariant
                at <= sorted@.len(),
                rank == rank_from(recent@, note.id, 0),
                opened_place(recent@, sorted@, note, at as int) == opened_place(
                    recent@,
                    sorted@,
                    note,
                    0,
                ),
            decreases sorted@.len() - at,
        {
            at += 1;
        }
        sorted.insert(at, note);
        done += 1;
    }
    proof {
        assert(all.take(done as int) == all);
    }
    *notes = sorted;
}

fn comes_first(recent: &[Uuid], rank: usize, note: &NoteSummary, other: &NoteSummary) -> (first:
    bool)
    requires
        rank == rank_from(recent@, note.id, 0),
    ensures
        first == opened_after(recent@, *note, *other),
{
    let other_rank: usize = rank_of(recent, other.id);
    rank < other_rank || (rank == other_rank && note.id.value < other.id.value)
}

/// The notes that a view lists under a tag and a search, in the view's order.
pub fn filtered_notes(query: &ListQuery, notes: &[NoteSummary]) -> (found: Vec<NoteSummary>)
    ensures
        exists|copies: Seq<NoteSummary>|
            same_notes(copies, listed(*query, notes@)) && found@ == #[trigger] arranged(
                *query,
                copies,
            ),
{
    let mut found: Vec<NoteSummary> = Vec::new();
    let mut index: usize = 0;
    while index < notes.len()
        invariant
            index <= notes@.len(),
            same_notes(found@, listed(*query, notes@.take(index as int))),
        decreases notes@.len() - index,
    {
        let ghost done = found@;
        proof {
            let next = notes@.take(index + 1);
            assert(next.drop_last() =~= notes@.take(index as int));
            assert(next.last() == notes@[index as int]);
        }
        let summary = &notes[index];
        let tagged = match query.tag {
            Some(tag) => carries_tag(summary, tag),
            None => true,
        };
        if view_includes(query.view, summary, query.recently_opened) && tagged && summary_matches(
            summary,
            query.search,
        ) {
            let copy = summary.copy();
            found.push(copy);
        }
        index += 1;
    }
    proof {
        assert(notes@.take(index as int) == notes@);
    }
    let ghost copies = found@;
    if matches!(query.view, ViewMode::RecentlyOpened) {
        sort_by_opening(&mut found, query.recently_opened);
    } else {
        sort_notes(&mut found, query.sort_order);
    }
    proof {
        assert(found@ == arranged(*query, copies));
    }
    found
}

proof fn lemma_opened_place(recent: Seq<Uuid>, notes: Seq<NoteSummary>, note: NoteSummary, at: int)
    requires
        0 <= at <= notes.len(),
    ensures
        at <= opened_place(recent, notes, note, at) <= notes.len(),
        forall|i: int|
            at <= i < opened_place(recent, notes, note, at) ==> !opened_after(
                recent,
                note,
                #[trigger] notes[i],
            ),
        opened_place(recent, notes, note, at) < notes.len() ==> opened_after(
            recent,
            note,
            notes[opened_place(recent, notes, note, at)],
        ),
    decreases notes.len() - at,
{
    if at < notes.len() && !opened_after(recent, note, notes[at]) {
        lemma_opened_place(recent, notes, note, at + 1);
    }
}

/// The recently opened notes come in the order in which they were opened, the
/// latest first, and ordering them loses none.
pub proof fn law_recently_opened_is_in_order(recent: Seq<Uuid>, notes: Seq<NoteSummary>)
    ensures
        by_opening(recent, notes).len() == notes.len(),
        by_opening(recent, notes).to_multiset() == notes.to_multiset(),
        forall|i: int, j: int|
            0 <= i < j < notes.len() ==> !opened_after(
                recent,
                #[trigger] by_opening(recent, notes)[j],
                #[trigger] by_opening(recent, notes)[i],
            ),
    decreases notes.len(),
{
    if notes.len() > 0 {
        let shorter = notes.drop_last();
        let note = notes.last();
        law_recently_opened_is_in_order(recent, shorter);
        let before = by_opening(recent, shorter);
        let at = opened_place(recent, before, note, 0);
        lemma_opened_place(recent, before, note, 0);
        let after = before.insert(at, note);
        assert forall|i: int, j: int| 0 <= i < j < after.len() implies !opened_after(
            recent,
            #[trigger] after[j],
            #[trigger] after[i],
        ) by {
            if j < at {
                assert(after[i] == before[i] && after[j] == before[j]);
            } else if i > at {
                assert(after[i] == before[i - 1] && after[j] == before[j - 1]);
            } else if j == at {
                assert(after[i] == before[i]);
            } else if i == at {
                assert(after[j] == before[j - 1]);
                if j - 1 > at {
                    assert(!opened_after(recent, before[j - 1], before[at]));
                }
            } else {
                assert(after[i] == before[i] && after[j] == before[j - 1]);
            }
        }
        broadcast use vstd::seq_lib::group_to_multiset_ensures;

        vstd::seq_lib::to_multiset_insert(before, at, note);
        assert(shorter.push(note) == notes);
    }
}

/// A locked note is in no view that goes by what its password protects.
pub proof fn law_locked_notes_show_nothing_protected(
    view: ViewMode,
    note: NoteSummary,
    id: Uuid,
    path: Seq<char>,
    recent: Seq<Uuid>,
)
    requires
        note.is_placeholder(id, path),
        view is Pinned || view is Favourites || view is Archive || view is RecentlyOpened,
    ensures
        !includes(view, note, recent),
{
}

/// Archived notes are in the archive and in no view for every day.
pub proof fn law_archived_notes_leave_the_other_views(
    view: ViewMode,
    note: NoteSummary,
    recent: Seq<Uuid>,
)
    requires
        note.archived,
    ensures
        includes(ViewMode::Archive, note, recent),
        includes(view, note, recent) ==> view is Archive || view is EncryptedNotes,
{
}

// The trash.

/// Whether an entry of the trash matches a search: by its title.
pub open spec fn trash_matches(entry: TrashEntry, search: Seq<char>) -> bool {
    trimmed(search).len() == 0 || contains_text(
        lowercase(entry.title@),
        lowercase(trimmed(search)),
    )
}

/// The entries of the trash that match a search.
pub open spec fn trash_listed(entries: Seq<TrashEntry>, search: Seq<char>) -> Seq<TrashEntry>
    decreases entries.len(),
{
    if entries.len() == 0 {
        seq![]
    } else {
        let before = trash_listed(entries.drop_last(), search);
        if trash_matches(entries.last(), search) {
            before.push(entries.last())
        } else {
            before
        }
    }
}

/// The entries of the trash that match a search, in the order they have.
pub fn filtered_trash(entries: &[TrashEntry], search: &str) -> (found: Vec<TrashEntry>)
    ensures
        found@.len() == trash_listed(entries@, search@).len(),
        forall|i: int|
            0 <= i < found@.len() ==> (#[trigger] found@[i]).same_as(
                trash_listed(entries@, search@)[i],
            ),
{
    let inner = trim(search);
    let wanted = to_lowercase(&inner);
    let mut found: Vec<TrashEntry> = Vec::new();
    let mut index: usize = 0;
    while index < entries.len()
        invariant
            index <= entries@.len(),
            inner@ == trimmed(search@),
            wanted@ == lowercase(trimmed(search@)),
            found@.len() == trash_listed(entries@.take(index as int), search@).len(),
            forall|i: int|
                0 <= i < found@.len() ==> (#[trigger] found@[i]).same_as(
                    trash_listed(entries@.take(index as int), search@)[i],
                ),
        decreases entries@.len() - index,
    {
        proof {
            let next = entries@.take(index + 1);
            assert(next.drop_last() =~= entries@.take(index as int));
            assert(next.last() == entries@[index as int]);
        }
        let entry = &entries[index];
        if inner.as_str().is_empty() || text_contains(&to_lowercase(&entry.title), &wanted) {
            found.push(entry.copy());
        }
        index += 1;
    }
    proof {
        assert(entries@.take(index as int) == entries@);
    }
    found
}

/// The line below the title of an entry of the trash.
pub fn trash_subtitle(entry: &TrashEntry) -> (subtitle: String)
    ensures
        subtitle@ == (if entry.encrypted {
            "Encrypted note"@
        } else {
            "From "@ + entry.original_relative_path@
        }),
{
    if entry.encrypted {
        "Encrypted note".to_owned()
    } else {
        let mut subtitle: String = "From ".to_owned();
        subtitle.append(&entry.original_relative_path);
        subtitle
    }
}

// Rows.

/// The rows of a list of notes.
pub fn note_targets(notes: &[NoteSummary]) -> (targets: Vec<RowTarget>)
    ensures
        targets@ == Seq::new(notes@.len(), |i: int| RowTarget::Note(notes@[i].id)),
{
    let mut targets: Vec<RowTarget> = Vec::new();
    let mut index: usize = 0;
    while index < notes.len()
        invariant
            index <= notes@.len(),
            targets@ == Seq::new(index as nat, |i: int| RowTarget::Note(notes@[i].id)),
        decreases notes@.len() - index,
    {
        targets.push(RowTarget::Note(notes[index].id));
        index += 1;
        proof {
            assert(targets@ =~= Seq::new(index as nat, |i: int| RowTarget::Note(notes@[i].id)));
        }
    }
    targets
}

/// The rows of a list of the trash.
pub fn trash_targets(entries: &[TrashEntry]) -> (targets: Vec<RowTarget>)
    ensures
        targets@ == Seq::new(entries@.len(), |i: int| RowTarget::Trash(entries@[i].id)),
{
    let mut targets: Vec<RowTarget> = Vec::new();
    let mut index: usize = 0;
    while index < entries.len()
        invariant
            index <= entries@.len(),
            targets@ == Seq::new(index as nat, |i: int| RowTarget::Trash(entries@[i].id)),
        decreases entries@.len() - index,
    {
        targets.push(RowTarget::Trash(entries[index].id));
        index += 1;
        proof {
            assert(targets@ =~= Seq::new(
                index as nat,
                |i: int| RowTarget::Trash(entries@[i].id),
            ));
        }
    }
    targets
}

/// What stands in place of an empty list.
#[derive(Debug, PartialEq, Eq)]
pub struct EmptyList {
    pub title: &'static str,
    pub copy: &'static str,
}

/// What an empty list says.
pub open spec fn empty_texts(view: ViewMode, searching: bool) -> (Seq<char>, Seq<char>) {
    if searching {
        ("No matches"@, "Try a different search."@)
    } else {
        match view {
            ViewMode::AllNotes | ViewMode::RecentlyEdited => (
                "No notes yet"@,
                "Create a new note to start writing."@,
            ),
            ViewMode::Notebook(_) => (
                "No notes here"@,
                "New notes you create here appear in this notebook."@,
            ),
            ViewMode::RecentlyOpened => (
                "Nothing opened yet"@,
                "Notes you open will appear here."@,
            ),
            ViewMode::Favourites => (
                "No favourites yet"@,
                "Mark a note with the star to see it here."@,
            ),
            ViewMode::Pinned => ("No pinned notes"@, "Pin a note to see it here."@),
            ViewMode::Archive => (
                "Nothing archived"@,
                "Archive a note to remove it from your day-to-day views."@,
            ),
            ViewMode::EncryptedNotes => (
                "No encrypted notes"@,
                "Encrypt a note with its own password to see it here."@,
            ),
            ViewMode::Trash => ("Trash is empty"@, "Deleted notes will appear here."@),
        }
    }
}

/// What an empty list says. A search of nothing but whitespace is none.
pub fn empty_list(view: &ViewMode, search: &str) -> (empty: EmptyList)
    ensures
        (empty.title@, empty.copy@) == empty_texts(*view, trimmed(search@).len() > 0),
{
    if !trim(search).as_str().is_empty() {
        return EmptyList { title: "No matches", copy: "Try a different search." };
    }
    match view {
        ViewMode::AllNotes | ViewMode::RecentlyEdited => EmptyList {
            title: "No notes yet",
            copy: "Create a new note to start writing.",
        },
        ViewMode::Notebook(_) => EmptyList {
            title: "No notes here",
            copy: "New notes you create here appear in this notebook.",
        },
        ViewMode::RecentlyOpened => EmptyList {
            title: "Nothing opened yet",
            copy: "Notes you open will appear here.",
        },
        ViewMode::Favourites => EmptyList {
            title: "No favourites yet",
            copy: "Mark a note with the star to see it here.",
        },
        ViewMode::Pinned => EmptyList {
            title: "No pinned notes",
            copy: "Pin a note to see it here.",
        },
        ViewMode::Archive => EmptyList {
            title: "Nothing archived",
            copy: "Archive a note to remove it from your day-to-day views.",
        },
        ViewMode::EncryptedNotes => EmptyList {
            title: "No encrypted notes",
            copy: "Encrypt a note with its own password to see it here.",
        },
        ViewMode::Trash => EmptyList {
            title: "Trash is empty",
            copy: "Deleted notes will appear here.",
        },
    }
}

/// What a list says once its last row was removed.
pub fn emptied_list(target: RowTarget) -> (empty: EmptyList)
    ensures
        target is Note ==> empty.title@ == "No notes here"@ && empty.copy@
            == "Create a new note to start writing."@,
        target is Trash ==> empty.title@ == "Trash is empty"@ && empty.copy@
            == "Deleted notes will appear here."@,
{
    match target {
        RowTarget::Note(_) => EmptyList {
            title: "No notes here",
            copy: "Create a new note to start writing.",
        },
        RowTarget::Trash(_) => EmptyList {
            title: "Trash is empty",
            copy: "Deleted notes will appear here.",
        },
    }
}

/// The space above and below a row of the list.
pub fn row_margin(density: NoteListDensity) -> (margin: i32)
    ensures
        margin == match density {
            NoteListDensity::Compact => 7i32,
            NoteListDensity::Comfortable => 11i32,
            NoteListDensity::Spacious => 16i32,
        },
{
    match density {
        NoteListDensity::Compact => 7,
        NoteListDensity::Comfortable => 11,
        NoteListDensity::Spacious => 16,
    }
}

/// The words of a body with one space between them.
pub open spec fn normalized_body(body: Seq<char>) -> Seq<char> {
    joined_texts(words(body), " "@)
}

/// The start of a body as a preview.
pub open spec fn preview_of(body: Seq<char>, limit: nat) -> Seq<char> {
    if normalized_body(body).len() > limit {
        normalized_body(body).take(limit as int).push('…')
    } else {
        normalized_body(body)
    }
}

/// The start of a body, with an ellipsis where there is more.
pub fn truncate_preview(body: &str, limit: usize) -> (preview: String)
    ensures
        preview@ == preview_of(body@, limit as nat),
{
    let all = words_of(body);
    let normalized = join_texts(&all, all.len(), " ");
    proof {
        assert(texts(all@).take(all@.len() as int) =~= texts(all@));
    }
    let chars = chars_of(&normalized);
    if chars.len() > limit {
        let mut preview = string_between(&chars, 0, limit);
        proof {
            assert(chars@.subrange(0, limit as int) =~= chars@.take(limit as int));
        }
        preview.push('…');
        preview
    } else {
        normalized
    }
}

// Notebooks.

/// The notebooks of the list: all but the one that has a row of its own.
pub open spec fn own_notebooks(entries: Seq<NotebookEntry>) -> Seq<Seq<char>>
    decreases entries.len(),
{
    if entries.len() == 0 {
        seq![]
    } else {
        let before = own_notebooks(entries.drop_last());
        if same_path(entries.last().relative_path@, DEFAULT_NOTEBOOK@) {
            before
        } else {
            before.push(entries.last().relative_path@)
        }
    }
}

/// The paths of the notebooks of the list.
pub fn notebook_rows(entries: &[NotebookEntry]) -> (rows: Vec<String>)
    ensures
        texts(rows@) == own_notebooks(entries@),
{
    let mut rows: Vec<String> = Vec::new();
    let mut index: usize = 0;
    proof {
        assert(texts(rows@) =~= own_notebooks(entries@.take(0)));
    }
    while index < entries.len()
        invariant
            index <= entries@.len(),
            texts(rows@) == own_notebooks(entries@.take(index as int)),
        decreases entries@.len() - index,
    {
        proof {
            let next = entries@.take(index + 1);
            assert(next.drop_last() =~= entries@.take(index as int));
            assert(next.last() == entries@[index as int]);
        }
        if !paths_equal(&entries[index].relative_path, DEFAULT_NOTEBOOK) {
            let ghost done = rows@;
            let path = copy_text(&entries[index].relative_path);
            rows.push(path);
            proof {
                lemma_texts_push(done, path);
            }
        }
        index += 1;
    }
    proof {
        assert(entries@.take(index as int) == entries@);
    }
    rows
}

/// How deep a notebook lies within others.
pub open spec fn depth_of(path: Seq<char>) -> nat {
    if components(path).len() == 0 {
        0
    } else {
        (components(path).len() - 1) as nat
    }
}

/// How deep a notebook lies within others.
pub fn notebook_depth(path: &str) -> (depth: usize)
    ensures
        depth == depth_of(path@),
{
    let parts = components_of(path);
    proof {
        assert(texts(parts@).len() == parts@.len());
    }
    if parts.len() == 0 {
        0
    } else {
        parts.len() - 1
    }
}

/// The name that a path ends with, or another text where it ends with none.
pub open spec fn name_or(path: Seq<char>, other: Seq<char>) -> Seq<char> {
    match file_name(path) {
        Some(name) => name,
        None => other,
    }
}

/// The name of a notebook, or another text where its path ends with none.
pub fn notebook_name(path: &str, other: &str) -> (name: String)
    ensures
        name@ == name_or(path@, other@),
{
    match file_name_of(path) {
        Some(name) => name,
        None => other.to_owned(),
    }
}

/// The first row from a place on for a notebook, or the number of rows.
pub open spec fn notebook_from(rows: Seq<Seq<char>>, path: Seq<char>, at: int) -> int
    decreases rows.len() - at,
{
    if at >= rows.len() {
        rows.len() as int
    } else if same_path(rows[at], path) {
        at
    } else {
        notebook_from(rows, path, at + 1)
    }
}

/// The row of the list of notebooks that a view selects.
pub fn selected_notebook(view: &ViewMode, rows: &[String]) -> (selected: Option<usize>)
    ensures
        match *view {
            ViewMode::Notebook(path) => {
                let at = notebook_from(texts(rows@), path@, 0);
                if same_path(path@, DEFAULT_NOTEBOOK@) || at == rows@.len() {
                    selected is None
                } else {
                    selected matches Some(found) && found == at && found < rows@.len()
                }
            },
            _ => selected is None,
        },
{
    match view {
        ViewMode::Notebook(path) => {
            if paths_equal(path, DEFAULT_NOTEBOOK) {
                return None;
            }
            let mut at: usize = 0;
            while at < rows.len()
                invariant
                    at <= rows@.len(),
                    !same_path(path@, DEFAULT_NOTEBOOK@),
                    *view matches ViewMode::Notebook(shown) && shown@ == path@,
                    notebook_from(texts(rows@), path@, at as int) == notebook_from(
                        texts(rows@),
                        path@,
                        0,
                    ),
                decreases rows@.len() - at,
            {
                proof {
                    assert(texts(rows@)[at as int] == rows@[at as int]@);
                }
                if paths_equal(&rows[at], path) {
                    return Some(at);
                }
                at += 1;
            }
            None
        },
        _ => None,
    }
}

/// The indentation of a notebook's row.
pub fn notebook_indent(path: &str) -> (indent: i32)
    requires
        8 + depth_of(path@) * 14 <= i32::MAX,
    ensures
        indent == 8 + depth_of(path@) * 14,
{
    let depth: usize = notebook_depth(path);
    8 + (depth as i32) * 14
}

/// Four spaces for each level.
pub open spec fn level_spaces(depth: nat) -> Seq<char>
    decreases depth,
{
    if depth == 0 {
        seq![]
    } else {
        level_spaces((depth - 1) as nat) + "    "@
    }
}

/// A notebook as it is offered as a destination.
pub fn destination_label(path: &str) -> (label: String)
    ensures
        label@ == level_spaces(depth_of(path@)) + name_or(path@, "Notebook"@),
{
    let depth: usize = notebook_depth(path);
    let mut label: String = String::new();
    let mut level: usize = 0;
    while level < depth
        invariant
            level <= depth,
            label@ == level_spaces(level as nat),
        decreases depth - level,
    {
        label.append("    ");
        level += 1;
    }
    let view = ViewMode::Notebook(copy_text(path));
    let heading = view.heading();
    label.append(&heading);
    label
}

// Tags.

/// The tags of all notes, one after the other.
pub open spec fn all_tags(notes: Seq<NoteSummary>) -> Seq<Seq<char>>
    decreases notes.len(),
{
    if notes.len() == 0 {
        seq![]
    } else {
        all_tags(notes.drop_last()) + texts(notes.last().tags@)
    }
}

/// Where a tag goes among tags in order.
pub open spec fn tag_place(tags: Seq<Seq<char>>, tag: Seq<char>, at: int) -> int
    decreases tags.len() - at,
{
    if at >= tags.len() {
        tags.len() as int
    } else if text_before(lowercase(tag), lowercase(tags[at])) {
        at
    } else {
        tag_place(tags, tag, at + 1)
    }
}

/// The tags in the order of their lowercase forms.
pub open spec fn tags_ordered(tags: Seq<Seq<char>>) -> Seq<Seq<char>>
    decreases tags.len(),
{
    if tags.len() == 0 {
        seq![]
    } else {
        let before = tags_ordered(tags.drop_last());
        before.insert(tag_place(before, tags.last(), 0), tags.last())
    }
}

/// The tags without those that follow one that is the same but for the case of
/// ASCII letters.
pub open spec fn without_repeats(tags: Seq<Seq<char>>) -> Seq<Seq<char>>
    decreases tags.len(),
{
    if tags.len() == 0 {
        seq![]
    } else {
        let before = without_repeats(tags.drop_last());
        if before.len() > 0 && same_ascii_folded(tags.last(), before.last()) {
            before
        } else {
            before.push(tags.last())
        }
    }
}

/// The tags that are offered as filters: those of all notes, in order, each once.
pub fn tag_choices(notes: &[NoteSummary]) -> (tags: Vec<String>)
    ensures
        texts(tags@) == without_repeats(tags_ordered(all_tags(notes@))),
{
    let mut sorted: Vec<String> = Vec::new();
    let ghost mut taken: Seq<Seq<char>> = seq![];
    let mut index: usize = 0;
    proof {
        assert(texts(sorted@) =~= tags_ordered(taken));
        assert(taken =~= all_tags(notes@.take(0)));
    }
    while index < notes.len()
        invariant
            index <= notes@.len(),
            taken == all_tags(notes@.take(index as int)),
            texts(sorted@) == tags_ordered(taken),
        decreases notes@.len() - index,
    {
        let ghost start = taken;
        let ghost own = texts(notes@[index as int].tags@);
        let summary = &notes[index];
        let mut at: usize = 0;
        proof {
            assert(start + own.take(0) =~= taken);
        }
        while at < summary.tags.len()
            invariant
                at <= summary.tags@.len(),
                own == texts(summary.tags@),
                taken == start + own.take(at as int),
                texts(sorted@) == tags_ordered(taken),
            decreases summary.tags@.len() - at,
        {
            let tag = copy_text(&summary.tags[at]);
            let ghost before = taken;
            proof {
                assert(own[at as int] == tag@);
                taken = taken.push(tag@);
                assert(taken.drop_last() =~= before);
                assert(taken =~= start + own.take(at + 1));
            }
            insert_tag(&mut sorted, tag);
            at += 1;
        }
        proof {
            let next = notes@.take(index + 1);
            assert(next.drop_last() =~= notes@.take(index as int));
            assert(next.last() == notes@[index as int]);
            assert(own.take(at as int) =~= own);
        }
        index += 1;
    }
    proof {
        assert(notes@.take(index as int) == notes@);
    }
    let ghost all = texts(sorted@);
    let mut tags: Vec<String> = Vec::new();
    let mut at: usize = 0;
    proof {
        assert(texts(tags@) =~= without_repeats(all.take(0)));
    }
    while at < sorted.len()
        invariant
            at <= sorted@.len(),
            all == texts(sorted@),
            texts(tags@) == without_repeats(all.take(at as int)),
        decreases sorted@.len() - at,
    {
        proof {
            let next = all.take(at + 1);
            assert(next.drop_last() =~= all.take(at as int));
            assert(next.last() == sorted@[at as int]@);
            if tags@.len() > 0 {
                assert(texts(tags@).last() == tags@[tags@.len() - 1]@);
            }
        }
        let repeated = tags.len() > 0 && equal_ascii_folded(&sorted[at], &tags[tags.len() - 1]);
        if !repeated {
            let ghost done = tags@;
            let tag = copy_text(&sorted[at]);
            tags.push(tag);
            proof {
                lemma_texts_push(done, tag);
            }
        }
        at += 1;
    }
    proof {
        assert(all.take(at as int) == all);
    }
    tags
}

fn insert_tag(tags: &mut Vec<String>, tag: String)
    ensures
        texts(final(tags)@) == texts(old(tags)@).insert(
            tag_place(texts(old(tags)@), tag@, 0),
            tag@,
        ),
{
    let ghost all = texts(tags@);
    let key = to_lowercase(&tag);
    let mut at: usize = 0;
    while at < tags.len() && !comes_before(&key, &to_lowercase(&tags[at]))
        invariant
            at <= tags@.len(),
            *tags == *old(tags),
            all == texts(tags@),
            key@ == lowercase(tag@),
            tag_place(all, tag@, at as int) == tag_place(all, tag@, 0),
        decreases tags@.len() - at,
    {
        proof {
            assert(all[at as int] == tags@[at as int]@);
        }
        at += 1;
    }
    proof {
        if at < tags@.len() {
            assert(all[at as int] == tags@[at as int]@);
        }
    }
    tags.insert(at, tag);
    proof {
        assert(texts(tags@) =~= all.insert(at as int, tag@));
    }
}

proof fn lemma_tag_place(tags: Seq<Seq<char>>, tag: Seq<char>, at: int)
    requires
        0 <= at <= tags.len(),
    ensures
        at <= tag_place(tags, tag, at) <= tags.len(),
    decreases tags.len() - at,
{
    if at < tags.len() && !text_before(lowercase(tag), lowercase(tags[at])) {
        lemma_tag_place(tags, tag, at + 1);
    }
}

proof fn lemma_ordered_tags_keep(tags: Seq<Seq<char>>, at: int)
    requires
        0 <= at < tags.len(),
    ensures
        tags_ordered(tags).contains(tags[at]),
    decreases tags.len(),
{
    let before = tags_ordered(tags.drop_last());
    let place = tag_place(before, tags.last(), 0);
    lemma_tag_place(before, tags.last(), 0);
    let after = tags_ordered(tags);
    if at == tags.len() - 1 {
        assert(after[place] == tags[at]);
    } else {
        lemma_ordered_tags_keep(tags.drop_last(), at);
        let k = choose|k: int| 0 <= k < before.len() && before[k] == tags[at];
        if k < place {
            assert(after[k] == tags[at]);
        } else {
            assert(after[k + 1] == tags[at]);
        }
    }
}

proof fn lemma_repeats_keep(tags: Seq<Seq<char>>, at: int)
    requires
        0 <= at < tags.len(),
    ensures
        exists|k: int|
            0 <= k < without_repeats(tags).len() && same_ascii_folded(
                tags[at],
                #[trigger] without_repeats(tags)[k],
            ),
        without_repeats(tags).len() > 0,
    decreases tags.len(),
{
    let before = without_repeats(tags.drop_last());
    let after = without_repeats(tags);
    if at == tags.len() - 1 {
        if before.len() > 0 && same_ascii_folded(tags.last(), before.last()) {
            assert(same_ascii_folded(tags[at], after[after.len() - 1]));
        } else {
            assert(same_ascii_folded(tags[at], after[after.len() - 1]));
        }
    } else {
        lemma_repeats_keep(tags.drop_last(), at);
        let k = choose|k: int|
            0 <= k < before.len() && same_ascii_folded(tags.drop_last()[at], #[trigger] before[k]);
        assert(same_ascii_folded(tags[at], after[k]));
    }
}

/// Every tag of every note is offered as a filter, in some case of its letters.
pub proof fn law_every_tag_is_offered(notes: Seq<NoteSummary>, note: int, tag: int)
    requires
        0 <= note < notes.len(),
        0 <= tag < notes[note].tags@.len(),
    ensures
        exists|k: int|
            0 <= k < without_repeats(tags_ordered(all_tags(notes))).len() && same_ascii_folded(
                texts(notes[note].tags@)[tag],
                #[trigger] without_repeats(tags_ordered(all_tags(notes)))[k],
            ),
{
    lemma_all_tags_hold(notes, note, tag);
    let all = all_tags(notes);
    let wanted = texts(notes[note].tags@)[tag];
    let at = choose|at: int| 0 <= at < all.len() && all[at] == wanted;
    lemma_ordered_tags_keep(all, at);
    let sorted = tags_ordered(all);
    let place = choose|place: int| 0 <= place < sorted.len() && sorted[place] == wanted;
    lemma_repeats_keep(sorted, place);
}

proof fn lemma_all_tags_hold(notes: Seq<NoteSummary>, note: int, tag: int)
    requires
        0 <= note < notes.len(),
        0 <= tag < notes[note].tags@.len(),
    ensures
        all_tags(notes).contains(texts(notes[note].tags@)[tag]),
    decreases notes.len(),
{
    let before = all_tags(notes.drop_last());
    let all = all_tags(notes);
    if note == notes.len() - 1 {
        assert(all[before.len() as int + tag] == texts(notes[note].tags@)[tag]);
    } else {
        lemma_all_tags_hold(notes.drop_last(), note, tag);
        let k = choose|k: int|
            0 <= k < before.len() && before[k] == texts(notes[note].tags@)[tag];
        assert(all[k] == texts(notes[note].tags@)[tag]);
    }
}

// Selection.

/// The row to go to from the selected one: as many rows on as `direction` says.
/// Without a selection, the first.
pub fn adjacent_row(coordinator: &SelectionCoordinator, selected: Option<usize>, direction: i32) -> (target:
    Option<RowTarget>)
    requires
        selected matches Some(index) ==> index < i32::MAX && -1 <= direction <= 1,
    ensures
        target == match selected {
            Some(index) => row_at(coordinator@.rows, index + direction),
            None => row_at(coordinator@.rows, 0),
        },
{
    match selected {
        Some(index) => {
            let next: i32 = index as i32 + direction;
            coordinator.target_at(next)
        },
        None => coordinator.target_at(0),
    }
}

/// The row to go to once the one at a place is gone: the one that took its
/// place, or else the one before it.
pub fn row_after_removal(coordinator: &SelectionCoordinator, removed: usize) -> (target: Option<
    RowTarget,
>)
    requires
        removed <= i32::MAX,
    ensures
        target == match row_at(coordinator@.rows, removed as int) {
            Some(next) => Some(next),
            None => row_at(coordinator@.rows, removed - 1),
        },
{
    match coordinator.target_at(removed as i32) {
        Some(next) => Some(next),
        None => {
            if removed == 0 {
                None
            } else {
                coordinator.target_at(removed as i32 - 1)
            }
        },
    }
}

/// The row that a view starts with: the one that was selected there last, where
/// it is still listed, or else the first.
pub fn first_row(coordinator: &SelectionCoordinator, preferred: Option<RowTarget>) -> (target: Option<
    RowTarget,
>)
    ensures
        target == match preferred {
            Some(wanted) => if row_from(coordinator@.rows, wanted, 0) is Some {
                Some(wanted)
            } else {
                row_at(coordinator@.rows, 0)
            },
            None => row_at(coordinator@.rows, 0),
        },
{
    if let Some(wanted) = preferred {
        if coordinator.index_of(wanted).is_some() {
            return Some(wanted);
        }
    }
    coordinator.target_at(0)
}

} // verus!
