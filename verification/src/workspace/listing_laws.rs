//! What a list of notes shows, and in which order.

use vstd::prelude::*;

use crate::config::SortOrder;
use crate::constants::DEFAULT_NOTEBOOK;
use crate::ident::Uuid;
use crate::model::{NoteSummary, Timestamp};
use crate::paths::{components, same_path};
use crate::sort::{law_sorting_orders_and_keeps, ordered, stands_before};
use crate::text::{
    contains_text, joined_texts, lowercase, same_ascii_folded, text_before, texts, trimmed, words,
};
use crate::ui_state::ViewMode;
use crate::vault::{NotebookEntry, TrashEntry};
use crate::workspace::listing::{
    all_tags, arranged, by_opening, depth_of, is_listed, includes, law_recently_opened_is_in_order,
    listed, opened_after, own_notebooks, preview_of, rank_from, tag_place, tags_ordered,
    trash_listed, without_repeats, ListQuery,
};

verus! {

// The orders.

/// Whether one moment is later than another.
pub open spec fn later(one: Timestamp, other: Timestamp) -> bool {
    one.seconds > other.seconds || one.seconds == other.seconds && one.nanos > other.nanos
}

/// In a sorted list no note stands behind one that its order puts after it: by the
/// last edit and by creation the later note comes first, by title the one whose
/// title in lower case comes first in the dictionary, or last.
pub proof fn law_each_order_goes_by_its_own_field(notes: Seq<NoteSummary>, i: int, j: int)
    requires
        0 <= i < j < notes.len(),
    ensures
        ({
            let edited = ordered(Some(SortOrder::LastEdited), notes);
            let created = ordered(Some(SortOrder::DateCreated), notes);
            let up = ordered(Some(SortOrder::TitleAsc), notes);
            let down = ordered(Some(SortOrder::TitleZa), notes);
            &&& !later(edited[j].updated_at, edited[i].updated_at)
            &&& !later(created[j].created_at, created[i].created_at)
            &&& !text_before(lowercase(up[j].title@), lowercase(up[i].title@))
            &&& !text_before(lowercase(down[i].title@), lowercase(down[j].title@))
        }),
{
    law_sorting_orders_and_keeps(Some(SortOrder::LastEdited), notes);
    law_sorting_orders_and_keeps(Some(SortOrder::DateCreated), notes);
    law_sorting_orders_and_keeps(Some(SortOrder::TitleAsc), notes);
    law_sorting_orders_and_keeps(Some(SortOrder::TitleZa), notes);
    let edited = ordered(Some(SortOrder::LastEdited), notes);
    let created = ordered(Some(SortOrder::DateCreated), notes);
    let up = ordered(Some(SortOrder::TitleAsc), notes);
    let down = ordered(Some(SortOrder::TitleZa), notes);
    assert(!stands_before(Some(SortOrder::LastEdited), edited[j], edited[i]));
    assert(!stands_before(Some(SortOrder::DateCreated), created[j], created[i]));
    assert(!stands_before(Some(SortOrder::TitleAsc), up[j], up[i]));
    assert(!stands_before(Some(SortOrder::TitleZa), down[j], down[i]));
    crate::text::lemma_text_order(lowercase(up[j].title@), lowercase(up[i].title@));
    crate::text::lemma_text_order(lowercase(down[j].title@), lowercase(down[i].title@));
}

/// Without an order that was chosen no note that is not pinned stands before one
/// that is; among notes that are both pinned or both not, the one that was edited
/// later comes first, and at the same moment the one with the smaller title.
pub proof fn law_pinned_notes_come_first(notes: Seq<NoteSummary>, i: int, j: int)
    requires
        0 <= i < j < notes.len(),
    ensures
        ({
            let sorted = ordered(None, notes);
            let one = sorted[i];
            let two = sorted[j];
            &&& two.pinned ==> one.pinned
            &&& one.pinned == two.pinned ==> !later(two.updated_at, one.updated_at)
            &&& one.pinned == two.pinned && one.updated_at == two.updated_at ==> !text_before(
                lowercase(two.title@),
                lowercase(one.title@),
            )
        }),
{
    law_sorting_orders_and_keeps(None, notes);
    let sorted = ordered(None, notes);
    assert(!stands_before(None, sorted[j], sorted[i]));
    crate::text::lemma_text_order(lowercase(sorted[j].title@), lowercase(sorted[i].title@));
}

/// Notes that the field of an order does not tell apart stand in the order of their
/// identifiers.
pub proof fn law_identifiers_settle_the_rest(notes: Seq<NoteSummary>, i: int, j: int)
    requires
        0 <= i < j < notes.len(),
    ensures
        ({
            let edited = ordered(Some(SortOrder::LastEdited), notes);
            let created = ordered(Some(SortOrder::DateCreated), notes);
            let up = ordered(Some(SortOrder::TitleAsc), notes);
            let down = ordered(Some(SortOrder::TitleZa), notes);
            &&& edited[i].updated_at == edited[j].updated_at ==> edited[i].id.value
                <= edited[j].id.value
            &&& created[i].created_at == created[j].created_at ==> created[i].id.value
                <= created[j].id.value
            &&& up[i].title@ == up[j].title@ ==> up[i].id.value <= up[j].id.value
            &&& down[i].title@ == down[j].title@ ==> down[i].id.value <= down[j].id.value
        }),
{
    law_sorting_orders_and_keeps(Some(SortOrder::LastEdited), notes);
    law_sorting_orders_and_keeps(Some(SortOrder::DateCreated), notes);
    law_sorting_orders_and_keeps(Some(SortOrder::TitleAsc), notes);
    law_sorting_orders_and_keeps(Some(SortOrder::TitleZa), notes);
    let edited = ordered(Some(SortOrder::LastEdited), notes);
    let created = ordered(Some(SortOrder::DateCreated), notes);
    let up = ordered(Some(SortOrder::TitleAsc), notes);
    let down = ordered(Some(SortOrder::TitleZa), notes);
    assert(!stands_before(Some(SortOrder::LastEdited), edited[j], edited[i]));
    assert(!stands_before(Some(SortOrder::DateCreated), created[j], created[i]));
    assert(!stands_before(Some(SortOrder::TitleAsc), up[j], up[i]));
    assert(!stands_before(Some(SortOrder::TitleZa), down[j], down[i]));
}

proof fn lemma_rank(recent: Seq<Uuid>, id: Uuid, at: int)
    requires
        0 <= at <= recent.len(),
    ensures
        at <= rank_from(recent, id, at) <= recent.len(),
        rank_from(recent, id, at) < recent.len() ==> recent[rank_from(recent, id, at)] == id,
        forall|k: int| at <= k < rank_from(recent, id, at) ==> #[trigger] recent[k] != id,
    decreases recent.len() - at,
{
    if at < recent.len() && recent[at] != id {
        lemma_rank(recent, id, at + 1);
    }
}

/// In the view of what was opened last, a note that stands at an earlier place of
/// the history comes before those that stand at later ones or nowhere.
pub proof fn law_latest_opened_comes_first(
    recent: Seq<Uuid>,
    notes: Seq<NoteSummary>,
    i: int,
    j: int,
    at: int,
)
    requires
        0 <= i < j < notes.len(),
        0 <= at < recent.len(),
        recent[at] == by_opening(recent, notes)[j].id,
    ensures
        exists|k: int| 0 <= k <= at && #[trigger] recent[k] == by_opening(recent, notes)[i].id,
{
    law_recently_opened_is_in_order(recent, notes);
    let sorted = by_opening(recent, notes);
    assert(!opened_after(recent, sorted[j], sorted[i]));
    lemma_rank(recent, sorted[i].id, 0);
    lemma_rank(recent, sorted[j].id, 0);
    let one = rank_from(recent, sorted[i].id, 0);
    let two = rank_from(recent, sorted[j].id, 0);
    if two > at {
        assert(recent[at] != sorted[j].id);
    }
    assert(one <= two);
    assert(recent[one] == sorted[i].id);
}

// What is listed.

/// What each view shows: all notes but the archived ones; those right in a notebook;
/// those of the history that can be read; the favourites; the pinned; the archived;
/// the encrypted. None shows what is in the trash.
pub proof fn law_each_view_shows_its_own(
    note: NoteSummary,
    path: String,
    recent: Seq<Uuid>,
)
    ensures
        includes(ViewMode::AllNotes, note, recent) <==> !note.archived,
        includes(ViewMode::RecentlyEdited, note, recent) <==> !note.archived,
        includes(ViewMode::Favourites, note, recent) <==> note.favourite && !note.archived,
        includes(ViewMode::Pinned, note, recent) <==> note.pinned && !note.archived,
        includes(ViewMode::Archive, note, recent) <==> note.archived,
        includes(ViewMode::EncryptedNotes, note, recent) <==> note.encrypted,
        includes(ViewMode::RecentlyOpened, note, recent) <==> !note.archived && !note.locked
            && exists|k: int| 0 <= k < recent.len() && #[trigger] recent[k] == note.id,
        includes(ViewMode::Notebook(path), note, recent) <==> !note.archived && exists|
            name: Seq<char>,
        |
            name != seq!['/'] && #[trigger] components(path@).push(name) == components(
                note.relative_path@,
            ),
        !includes(ViewMode::Trash, note, recent),
{
    if includes(ViewMode::RecentlyOpened, note, recent) {
        let k = choose|k: int| 0 <= k < recent.len() && recent[k] == note.id;
        assert(recent[k] == note.id);
    }
    let parts = components(note.relative_path@);
    if includes(ViewMode::Notebook(path), note, recent) {
        let name = parts.last();
        assert(components(path@).push(name) =~= parts);
    }
    if !note.archived && exists|name: Seq<char>|
        name != seq!['/'] && #[trigger] components(path@).push(name) == parts {
        let name = choose|name: Seq<char>|
            name != seq!['/'] && #[trigger] components(path@).push(name) == parts;
        assert(components(path@).push(name).drop_last() =~= components(path@));
        assert(components(path@).push(name).last() == name);
    }
}

/// A note is listed where the view shows it, the search finds it and it has the tag
/// that was asked for, in whatever case; a query without a tag asks for none.
pub proof fn law_all_conditions_must_hold(query: ListQuery, note: NoteSummary, k: int)
    ensures
        is_listed(query, note) ==> includes(*query.view, note, query.recently_opened@),
        is_listed(query, note) ==> crate::search::matches_query(note, query.search@),
        query.tag matches Some(tag) ==> is_listed(query, note) ==> exists|i: int|
            0 <= i < note.tags@.len() && same_ascii_folded(
                (#[trigger] note.tags@[i])@,
                tag@,
            ),
        query.tag matches Some(tag) ==> 0 <= k < note.tags@.len() && same_ascii_folded(
            note.tags@[k]@,
            tag@,
        ) && includes(*query.view, note, query.recently_opened@) && crate::search::matches_query(
            note,
            query.search@,
        ) ==> is_listed(query, note),
        query.tag is None && includes(*query.view, note, query.recently_opened@)
            && crate::search::matches_query(note, query.search@) ==> is_listed(query, note),
{
    if let Some(tag) = query.tag {
        if is_listed(query, note) {
            let i = choose|i: int|
                0 <= i < note.tags@.len() && same_ascii_folded(
                    #[trigger] texts(note.tags@)[i],
                    tag@,
                );
            assert(note.tags@[i]@ == texts(note.tags@)[i]);
        }
        if 0 <= k < note.tags@.len() {
            assert(note.tags@[k]@ == texts(note.tags@)[k]);
        }
    }
}

/// The list holds every note that is to be listed, as often as it is there, and no
/// other; the order of the view moves notes and takes none away.
pub proof fn law_the_list_holds_what_is_listed(
    query: ListQuery,
    notes: Seq<NoteSummary>,
    note: NoteSummary,
)
    ensures
        listed(query, notes).to_multiset().count(note) == (if is_listed(query, note) {
            notes.to_multiset().count(note)
        } else {
            0
        }),
        arranged(query, notes).to_multiset() == notes.to_multiset(),
{
    lemma_listed_counts(query, notes, note);
    if query.view is RecentlyOpened {
        law_recently_opened_is_in_order(query.recently_opened@, notes);
    } else {
        law_sorting_orders_and_keeps(query.sort_order, notes);
    }
}

proof fn lemma_listed_counts(query: ListQuery, notes: Seq<NoteSummary>, note: NoteSummary)
    ensures
        listed(query, notes).to_multiset().count(note) == (if is_listed(query, note) {
            notes.to_multiset().count(note)
        } else {
            0
        }),
    decreases notes.len(),
{
    broadcast use vstd::seq_lib::group_to_multiset_ensures;

    if notes.len() > 0 {
        let front = notes.drop_last();
        lemma_listed_counts(query, front, note);
        assert(front.push(notes.last()) =~= notes);
    }
}

/// A search of the trash finds the entries whose title holds it, in whatever case,
/// and all of them where it is blank.
pub proof fn law_the_trash_is_searched_by_title(
    entries: Seq<TrashEntry>,
    search: Seq<char>,
    entry: TrashEntry,
)
    ensures
        trash_listed(entries, search).to_multiset().count(entry) == (if trimmed(search).len() == 0
            || contains_text(lowercase(entry.title@), lowercase(trimmed(search))) {
            entries.to_multiset().count(entry)
        } else {
            0
        }),
    decreases entries.len(),
{
    broadcast use vstd::seq_lib::group_to_multiset_ensures;

    if entries.len() > 0 {
        let front = entries.drop_last();
        law_the_trash_is_searched_by_title(front, search, entry);
        assert(front.push(entries.last()) =~= entries);
    }
}

// The preview.

/// A preview is the words of a body with one space between them; where these are
/// longer than the limit it is their start, as long as the limit, and a mark that
/// something is left out.
pub proof fn law_a_preview_starts_as_its_body(body: Seq<char>, limit: nat)
    ensures
        ({
            let whole = joined_texts(words(body), seq![' ']);
            let preview = preview_of(body, limit);
            if whole.len() <= limit {
                preview == whole
            } else {
                &&& preview.len() == limit + 1
                &&& preview.take(limit as int) == whole.take(limit as int)
                &&& preview.last() == '…'
            }
        }),
{
    reveal_strlit(" ");
    assert(" "@ =~= seq![' ']);
    let whole = joined_texts(words(body), seq![' ']);
    if whole.len() > limit {
        assert(preview_of(body, limit).take(limit as int) =~= whole.take(limit as int));
    }
}

// Notebooks and tags.

/// The rows of the notebooks are all notebooks but the one with a row of its own, in
/// the order that they come in.
pub proof fn law_other_notebooks_have_rows(entries: Seq<NotebookEntry>, path: Seq<char>)
    ensures
        own_notebooks(entries).contains(path) <==> !same_path(path, DEFAULT_NOTEBOOK@) && exists|
            i: int,
        |
            0 <= i < entries.len() && (#[trigger] entries[i]).relative_path@ == path,
    decreases entries.len(),
{
    if entries.len() > 0 {
        let front = entries.drop_last();
        let last = entries.last();
        law_other_notebooks_have_rows(front, path);
        let before = own_notebooks(front);
        let after = own_notebooks(entries);
        assert(entries[entries.len() - 1] == last);
        if before.contains(path) {
            let k = choose|k: int| 0 <= k < before.len() && before[k] == path;
            assert(after[k] == path);
            let i = choose|i: int|
                0 <= i < front.len() && (#[trigger] front[i]).relative_path@ == path;
            assert(entries[i].relative_path@ == path);
        }
        if after.contains(path) && !before.contains(path) {
            let k = choose|k: int| 0 <= k < after.len() && after[k] == path;
            if k < before.len() {
                assert(before[k] == path);
            }
            assert(entries[entries.len() - 1].relative_path@ == path);
        }
        if !same_path(path, DEFAULT_NOTEBOOK@) && exists|i: int|
            0 <= i < entries.len() && (#[trigger] entries[i]).relative_path@ == path {
            let i = choose|i: int|
                0 <= i < entries.len() && (#[trigger] entries[i]).relative_path@ == path;
            if i < front.len() {
                assert(front[i].relative_path@ == path);
            } else {
                assert(after[before.len() as int] == path);
            }
        }
    }
}

/// A notebook lies one level deeper than the one that it is right in.
pub proof fn law_a_notebook_lies_one_level_deeper(directory: Seq<char>, name: Seq<char>)
    requires
        crate::path_laws::one_name(name),
        components(directory).len() > 0,
    ensures
        depth_of(crate::paths::joined(directory, name)) == depth_of(directory) + 1,
        depth_of(name) == 0,
{
    crate::path_laws::law_a_joined_name_stands_right_in_its_directory(directory, name, directory);
    crate::path_laws::law_one_name_is_one_component(name);
}

/// Whether tags stand in the order of their lowercase forms.
spec fn in_tag_order(tags: Seq<Seq<char>>) -> bool {
    forall|i: int, j: int|
        0 <= i < j < tags.len() ==> !text_before(
            lowercase(#[trigger] tags[j]),
            lowercase(#[trigger] tags[i]),
        )
}

proof fn lemma_place_in_order(tags: Seq<Seq<char>>, tag: Seq<char>, at: int)
    requires
        0 <= at <= tags.len(),
        forall|i: int| 0 <= i < at ==> !text_before(lowercase(tag), lowercase(#[trigger] tags[i])),
    ensures
        ({
            let place = tag_place(tags, tag, at);
            &&& at <= place <= tags.len()
            &&& forall|i: int|
                0 <= i < place ==> !text_before(lowercase(tag), lowercase(#[trigger] tags[i]))
            &&& place < tags.len() ==> text_before(lowercase(tag), lowercase(tags[place]))
        }),
    decreases tags.len() - at,
{
    if at < tags.len() && !text_before(lowercase(tag), lowercase(tags[at])) {
        lemma_place_in_order(tags, tag, at + 1);
    }
}

proof fn lemma_tags_in_order(tags: Seq<Seq<char>>)
    ensures
        in_tag_order(tags_ordered(tags)),
        forall|tag: Seq<char>| tags_ordered(tags).contains(tag) ==> #[trigger] tags.contains(tag),
    decreases tags.len(),
{
    if tags.len() > 0 {
        let front = tags.drop_last();
        let last = tags.last();
        lemma_tags_in_order(front);
        let before = tags_ordered(front);
        lemma_place_in_order(before, last, 0);
        let place = tag_place(before, last, 0);
        let after = before.insert(place, last);
        assert forall|i: int, j: int| 0 <= i < j < after.len() implies !text_before(
            lowercase(#[trigger] after[j]),
            lowercase(#[trigger] after[i]),
        ) by {
            if j < place {
                assert(after[i] == before[i] && after[j] == before[j]);
            } else if j == place {
                assert(after[i] == before[i]);
            } else if i > place {
                assert(after[i] == before[i - 1] && after[j] == before[j - 1]);
            } else if i < place {
                assert(after[i] == before[i] && after[j] == before[j - 1]);
            } else {
                let one = lowercase(last);
                let two = lowercase(before[place]);
                let three = lowercase(before[j - 1]);
                assert(after[j] == before[j - 1]);
                if text_before(three, one) {
                    crate::text::lemma_text_order_transitive(three, one, two);
                    crate::text::lemma_text_order(three, two);
                    if j - 1 > place {
                        assert(!text_before(
                            lowercase(before[j - 1]),
                            lowercase(before[place]),
                        ));
                    }
                }
            }
        }
        assert forall|tag: Seq<char>| after.contains(tag) implies #[trigger] tags.contains(tag) by {
            let k = choose|k: int| 0 <= k < after.len() && after[k] == tag;
            if k == place {
                assert(tags[tags.len() - 1] == tag);
            } else {
                if k < place {
                    assert(before[k] == tag);
                } else {
                    assert(before[k - 1] == tag);
                }
                assert(front.contains(tag));
                let m = choose|m: int| 0 <= m < front.len() && front[m] == tag;
                assert(tags[m] == tag);
            }
        }
    }
}

proof fn lemma_repeats_in_order(tags: Seq<Seq<char>>)
    requires
        in_tag_order(tags),
    ensures
        in_tag_order(without_repeats(tags)),
        forall|k: int|
            0 <= k < without_repeats(tags).len() ==> tags.contains(
                #[trigger] without_repeats(tags)[k],
            ),
        forall|k: int|
            0 < k < without_repeats(tags).len() ==> !same_ascii_folded(
                #[trigger] without_repeats(tags)[k],
                without_repeats(tags)[k - 1],
            ),
    decreases tags.len(),
{
    if tags.len() > 0 {
        let front = tags.drop_last();
        assert(in_tag_order(front)) by {
            assert forall|i: int, j: int| 0 <= i < j < front.len() implies !text_before(
                lowercase(#[trigger] front[j]),
                lowercase(#[trigger] front[i]),
            ) by {
                assert(front[i] == tags[i] && front[j] == tags[j]);
            }
        }
        lemma_repeats_in_order(front);
        let before = without_repeats(front);
        let after = without_repeats(tags);
        let last = tags.last();
        assert(tags[tags.len() - 1] == last);
        assert forall|k: int| 0 <= k < after.len() implies tags.contains(#[trigger] after[k]) by {
            if k < before.len() {
                assert(front.contains(before[k]));
                let m = choose|m: int| 0 <= m < front.len() && front[m] == before[k];
                assert(tags[m] == after[k]);
            }
        }
        assert forall|i: int, j: int| 0 <= i < j < after.len() implies !text_before(
            lowercase(#[trigger] after[j]),
            lowercase(#[trigger] after[i]),
        ) by {
            assert(after[i] == before[i]);
            if j < before.len() {
                assert(after[j] == before[j]);
            } else {
                assert(front.contains(before[i]));
                let m = choose|m: int| 0 <= m < front.len() && front[m] == before[i];
                assert(tags[m] == before[i]);
                assert(!text_before(lowercase(tags[tags.len() - 1]), lowercase(tags[m])));
            }
        }
        assert forall|k: int| 0 < k < after.len() implies !same_ascii_folded(
            #[trigger] after[k],
            after[k - 1],
        ) by {
            if k < before.len() {
                assert(after[k] == before[k] && after[k - 1] == before[k - 1]);
            }
        }
    }
}

/// The tags that are offered are tags of notes, in the order of their lowercase
/// forms, and none follows one that is the same but for the case of ASCII letters.
pub proof fn law_only_tags_of_notes_are_offered(notes: Seq<NoteSummary>, i: int, j: int)
    ensures
        ({
            let offered = without_repeats(tags_ordered(all_tags(notes)));
            &&& 0 <= i < offered.len() ==> exists|n: int, t: int|
                0 <= n < notes.len() && 0 <= t < notes[n].tags@.len() && #[trigger] notes[n].tags@[t]@
                    == offered[i]
            &&& 0 <= i < j < offered.len() ==> !text_before(
                lowercase(offered[j]),
                lowercase(offered[i]),
            )
            &&& 0 < i < offered.len() ==> !same_ascii_folded(offered[i], offered[i - 1])
        }),
{
    let all = all_tags(notes);
    let sorted = tags_ordered(all);
    let offered = without_repeats(sorted);
    lemma_tags_in_order(all);
    lemma_repeats_in_order(sorted);
    if 0 <= i < offered.len() {
        assert(sorted.contains(offered[i]));
        assert(all.contains(offered[i]));
        lemma_tag_is_from(notes, offered[i]);
    }
}

proof fn lemma_tag_is_from(notes: Seq<NoteSummary>, tag: Seq<char>)
    requires
        all_tags(notes).contains(tag),
    ensures
        exists|n: int, t: int|
            0 <= n < notes.len() && 0 <= t < notes[n].tags@.len() && #[trigger] notes[n].tags@[t]@
                == tag,
    decreases notes.len(),
{
    if notes.len() > 0 {
        let front = notes.drop_last();
        let before = all_tags(front);
        let all = all_tags(notes);
        let own = texts(notes.last().tags@);
        let k = choose|k: int| 0 <= k < all.len() && all[k] == tag;
        if k < before.len() {
            assert(before[k] == tag);
            lemma_tag_is_from(front, tag);
            let (n, t) = choose|n: int, t: int|
                0 <= n < front.len() && 0 <= t < front[n].tags@.len()
                    && #[trigger] front[n].tags@[t]@ == tag;
            assert(notes[n].tags@[t]@ == tag);
        } else {
            let t = k - before.len();
            assert(own[t] == tag);
            assert(notes[notes.len() - 1].tags@[t]@ == tag);
        }
    }
}

} // verus!
