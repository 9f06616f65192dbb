//! The order of the notes in a list.

use vstd::prelude::*;

use crate::config::SortOrder;
use crate::model::NoteSummary;
use crate::text::{
    comes_before, lemma_text_order, lemma_text_order_transitive, lowercase, same_text, text_before,
    to_lowercase,
};

verus! {

/// The title as titles are compared.
pub open spec fn title_key(note: NoteSummary) -> Seq<char> {
    lowercase(note.title@)
}

/// Whether one note stands before another. Without an order that the user
/// chose, pinned notes come first, then those that were edited last, then those
/// with the smaller title. An order that the user chose goes by its own field
/// alone. Where nothing else tells two notes apart, their identifiers do.
pub open spec fn stands_before(order: Option<SortOrder>, left: NoteSummary, right: NoteSummary) -> bool {
    let by_id = left.id.value < right.id.value;
    match order {
        None => if left.pinned != right.pinned {
            left.pinned
        } else if left.updated_at != right.updated_at {
            right.updated_at.spec_before(left.updated_at)
        } else if title_key(left) != title_key(right) {
            text_before(title_key(left), title_key(right))
        } else {
            by_id
        },
        Some(SortOrder::LastEdited) => if left.updated_at != right.updated_at {
            right.updated_at.spec_before(left.updated_at)
        } else {
            by_id
        },
        Some(SortOrder::DateCreated) => if left.created_at != right.created_at {
            right.created_at.spec_before(left.created_at)
        } else {
            by_id
        },
        Some(SortOrder::TitleAsc) => if title_key(left) != title_key(right) {
            text_before(title_key(left), title_key(right))
        } else {
            by_id
        },
        Some(SortOrder::TitleZa) => if title_key(left) != title_key(right) {
            text_before(title_key(right), title_key(left))
        } else {
            by_id
        },
    }
}

/// Whether no note stands behind one that it should stand before.
pub open spec fn in_order(order: Option<SortOrder>, notes: Seq<NoteSummary>) -> bool {
    forall|i: int, j: int|
        0 <= i < j < notes.len() ==> !stands_before(order, #[trigger] notes[j], #[trigger] notes[i])
}

/// Whether no two notes have the same identifier.
pub open spec fn distinct_ids(notes: Seq<NoteSummary>) -> bool {
    forall|i: int, j: int|
        0 <= i < j < notes.len() ==> (#[trigger] notes[i]).id != (#[trigger] notes[j]).id
}

/// Where a note goes among notes that are in order: before the first that it
/// stands before.
pub open spec fn place(order: Option<SortOrder>, notes: Seq<NoteSummary>, note: NoteSummary, at: int) -> int
    decreases notes.len() - at,
{
    if at >= notes.len() {
        notes.len() as int
    } else if stands_before(order, note, notes[at]) {
        at
    } else {
        place(order, notes, note, at + 1)
    }
}

/// The notes in order, one put in its place after the other. Notes that nothing
/// tells apart keep the order that they have.
pub open spec fn ordered(order: Option<SortOrder>, notes: Seq<NoteSummary>) -> Seq<NoteSummary>
    decreases notes.len(),
{
    if notes.len() == 0 {
        notes
    } else {
        let before = ordered(order, notes.drop_last());
        before.insert(place(order, before, notes.last(), 0), notes.last())
    }
}

proof fn lemma_strict(order: Option<SortOrder>, left: NoteSummary, right: NoteSummary)
    ensures
        !(stands_before(order, left, right) && stands_before(order, right, left)),
        left.id != right.id ==> stands_before(order, left, right) || stands_before(
            order,
            right,
            left,
        ),
{
    lemma_text_order(title_key(left), title_key(right));
}

proof fn lemma_transitive(
    order: Option<SortOrder>,
    one: NoteSummary,
    two: NoteSummary,
    three: NoteSummary,
)
    requires
        stands_before(order, one, two),
        stands_before(order, two, three),
    ensures
        stands_before(order, one, three),
{
    let a = title_key(one);
    let b = title_key(two);
    let c = title_key(three);
    lemma_text_order(a, b);
    lemma_text_order(b, c);
    lemma_text_order(a, c);
    if text_before(a, b) && text_before(b, c) {
        lemma_text_order_transitive(a, b, c);
    }
    if text_before(c, b) && text_before(b, a) {
        lemma_text_order_transitive(c, b, a);
    }
}

fn is_before(order: Option<SortOrder>, left: &NoteSummary, right: &NoteSummary) -> (before: bool)
    ensures
        before == stands_before(order, *left, *right),
{
    let by_id = left.id.value < right.id.value;
    match order {
        None => if left.pinned != right.pinned {
            left.pinned
        } else if left.updated_at != right.updated_at {
            right.updated_at.before(&left.updated_at)
        } else {
            let one = to_lowercase(&left.title);
            let two = to_lowercase(&right.title);
            if same_text(&one, &two) {
                by_id
            } else {
                comes_before(&one, &two)
            }
        },
        Some(SortOrder::LastEdited) => if left.updated_at != right.updated_at {
            right.updated_at.before(&left.updated_at)
        } else {
            by_id
        },
        Some(SortOrder::DateCreated) => if left.created_at != right.created_at {
            right.created_at.before(&left.created_at)
        } else {
            by_id
        },
        Some(SortOrder::TitleAsc) => {
            let one = to_lowercase(&left.title);
            let two = to_lowercase(&right.title);
            if same_text(&one, &two) {
                by_id
            } else {
                comes_before(&one, &two)
            }
        },
        Some(SortOrder::TitleZa) => {
            let one = to_lowercase(&left.title);
            let two = to_lowercase(&right.title);
            if same_text(&one, &two) {
                by_id
            } else {
                comes_before(&two, &one)
            }
        },
    }
}

/// The place is the one position such that the note stands before nothing
/// that comes earlier, and before what comes there.
proof fn lemma_place(order: Option<SortOrder>, notes: Seq<NoteSummary>, note: NoteSummary, at: int)
    requires
        0 <= at <= notes.len(),
    ensures
        at <= place(order, notes, note, at) <= notes.len(),
        forall|i: int|
            at <= i < place(order, notes, note, at) ==> !stands_before(
                order,
                note,
                #[trigger] notes[i],
            ),
        place(order, notes, note, at) < notes.len() ==> stands_before(
            order,
            note,
            notes[place(order, notes, note, at)],
        ),
    decreases notes.len() - at,
{
    if at < notes.len() && !stands_before(order, note, notes[at]) {
        lemma_place(order, notes, note, at + 1);
    }
}

/// Finds the place of a note among notes that are in order.
fn find_place(order: Option<SortOrder>, notes: &[NoteSummary], note: &NoteSummary) -> (at: usize)
    requires
        in_order(order, notes@),
    ensures
        at == place(order, notes@, *note, 0),
        at <= notes@.len(),
{
    let mut low: usize = 0;
    let mut high: usize = notes.len();
    while low < high
        invariant
            low <= high <= notes@.len(),
            in_order(order, notes@),
            forall|i: int| 0 <= i < low ==> !stands_before(order, *note, #[trigger] notes@[i]),
            forall|i: int|
                high <= i < notes@.len() ==> stands_before(order, *note, #[trigger] notes@[i]),
        decreases high - low,
    {
        let middle: usize = low + (high - low) / 2;
        if is_before(order, note, &notes[middle]) {
            proof {
                assert forall|i: int| middle <= i < notes@.len() implies stands_before(
                    order,
                    *note,
                    #[trigger] notes@[i],
                ) by {
                    let pivot = notes@[middle as int];
                    if i > middle {
                        assert(!stands_before(order, notes@[i], pivot));
                        lemma_before_later(order, *note, pivot, notes@[i]);
                    }
                }
            }
            high = middle;
        } else {
            proof {
                assert forall|i: int| 0 <= i <= middle implies !stands_before(
                    order,
                    *note,
                    #[trigger] notes@[i],
                ) by {
                    let pivot = notes@[middle as int];
                    if i < middle && stands_before(order, *note, notes@[i]) {
                        assert(!stands_before(order, pivot, notes@[i]));
                        lemma_before_later(order, *note, notes@[i], pivot);
                    }
                }
            }
            low = middle + 1;
        }
    }
    proof {
        lemma_place(order, notes@, *note, 0);
        let found = place(order, notes@, *note, 0);
        if found < low {
            assert(!stands_before(order, *note, notes@[found]));
        } else if low < found {
            assert(stands_before(order, *note, notes@[low as int]));
        }
    }
    low
}

/// A note that is before another is before all that are not before the other.
proof fn lemma_before_later(
    order: Option<SortOrder>,
    one: NoteSummary,
    two: NoteSummary,
    three: NoteSummary,
)
    requires
        stands_before(order, one, two),
        !stands_before(order, three, two),
    ensures
        stands_before(order, one, three),
{
    lemma_strict(order, one, three);
    lemma_strict(order, two, three);
    lemma_text_order(title_key(one), title_key(two));
    lemma_text_order(title_key(two), title_key(three));
    if stands_before(order, two, three) {
        lemma_transitive(order, one, two, three);
    }
}

/// Sorting puts notes in order and keeps every one of them.
pub proof fn law_sorting_orders_and_keeps(order: Option<SortOrder>, notes: Seq<NoteSummary>)
    ensures
        in_order(order, ordered(order, notes)),
        ordered(order, notes).len() == notes.len(),
        ordered(order, notes).to_multiset() == notes.to_multiset(),
    decreases notes.len(),
{
    if notes.len() > 0 {
        let shorter = notes.drop_last();
        let note = notes.last();
        law_sorting_orders_and_keeps(order, shorter);
        let before = ordered(order, shorter);
        let at = place(order, before, note, 0);
        lemma_place(order, before, note, 0);
        let after = before.insert(at, note);
        assert forall|i: int, j: int| 0 <= i < j < after.len() implies !stands_before(
            order,
            #[trigger] after[j],
            #[trigger] after[i],
        ) by {
            if j < at {
                assert(after[i] == before[i] && after[j] == before[j]);
            } else if i > at {
                assert(after[i] == before[i - 1] && after[j] == before[j - 1]);
            } else if j == at {
                assert(after[i] == before[i]);
            } else if i == at {
                assert(after[j] == before[j - 1]);
                lemma_strict(order, note, before[j - 1]);
                let first = before[at];
                if j - 1 > at {
                    assert(!stands_before(order, before[j - 1], first));
                    lemma_before_later(order, note, first, before[j - 1]);
                }
            } else {
                assert(after[i] == before[i] && after[j] == before[j - 1]);
            }
        }
        broadcast use vstd::seq_lib::group_to_multiset_ensures;

        vstd::seq_lib::to_multiset_insert(before, at, note);
        assert(shorter.push(note) == notes);
    }
}

/// Sorts the notes of a list.
pub fn sort_notes(notes: &mut Vec<NoteSummary>, order: Option<SortOrder>)
    ensures
        final(notes)@ == ordered(order, old(notes)@),
        in_order(order, final(notes)@),
        final(notes)@.to_multiset() == old(notes)@.to_multiset(),
{
    let ghost all = notes@;
    let mut sorted: Vec<NoteSummary> = Vec::new();
    let mut done: usize = 0;
    let total: usize = notes.len();
    proof {
        assert(all.skip(0) == all);
    }
    while done < total
        invariant
            done <= total,
            total == all.len(),
            notes@ == all.skip(done as int),
            sorted@ == ordered(order, all.take(done as int)),
        decreases total - done,
    {
        let note = notes.remove(0);
        proof {
            law_sorting_orders_and_keeps(order, all.take(done as int));
            let next = all.take(done + 1);
            assert(next.drop_last() == all.take(done as int));
            assert(next.last() == note);
            assert(notes@ =~= all.skip(done + 1));
        }
        let at: usize = find_place(order, &sorted, &note);
        sorted.insert(at, note);
        done += 1;
    }
    proof {
        assert(all.take(done as int) == all);
        law_sorting_orders_and_keeps(order, all);
    }
    *notes = sorted;
}

/// The order does not depend on the order that the notes came in, as long as
/// no two of them have the same identifier: a list never flickers.
pub proof fn law_order_is_independent_of_input(
    order: Option<SortOrder>,
    left: Seq<NoteSummary>,
    right: Seq<NoteSummary>,
)
    requires
        left.to_multiset() == right.to_multiset(),
        distinct_ids(left),
    ensures
        ordered(order, left) == ordered(order, right),
{
    law_sorting_orders_and_keeps(order, left);
    law_sorting_orders_and_keeps(order, right);
    let one = ordered(order, left);
    let two = ordered(order, right);
    lemma_distinct_kept(left, one);
    lemma_sorted_unique(order, one, two);
}

/// Distinct identifiers stay distinct when the notes change places.
proof fn lemma_distinct_kept(left: Seq<NoteSummary>, right: Seq<NoteSummary>)
    requires
        distinct_ids(left),
        left.to_multiset() == right.to_multiset(),
    ensures
        distinct_ids(right),
    decreases right.len(),
{
    broadcast use vstd::seq_lib::group_to_multiset_ensures;

    if right.len() > 0 {
        let note = right.last();
        let shorter = right.drop_last();
        assert(shorter.push(note) == right);
        assert(right.to_multiset().count(note) > 0);
        assert(left.contains(note));
        let k = choose|k: int| 0 <= k < left.len() && left[k] == note;
        let rest = left.remove(k);
        assert(rest.to_multiset() == left.to_multiset().remove(note));
        assert(shorter.to_multiset() =~= right.to_multiset().remove(note));
        assert(distinct_ids(rest)) by {
            assert forall|i: int, j: int| 0 <= i < j < rest.len() implies (#[trigger] rest[i]).id
                != (#[trigger] rest[j]).id by {
                let p = if i < k {
                    i
                } else {
                    i + 1
                };
                let q = if j < k {
                    j
                } else {
                    j + 1
                };
                assert(rest[i] == left[p] && rest[j] == left[q]);
            }
        }
        lemma_distinct_kept(rest, shorter);
        assert forall|i: int, j: int| 0 <= i < j < right.len() implies (#[trigger] right[i]).id
            != (#[trigger] right[j]).id by {
            if j < shorter.len() {
                assert(right[i] == shorter[i] && right[j] == shorter[j]);
            } else {
                assert(right[i] == shorter[i]);
                assert(shorter.contains(shorter[i]));
                assert(rest.to_multiset().count(shorter[i]) > 0);
                assert(rest.contains(shorter[i]));
                let m = choose|m: int| 0 <= m < rest.len() && rest[m] == shorter[i];
                let p = if m < k {
                    m
                } else {
                    m + 1
                };
                assert(left[p] == shorter[i]);
                assert(left[p].id != left[k].id);
            }
        }
    }
}

/// Two lists of the same notes in order are the same list.
proof fn lemma_sorted_unique(
    order: Option<SortOrder>,
    one: Seq<NoteSummary>,
    two: Seq<NoteSummary>,
)
    requires
        in_order(order, one),
        in_order(order, two),
        distinct_ids(one),
        one.to_multiset() == two.to_multiset(),
    ensures
        one == two,
    decreases one.len(),
{
    broadcast use vstd::seq_lib::group_to_multiset_ensures;

    assert(one.to_multiset().len() == one.len());
    assert(two.to_multiset().len() == two.len());
    lemma_distinct_kept(one, two);
    if one.len() > 0 {
        let a = one.last();
        let b = two.last();
        assert(one.contains(a));
        assert(two.contains(b));
        assert(one.to_multiset().count(a) > 0);
        assert(two.to_multiset().count(b) > 0);
        assert(two.contains(a));
        assert(one.contains(b));
        let p = choose|p: int| 0 <= p < two.len() && two[p] == a;
        let q = choose|q: int| 0 <= q < one.len() && one[q] == b;
        if a != b {
            assert(p < two.len() - 1);
            assert(q < one.len() - 1);
            assert(!stands_before(order, two[two.len() - 1], two[p]));
            assert(!stands_before(order, one[one.len() - 1], one[q]));
            assert(one[q].id != one[one.len() - 1].id);
            lemma_strict(order, a, b);
        }
        let shorter_one = one.drop_last();
        let shorter_two = two.drop_last();
        assert(shorter_one.push(a) == one);
        assert(shorter_two.push(a) == two);
        assert(shorter_one.to_multiset() =~= one.to_multiset().remove(a));
        assert(shorter_two.to_multiset() =~= two.to_multiset().remove(a));
        lemma_sorted_unique(order, shorter_one, shorter_two);
    } else {
        assert(one =~= two);
    }
}

} // verus!
