//! What stays selected, and what the rows of the list stand for.

use vstd::prelude::*;

use crate::ident::Uuid;
use crate::paths::same_path;
use crate::ui_state::{
    equal_view, row_at, row_from, same_view, view_heading, FlowView, RowTarget, ViewMode,
};

verus! {

/// A note is selected only where notes are shown and something in the trash only
/// where the trash is, whatever was done.
pub proof fn law_a_selection_fits_its_view(flow: FlowView, view: ViewMode, id: Uuid)
    ensures
        flow.switched(view).consistent(),
        flow.with_note(id).consistent(),
        flow.with_trash(id).consistent(),
        flow.cleared().consistent(),
        flow.consistent() ==> flow.without_note(id).consistent(),
        flow.consistent() ==> flow.without_trash(id).consistent(),
{
}

/// What is selected is selected: a note in the view that is shown, unless that is
/// the trash; something in the trash in the trash. Selecting changes no view of
/// notes.
pub proof fn law_the_selected_is_selected(flow: FlowView, id: Uuid)
    ensures
        flow.with_note(id).selected_note == Some(id),
        !(flow.with_note(id).view is Trash),
        !(flow.view is Trash) ==> flow.with_note(id).view == flow.view,
        flow.with_trash(id).selected_trash == Some(id),
        flow.with_trash(id).view is Trash,
        flow.cleared().selected_note is None,
        flow.cleared().selected_trash is None,
        flow.cleared().view == flow.view,
{
}

/// A note stays selected from one view of notes to another, and is no more once the
/// trash was shown; the view is the one that was asked for.
pub proof fn law_a_note_stays_selected_between_views(
    flow: FlowView,
    first: ViewMode,
    second: ViewMode,
)
    ensures
        flow.switched(first).view == first,
        !(first is Trash) && !(second is Trash) ==> flow.switched(first).switched(
            second,
        ).selected_note == flow.selected_note,
        first is Trash ==> flow.switched(first).switched(second).selected_note is None,
        !(first is Trash) ==> flow.switched(first).switched(second).selected_trash is None,
{
}

/// A note that is gone is not selected; any other that was selected still is, and the
/// view does not change.
pub proof fn law_what_is_gone_is_not_selected(flow: FlowView, id: Uuid)
    ensures
        flow.without_note(id).selected_note != Some(id),
        flow.selected_note != Some(id) ==> flow.without_note(id) == flow,
        flow.without_note(id).selected_trash == flow.selected_trash,
        flow.without_trash(id).selected_trash != Some(id),
        flow.selected_trash != Some(id) ==> flow.without_trash(id) == flow,
        flow.without_trash(id).selected_note == flow.selected_note,
        flow.without_note(id).view == flow.view,
        flow.without_trash(id).view == flow.view,
{
}

/// The row of a target is the first that stands for it; there is none where no row
/// does.
pub proof fn law_a_target_has_its_first_row(rows: Seq<RowTarget>, target: RowTarget)
    ensures
        match row_from(rows, target, 0) {
            Some(at) => {
                &&& 0 <= at < rows.len()
                &&& rows[at] == target
                &&& forall|i: int| 0 <= i < at ==> #[trigger] rows[i] != target
                &&& row_at(rows, at) == Some(target)
            },
            None => !rows.contains(target),
        },
{
    lemma_row_from(rows, target, 0);
}

proof fn lemma_row_from(rows: Seq<RowTarget>, target: RowTarget, at: int)
    requires
        0 <= at <= rows.len(),
    ensures
        match row_from(rows, target, at) {
            Some(found) => {
                &&& at <= found < rows.len()
                &&& rows[found] == target
                &&& forall|i: int| at <= i < found ==> #[trigger] rows[i] != target
            },
            None => forall|i: int| at <= i < rows.len() ==> #[trigger] rows[i] != target,
        },
    decreases rows.len() - at,
{
    if at < rows.len() && rows[at] != target {
        lemma_row_from(rows, target, at + 1);
    }
}

/// A row that is put in stands where it was put and moves those behind it by one; one
/// that is taken out brings them back.
pub proof fn law_rows_keep_their_order(
    rows: Seq<RowTarget>,
    at: int,
    target: RowTarget,
    i: int,
)
    requires
        0 <= at <= rows.len(),
        0 <= i < rows.len(),
    ensures
        row_at(rows.insert(at, target), at) == Some(target),
        i < at ==> row_at(rows.insert(at, target), i) == row_at(rows, i),
        i >= at ==> row_at(rows.insert(at, target), i + 1) == row_at(rows, i),
        rows.insert(at, target).remove(at) == rows,
{
    assert(rows.insert(at, target).remove(at) =~= rows);
}

/// Views are the same where they are of one kind, and notebooks where their paths
/// are; a heading names a notebook by the last part of its path.
pub proof fn law_views_of_one_kind_are_the_same(one: ViewMode, other: ViewMode, name: Seq<char>)
    ensures
        same_view(one, one),
        same_view(one, other) == same_view(other, one),
        one matches ViewMode::Notebook(path) ==> (other matches ViewMode::Notebook(second)
            ==> same_view(one, other) == same_path(path@, second@)),
        one is Trash && !(other is Trash) ==> !same_view(one, other),
        one matches ViewMode::Notebook(path) ==> crate::paths::file_name(path@) == Some(name)
            ==> view_heading(one) == name,
        equal_view(one, other) ==> same_view(one, other),
{
}

} // verus!
