//! The state of the interface: which notes a list shows, which of them is
//! selected, and which events of the list are its own.

use vstd::prelude::*;

use crate::ident::Uuid;
use crate::paths::{file_name, file_name_of, paths_equal, same_path};
use crate::text::{chars_of, copy_text, matches_at, same_text, string_between};

verus! {

/// Which notes the list shows.
#[derive(Debug, PartialEq, Eq)]
pub enum ViewMode {
    AllNotes,
    /// The notes right in a notebook, given by its path below the notes
    /// directory; not those of the notebooks within it.
    Notebook(String),
    Pinned,
    RecentlyEdited,
    RecentlyOpened,
    Favourites,
    EncryptedNotes,
    Archive,
    Trash,
}

impl Default for ViewMode {
    fn default() -> (view: ViewMode)
        ensures
            view is AllNotes,
    {
        ViewMode::AllNotes
    }
}

/// What stands above the list in a view.
pub open spec fn view_heading(view: ViewMode) -> Seq<char> {
    match view {
        ViewMode::AllNotes => "All Notes"@,
        ViewMode::Notebook(path) => match file_name(path@) {
            Some(name) => name,
            None => "Notebook"@,
        },
        ViewMode::Pinned => "Pinned"@,
        ViewMode::RecentlyEdited => "Recently Edited"@,
        ViewMode::RecentlyOpened => "Recently Opened"@,
        ViewMode::Favourites => "Favourites"@,
        ViewMode::EncryptedNotes => "Encrypted Notes"@,
        ViewMode::Archive => "Archive"@,
        ViewMode::Trash => "Trash"@,
    }
}

/// Whether two views are the same; notebooks by the components of their paths.
pub open spec fn same_view(left: ViewMode, right: ViewMode) -> bool {
    match (left, right) {
        (ViewMode::AllNotes, ViewMode::AllNotes) => true,
        (ViewMode::Notebook(one), ViewMode::Notebook(two)) => same_path(one@, two@),
        (ViewMode::Pinned, ViewMode::Pinned) => true,
        (ViewMode::RecentlyEdited, ViewMode::RecentlyEdited) => true,
        (ViewMode::RecentlyOpened, ViewMode::RecentlyOpened) => true,
        (ViewMode::Favourites, ViewMode::Favourites) => true,
        (ViewMode::EncryptedNotes, ViewMode::EncryptedNotes) => true,
        (ViewMode::Archive, ViewMode::Archive) => true,
        (ViewMode::Trash, ViewMode::Trash) => true,
        _ => false,
    }
}

/// Whether two views are the same to the letter.
pub open spec fn equal_view(left: ViewMode, right: ViewMode) -> bool {
    match (left, right) {
        (ViewMode::Notebook(one), ViewMode::Notebook(two)) => one@ == two@,
        _ => same_view(left, right),
    }
}

/// The text that stands for a view between two starts.
pub open spec fn token_of(view: ViewMode) -> Seq<char> {
    match view {
        ViewMode::AllNotes => "all-notes"@,
        ViewMode::RecentlyEdited => "recently-edited"@,
        ViewMode::RecentlyOpened => "recently-opened"@,
        ViewMode::Favourites => "favourites"@,
        ViewMode::Pinned => "pinned"@,
        ViewMode::Archive => "archive"@,
        ViewMode::EncryptedNotes => "encrypted-notes"@,
        ViewMode::Trash => "trash"@,
        ViewMode::Notebook(path) => "notebook:"@ + path@,
    }
}

/// Whether a text stands for a view. The list of notes that were edited last is
/// taken for that of the notes that were opened last.
pub open spec fn token_names(token: Seq<char>, view: ViewMode) -> bool {
    match view {
        ViewMode::AllNotes => token == "all-notes"@,
        ViewMode::RecentlyEdited => false,
        ViewMode::RecentlyOpened => token == "recently-opened"@ || token == "recently-edited"@,
        ViewMode::Favourites => token == "favourites"@,
        ViewMode::Pinned => token == "pinned"@,
        ViewMode::Archive => token == "archive"@,
        ViewMode::EncryptedNotes => token == "encrypted-notes"@,
        ViewMode::Trash => token == "trash"@,
        ViewMode::Notebook(path) => token == "notebook:"@ + path@,
    }
}

impl ViewMode {
    /// What stands above the list in this view.
    pub fn heading(&self) -> (heading: String)
        ensures
            heading@ == view_heading(*self),
    {
        match self {
            ViewMode::AllNotes => "All Notes".to_owned(),
            ViewMode::Notebook(path) => match file_name_of(path) {
                Some(name) => name,
                None => "Notebook".to_owned(),
            },
            ViewMode::Pinned => "Pinned".to_owned(),
            ViewMode::RecentlyEdited => "Recently Edited".to_owned(),
            ViewMode::RecentlyOpened => "Recently Opened".to_owned(),
            ViewMode::Favourites => "Favourites".to_owned(),
            ViewMode::EncryptedNotes => "Encrypted Notes".to_owned(),
            ViewMode::Archive => "Archive".to_owned(),
            ViewMode::Trash => "Trash".to_owned(),
        }
    }

    /// What stands in the empty search entry in this view.
    pub fn search_placeholder(&self) -> (placeholder: String)
        ensures
            placeholder@ == (if *self is AllNotes {
                "Search notes"@
            } else {
                "Search "@ + view_heading(*self)
            }),
    {
        match self {
            ViewMode::AllNotes => "Search notes".to_owned(),
            _ => {
                let mut placeholder: String = "Search ".to_owned();
                placeholder.append(&self.heading());
                placeholder
            },
        }
    }

    /// Whether this is the same view as another.
    pub fn is_same(&self, other: &ViewMode) -> (same: bool)
        ensures
            same == same_view(*self, *other),
    {
        match (self, other) {
            (ViewMode::AllNotes, ViewMode::AllNotes) => true,
            (ViewMode::Notebook(one), ViewMode::Notebook(two)) => paths_equal(one, two),
            (ViewMode::Pinned, ViewMode::Pinned) => true,
            (ViewMode::RecentlyEdited, ViewMode::RecentlyEdited) => true,
            (ViewMode::RecentlyOpened, ViewMode::RecentlyOpened) => true,
            (ViewMode::Favourites, ViewMode::Favourites) => true,
            (ViewMode::EncryptedNotes, ViewMode::EncryptedNotes) => true,
            (ViewMode::Archive, ViewMode::Archive) => true,
            (ViewMode::Trash, ViewMode::Trash) => true,
            _ => false,
        }
    }

    /// This view once more.
    pub fn copy(&self) -> (copy: ViewMode)
        ensures
            equal_view(*self, copy),
    {
        match self {
            ViewMode::AllNotes => ViewMode::AllNotes,
            ViewMode::Notebook(path) => ViewMode::Notebook(copy_text(path)),
            ViewMode::Pinned => ViewMode::Pinned,
            ViewMode::RecentlyEdited => ViewMode::RecentlyEdited,
            ViewMode::RecentlyOpened => ViewMode::RecentlyOpened,
            ViewMode::Favourites => ViewMode::Favourites,
            ViewMode::EncryptedNotes => ViewMode::EncryptedNotes,
            ViewMode::Archive => ViewMode::Archive,
            ViewMode::Trash => ViewMode::Trash,
        }
    }
}

/// The text that stands for a view between two starts.
pub fn view_token(view: &ViewMode) -> (token: String)
    ensures
        token@ == token_of(*view),
{
    match view {
        ViewMode::AllNotes => "all-notes".to_owned(),
        ViewMode::RecentlyEdited => "recently-edited".to_owned(),
        ViewMode::RecentlyOpened => "recently-opened".to_owned(),
        ViewMode::Favourites => "favourites".to_owned(),
        ViewMode::Pinned => "pinned".to_owned(),
        ViewMode::Archive => "archive".to_owned(),
        ViewMode::EncryptedNotes => "encrypted-notes".to_owned(),
        ViewMode::Trash => "trash".to_owned(),
        ViewMode::Notebook(path) => {
            let mut token: String = "notebook:".to_owned();
            token.append(path);
            token
        },
    }
}

proof fn reveal_tokens()
    ensures
        "all-notes"@.len() == 9,
        "all-notes"@[0] == 'a',
        "all-notes"@[1] == 'l',
        "recently-opened"@.len() == 15,
        "recently-opened"@[0] == 'r',
        "recently-edited"@.len() == 15,
        "recently-edited"@[0] == 'r',
        "recently-edited"@[9] == 'e',
        "recently-opened"@[9] == 'o',
        "favourites"@.len() == 10,
        "favourites"@[0] == 'f',
        "pinned"@.len() == 6,
        "pinned"@[0] == 'p',
        "archive"@.len() == 7,
        "archive"@[0] == 'a',
        "encrypted-notes"@.len() == 15,
        "encrypted-notes"@[0] == 'e',
        "trash"@.len() == 5,
        "trash"@[0] == 't',
        "notebook:"@.len() == 9,
        "notebook:"@[0] == 'n',
{
    reveal_strlit("all-notes");
    reveal_strlit("recently-opened");
    reveal_strlit("recently-edited");
    reveal_strlit("favourites");
    reveal_strlit("pinned");
    reveal_strlit("archive");
    reveal_strlit("encrypted-notes");
    reveal_strlit("trash");
    reveal_strlit("notebook:");
}

/// The view that a text stands for.
pub fn parse_view_token(token: &str) -> (view: Option<ViewMode>)
    ensures
        match view {
            Some(view) => token_names(token@, view),
            None => forall|view: ViewMode| !token_names(token@, view),
        },
{
    proof {
        reveal_tokens();
    }
    if same_text(token, "all-notes") {
        return Some(ViewMode::AllNotes);
    }
    if same_text(token, "recently-opened") || same_text(token, "recently-edited") {
        return Some(ViewMode::RecentlyOpened);
    }
    if same_text(token, "favourites") {
        return Some(ViewMode::Favourites);
    }
    if same_text(token, "pinned") {
        return Some(ViewMode::Pinned);
    }
    if same_text(token, "archive") {
        return Some(ViewMode::Archive);
    }
    if same_text(token, "encrypted-notes") {
        return Some(ViewMode::EncryptedNotes);
    }
    if same_text(token, "trash") {
        return Some(ViewMode::Trash);
    }
    let chars = chars_of(token);
    let prefix = chars_of("notebook:");
    if matches_at(&chars, &prefix, 0) {
        let path = string_between(&chars, 9, chars.len());
        proof {
            assert(token@.subrange(0, 9) == "notebook:"@);
            assert(token@ =~= "notebook:"@ + path@);
        }
        return Some(ViewMode::Notebook(path));
    }
    proof {
        assert forall|view: ViewMode| !token_names(token@, view) by {
            if let ViewMode::Notebook(path) = view {
                if token@ == "notebook:"@ + path@ {
                    assert(token@.subrange(0, 9) =~= "notebook:"@);
                }
            }
        }
    }
    None
}

/// The token of a view names the view and no other, so that a view comes back
/// as it was. Left out is the list of the notes that were edited last, whose
/// token names that of the notes that were opened last.
pub proof fn law_view_tokens_round_trip(view: ViewMode, found: ViewMode)
    requires
        !(view is RecentlyEdited),
    ensures
        token_names(token_of(view), view),
        token_names(token_of(view), found) ==> equal_view(view, found),
{
    reveal_tokens();
    if let ViewMode::Notebook(path) = view {
        assert(token_of(view)[0] == 'n');
        if let ViewMode::Notebook(other) = found {
            if token_of(view) == "notebook:"@ + other@ {
                assert(path@ =~= token_of(view).skip(9));
                assert(other@ =~= token_of(view).skip(9));
            }
        }
    } else if let ViewMode::Notebook(other) = found {
        assert(("notebook:"@ + other@)[0] == 'n');
    }
}

/// What a row of the list stands for.
#[derive(Clone, Copy, Debug, PartialEq, Eq, Structural)]
pub enum RowTarget {
    Note(Uuid),
    Trash(Uuid),
}

/// What a change of the selected row asks for.
#[derive(Clone, Copy, Debug, PartialEq, Eq, Structural)]
pub enum SelectionIntent {
    Suppressed,
    Activate(RowTarget),
    Nothing,
}

/// What the rows of the list stand for, and whether the list is being changed,
/// so that its events are not the user's.
#[derive(Debug)]
pub struct SelectionCoordinator {
    suppression_depth: u32,
    rows: Vec<RowTarget>,
}

/// What a coordinator holds.
#[verifier::ext_equal]
pub struct CoordinatorView {
    pub depth: u32,
    pub rows: Seq<RowTarget>,
}

impl CoordinatorView {
    /// With one change of the list more under way.
    pub open spec fn entered(self) -> CoordinatorView {
        CoordinatorView {
            depth: if self.depth < u32::MAX {
                (self.depth + 1) as u32
            } else {
                u32::MAX
            },
            rows: self.rows,
        }
    }

    /// With one change of the list less under way.
    pub open spec fn left(self) -> CoordinatorView {
        CoordinatorView {
            depth: if self.depth > 0 {
                (self.depth - 1) as u32
            } else {
                0
            },
            rows: self.rows,
        }
    }
}

/// The end of a change undoes its start: events are the user's again only when
/// the outermost change is over. Left out is the depth at which the count stops.
pub proof fn law_suppression_nests(coordinator: CoordinatorView)
    requires
        coordinator.depth < u32::MAX,
    ensures
        coordinator.entered().left() == coordinator,
        coordinator.entered().depth > 0,
        coordinator.depth > 0 ==> coordinator.entered().left().depth > 0,
{
    assert(coordinator.entered().left() =~= coordinator);
}

impl View for SelectionCoordinator {
    type V = CoordinatorView;

    closed spec fn view(&self) -> CoordinatorView {
        CoordinatorView { depth: self.suppression_depth, rows: self.rows@ }
    }
}

/// A change of the list that is under way. It ends with `release`.
pub struct SelectionSuppression {
    started: bool,
}

/// The first row from `at` on that stands for a target.
pub open spec fn row_from(rows: Seq<RowTarget>, target: RowTarget, at: int) -> Option<int>
    decreases rows.len() - at,
{
    if at >= rows.len() {
        None
    } else if rows[at] == target {
        Some(at)
    } else {
        row_from(rows, target, at + 1)
    }
}

/// What the row at an index stands for.
pub open spec fn row_at(rows: Seq<RowTarget>, index: int) -> Option<RowTarget> {
    if 0 <= index < rows.len() {
        Some(rows[index])
    } else {
        None
    }
}

impl Default for SelectionCoordinator {
    fn default() -> (coordinator: SelectionCoordinator)
        ensures
            coordinator@ == (CoordinatorView { depth: 0, rows: seq![] }),
    {
        let coordinator = SelectionCoordinator { suppression_depth: 0, rows: Vec::new() };
        proof {
            assert(coordinator@ =~= CoordinatorView { depth: 0, rows: seq![] });
        }
        coordinator
    }
}

impl SelectionCoordinator {
    /// Starts a change of the list.
    pub fn suppress(&mut self) -> (guard: SelectionSuppression)
        ensures
            final(self)@ == old(self)@.entered(),
    {
        if self.suppression_depth < u32::MAX {
            self.suppression_depth += 1;
        }
        SelectionSuppression { started: true }
    }

    /// Ends a change of the list.
    pub fn release(&mut self, guard: SelectionSuppression)
        ensures
            final(self)@ == old(self)@.left(),
    {
        if self.suppression_depth > 0 {
            self.suppression_depth -= 1;
        }
    }

    pub fn is_suppressed(&self) -> (suppressed: bool)
        ensures
            suppressed == (self@.depth > 0),
    {
        self.suppression_depth > 0
    }

    pub fn replace_rows(&mut self, rows: Vec<RowTarget>)
        ensures
            final(self)@ == (CoordinatorView { depth: old(self)@.depth, rows: rows@ }),
    {
        self.rows = rows;
    }

    /// Puts a row in at an index, or at the end where the index is beyond it.
    pub fn insert_row(&mut self, index: usize, target: RowTarget)
        ensures
            final(self)@.depth == old(self)@.depth,
            final(self)@.rows == old(self)@.rows.insert(
                if index < old(self)@.rows.len() {
                    index as int
                } else {
                    old(self)@.rows.len() as int
                },
                target,
            ),
    {
        let at: usize = if index < self.rows.len() {
            index
        } else {
            self.rows.len()
        };
        self.rows.insert(at, target);
    }

    /// Takes the first row that stands for a target away, and says where it was.
    pub fn remove_row(&mut self, target: RowTarget) -> (removed: Option<usize>)
        ensures
            final(self)@.depth == old(self)@.depth,
            match removed {
                Some(index) => row_from(old(self)@.rows, target, 0) == Some(index as int) && index
                    < old(self)@.rows.len() && final(self)@.rows == old(self)@.rows.remove(
                    index as int,
                ),
                None => row_from(old(self)@.rows, target, 0) is None && final(self)@.rows
                    == old(self)@.rows,
            },
    {
        match self.index_of(target) {
            Some(index) => {
                let taken = self.rows.remove(index);
                Some(index)
            },
            None => None,
        }
    }

    /// The first row that stands for a target.
    pub fn index_of(&self, target: RowTarget) -> (found: Option<usize>)
        ensures
            match found {
                Some(index) => row_from(self@.rows, target, 0) == Some(index as int) && index
                    < self@.rows.len() && self@.rows[index as int] == target,
                None => row_from(self@.rows, target, 0) is None,
            },
    {
        let mut index: usize = 0;
        while index < self.rows.len()
            invariant
                index <= self.rows@.len(),
                row_from(self.rows@, target, index as int) == row_from(self.rows@, target, 0),
            decreases self.rows@.len() - index,
        {
            if self.rows[index] == target {
                return Some(index);
            }
            index += 1;
        }
        None
    }

    /// What the row at an index stands for. A negative index is no row.
    pub fn target_at(&self, index: i32) -> (target: Option<RowTarget>)
        ensures
            target == row_at(self@.rows, index as int),
    {
        if index < 0 {
            return None;
        }
        let at: usize = index as usize;
        if at < self.rows.len() {
            Some(self.rows[at])
        } else {
            None
        }
    }

    /// What the rows stand for.
    pub fn rows(&self) -> (rows: Vec<RowTarget>)
        ensures
            rows@ == self@.rows,
    {
        let mut rows: Vec<RowTarget> = Vec::new();
        let mut index: usize = 0;
        while index < self.rows.len()
            invariant
                index <= self.rows@.len(),
                rows@ == self.rows@.take(index as int),
            decreases self.rows@.len() - index,
        {
            rows.push(self.rows[index]);
            index += 1;
            proof {
                assert(rows@ =~= self.rows@.take(index as int));
            }
        }
        proof {
            assert(self.rows@.take(index as int) == self.rows@);
        }
        rows
    }

    /// What a change of the selection to a row asks for. While the list is
    /// being changed it asks for nothing.
    pub fn selection_intent(&self, index: i32) -> (intent: SelectionIntent)
        ensures
            intent == (if self@.depth > 0 {
                SelectionIntent::Suppressed
            } else {
                match row_at(self@.rows, index as int) {
                    Some(target) => SelectionIntent::Activate(target),
                    None => SelectionIntent::Nothing,
                }
            }),
    {
        if self.is_suppressed() {
            return SelectionIntent::Suppressed;
        }
        match self.target_at(index) {
            Some(target) => SelectionIntent::Activate(target),
            None => SelectionIntent::Nothing,
        }
    }
}

/// The view and what is selected in it.
#[derive(Debug, PartialEq, Eq)]
pub struct UiFlow {
    view: ViewMode,
    selected_note: Option<Uuid>,
    selected_trash: Option<Uuid>,
}

/// What a flow holds.
pub struct FlowView {
    pub view: ViewMode,
    pub selected_note: Option<Uuid>,
    pub selected_trash: Option<Uuid>,
}

impl UiFlow {
    /// The view and what is selected in it.
    pub closed spec fn state(&self) -> FlowView {
        FlowView {
            view: self.view,
            selected_note: self.selected_note,
            selected_trash: self.selected_trash,
        }
    }
}

impl FlowView {
    /// Once another view is shown: a note stays selected where notes are shown, and
    /// something in the trash where the trash is.
    pub open spec fn switched(self, view: ViewMode) -> FlowView {
        FlowView {
            view,
            selected_note: if view is Trash {
                None
            } else {
                self.selected_note
            },
            selected_trash: if view is Trash {
                self.selected_trash
            } else {
                None
            },
        }
    }

    /// Once a note is selected, which leaves the trash.
    pub open spec fn with_note(self, id: Uuid) -> FlowView {
        FlowView {
            view: if self.view is Trash {
                ViewMode::AllNotes
            } else {
                self.view
            },
            selected_note: Some(id),
            selected_trash: None,
        }
    }

    /// Once something in the trash is selected, which shows the trash.
    pub open spec fn with_trash(self, id: Uuid) -> FlowView {
        FlowView { view: ViewMode::Trash, selected_note: None, selected_trash: Some(id) }
    }

    /// Once nothing is selected.
    pub open spec fn cleared(self) -> FlowView {
        FlowView { view: self.view, selected_note: None, selected_trash: None }
    }

    /// Once a note is gone from the notes.
    pub open spec fn without_note(self, id: Uuid) -> FlowView {
        FlowView {
            view: self.view,
            selected_note: if self.selected_note == Some(id) {
                None
            } else {
                self.selected_note
            },
            selected_trash: self.selected_trash,
        }
    }

    /// Once a note is gone from the trash.
    pub open spec fn without_trash(self, id: Uuid) -> FlowView {
        FlowView {
            view: self.view,
            selected_note: self.selected_note,
            selected_trash: if self.selected_trash == Some(id) {
                None
            } else {
                self.selected_trash
            },
        }
    }

    /// A note is selected only where notes are shown, and something in the
    /// trash only where the trash is shown.
    pub open spec fn consistent(self) -> bool {
        &&& self.selected_note is Some ==> !(self.view is Trash)
        &&& self.selected_trash is Some ==> self.view is Trash
    }
}

impl Default for UiFlow {
    fn default() -> (flow: UiFlow)
        ensures
            flow.state().view is AllNotes,
            flow.state().selected_note is None,
            flow.state().selected_trash is None,
            flow.state().consistent(),
    {
        UiFlow { view: ViewMode::AllNotes, selected_note: None, selected_trash: None }
    }
}

impl UiFlow {
    pub fn view(&self) -> (view: &ViewMode)
        ensures
            *view == self.state().view,
    {
        &self.view
    }

    pub fn selected_note(&self) -> (id: Option<Uuid>)
        ensures
            id == self.state().selected_note,
    {
        self.selected_note
    }

    pub fn selected_trash(&self) -> (id: Option<Uuid>)
        ensures
            id == self.state().selected_trash,
    {
        self.selected_trash
    }

    /// Goes to a view. The selection stays between views that show notes, and
    /// ends on the way into the trash and out of it.
    pub fn switch_view(&mut self, view: ViewMode)
        ensures
            final(self).state() == old(self).state().switched(view),
            final(self).state().consistent(),
    {
        match view {
            ViewMode::Trash => {
                self.selected_note = None;
            },
            _ => {
                self.selected_trash = None;
            },
        }
        self.view = view;
    }

    /// Selects a note, and leaves the trash for it.
    pub fn select_note(&mut self, id: Uuid)
        ensures
            final(self).state() == old(self).state().with_note(id),
            final(self).state().consistent(),
    {
        if let ViewMode::Trash = self.view {
            self.view = ViewMode::AllNotes;
        }
        self.selected_note = Some(id);
        self.selected_trash = None;
    }

    /// Selects something in the trash, and goes there for it.
    pub fn select_trash(&mut self, id: Uuid)
        ensures
            final(self).state() == old(self).state().with_trash(id),
            final(self).state().consistent(),
    {
        self.view = ViewMode::Trash;
        self.selected_trash = Some(id);
        self.selected_note = None;
    }

    pub fn clear_selection(&mut self)
        ensures
            final(self).state() == old(self).state().cleared(),
            final(self).state().consistent(),
    {
        self.selected_note = None;
        self.selected_trash = None;
    }

    /// A note that went to the trash is selected no more.
    pub fn note_moved_to_trash(&mut self, id: Uuid)
        ensures
            final(self).state() == old(self).state().without_note(id),
            old(self).state().consistent() ==> final(self).state().consistent(),
    {
        if let Some(selected) = self.selected_note {
            if selected == id {
                self.selected_note = None;
            }
        }
    }

    /// A note that came back from the trash is selected there no more.
    pub fn note_restored(&mut self, id: Uuid)
        ensures
            final(self).state() == old(self).state().without_trash(id),
            old(self).state().consistent() ==> final(self).state().consistent(),
    {
        if let Some(selected) = self.selected_trash {
            if selected == id {
                self.selected_trash = None;
            }
        }
    }
}

/// The tag that the list is narrowed to, for as long as the application runs.
#[derive(Debug, PartialEq, Eq)]
pub struct FilterState {
    active_tag: Option<String>,
}

impl View for FilterState {
    type V = Option<Seq<char>>;

    closed spec fn view(&self) -> Option<Seq<char>> {
        match self.active_tag {
            Some(tag) => Some(tag@),
            None => None,
        }
    }
}

impl Default for FilterState {
    fn default() -> (filter: FilterState)
        ensures
            filter@ is None,
    {
        FilterState { active_tag: None }
    }
}

impl FilterState {
    pub fn active_tag(&self) -> (tag: Option<&str>)
        ensures
            match tag {
                Some(tag) => self@ == Some(tag@),
                None => self@ is None,
            },
    {
        match &self.active_tag {
            Some(tag) => Some(tag.as_str()),
            None => None,
        }
    }

    pub fn set_active_tag(&mut self, tag: Option<String>)
        ensures
            final(self)@ == (match tag {
                Some(tag) => Some(tag@),
                None => None,
            }),
    {
        self.active_tag = tag;
    }

    pub fn clear(&mut self)
        ensures
            final(self)@ is None,
    {
        self.active_tag = None;
    }
}

} // verus!
