//! Where the operations on a vault put its notes.

use vstd::prelude::*;

use crate::constants::DEFAULT_NOTEBOOK;
use crate::error::Result;
use crate::ident::Uuid;
use crate::ident_laws::law_digits_stand_for_the_identifier;
use crate::model::Timestamp;
use crate::path_laws::{
    law_a_joined_name_stands_right_in_its_directory, law_a_separator_parts_a_text,
    law_an_extension_stands_behind_the_last_dot, law_note_files_end_in_md_or_snote,
    law_one_name_is_one_component, lemma_components_in_front, one_name,
};
use crate::paths::{
    components, components_upto, extension, file_name, is_right_in, joined, same_path, short_id,
    title_slug, valid_name, valid_note_path, valid_path,
};
use crate::storage::has_parent;
use crate::text::{lemma_split_whole, split_on, text_before, texts, trimmed};
use crate::vault::{
    component_start, encrypted_path, fallback_path, first_absent, folder_unmanaged, free_of_links,
    has_extension, is_note_name, law_only_empty_notebooks_are_deleted, law_trash_is_in_order,
    left_in_trash, moved_path, new_note_path, note_comes_back, note_goes_to_trash, note_moves,
    notebook_goes, notebook_renames, notebook_rows, notes_among, notes_in, parent_path,
    parts_before, path_before, renamed_path, tail_end, title_text, trash_ordered, ComponentState,
    FolderListing, MoveFacts, NoteMove, NotebookRename, NotebookRow, TrashEntry, TrashMove, Vault,
};

verus! {

// The directory that something is in.

proof fn lemma_separator_adds_nothing(path: Seq<char>)
    requires
        path.len() > 0,
    ensures
        components(path + seq!['/']) == components(path),
{
    let nothing = Seq::<char>::empty();
    let whole = path + seq!['/'];
    assert(path + seq!['/'] + nothing =~= whole);
    law_a_separator_parts_a_text(path, nothing, '/');
    lemma_split_whole(nothing, '/');
    assert(split_on(nothing, '/') =~= seq![nothing]);
    let front = split_on(path, '/');
    let behind = seq![nothing];
    let size = front.len() as int;
    lemma_components_in_front(front, behind, size);
    assert((front + behind)[size] == nothing);
    assert(components_upto(front + behind, size + 1) == components_upto(front, size));
    assert(whole[0] == path[0]);
}

proof fn lemma_dot_adds_nothing(path: Seq<char>)
    ensures
        components(path + seq!['/', '.']) == components(path + seq!['/']),
{
    let nothing = Seq::<char>::empty();
    let dot = seq!['.'];
    assert(path + seq!['/'] + dot =~= path + seq!['/', '.']);
    assert(path + seq!['/'] + nothing =~= path + seq!['/']);
    law_a_separator_parts_a_text(path, nothing, '/');
    law_a_separator_parts_a_text(path, dot, '/');
    lemma_split_whole(nothing, '/');
    lemma_split_whole(dot, '/');
    assert(split_on(nothing, '/') =~= seq![nothing]);
    assert(split_on(dot, '/') =~= seq![dot]);
    let front = split_on(path, '/');
    let size = front.len() as int;
    lemma_components_in_front(front, seq![nothing], size);
    lemma_components_in_front(front, seq![dot], size);
    assert((front + seq![nothing])[size] == nothing);
    assert((front + seq![dot])[size] == dot);
    assert((path + seq!['/', '.'])[0] == (path + seq!['/'])[0]);
}

proof fn lemma_name_behind(path: Seq<char>, name: Seq<char>)
    requires
        name.len() > 0,
        name != seq!['.'],
        forall|i: int| 0 <= i < name.len() ==> name[i] != '/',
    ensures
        components(path + seq!['/'] + name) == components(path + seq!['/']).push(name),
{
    let nothing = Seq::<char>::empty();
    assert(path + seq!['/'] + nothing =~= path + seq!['/']);
    law_a_separator_parts_a_text(path, nothing, '/');
    law_a_separator_parts_a_text(path, name, '/');
    lemma_split_whole(nothing, '/');
    lemma_split_whole(name, '/');
    assert(split_on(nothing, '/') =~= seq![nothing]);
    assert(split_on(name, '/') =~= seq![name]);
    let front = split_on(path, '/');
    let size = front.len() as int;
    lemma_components_in_front(front, seq![nothing], size);
    lemma_components_in_front(front, seq![name], size);
    assert((front + seq![nothing])[size] == nothing);
    assert((front + seq![name])[size] == name);
    let whole = path + seq!['/'] + name;
    assert(whole[0] == (path + seq!['/'])[0]);
    let own = components_upto(front, size);
    assert(seq![seq!['/']] + own.push(name) =~= (seq![seq!['/']] + own).push(name));
}

proof fn lemma_tail_adds_nothing(path: Seq<char>, end: int)
    requires
        0 <= end <= path.len(),
    ensures
        0 <= tail_end(path, end) <= end,
        end > 0 ==> tail_end(path, end) > 0,
        components(path.take(tail_end(path, end))) == components(path.take(end)),
        tail_end(path, end) > 1 ==> path[tail_end(path, end) - 1] != '/' && !(path[tail_end(
            path,
            end,
        ) - 1] == '.' && path[tail_end(path, end) - 2] == '/'),
    decreases end,
{
    if end > 1 && (path[end - 1] == '/' || (path[end - 1] == '.' && path[end - 2] == '/')) {
        lemma_tail_adds_nothing(path, end - 1);
        let less = path.take(end - 1);
        if path[end - 1] == '/' {
            assert(path.take(end) =~= less + seq!['/']);
            lemma_separator_adds_nothing(less);
        } else {
            let head = path.take(end - 2);
            assert(path.take(end) =~= head + seq!['/', '.']);
            assert(less =~= head + seq!['/']);
            lemma_dot_adds_nothing(head);
        }
    }
}

proof fn lemma_component_start(path: Seq<char>, end: int)
    requires
        0 <= end <= path.len(),
    ensures
        0 <= component_start(path, end) <= end,
        forall|i: int| component_start(path, end) <= i < end ==> #[trigger] path[i] != '/',
        component_start(path, end) > 0 ==> path[component_start(path, end) - 1] == '/',
    decreases end,
{
    if end > 0 && path[end - 1] != '/' {
        lemma_component_start(path, end - 1);
    }
}

/// The parent of a path has all of its components but the last.
pub proof fn law_the_parent_lacks_the_last_component(path: Seq<char>)
    requires
        has_parent(path),
    ensures
        components(parent_path(path)) == components(path).drop_last(),
{
    let size = path.len() as int;
    if size == 0 {
        lemma_split_whole(path, '/');
        assert(split_on(path, '/') =~= seq![path]);
        reveal_with_fuel(components_upto, 2);
        assert(components(path) =~= seq![]);
    }
    let whole = tail_end(path, size);
    lemma_tail_adds_nothing(path, size);
    assert(path.take(size) =~= path);
    let start = component_start(path, whole);
    lemma_component_start(path, whole);
    lemma_tail_adds_nothing(path, start);
    let name = path.subrange(start, whole);
    assert forall|i: int| 0 <= i < name.len() implies name[i] != '/' by {
        assert(name[i] == path[start + i]);
    }
    if start == 0 {
        let none = path.take(0);
        assert(name =~= path.take(whole));
        lemma_split_whole(name, '/');
        assert(split_on(name, '/') =~= seq![name]);
        lemma_split_whole(none, '/');
        assert(split_on(none, '/') =~= seq![none]);
        reveal_with_fuel(components_upto, 2);
        assert(name[0] == path[0]);
        assert(components(name) =~= seq![name]);
        assert(components(none) =~= seq![]);
        assert(seq![name].drop_last() =~= seq![]);
    } else {
        let head = path.take(start - 1);
        assert(path.take(start) =~= head + seq!['/']);
        if name.len() == 0 {
            assert(whole == 1);
            assert(path.take(whole) =~= seq!['/']);
            lemma_root();
        } else {
            assert(path.take(whole) =~= head + seq!['/'] + name);
            if name == seq!['.'] {
                assert(name[0] == '.');
                assert(path[whole - 1] == '.');
            }
            lemma_name_behind(head, name);
            assert(components(head + seq!['/']).push(name).drop_last() =~= components(
                head + seq!['/'],
            ));
        }
    }
}

proof fn lemma_root()
    ensures
        components(seq!['/']) == seq![seq!['/']],
{
    let nothing = Seq::<char>::empty();
    law_a_separator_parts_a_text(nothing, nothing, '/');
    assert(nothing + seq!['/'] + nothing =~= seq!['/']);
    lemma_split_whole(nothing, '/');
    assert(split_on(nothing, '/') =~= seq![nothing]);
    assert(split_on(seq!['/'], '/') =~= seq![nothing, nothing]);
    reveal_with_fuel(components_upto, 3);
    assert(components(seq!['/']) =~= seq![seq!['/']]);
}

/// The parent of a name in a directory is the directory.
pub proof fn law_the_parent_of_a_name_is_its_directory(directory: Seq<char>, name: Seq<char>)
    requires
        one_name(name),
    ensures
        same_path(parent_path(joined(directory, name)), directory),
{
    law_a_joined_name_stands_right_in_its_directory(directory, name, directory);
    let path = joined(directory, name);
    assert(components(path).last() == name);
    if name == seq!['/'] {
        assert(name[0] == '/');
    }
    law_the_parent_lacks_the_last_component(path);
    assert(components(directory).push(name).drop_last() =~= components(directory));
}

// The paths of notes.

/// What a note's file is named: a text for its title, its identifier's first digits
/// and an ending.
proof fn lemma_note_name(stem: Seq<char>, id: Uuid, ending: Seq<char>)
    requires
        stem.len() > 0,
        forall|i: int| 0 <= i < stem.len() ==> #[trigger] stem[i] != '/',
        ending == seq!['m', 'd'] || ending == seq!['s', 'n', 'o', 't', 'e'],
    ensures
        ({
            let front = stem + seq!['-', '-'] + short_id(id);
            let name = front + seq!['.'] + ending;
            &&& one_name(name)
            &&& extension(name) == Some(ending)
            &&& front.len() > 0
            &&& forall|i: int| 0 <= i < front.len() ==> #[trigger] front[i] != '/'
        }),
{
    let front = stem + seq!['-', '-'] + short_id(id);
    let name = front + seq!['.'] + ending;
    law_digits_stand_for_the_identifier(id);
    assert forall|i: int| 0 <= i < front.len() implies #[trigger] front[i] != '/' by {
        if i < stem.len() {
            assert(front[i] == stem[i]);
        } else if i >= stem.len() + 2 {
            let k = i - stem.len() - 2;
            assert(front[i] == short_id(id)[k]);
            assert(short_id(id)[k] == id.spec_simple()[k]);
        }
    }
    assert forall|i: int| 0 <= i < name.len() implies name[i] != '/' by {
        if i < front.len() {
            assert(name[i] == front[i]);
        } else if i > front.len() {
            assert(name[i] == ending[i - front.len() - 1]);
        }
    }
    assert(name.len() > 2);
    law_an_extension_stands_behind_the_last_dot(front, ending);
}

proof fn lemma_endings()
    ensures
        "--"@ == seq!['-', '-'],
        ".md"@ == seq!['.'] + seq!['m', 'd'],
        ".snote"@ == seq!['.'] + seq!['s', 'n', 'o', 't', 'e'],
        "md"@ == seq!['m', 'd'],
        "snote"@ == seq!['s', 'n', 'o', 't', 'e'],
        "encrypted--"@ == "encrypted"@ + seq!['-', '-'],
        "encrypted"@.len() > 0,
        forall|i: int| 0 <= i < "encrypted"@.len() ==> #[trigger] "encrypted"@[i] != '/',
{
    reveal_strlit("--");
    reveal_strlit(".md");
    reveal_strlit(".snote");
    reveal_strlit("md");
    reveal_strlit("snote");
    reveal_strlit("encrypted--");
    reveal_strlit("encrypted");
    assert("--"@ =~= seq!['-', '-']);
    assert(".md"@ =~= seq!['.'] + seq!['m', 'd']);
    assert(".snote"@ =~= seq!['.'] + seq!['s', 'n', 'o', 't', 'e']);
    assert("md"@ =~= seq!['m', 'd']);
    assert("snote"@ =~= seq!['s', 'n', 'o', 't', 'e']);
    assert("encrypted--"@ =~= "encrypted"@ + seq!['-', '-']);
}

/// Whether the text for a title can stand in the name of a file: it holds no
/// separator.
pub open spec fn no_separator(text: Seq<char>) -> bool {
    forall|i: int| 0 <= i < text.len() ==> #[trigger] text[i] != '/'
}

/// A new note stands right in its notebook, as a note in the clear; its name ends
/// with the first digits of its identifier, so that notes that differ in these have
/// different paths whatever their titles.
pub proof fn law_a_new_note_stands_in_its_notebook(
    notebook: Seq<char>,
    title: Seq<char>,
    id: Uuid,
)
    requires
        no_separator(title_slug(title)),
    ensures
        is_right_in(new_note_path(notebook, title, id), notebook),
        has_extension(new_note_path(notebook, title, id), seq!['m', 'd']),
        file_name(new_note_path(notebook, title, id)) == Some(
            title_slug(title) + seq!['-', '-'] + short_id(id) + seq!['.', 'm', 'd'],
        ),
        valid_path(notebook) ==> valid_note_path(new_note_path(notebook, title, id)),
{
    lemma_endings();
    crate::path_laws::law_a_title_gives_a_short_name(title);
    let stem = title_slug(title);
    let ending = seq!['m', 'd'];
    lemma_note_name(stem, id, ending);
    let front = stem + seq!['-', '-'] + short_id(id);
    let name = front + seq!['.'] + ending;
    assert(title_slug(title) + "--"@ + short_id(id) + ".md"@ =~= name);
    assert(stem + seq!['-', '-'] + short_id(id) + seq!['.', 'm', 'd'] =~= name);
    law_a_joined_name_stands_right_in_its_directory(notebook, name, notebook);
    if valid_path(notebook) {
        law_note_files_end_in_md_or_snote(notebook, front, ending);
    }
}

/// Notes whose identifiers differ in their first digits get different names.
pub proof fn law_new_notes_do_not_meet(
    notebook: Seq<char>,
    one_title: Seq<char>,
    one: Uuid,
    other_title: Seq<char>,
    other: Uuid,
)
    requires
        no_separator(title_slug(one_title)),
        no_separator(title_slug(other_title)),
        short_id(one) != short_id(other),
    ensures
        !same_path(new_note_path(notebook, one_title, one), new_note_path(
            notebook,
            other_title,
            other,
        )),
{
    law_a_new_note_stands_in_its_notebook(notebook, one_title, one);
    law_a_new_note_stands_in_its_notebook(notebook, other_title, other);
    let first = title_slug(one_title) + seq!['-', '-'] + short_id(one) + seq!['.', 'm', 'd'];
    let second = title_slug(other_title) + seq!['-', '-'] + short_id(other) + seq!['.', 'm', 'd'];
    law_digits_stand_for_the_identifier(one);
    law_digits_stand_for_the_identifier(other);
    if first == second {
        let size = first.len() as int;
        assert(first.subrange(size - 11, size - 3) =~= short_id(one));
        assert(second.subrange(size - 11, size - 3) =~= short_id(other));
    }
}

/// An encrypted note stays in its notebook; its name says that it is encrypted and
/// its identifier's first digits, and nothing of what it was named before.
pub proof fn law_encryption_hides_the_name(
    notebook: Seq<char>,
    name: Seq<char>,
    other: Seq<char>,
    id: Uuid,
)
    requires
        one_name(name),
        one_name(other),
    ensures
        is_right_in(encrypted_path(joined(notebook, name), id), notebook),
        has_extension(encrypted_path(joined(notebook, name), id), seq!['s', 'n', 'o', 't', 'e']),
        same_path(
            encrypted_path(joined(notebook, name), id),
            encrypted_path(joined(notebook, other), id),
        ),
{
    lemma_endings();
    let ending = seq!['s', 'n', 'o', 't', 'e'];
    lemma_note_name("encrypted"@, id, ending);
    let file = "encrypted"@ + seq!['-', '-'] + short_id(id) + seq!['.'] + ending;
    assert("encrypted--"@ + short_id(id) + ".snote"@ =~= file);
    law_the_parent_of_a_name_is_its_directory(notebook, name);
    law_the_parent_of_a_name_is_its_directory(notebook, other);
    law_a_joined_name_stands_right_in_its_directory(
        parent_path(joined(notebook, name)),
        file,
        notebook,
    );
    law_a_joined_name_stands_right_in_its_directory(
        parent_path(joined(notebook, other)),
        file,
        notebook,
    );
}

/// A note that gets another title, or is decrypted, stays in its notebook.
pub proof fn law_a_new_name_keeps_the_notebook(
    notebook: Seq<char>,
    name: Seq<char>,
    title: Seq<char>,
    id: Uuid,
)
    requires
        one_name(name),
        no_separator(title_slug(title)),
    ensures
        is_right_in(new_note_path(parent_path(joined(notebook, name)), title, id), notebook),
{
    law_the_parent_of_a_name_is_its_directory(notebook, name);
    let parent = parent_path(joined(notebook, name));
    law_a_new_note_stands_in_its_notebook(parent, title, id);
}

/// A note that is moved stands right in the notebook that it is moved to, under the
/// name that it had.
pub proof fn law_a_moved_note_keeps_its_name(
    notebook: Seq<char>,
    name: Seq<char>,
    destination: Seq<char>,
)
    requires
        one_name(name),
    ensures
        is_right_in(moved_path(joined(notebook, name), destination), destination),
        file_name(moved_path(joined(notebook, name), destination)) == Some(name),
        same_path(moved_path(joined(notebook, name), notebook), joined(notebook, name)),
{
    law_a_joined_name_stands_right_in_its_directory(notebook, name, notebook);
    law_a_joined_name_stands_right_in_its_directory(destination, name, destination);
}

/// A notebook that is renamed stays where it is and has the new name, without the
/// whitespace round it.
pub proof fn law_a_renamed_notebook_stays_in_place(
    directory: Seq<char>,
    name: Seq<char>,
    new_name: Seq<char>,
)
    requires
        one_name(name),
        valid_name(trimmed(new_name)),
    ensures
        is_right_in(renamed_path(joined(directory, name), new_name), directory),
        file_name(renamed_path(joined(directory, name), new_name)) == Some(trimmed(new_name)),
{
    law_the_parent_of_a_name_is_its_directory(directory, name);
    let parent = parent_path(joined(directory, name));
    assert(one_name(trimmed(new_name)));
    law_a_joined_name_stands_right_in_its_directory(parent, trimmed(new_name), directory);
}

/// A note that cannot go back to where it was goes into the notebook that every
/// vault has, with the ending of its kind.
pub proof fn law_the_fallback_is_the_default_notebook(id: Uuid, encrypted: bool, title: Seq<char>)
    requires
        no_separator(title_slug(title)),
    ensures
        is_right_in(fallback_path(id, encrypted, title), DEFAULT_NOTEBOOK@),
        encrypted ==> has_extension(
            fallback_path(id, encrypted, title),
            seq!['s', 'n', 'o', 't', 'e'],
        ),
        !encrypted ==> has_extension(fallback_path(id, encrypted, title), seq!['m', 'd']),
{
    if encrypted {
        lemma_endings();
        let ending = seq!['s', 'n', 'o', 't', 'e'];
        lemma_note_name("encrypted"@, id, ending);
        let file = "encrypted"@ + seq!['-', '-'] + short_id(id) + seq!['.'] + ending;
        assert("encrypted--"@ + short_id(id) + ".snote"@ =~= file);
        law_a_joined_name_stands_right_in_its_directory(
            DEFAULT_NOTEBOOK@,
            file,
            DEFAULT_NOTEBOOK@,
        );
    } else {
        law_a_new_note_stands_in_its_notebook(DEFAULT_NOTEBOOK@, title, id);
    }
}

/// A title is kept but for the whitespace round it; a blank one becomes `Untitled`.
pub proof fn law_no_title_is_blank(title: Seq<char>)
    ensures
        title_text(title).len() > 0,
        trimmed(title).len() > 0 ==> title_text(title) == trimmed(title),
        trimmed(title).len() == 0 ==> title_text(title) == seq![
            'U',
            'n',
            't',
            'i',
            't',
            'l',
            'e',
            'd',
        ],
{
    reveal_strlit("Untitled");
    assert("Untitled"@ =~= seq!['U', 'n', 't', 'i', 't', 'l', 'e', 'd']);
}

// Links.

proof fn lemma_first_absent(found: Seq<ComponentState>, at: int)
    requires
        0 <= at <= found.len(),
    ensures
        at <= first_absent(found, at) <= found.len(),
        forall|i: int| at <= i < first_absent(found, at) ==> (#[trigger] found[i]) is Present,
        first_absent(found, at) < found.len() ==> !(found[first_absent(found, at)] is Present),
    decreases found.len() - at,
{
    if at < found.len() && found[at] is Present {
        lemma_first_absent(found, at + 1);
    }
}

/// A path is refused where a symbolic link, or something that could not be looked
/// at, stands behind components that are all there; a path that is there as a whole
/// is not.
pub proof fn law_links_are_refused(found: Seq<ComponentState>, at: int)
    requires
        0 <= at < found.len(),
        forall|i: int| 0 <= i < at ==> (#[trigger] found[i]) is Present,
    ensures
        found[at] is Symlink || found[at] is Failed ==> !free_of_links(found),
        found[at] is Missing ==> free_of_links(found),
        at == found.len() - 1 && found[at] is Present ==> free_of_links(found),
{
    lemma_first_absent(found, 0);
    let first = first_absent(found, 0);
    if first < at {
        assert(found[first] is Present);
    }
    if first > at {
        assert(found[at] is Present);
    }
}

// Notebooks.

/// How many of the names end as those of notes do.
pub open spec fn note_names(files: Seq<Seq<char>>) -> nat {
    files.filter(
        |name: Seq<char>|
            extension(name) == Some(seq!['m', 'd']) || extension(name) == Some(
                seq!['s', 'n', 'o', 't', 'e'],
            ),
    ).len()
}

proof fn lemma_notes_counted(files: Seq<Seq<char>>)
    ensures
        notes_among(files) == note_names(files),
    decreases files.len(),
{
    reveal(Seq::filter);
    lemma_endings();
    let is = |name: Seq<char>|
        extension(name) == Some(seq!['m', 'd']) || extension(name) == Some(
            seq!['s', 'n', 'o', 't', 'e'],
        );
    if files.len() > 0 {
        lemma_notes_counted(files.drop_last());
        assert(is(files.last()) == is_note_name(files.last()));
    }
}

/// Every directory below that of the notes has one row among the notebooks, with the
/// number of notes right in it, and there is no other row.
pub proof fn law_every_directory_is_a_notebook(listing: Seq<FolderListing>)
    ensures
        notebook_rows(listing).to_multiset() == named_rows(listing).to_multiset(),
    decreases listing.len(),
{
    broadcast use vstd::seq_lib::group_to_multiset_ensures;

    if listing.len() == 0 {
        assert(notebook_rows(listing) =~= named_rows(listing));
    } else {
        let front = listing.drop_last();
        let last = listing.last();
        law_every_directory_is_a_notebook(front);
        lemma_notes_counted(texts(last.files@));
        if last.relative_path@.len() > 0 {
            let before = notebook_rows(front);
            lemma_row_place_bounds(before, last.relative_path@, 0);
        }
    }
}

proof fn lemma_row_place_bounds(rows: Seq<NotebookRow>, path: Seq<char>, at: int)
    requires
        0 <= at <= rows.len(),
    ensures
        at <= crate::vault::row_place(rows, path, at) <= rows.len(),
    decreases rows.len() - at,
{
    if at < rows.len() {
        lemma_row_place_bounds(rows, path, at + 1);
    }
}

/// The directories that have a path, with the number of notes right in each.
pub open spec fn named_rows(listing: Seq<FolderListing>) -> Seq<NotebookRow>
    decreases listing.len(),
{
    if listing.len() == 0 {
        seq![]
    } else {
        let before = named_rows(listing.drop_last());
        let last = listing.last();
        if last.relative_path@.len() > 0 {
            before.push(
                NotebookRow {
                    path: last.relative_path@,
                    count: note_names(texts(last.files@)),
                },
            )
        } else {
            before
        }
    }
}

// The trash.

/// The file of a note in the trash and its record stand right in the trash, and no
/// two notes share one.
pub proof fn law_the_trash_keeps_notes_apart(vault: Vault, id: Uuid, other: Uuid, encrypted: bool)
    ensures
        is_right_in(vault.spec_trashed_note(id, encrypted), vault.spec_trash_dir()),
        is_right_in(vault.spec_trash_record(id), vault.spec_trash_dir()),
        has_extension(
            vault.spec_trashed_note(id, encrypted),
            if encrypted {
                seq!['s', 'n', 'o', 't', 'e']
            } else {
                seq!['m', 'd']
            },
        ),
        !same_path(vault.spec_trashed_note(id, encrypted), vault.spec_trash_record(other)),
        id != other ==> !same_path(vault.spec_trash_record(id), vault.spec_trash_record(other)),
        id != other ==> !same_path(
            vault.spec_trashed_note(id, encrypted),
            vault.spec_trashed_note(other, encrypted),
        ),
{
    lemma_endings();
    let directory = vault.spec_trash_dir();
    let note_end = if encrypted {
        seq!['s', 'n', 'o', 't', 'e']
    } else {
        seq!['m', 'd']
    };
    let record_end = seq!['t', 'o', 'm', 'l'];
    let trash = seq!['.', 't', 'r', 'a', 's', 'h'];
    reveal_strlit(".trash.toml");
    assert(".trash.toml"@ =~= trash + seq!['.'] + record_end);
    let one = id.spec_hyphenated();
    let two = other.spec_hyphenated();
    lemma_hyphenated(id);
    lemma_hyphenated(other);
    let nothing = Seq::<char>::empty();
    assert(one + nothing =~= one);
    assert(two + nothing =~= two);
    lemma_trash_name(one, nothing, note_end);
    lemma_trash_name(two, nothing, note_end);
    lemma_trash_name(one, trash, record_end);
    lemma_trash_name(two, trash, record_end);
    let ending = if encrypted {
        ".snote"@
    } else {
        ".md"@
    };
    let one_note = one + ending;
    let two_note = two + ending;
    let one_record = one + ".trash.toml"@;
    let two_record = two + ".trash.toml"@;
    assert(one_note =~= one + seq!['.'] + note_end);
    assert(two_note =~= two + seq!['.'] + note_end);
    assert(one_record =~= one + trash + seq!['.'] + record_end);
    assert(two_record =~= two + trash + seq!['.'] + record_end);
    law_a_joined_name_stands_right_in_its_directory(directory, one_note, directory);
    law_a_joined_name_stands_right_in_its_directory(directory, two_note, directory);
    law_a_joined_name_stands_right_in_its_directory(directory, one_record, directory);
    law_a_joined_name_stands_right_in_its_directory(directory, two_record, directory);
    assert(note_end[0] != record_end[0]);
    if id != other {
        assert(one_note.take(36) =~= one);
        assert(two_note.take(36) =~= two);
        assert(one_record.take(36) =~= one);
        assert(two_record.take(36) =~= two);
        lemma_hyphenated_differ(id, other);
    }
}

proof fn lemma_trash_name(digits: Seq<char>, middle: Seq<char>, ending: Seq<char>)
    requires
        digits.len() > 0,
        no_separator(digits),
        no_separator(middle),
        no_separator(ending),
        ending.len() > 0,
        forall|i: int| 0 <= i < ending.len() ==> #[trigger] ending[i] != '.',
    ensures
        one_name(digits + middle + seq!['.'] + ending),
        extension(digits + middle + seq!['.'] + ending) == Some(ending),
{
    let front = digits + middle;
    let name = front + seq!['.'] + ending;
    assert forall|i: int| 0 <= i < name.len() implies name[i] != '/' by {
        if i < digits.len() {
            assert(name[i] == digits[i]);
        } else if i < front.len() {
            assert(name[i] == middle[i - digits.len()]);
        } else if i > front.len() {
            assert(name[i] == ending[i - front.len() - 1]);
        }
    }
    assert(name.len() > 2);
    law_an_extension_stands_behind_the_last_dot(front, ending);
}

proof fn lemma_hyphenated(id: Uuid)
    ensures
        id.spec_hyphenated().len() == 36,
        no_separator(id.spec_hyphenated()),
{
    law_digits_stand_for_the_identifier(id);
    crate::ident_laws::law_hyphens_stand_between_the_digits(id);
    let digits = id.spec_simple();
    let text = id.spec_hyphenated();
    assert(text.len() == 36);
    assert forall|i: int| 0 <= i < text.len() implies #[trigger] text[i] != '/' by {
        if i < 8 {
            assert(text[i] == digits[i]);
        } else if 9 <= i < 13 {
            assert(text[i] == digits[i - 1]);
        } else if 14 <= i < 18 {
            assert(text[i] == digits[i - 2]);
        } else if 19 <= i < 23 {
            assert(text[i] == digits[i - 3]);
        } else if 24 <= i {
            assert(text[i] == digits[i - 4]);
        }
    }
}

proof fn lemma_hyphenated_differ(one: Uuid, other: Uuid)
    requires
        one != other,
    ensures
        one.spec_hyphenated() != other.spec_hyphenated(),
{
    if one.spec_hyphenated() == other.spec_hyphenated() {
        law_digits_stand_for_the_identifier(one);
        law_digits_stand_for_the_identifier(other);
        crate::ident_laws::law_hyphens_stand_between_the_digits(one);
        crate::ident_laws::law_hyphens_stand_between_the_digits(other);
        let first = one.spec_simple();
        let second = other.spec_simple();
        let text = one.spec_hyphenated();
        assert forall|i: int| 0 <= i < 32 implies first[i] == second[i] by {
            let k = if i < 8 {
                i
            } else if i < 12 {
                i + 1
            } else if i < 16 {
                i + 2
            } else if i < 20 {
                i + 3
            } else {
                i + 4
            };
            assert(text[k] == first[i]);
            assert(other.spec_hyphenated()[k] == second[i]);
        }
        assert(first =~= second);
    }
}

/// Deleting notes for good takes their entries out of the trash and leaves all the
/// others as they stand.
pub proof fn law_only_deleted_notes_leave_the_trash(
    entries: Seq<TrashEntry>,
    deleted: Seq<Uuid>,
)
    ensures
        left_in_trash(entries, deleted) == entries.filter(
            |entry: TrashEntry| !deleted.contains(entry.id),
        ),
    decreases entries.len(),
{
    reveal(Seq::filter);
    if entries.len() > 0 {
        law_only_deleted_notes_leave_the_trash(entries.drop_last(), deleted);
    } else {
        assert(left_in_trash(entries, deleted) =~= seq![]);
    }
}

// What comes of an operation.

/// A notebook is renamed where it is there, its path and its new name are valid, no
/// link is on the way, and neither is that of the notebook that every vault has; it
/// goes from its directory to one right beside it that has the new name.
pub proof fn law_a_rename_moves_one_directory(
    notes: Seq<char>,
    directory: Seq<char>,
    name: Seq<char>,
    new_name: Seq<char>,
    found: Seq<ComponentState>,
    is_dir: bool,
    outcome: Result<NotebookRename>,
)
    requires
        one_name(name),
        notebook_renames(notes, joined(directory, name), new_name, found, is_dir, outcome),
    ensures
        ({
            let relative = joined(directory, name);
            &&& same_path(relative, DEFAULT_NOTEBOOK@) ==> outcome is Err
            &&& !valid_path(relative) || !free_of_links(found) || !is_dir || !valid_name(
                trimmed(new_name),
            ) ==> outcome is Err
            &&& valid_path(relative) && !same_path(relative, DEFAULT_NOTEBOOK@) && free_of_links(
                found,
            ) && is_dir && valid_name(trimmed(new_name)) && trimmed(new_name)
                != DEFAULT_NOTEBOOK@ ==> outcome is Ok
            &&& outcome matches Ok(NotebookRename::Move { from, to, next_relative }) ==> {
                &&& from@ == joined(notes, relative)
                &&& to@ == joined(notes, next_relative@)
                &&& is_right_in(next_relative@, directory)
                &&& file_name(next_relative@) == Some(trimmed(new_name))
                &&& trimmed(new_name) != name
                &&& !same_path(next_relative@, DEFAULT_NOTEBOOK@)
            }
            &&& outcome matches Ok(NotebookRename::Unchanged) ==> trimmed(new_name) == name
        }),
{
    let relative = joined(directory, name);
    let next = renamed_path(relative, new_name);
    law_a_joined_name_stands_right_in_its_directory(directory, name, directory);
    lemma_inbox();
    if valid_name(trimmed(new_name)) {
        law_a_renamed_notebook_stays_in_place(directory, name, new_name);
        let parts = components(next);
        assert(parts.drop_last() == components(directory));
        assert(parts =~= components(directory).push(trimmed(new_name)));
        assert(parts.last() == trimmed(new_name));
        assert(components(relative).last() == name);
        assert(components(directory).push(name) =~= components(relative));
        if same_path(next, DEFAULT_NOTEBOOK@) {
            assert(parts.last() == DEFAULT_NOTEBOOK@);
        }
    }
}

proof fn lemma_inbox()
    ensures
        one_name(DEFAULT_NOTEBOOK@),
        components(DEFAULT_NOTEBOOK@) == seq![DEFAULT_NOTEBOOK@],
{
    reveal_strlit("Inbox");
    law_one_name_is_one_component(DEFAULT_NOTEBOOK@);
}

/// A notebook is deleted where it is there, nothing at all stands in it or in the
/// notebooks within it, no link is on the way, and it is not the one that every
/// vault has; what is deleted is its own directory.
pub proof fn law_nothing_but_an_empty_notebook_goes(
    notes: Seq<char>,
    relative: Seq<char>,
    found: Seq<ComponentState>,
    is_dir: bool,
    listing: Seq<FolderListing>,
    outcome: Result<String>,
    at: int,
)
    requires
        notebook_goes(notes, relative, found, is_dir, listing, outcome),
    ensures
        outcome matches Ok(path) ==> {
            &&& path@ == joined(notes, relative)
            &&& valid_path(relative)
            &&& !same_path(relative, DEFAULT_NOTEBOOK@)
            &&& free_of_links(found)
            &&& is_dir
            &&& 0 <= at < listing.len() ==> listing[at].files@.len() == 0
                && !listing[at].has_others
        },
        valid_path(relative) && !same_path(relative, DEFAULT_NOTEBOOK@) && free_of_links(found)
            && is_dir && (forall|i: int|
            0 <= i < listing.len() ==> (#[trigger] listing[i]).files@.len() == 0
                && !listing[i].has_others) ==> outcome is Ok,
{
    if outcome is Ok && 0 <= at < listing.len() {
        law_only_empty_notebooks_are_deleted(listing, at);
    }
    if forall|i: int|
        0 <= i < listing.len() ==> (#[trigger] listing[i]).files@.len() == 0
            && !listing[i].has_others {
        lemma_no_notes(listing);
        assert forall|i: int| 0 <= i < listing.len() implies !folder_unmanaged(
            #[trigger] listing[i],
        ) by {}
    }
}

proof fn lemma_no_notes(listing: Seq<FolderListing>)
    requires
        forall|i: int| 0 <= i < listing.len() ==> (#[trigger] listing[i]).files@.len() == 0,
    ensures
        notes_in(listing) == 0,
    decreases listing.len(),
{
    if listing.len() > 0 {
        let front = listing.drop_last();
        assert forall|i: int| 0 <= i < front.len() implies (
        #[trigger] front[i]).files@.len() == 0 by {
            assert(front[i] == listing[i]);
        }
        lemma_no_notes(front);
        assert(listing.last() == listing[listing.len() - 1]);
    }
}

/// A note is moved where it is there, its path and the notebook are valid and no
/// link is on the way; it stands right in that notebook then, under the name that it
/// had.
pub proof fn law_a_move_goes_to_the_notebook(
    notes: Seq<char>,
    directory: Seq<char>,
    name: Seq<char>,
    destination: Seq<char>,
    facts: MoveFacts,
    outcome: Result<NoteMove>,
)
    requires
        one_name(name),
        note_moves(notes, joined(directory, name), destination, facts, outcome),
    ensures
        ({
            let relative = joined(directory, name);
            &&& outcome matches Ok(NoteMove::Move { from, to, next_relative }) ==> {
                &&& from@ == joined(notes, relative)
                &&& to@ == joined(notes, next_relative@)
                &&& is_right_in(next_relative@, destination)
                &&& file_name(next_relative@) == Some(name)
                &&& valid_note_path(next_relative@)
                &&& !same_path(directory, destination)
            }
            &&& outcome matches Ok(NoteMove::Unchanged) ==> same_path(directory, destination)
            &&& outcome is Ok ==> facts.is_file && valid_note_path(relative) && valid_path(
                destination,
            ) && free_of_links(facts.source@) && free_of_links(facts.notebook@)
            &&& valid_note_path(relative) && facts.is_file && valid_path(destination)
                && free_of_links(facts.source@) && free_of_links(facts.notebook@)
                && free_of_links(facts.target@) && valid_note_path(joined(destination, name))
                ==> outcome is Ok
        }),
{
    let relative = joined(directory, name);
    law_a_moved_note_keeps_its_name(directory, name, destination);
    law_a_joined_name_stands_right_in_its_directory(directory, name, destination);
    law_a_joined_name_stands_right_in_its_directory(destination, name, directory);
    let one = components(directory);
    let two = components(destination);
    assert(one.push(name).drop_last() =~= one);
    assert(two.push(name).drop_last() =~= two);
}

/// A note that was thrown away is restored to where it was as long as that place is
/// free; the trash holds it under its identifier with the ending of its kind, and of
/// an encrypted note no title.
pub proof fn law_a_restored_note_is_where_it_was(
    vault: Vault,
    relative: Seq<char>,
    found: Seq<ComponentState>,
    id: Uuid,
    title: Seq<char>,
    now: Timestamp,
    taken: bool,
    thrown: Result<TrashMove>,
    fallback_taken: bool,
    outcome: Result<String>,
)
    requires
        note_goes_to_trash(vault, relative, found, id, title, now, taken, thrown),
        thrown matches Ok(trash) && note_comes_back(
            vault,
            trash.entry.id,
            trash.entry.encrypted,
            trash.entry.original_relative_path@,
            trash.entry.title@,
            false,
            fallback_taken,
            outcome,
        ),
    ensures
        outcome matches Ok(path) && path@ == relative,
        thrown matches Ok(trash) && {
            &&& trash.from@ == joined(vault.spec_notes_dir(), relative)
            &&& trash.trashed_file@ == vault.spec_trashed_note(
                trash.entry.id,
                trash.entry.encrypted,
            )
            &&& trash.record_path@ == vault.spec_trash_record(trash.entry.id)
            &&& trash.entry.encrypted <==> has_extension(relative, seq!['s', 'n', 'o', 't', 'e'])
            &&& trash.entry.encrypted ==> trash.entry.title@ == seq![
                'L',
                'o',
                'c',
                'k',
                'e',
                'd',
                ' ',
                'N',
                'o',
                't',
                'e',
            ]
            &&& !trash.entry.encrypted ==> trash.entry.title@ == title
            &&& trash.entry.trashed_at == now
        },
{
    lemma_endings();
    reveal_strlit("Locked Note");
    assert("Locked Note"@ =~= seq!['L', 'o', 'c', 'k', 'e', 'd', ' ', 'N', 'o', 't', 'e']);
}

/// A note is thrown away where its path is valid, no link is on the way and its place
/// in the trash is free, and only there.
pub proof fn law_throwing_away_replaces_nothing(
    vault: Vault,
    relative: Seq<char>,
    found: Seq<ComponentState>,
    id: Uuid,
    title: Seq<char>,
    now: Timestamp,
    taken: bool,
    thrown: Result<TrashMove>,
)
    requires
        note_goes_to_trash(vault, relative, found, id, title, now, taken, thrown),
    ensures
        thrown is Ok <==> valid_note_path(relative) && free_of_links(found) && !taken,
{
}

/// Restoring a note replaces no other: where its old place is taken it goes into the
/// notebook that every vault has, and where its place there is taken too it stays in
/// the trash.
pub proof fn law_restoring_replaces_nothing(
    vault: Vault,
    id: Uuid,
    encrypted: bool,
    original: Seq<char>,
    title: Seq<char>,
    original_taken: bool,
    fallback_taken: bool,
    outcome: Result<String>,
)
    requires
        note_comes_back(
            vault,
            id,
            encrypted,
            original,
            title,
            original_taken,
            fallback_taken,
            outcome,
        ),
        no_separator(title_slug(title)),
    ensures
        outcome is Err <==> original_taken && fallback_taken,
        original_taken ==> (outcome matches Ok(path) ==> is_right_in(path@, DEFAULT_NOTEBOOK@)),
        !original_taken ==> (outcome matches Ok(path) && path@ == original),
{
    law_the_fallback_is_the_default_notebook(id, encrypted, title);
}

// Orders.

/// The trash lists the note that was thrown away last first.
pub proof fn law_the_latest_in_the_trash_comes_first(entries: Seq<TrashEntry>, i: int, j: int)
    requires
        0 <= i < j < entries.len(),
    ensures
        ({
            let one = trash_ordered(entries)[i].trashed_at;
            let two = trash_ordered(entries)[j].trashed_at;
            one.seconds > two.seconds || one.seconds == two.seconds && one.nanos >= two.nanos
        }),
        trash_ordered(entries).to_multiset() == entries.to_multiset(),
{
    law_trash_is_in_order(entries);
    assert(!trash_ordered(entries)[i].trashed_at.spec_before(
        trash_ordered(entries)[j].trashed_at,
    ));
}

proof fn lemma_parts_share(start: Seq<Seq<char>>, left: Seq<Seq<char>>, right: Seq<Seq<char>>)
    ensures
        parts_before(start + left, start + right) == parts_before(left, right),
    decreases start.len(),
{
    if start.len() == 0 {
        assert(start + left =~= left);
        assert(start + right =~= right);
    } else {
        let rest = start.drop_first();
        lemma_parts_share(rest, left, right);
        assert((start + left).drop_first() =~= rest + left);
        assert((start + right).drop_first() =~= rest + right);
        assert((start + left)[0] == start[0] && (start + right)[0] == start[0]);
    }
}

/// Paths are in the order of their components: a notebook comes before those within
/// it, and two in the same one are in the order of their names.
pub proof fn law_paths_are_ordered_by_components(
    directory: Seq<char>,
    one: Seq<char>,
    two: Seq<char>,
)
    requires
        one_name(one),
        one_name(two),
    ensures
        path_before(directory, joined(directory, one)),
        !path_before(joined(directory, one), directory),
        path_before(joined(directory, one), joined(directory, two)) <==> text_before(one, two),
{
    law_a_joined_name_stands_right_in_its_directory(directory, one, directory);
    law_a_joined_name_stands_right_in_its_directory(directory, two, directory);
    let parts = components(directory);
    let none = Seq::<Seq<char>>::empty();
    assert(parts.push(one) =~= parts + seq![one]);
    assert(parts.push(two) =~= parts + seq![two]);
    assert(parts =~= parts + none);
    lemma_parts_share(parts, none, seq![one]);
    lemma_parts_share(parts, seq![one], none);
    lemma_parts_share(parts, seq![one], seq![two]);
    crate::text::lemma_text_order(one, two);
    assert(seq![one].drop_first() =~= none);
    assert(seq![two].drop_first() =~= none);
    reveal_with_fuel(parts_before, 2);
}

} // verus!
