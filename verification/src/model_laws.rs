//! What the tags, the summary and the file of a note keep of it.

use vstd::prelude::*;

use crate::model::{
    bare_yaml, front_file, front_parts, preview_text, same_tag, tag_is_added, tag_is_removed,
    without_tag, Note, NoteMetadata, NoteSummary,
};
use crate::search::matches_query;
use crate::text::{
    contains_text, joined_texts, lowercase, same_ascii_folded, stands_at, texts, trimmed, words,
};
use crate::ui_state::ViewMode;
use crate::workspace::listing::includes;

verus! {

// Tags.

/// A tag that was added stands behind the others, without the whitespace round it;
/// none of the others changes, and a tag that is there in another case, or a blank
/// one, is not added.
pub proof fn law_a_tag_is_added_once(
    before: NoteMetadata,
    tag: Seq<char>,
    added: bool,
    after: NoteMetadata,
    i: int,
)
    requires
        tag_is_added(before, tag, added, after),
    ensures
        !added ==> after.tag_texts() == before.tag_texts(),
        added ==> after.tag_texts() == before.tag_texts().push(trimmed(tag)),
        trimmed(tag).len() == 0 ==> !added,
        0 <= i < before.tag_texts().len() && (same_ascii_folded(
            before.tag_texts()[i],
            trimmed(tag),
        ) || lowercase(before.tag_texts()[i]) == lowercase(trimmed(tag))) ==> !added,
        trimmed(tag).len() > 0 && before.tag_texts().len() == 0 ==> added,
        after.id == before.id,
        after.title == before.title,
        after.created_at == before.created_at,
        after.updated_at == before.updated_at,
        after.pinned == before.pinned,
        after.favourite == before.favourite,
        after.archived == before.archived,
{
    if 0 <= i < before.tag_texts().len() {
        assert(same_tag(before.tag_texts()[i], trimmed(tag)) ==> !added);
    }
}

/// Taking a tag away takes all tags that are the same in lower case, and no other;
/// what is left stands in the order that it had.
pub proof fn law_only_that_tag_goes(
    before: NoteMetadata,
    tag: Seq<char>,
    removed: bool,
    after: NoteMetadata,
)
    requires
        tag_is_removed(before, tag, removed, after),
    ensures
        after.tag_texts() == before.tag_texts().filter(
            |other: Seq<char>| lowercase(other) != lowercase(trimmed(tag)),
        ),
        !removed ==> after.tag_texts() == before.tag_texts(),
        removed ==> after.tag_texts().len() < before.tag_texts().len(),
        after.id == before.id,
        after.title == before.title,
        after.created_at == before.created_at,
        after.updated_at == before.updated_at,
        after.pinned == before.pinned,
        after.favourite == before.favourite,
        after.archived == before.archived,
{
    lemma_without_tag(before.tag_texts(), trimmed(tag));
}

proof fn lemma_without_tag(tags: Seq<Seq<char>>, tag: Seq<char>)
    ensures
        without_tag(tags, tag) == tags.filter(|other: Seq<char>| lowercase(other) != lowercase(tag)),
        without_tag(tags, tag).len() <= tags.len(),
        (exists|i: int| 0 <= i < tags.len() && lowercase(#[trigger] tags[i]) == lowercase(tag))
            ==> without_tag(tags, tag).len() < tags.len(),
        !(exists|i: int| 0 <= i < tags.len() && lowercase(#[trigger] tags[i]) == lowercase(tag))
            ==> without_tag(tags, tag) == tags,
    decreases tags.len(),
{
    reveal(Seq::filter);
    if tags.len() > 0 {
        let front = tags.drop_last();
        lemma_without_tag(front, tag);
        if exists|i: int| 0 <= i < tags.len() && lowercase(#[trigger] tags[i]) == lowercase(tag) {
            let i = choose|i: int|
                0 <= i < tags.len() && lowercase(#[trigger] tags[i]) == lowercase(tag);
            if i < front.len() {
                assert(lowercase(front[i]) == lowercase(tag));
            }
        } else {
            assert forall|i: int| 0 <= i < front.len() implies lowercase(#[trigger] front[i])
                != lowercase(tag) by {
                assert(lowercase(tags[i]) != lowercase(tag));
            }
            assert(lowercase(tags[tags.len() - 1]) != lowercase(tag));
            assert(front.push(tags.last()) =~= tags);
        }
    } else {
        assert(without_tag(tags, tag) =~= tags.filter(
            |other: Seq<char>| lowercase(other) != lowercase(tag),
        ));
        assert(without_tag(tags, tag) =~= tags);
    }
}

/// Adding a tag and taking it away again gives the tags back that were there.
pub proof fn law_taking_an_added_tag_away_undoes_it(
    before: NoteMetadata,
    tag: Seq<char>,
    between: NoteMetadata,
    removed: bool,
    after: NoteMetadata,
)
    requires
        tag_is_added(before, tag, true, between),
        tag_is_removed(between, tag, removed, after),
    ensures
        removed,
        after.tag_texts() == before.tag_texts(),
{
    let tags = before.tag_texts();
    let more = tags.push(trimmed(tag));
    assert(more.drop_last() =~= tags);
    assert(lowercase(more[tags.len() as int]) == lowercase(trimmed(tag)));
    assert forall|i: int| 0 <= i < tags.len() implies lowercase(#[trigger] tags[i]) != lowercase(
        trimmed(tag),
    ) by {
        assert(!same_tag(tags[i], trimmed(tag)));
    }
    lemma_without_tag(tags, trimmed(tag));
}

// The summary.

/// The summary of a note in the clear is found by what the note holds: by its title,
/// by its body and by each of its tags; and it is in the views that the marks of the
/// note say, where no note is locked or encrypted.
pub proof fn law_a_summary_is_found_by_its_note(
    summary: NoteSummary,
    note: Note,
    query: Seq<char>,
    k: int,
    recent: Seq<crate::ident::Uuid>,
)
    requires
        summary.summarises(note),
    ensures
        contains_text(lowercase(note.metadata.title@), lowercase(trimmed(query))) ==> matches_query(
            summary,
            query,
        ),
        contains_text(lowercase(note.body@), lowercase(trimmed(query))) ==> matches_query(
            summary,
            query,
        ),
        0 <= k < note.metadata.tags@.len() && contains_text(
            lowercase(note.metadata.tags@[k]@),
            lowercase(trimmed(query)),
        ) ==> matches_query(summary, query),
        includes(ViewMode::Pinned, summary, recent) <==> note.metadata.pinned
            && !note.metadata.archived,
        includes(ViewMode::Favourites, summary, recent) <==> note.metadata.favourite
            && !note.metadata.archived,
        includes(ViewMode::Archive, summary, recent) <==> note.metadata.archived,
        !includes(ViewMode::EncryptedNotes, summary, recent),
        includes(ViewMode::RecentlyOpened, summary, recent) <==> !note.metadata.archived
            && recent.contains(note.metadata.id),
{
    if trimmed(query).len() == 0 {
        crate::search::law_an_empty_query_matches_everything(summary, query);
    } else {
        if 0 <= k < note.metadata.tags@.len() {
            assert(texts(summary.tags@)[k] == note.metadata.tag_texts()[k]);
            assert(note.metadata.tag_texts()[k] == note.metadata.tags@[k]@);
            assert(texts(summary.tags@).len() == summary.tags@.len());
            assert(summary.tags@[k]@ == texts(summary.tags@)[k]);
        }
        crate::search::law_title_body_and_every_tag_are_searched(summary, query);
    }
}

/// The preview of a note is the first words of its body, twenty-four at most, with
/// one space between them.
pub proof fn law_a_preview_is_the_first_words(body: Seq<char>, count: int)
    requires
        0 <= count <= 24,
        count <= words(body).len(),
        count < 24 ==> count == words(body).len(),
    ensures
        preview_text(body) == joined_texts(words(body).take(count), seq![' ']),
{
    reveal_strlit(" ");
    assert(" "@ =~= seq![' ']);
}

// The file.

/// A file starts with a line of three hyphens, then holds the front matter, then a
/// line of three hyphens, then the body to the letter; the parts of a file, put
/// together in the same way, are the file.
pub proof fn law_a_file_holds_front_matter_and_body(yaml: Seq<char>, body: Seq<char>)
    ensures
        front_file(yaml, body) == seq!['-', '-', '-', '\n'] + bare_yaml(yaml) + seq![
            '\n',
            '-',
            '-',
            '-',
            '\n',
        ] + body,
        front_parts(front_file(yaml, body)) matches Some((front, rest)) ==> front_file(
            yaml,
            body,
        ) == seq!['-', '-', '-', '\n'] + front + seq!['\n', '-', '-', '-', '\n'] + rest,
{
    let file = front_file(yaml, body);
    lemma_parts_make_the_file(file);
    assert(file[0] == '-');
}

proof fn lemma_parts_make_the_file(file: Seq<char>)
    ensures
        front_parts(file) matches Some((front, rest)) ==> crate::model::without_mark(file) == seq![
            '-',
            '-',
            '-',
            '\n',
        ] + front + seq!['\n', '-', '-', '-', '\n'] + rest,
{
    let text = crate::model::without_mark(file);
    if let Some((front, rest)) = front_parts(file) {
        let behind = text.skip(4);
        crate::text::lemma_first_at(behind, crate::model::front_close(), 0);
        let end = front.len() as int;
        let whole = seq!['-', '-', '-', '\n'] + front + seq!['\n', '-', '-', '-', '\n'] + rest;
        assert(stands_at(behind, crate::model::front_close(), end));
        assert forall|i: int| 0 <= i < text.len() implies whole[i] == text[i] by {
            if i < 4 {
                assert(text.subrange(0, 4)[i] == text[i]);
            } else if i < 4 + end {
                assert(front[i - 4] == text[i]);
            } else if i < 9 + end {
                assert(behind.subrange(end, end + 5)[i - 4 - end] == text[i]);
            } else {
                assert(rest[i - 9 - end] == text[i]);
            }
        }
        assert(whole =~= text);
    }
}

} // verus!
