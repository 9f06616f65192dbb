//! Search in the summaries that are in memory.

use vstd::prelude::*;

use crate::model::NoteSummary;
use crate::text::{
    contains_text, lowercase, text_contains, texts, to_lowercase, trim, trimmed,
};

verus! {

/// What a query looks for: its text in lower case, without whitespace around it.
pub open spec fn query_text(query: Seq<char>) -> Seq<char> {
    lowercase(trimmed(query))
}

/// Whether a text holds what a query looks for, whatever the case.
pub open spec fn holds_query(text: Seq<char>, query: Seq<char>) -> bool {
    contains_text(lowercase(text), query_text(query))
}

/// Whether a summary matches a query. An empty query matches everything. The
/// body and the tags of an encrypted note are not looked at.
pub open spec fn matches_query(summary: NoteSummary, query: Seq<char>) -> bool {
    ||| trimmed(query).len() == 0
    ||| holds_query(summary.title@, query)
    ||| !summary.encrypted && (holds_query(summary.body@, query) || exists|i: int|
        0 <= i < summary.tags@.len() && holds_query(#[trigger] texts(summary.tags@)[i], query))
}

/// Whether a summary matches a query.
pub fn summary_matches(summary: &NoteSummary, query: &str) -> (found: bool)
    ensures
        found == matches_query(*summary, query@),
{
    let inner = trim(query);
    if inner.as_str().is_empty() {
        return true;
    }
    let wanted = to_lowercase(&inner);
    if text_contains(&to_lowercase(&summary.title), &wanted) {
        return true;
    }
    if summary.encrypted {
        return false;
    }
    if text_contains(&to_lowercase(&summary.body), &wanted) {
        return true;
    }
    let mut index: usize = 0;
    while index < summary.tags.len()
        invariant
            index <= summary.tags@.len(),
            wanted@ == query_text(query@),
            trimmed(query@).len() > 0,
            !summary.encrypted,
            !holds_query(summary.title@, query@),
            !holds_query(summary.body@, query@),
            forall|i: int|
                0 <= i < index ==> !holds_query(#[trigger] texts(summary.tags@)[i], query@),
        decreases summary.tags@.len() - index,
    {
        proof {
            assert(texts(summary.tags@)[index as int] == summary.tags@[index as int]@);
        }
        if text_contains(&to_lowercase(&summary.tags[index]), &wanted) {
            return true;
        }
        index += 1;
    }
    false
}

/// Every note matches a query that is empty or of whitespace alone.
pub proof fn law_an_empty_query_matches_everything(summary: NoteSummary, query: Seq<char>)
    requires
        trimmed(query).len() == 0,
    ensures
        matches_query(summary, query),
{
}

/// A note that is not encrypted is found by its title, by its body and by each of
/// its tags, whichever place the tag has and whatever the case, and by nothing else.
pub proof fn law_title_body_and_every_tag_are_searched(summary: NoteSummary, query: Seq<char>)
    requires
        !summary.encrypted,
    ensures
        contains_text(lowercase(summary.title@), lowercase(trimmed(query))) ==> matches_query(
            summary,
            query,
        ),
        contains_text(lowercase(summary.body@), lowercase(trimmed(query))) ==> matches_query(
            summary,
            query,
        ),
        forall|i: int|
            0 <= i < summary.tags@.len() && contains_text(
                lowercase((#[trigger] summary.tags@[i])@),
                lowercase(trimmed(query)),
            ) ==> matches_query(summary, query),
        matches_query(summary, query) && trimmed(query).len() > 0 ==> contains_text(
            lowercase(summary.title@),
            lowercase(trimmed(query)),
        ) || contains_text(lowercase(summary.body@), lowercase(trimmed(query))) || exists|i: int|
            0 <= i < summary.tags@.len() && contains_text(
                lowercase((#[trigger] summary.tags@[i])@),
                lowercase(trimmed(query)),
            ),
{
    let wanted = lowercase(trimmed(query));
    assert forall|i: int|
        0 <= i < summary.tags@.len() && contains_text(
            lowercase((#[trigger] summary.tags@[i])@),
            wanted,
        ) implies matches_query(summary, query) by {
        assert(holds_query(texts(summary.tags@)[i], query));
    }
    if matches_query(summary, query) && trimmed(query).len() > 0 && !holds_query(
        summary.title@,
        query,
    ) && !holds_query(summary.body@, query) {
        let i = choose|i: int|
            0 <= i < summary.tags@.len() && holds_query(#[trigger] texts(summary.tags@)[i], query);
        assert(contains_text(lowercase(summary.tags@[i]@), wanted));
    }
}

/// More tags, or the same tags in another order, lose no match: a note whose title
/// and body are those of another, and which has all of its tags, is found wherever
/// the other is.
pub proof fn law_more_tags_lose_no_match(one: NoteSummary, more: NoteSummary, query: Seq<char>)
    requires
        !more.encrypted,
        one.title@ == more.title@,
        one.body@ == more.body@,
        forall|i: int|
            0 <= i < one.tags@.len() ==> exists|j: int|
                0 <= j < more.tags@.len() && (#[trigger] more.tags@[j])@ == (
                #[trigger] one.tags@[i])@,
    ensures
        matches_query(one, query) ==> matches_query(more, query),
{
    law_title_body_and_every_tag_are_searched(more, query);
    if matches_query(one, query) && trimmed(query).len() > 0 {
        if one.encrypted {
            law_encrypted_notes_are_found_by_title_alone(one, one, query);
        } else {
            law_title_body_and_every_tag_are_searched(one, query);
        }
    }
}

/// The case of a query and the whitespace around it make no difference.
pub proof fn law_case_and_spaces_of_a_query_do_not_matter(
    summary: NoteSummary,
    one: Seq<char>,
    two: Seq<char>,
)
    requires
        lowercase(trimmed(one)) == lowercase(trimmed(two)),
        trimmed(one).len() == 0 <==> trimmed(two).len() == 0,
    ensures
        matches_query(summary, one) == matches_query(summary, two),
{
    if trimmed(one).len() > 0 {
        if summary.encrypted {
            law_encrypted_notes_are_found_by_title_alone(summary, summary, one);
            law_encrypted_notes_are_found_by_title_alone(summary, summary, two);
        } else {
            law_title_body_and_every_tag_are_searched(summary, one);
            law_title_body_and_every_tag_are_searched(summary, two);
        }
    }
}

/// Which queries an encrypted note matches depends on its title alone: nothing
/// of its body or its tags can be found.
pub proof fn law_encrypted_notes_are_found_by_title_alone(
    left: NoteSummary,
    right: NoteSummary,
    query: Seq<char>,
)
    requires
        left.encrypted,
        right.encrypted,
        left.title@ == right.title@,
    ensures
        matches_query(left, query) == matches_query(right, query),
        matches_query(left, query) <==> trimmed(query).len() == 0 || contains_text(
            lowercase(left.title@),
            lowercase(trimmed(query)),
        ),
{
}

} // verus!
