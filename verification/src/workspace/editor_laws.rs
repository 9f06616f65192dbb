//! What of the buffer an edit replaces, and which styles a text gets.

use vstd::prelude::*;
use vstd::utf8::{
    encode_utf8, encode_utf8_valid_utf8, is_char_boundary,
    is_char_boundary_iff_not_is_continuation_byte, is_char_boundary_start_end_of_seq,
};

use crate::markdown_spans::{SpanKind, SpanView};
use crate::text::{
    byte_len, char_floor, lemma_byte_len_monotone, lemma_char_floor, lemma_encode_concat,
};
use crate::workspace::editor::{
    all_styles, common_back, common_front, lemma_front_in_chars, makes, mark_styles,
    replaces_least, shorter, span_styles, style_of, style_on, whole_back, Replacement, StyleView,
    MARKDOWN_MARKER_TAG,
};

verus! {

// What is replaced.

proof fn lemma_front_reaches(left: Seq<u8>, right: Seq<u8>, from: int, to: int)
    requires
        0 <= from <= to <= left.len(),
        to <= right.len(),
        forall|i: int| from <= i < to ==> #[trigger] left[i] == right[i],
    ensures
        to <= common_front(left, right, from) <= left.len(),
        common_front(left, right, from) <= right.len(),
        forall|i: int|
            from <= i < common_front(left, right, from) ==> #[trigger] left[i] == right[i],
    decreases left.len() - from,
{
    if from < left.len() && from < right.len() && left[from] == right[from] {
        lemma_front_reaches(
            left,
            right,
            from + 1,
            if from < to {
                to
            } else {
                from + 1
            },
        );
    }
}

proof fn lemma_back_reaches(left: Seq<u8>, right: Seq<u8>, from: int, to: int, limit: int)
    requires
        0 <= from <= to <= limit,
        limit <= left.len(),
        limit <= right.len(),
        forall|i: int|
            from <= i < to ==> #[trigger] left[left.len() - 1 - i] == right[right.len() - 1 - i],
    ensures
        to <= common_back(left, right, from, limit) <= limit,
    decreases limit - from,
{
    if from < limit && left[left.len() - 1 - from] == right[right.len() - 1 - from] {
        lemma_back_reaches(
            left,
            right,
            from + 1,
            if from < to {
                to
            } else {
                from + 1
            },
            limit,
        );
    }
}

proof fn lemma_whole_reaches(left: Seq<u8>, right: Seq<u8>, bytes: int, to: int)
    requires
        0 <= to <= bytes,
        is_char_boundary(left, left.len() - to),
        is_char_boundary(right, right.len() - to),
    ensures
        to <= whole_back(left, right, bytes) <= bytes,
    decreases bytes,
{
    if bytes > to {
        lemma_whole_reaches(left, right, bytes - 1, to);
    }
}

proof fn lemma_boundary_before(front: Seq<char>, tail: Seq<char>)
    ensures
        is_char_boundary(encode_utf8(front + tail), encode_utf8(front).len() as int),
        encode_utf8(front + tail) == encode_utf8(front) + encode_utf8(tail),
{
    lemma_encode_concat(front, tail);
    encode_utf8_valid_utf8(front + tail);
    encode_utf8_valid_utf8(tail);
    let bytes = encode_utf8(front + tail);
    let at = encode_utf8(front).len() as int;
    is_char_boundary_start_end_of_seq(bytes);
    is_char_boundary_start_end_of_seq(encode_utf8(tail));
    if at < bytes.len() {
        assert(bytes[at] == encode_utf8(tail)[0]);
        is_char_boundary_iff_not_is_continuation_byte(encode_utf8(tail), 0);
        is_char_boundary_iff_not_is_continuation_byte(bytes, at);
    }
}

/// Two texts with the same front do not share more bytes than that front and what
/// differs behind it.
proof fn lemma_front_stops(head: Seq<char>, one: Seq<char>, two: Seq<char>, tail: Seq<char>)
    requires
        one.len() > 0,
        two.len() > 0,
        one[0] != two[0],
    ensures
        ({
            let left = encode_utf8(head + one + tail);
            let right = encode_utf8(head + two + tail);
            &&& byte_len(head) <= common_front(left, right, 0)
            &&& common_front(left, right, 0) < byte_len(head + one)
        }),
{
    let source = head + one + tail;
    let edited = head + two + tail;
    let left = encode_utf8(source);
    let right = encode_utf8(edited);
    assert(source =~= head + (one + tail));
    assert(edited =~= head + (two + tail));
    lemma_encode_concat(head, one + tail);
    lemma_encode_concat(head, two + tail);
    lemma_front_reaches(left, right, 0, byte_len(head) as int);
    let front = common_front(left, right, 0);
    let longer = head + one;
    lemma_encode_concat(longer, tail);
    if front >= byte_len(longer) {
        let size = byte_len(longer) as int;
        assert(right.take(size) =~= encode_utf8(longer)) by {
            assert forall|i: int| 0 <= i < size implies right[i] == encode_utf8(longer)[i] by {
                assert(left[i] == right[i]);
                assert(left[i] == encode_utf8(longer)[i]);
            }
        }
        lemma_front_in_chars(longer, edited);
        assert(edited.take(longer.len() as int)[head.len() as int] == longer[head.len() as int]);
        assert(edited[head.len() as int] == two[0]);
        assert(longer[head.len() as int] == one[0]);
    }
}

/// Where one part of a text becomes another that starts and ends with other
/// characters, that part is replaced and nothing else: what stands before it and
/// behind it is left alone.
pub proof fn law_only_what_differs_is_replaced(
    replacement: Replacement,
    head: Seq<char>,
    one: Seq<char>,
    two: Seq<char>,
    tail: Seq<char>,
)
    requires
        makes(replacement, head + one + tail, head + two + tail),
        replaces_least(replacement, head + one + tail, head + two + tail),
        one.len() > 0,
        two.len() > 0,
        one[0] != two[0],
        one.last() != two.last(),
    ensures
        replacement.start == head.len(),
        replacement.end == head.len() + one.len(),
        replacement.text@ == two,
{
    let source = head + one + tail;
    let edited = head + two + tail;
    let left = encode_utf8(source);
    let right = encode_utf8(edited);
    let start = replacement.start as int;
    let end = replacement.end as int;
    let at = head.len() as int;
    lemma_front_stops(head, one, two, tail);
    lemma_front_stops_too(head, one, two, tail);
    let front = common_front(left, right, 0);
    lemma_boundary_before(head + one, tail);
    lemma_boundary_before(head + two, tail);
    let size = byte_len(tail) as int;
    let limit = shorter(left, right) - front;
    assert forall|i: int| 0 <= i < size implies #[trigger] left[left.len() - 1 - i]
        == right[right.len() - 1 - i] by {
        assert(left[left.len() - 1 - i] == encode_utf8(tail)[size - 1 - i]);
        assert(right[right.len() - 1 - i] == encode_utf8(tail)[size - 1 - i]);
    }
    lemma_back_reaches(left, right, 0, size, limit);
    let back = common_back(left, right, 0, limit);
    lemma_whole_reaches(left, right, back, size);
    let whole = whole_back(left, right, back);
    // The front is left alone.
    assert(source.take(at) =~= head);
    lemma_floor_is_at_least(source, front, at);
    // The back is left alone.
    lemma_char_floor(source, byte_len(source) - whole);
    assert(source.take(at + one.len()) =~= head + one);
    if end > at + one.len() {
        lemma_byte_len_monotone(source, at + one.len(), end);
    }
    // What differs is replaced.
    if start > at {
        assert(edited[at] == source[at]);
        assert(edited[at] == two[0] && source[at] == one[0]);
    }
    if end < at + one.len() {
        let place = at + one.len() - 1;
        let shown = at + two.len() - 1;
        let rest = source.skip(end);
        assert(edited.len() - rest.len() <= shown);
        assert(edited[shown] == rest[shown - (edited.len() - rest.len())]);
        assert(edited[shown] == two.last() && source[place] == one.last());
        assert(rest[place - end] == source[place]);
    }
    assert(replacement.text@ =~= two) by {
        let text = replacement.text@;
        assert(edited.len() == start + text.len() + (source.len() - end));
        assert forall|i: int| 0 <= i < text.len() implies text[i] == two[i] by {
            assert(edited[start + i] == text[i]);
        }
    }
}

proof fn lemma_front_stops_too(head: Seq<char>, one: Seq<char>, two: Seq<char>, tail: Seq<char>)
    requires
        one.len() > 0,
        two.len() > 0,
        one[0] != two[0],
    ensures
        ({
            let left = encode_utf8(head + one + tail);
            let right = encode_utf8(head + two + tail);
            common_front(left, right, 0) < byte_len(head + two)
        }),
{
    lemma_front_stops(head, two, one, tail);
    let left = encode_utf8(head + one + tail);
    let right = encode_utf8(head + two + tail);
    lemma_front_of_either(left, right, 0);
}

proof fn lemma_front_of_either(left: Seq<u8>, right: Seq<u8>, from: int)
    ensures
        common_front(left, right, from) == common_front(right, left, from),
    decreases left.len() - from,
{
    if from < left.len() && from < right.len() && left[from] == right[from] {
        lemma_front_of_either(left, right, from + 1);
    }
}

proof fn lemma_floor_is_at_least(text: Seq<char>, bytes: int, at: int)
    requires
        0 <= at <= text.len(),
        byte_len(text.take(at)) <= bytes,
    ensures
        char_floor(text, bytes) >= at,
{
    lemma_char_floor(text, bytes);
    if char_floor(text, bytes) < at {
        assert(byte_len(text.take(at)) > bytes);
    }
}

// Styles.

/// Bold, italic, struck through, highlighted, code, quotes, links and each level of
/// heading have styles of their own; of the items of lists only a checked one has.
pub proof fn law_styles_tell_kinds_apart(one: SpanKind, other: SpanKind)
    ensures
        style_of(one) is Some && style_of(one) == style_of(other) ==> one == other,
        style_of(one) is None <==> one is BulletItem || one is NumberedItem || one is Divider
            || one == (SpanKind::ChecklistItem { checked: false }),
{
    reveal_strlit("md-h1");
    reveal_strlit("md-h2");
    reveal_strlit("md-h3");
    reveal_strlit("md-bold");
    reveal_strlit("md-italic");
    reveal_strlit("md-strike");
    reveal_strlit("md-highlight");
    reveal_strlit("md-code");
    reveal_strlit("md-quote");
    reveal_strlit("md-link");
    reveal_strlit("md-checked");
    assert("md-h1"@.len() == 5 && "md-h2"@.len() == 5 && "md-h3"@.len() == 5);
    assert("md-h1"@[4] == '1' && "md-h2"@[4] == '2' && "md-h3"@[4] == '3');
    assert("md-bold"@.len() == 7 && "md-code"@.len() == 7 && "md-link"@.len() == 7);
    assert("md-bold"@[3] == 'b' && "md-code"@[3] == 'c' && "md-link"@[3] == 'l');
    assert("md-quote"@.len() == 8 && "md-italic"@.len() == 9 && "md-strike"@.len() == 9);
    assert("md-italic"@[3] == 'i' && "md-strike"@[3] == 's');
    assert("md-checked"@.len() == 10 && "md-highlight"@.len() == 12);
}

/// Every mark of a span that is not empty is styled as a mark, and its content, if it
/// is not empty, with the style of its kind.
pub proof fn law_marks_and_contents_are_styled(spans: Seq<SpanView>, k: int, m: int)
    requires
        0 <= k < spans.len(),
    ensures
        0 <= m < spans[k].markers.len() && spans[k].markers[m].0 < spans[k].markers[m].1
            ==> all_styles(spans).contains(
            StyleView {
                name: MARKDOWN_MARKER_TAG@,
                start: spans[k].markers[m].0,
                end: spans[k].markers[m].1,
            },
        ),
        style_of(spans[k].kind) matches Some(name) ==> spans[k].content.0 < spans[k].content.1
            ==> all_styles(spans).contains(
            StyleView { name, start: spans[k].content.0, end: spans[k].content.1 },
        ),
    decreases spans.len(),
{
    let front = spans.drop_last();
    let before = all_styles(front);
    let own = span_styles(spans.last());
    let all = all_styles(spans);
    assert(all == before + own);
    let span = spans[k];
    if k < front.len() {
        law_marks_and_contents_are_styled(front, k, m);
        assert(front[k] == span);
        assert forall|style: StyleView| before.contains(style) implies all.contains(style) by {
            let i = choose|i: int| 0 <= i < before.len() && before[i] == style;
            assert(all[i] == style);
        }
    } else {
        let marks = mark_styles(span, span.markers.len() as int);
        if 0 <= m < span.markers.len() && span.markers[m].0 < span.markers[m].1 {
            lemma_mark_styled(span, m, span.markers.len() as int);
            let style = StyleView {
                name: MARKDOWN_MARKER_TAG@,
                start: span.markers[m].0,
                end: span.markers[m].1,
            };
            let i = choose|i: int| 0 <= i < marks.len() && marks[i] == style;
            assert(own[i] == style);
            assert(all[before.len() + i] == style);
        }
        if let Some(name) = style_of(span.kind) {
            if span.content.0 < span.content.1 {
                let style = StyleView { name, start: span.content.0, end: span.content.1 };
                assert(style_on(name, span.content)[0] == style);
                assert(own[marks.len() as int] == style);
                assert(all[before.len() as int + marks.len()] == style);
            }
        }
    }
}

proof fn lemma_mark_styled(span: SpanView, m: int, count: int)
    requires
        0 <= m < count,
        count <= span.markers.len(),
        span.markers[m].0 < span.markers[m].1,
    ensures
        mark_styles(span, count).contains(
            StyleView {
                name: MARKDOWN_MARKER_TAG@,
                start: span.markers[m].0,
                end: span.markers[m].1,
            },
        ),
    decreases count,
{
    let style = StyleView {
        name: MARKDOWN_MARKER_TAG@,
        start: span.markers[m].0,
        end: span.markers[m].1,
    };
    let before = mark_styles(span, count - 1);
    let all = mark_styles(span, count);
    if m < count - 1 {
        lemma_mark_styled(span, m, count - 1);
        let i = choose|i: int| 0 <= i < before.len() && before[i] == style;
        assert(all[i] == style);
    } else {
        assert(style_on(MARKDOWN_MARKER_TAG@, span.markers[m])[0] == style);
        assert(all[before.len() as int] == style);
    }
}

} // verus!
