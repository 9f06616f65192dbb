//! What a span says of the text it stands in, and which spans a text has.

use vstd::prelude::*;

use crate::markdown_spans::{
    between, block_of, bold_italic, code_span, digits_from, double_pass, emphasis_spans, escaped,
    excluded_at, full_range, inline_spans, is_divider, line_spans, link_span, link_spans,
    marked_ranges, marked_span, marked_spans, nested_spans, next_char, paired_spans, partner,
    prefix_at, runs_of, single_pass, spans_from, spans_of, star_count, star_end, star_runs,
    taken_runs, triple_pass, without_inside, SpanKind, SpanView,
};
use crate::text::{
    is_space, lemma_line_bounds, lemma_run_from, lemma_skip_space_back_bounds,
    lemma_skip_space_bounds, line_end, run_from, skip_space, skip_space_back, stands_at, trimmed,
    trimmed_start,
};

verus! {

// What a span says of its text.

/// Whether a range of a text holds one character only, and so many of it.
pub open spec fn is_run(text: Seq<char>, range: (int, int), character: char, count: int) -> bool {
    &&& 0 <= range.0
    &&& range.1 == range.0 + count
    &&& range.1 <= text.len()
    &&& forall|i: int| range.0 <= i < range.1 ==> #[trigger] text[i] == character
}

/// Whether a span has two markers of so many of a character, and its content is
/// what stands between them, which is not empty.
pub open spec fn enclosed(text: Seq<char>, span: SpanView, character: char, count: int) -> bool {
    &&& span.markers.len() == 2
    &&& is_run(text, span.markers[0], character, count)
    &&& is_run(text, span.markers[1], character, count)
    &&& span.content == (span.markers[0].1, span.markers[1].0)
    &&& span.content.0 < span.content.1
}

/// Whether a span has runs of three stars or more for its markers.
pub open spec fn between_many_stars(text: Seq<char>, span: SpanView) -> bool {
    &&& span.markers.len() == 2
    &&& span.markers[0].1 - span.markers[0].0 >= 3
    &&& span.markers[1].1 - span.markers[1].0 >= 3
    &&& is_run(text, span.markers[0], '*', span.markers[0].1 - span.markers[0].0)
    &&& is_run(text, span.markers[1], '*', span.markers[1].1 - span.markers[1].0)
    &&& span.content == (span.markers[0].1, span.markers[1].0)
    &&& span.content.0 < span.content.1
}

/// Whether a span has no markers of its own and stands between three stars.
pub open spec fn within_three_stars(text: Seq<char>, span: SpanView) -> bool {
    &&& span.markers.len() == 0
    &&& span.content.0 < span.content.1
    &&& is_run(text, (span.content.0 - 3, span.content.0), '*', 3)
    &&& is_run(text, (span.content.1, span.content.1 + 3), '*', 3)
}

/// Whether a span is a link: a text in brackets and an address in parentheses.
pub open spec fn is_link(text: Seq<char>, span: SpanView) -> bool {
    &&& span.markers.len() == 2
    &&& is_run(text, span.markers[0], '[', 1)
    &&& 0 <= span.markers[1].0
    &&& span.markers[1].0 + 3 <= span.markers[1].1 <= text.len()
    &&& text[span.markers[1].0] == ']'
    &&& text[span.markers[1].0 + 1] == '('
    &&& text[span.markers[1].1 - 1] == ')'
    &&& span.content == (span.markers[0].1, span.markers[1].0)
    &&& span.content.0 < span.content.1
}

/// Whether a line ends at a position.
pub open spec fn ends_line(text: Seq<char>, at: int) -> bool {
    0 <= at <= text.len() && (at == text.len() || text[at] == '\n')
}

/// Whether a line starts at a position.
pub open spec fn starts_line(text: Seq<char>, at: int) -> bool {
    0 <= at <= text.len() && (at == 0 || text[at - 1] == '\n')
}

/// Whether a span is a block: its one marker goes from the start of a line, over
/// whitespace, to the end of a prefix that stands at `at`, and its content is the
/// rest of the line.
pub open spec fn is_block(text: Seq<char>, span: SpanView, at: int, prefix: Seq<char>) -> bool {
    &&& span.markers.len() == 1
    &&& starts_line(text, span.markers[0].0)
    &&& span.markers[0].0 <= at
    &&& forall|i: int| span.markers[0].0 <= i < at ==> is_space(#[trigger] text[i])
    &&& stands_at(text, prefix, at)
    &&& span.markers[0].1 == at + prefix.len()
    &&& span.content.0 == span.markers[0].1 <= span.content.1
    &&& ends_line(text, span.content.1)
    &&& forall|i: int| span.markers[0].0 <= i < span.content.1 ==> #[trigger] text[i] != '\n'
}

/// Whether a span is the block of a prefix.
pub open spec fn has_prefix(text: Seq<char>, span: SpanView, prefix: Seq<char>) -> bool {
    exists|at: int| #[trigger] is_block(text, span, at, prefix)
}

/// Whether a text is a number of a list: digits, a dot and a space.
pub open spec fn is_number(prefix: Seq<char>) -> bool {
    &&& prefix.len() >= 3
    &&& prefix[prefix.len() - 2] == '.'
    &&& prefix.last() == ' '
    &&& forall|i: int| 0 <= i < prefix.len() - 2 ==> '0' <= #[trigger] prefix[i] <= '9'
}

/// Whether a span is a line of three hyphens or more, with whitespace round them.
pub open spec fn is_rule(text: Seq<char>, span: SpanView) -> bool {
    &&& span.markers.len() == 1
    &&& starts_line(text, span.markers[0].0)
    &&& ends_line(text, span.markers[0].1)
    &&& span.content == (span.markers[0].1, span.markers[0].1)
    &&& exists|a: int, b: int|
        {
            &&& span.markers[0].0 <= a
            &&& a + 3 <= b <= span.markers[0].1
            &&& #[trigger] is_run(text, (a, b), '-', b - a)
            &&& forall|i: int|
                span.markers[0].0 <= i < a || b <= i < span.markers[0].1 ==> is_space(
                    #[trigger] text[i],
                )
        }
}

/// What the kind of a span says of the text: each kind has marks of its own.
pub open spec fn says_its_marks(text: Seq<char>, span: SpanView) -> bool {
    match span.kind {
        SpanKind::Bold => enclosed(text, span, '*', 2) || between_many_stars(text, span),
        SpanKind::Italic => enclosed(text, span, '*', 1) || within_three_stars(text, span),
        SpanKind::Strikethrough => enclosed(text, span, '~', 2),
        SpanKind::Highlight => enclosed(text, span, '=', 2),
        SpanKind::InlineCode => {
            &&& span.markers.len() == 2
            &&& is_run(text, span.markers[0], '`', 1)
            &&& is_run(text, span.markers[1], '`', 1)
            &&& span.content == (span.markers[0].1, span.markers[1].0)
            &&& span.content.0 <= span.content.1
        },
        SpanKind::Link => is_link(text, span),
        SpanKind::Heading1 => has_prefix(text, span, seq!['#', ' ']),
        SpanKind::Heading2 => has_prefix(text, span, seq!['#', '#', ' ']),
        SpanKind::Heading3 => has_prefix(text, span, seq!['#', '#', '#', ' ']),
        SpanKind::Quote => has_prefix(text, span, seq!['>', ' ']),
        SpanKind::ChecklistItem { checked } => if checked {
            has_prefix(text, span, seq!['-', ' ', '[', 'x', ']', ' ']) || has_prefix(
                text,
                span,
                seq!['-', ' ', '[', 'X', ']', ' '],
            )
        } else {
            has_prefix(text, span, seq!['-', ' ', '[', ' ', ']', ' '])
        },
        SpanKind::BulletItem => has_prefix(text, span, seq!['-', ' ']) || has_prefix(
            text,
            span,
            seq!['*', ' '],
        ),
        SpanKind::NumberedItem => exists|prefix: Seq<char>| #[trigger]
            is_number(prefix) && has_prefix(text, span, prefix),
        SpanKind::Divider => is_rule(text, span),
    }
}

spec fn all_say(text: Seq<char>, spans: Seq<SpanView>) -> bool {
    forall|k: int| 0 <= k < spans.len() ==> says_its_marks(text, #[trigger] spans[k])
}

proof fn lemma_all_append(text: Seq<char>, left: Seq<SpanView>, right: Seq<SpanView>)
    requires
        all_say(text, left),
        all_say(text, right),
    ensures
        all_say(text, left + right),
{
    let all = left + right;
    assert forall|k: int| 0 <= k < all.len() implies says_its_marks(text, #[trigger] all[k]) by {
        if k < left.len() {
            assert(all[k] == left[k]);
        } else {
            assert(all[k] == right[k - left.len()]);
        }
    }
}

/// Whether runs are made of stars.
spec fn star_texts(text: Seq<char>, runs: Seq<(int, int)>) -> bool {
    forall|i: int|
        0 <= i < runs.len() ==> (#[trigger] runs[i]).0 < runs[i].1 && is_run(
            text,
            runs[i],
            '*',
            runs[i].1 - runs[i].0,
        )
}

proof fn lemma_star_end_run(text: Seq<char>, from: int, end: int, excluded: Seq<(int, int)>)
    requires
        0 <= from <= end <= text.len(),
    ensures
        from <= star_end(text, from, end, excluded) <= end,
        forall|i: int|
            from <= i < star_end(text, from, end, excluded) ==> #[trigger] text[i] == '*',
    decreases end - from,
{
    if from < end && text[from] == '*' && !excluded_at(excluded, from) {
        lemma_star_end_run(text, from + 1, end, excluded);
    }
}

proof fn lemma_star_texts(text: Seq<char>, from: int, end: int, excluded: Seq<(int, int)>)
    requires
        0 <= from,
        end <= text.len(),
    ensures
        star_texts(text, star_runs(text, from, end, excluded)),
    decreases end - from,
{
    if from < end {
        if text[from] == '*' && !excluded_at(excluded, from) && !escaped(text, from) {
            lemma_star_end_run(text, from, end, excluded);
            let to = star_end(text, from, end, excluded);
            if from < to <= end {
                lemma_star_texts(text, to, end, excluded);
                let rest = star_runs(text, to, end, excluded);
                let all = star_runs(text, from, end, excluded);
                assert(all == seq![(from, to)] + rest);
                assert forall|i: int| 0 <= i < all.len() implies (#[trigger] all[i]).0 < all[i].1
                    && is_run(text, all[i], '*', all[i].1 - all[i].0) by {
                    if i > 0 {
                        assert(all[i] == rest[i - 1]);
                    }
                }
            }
        } else {
            lemma_star_texts(text, from + 1, end, excluded);
        }
    }
}

/// A span between two runs of one or two stars says its marks.
proof fn lemma_between_says(
    text: Seq<char>,
    kind: SpanKind,
    open: (int, int),
    close: (int, int),
    count: int,
)
    requires
        is_run(text, open, '*', open.1 - open.0),
        is_run(text, close, '*', close.1 - close.0),
        star_count(open) == count,
        star_count(close) == count,
        open.1 < close.0,
        kind is Italic && count == 1 || kind is Bold && count == 2,
    ensures
        says_its_marks(text, between(kind, open, close)),
{
    let span = between(kind, open, close);
    assert(span.markers[0] == open && span.markers[1] == close);
}

proof fn lemma_runs_of_texts(text: Seq<char>, runs: Seq<(int, int)>, count: int)
    requires
        star_texts(text, runs),
    ensures
        star_texts(text, runs_of(runs, count)),
        forall|i: int|
            0 <= i < runs_of(runs, count).len() ==> star_count(#[trigger] runs_of(runs, count)[i])
                == count,
    decreases runs.len(),
{
    if runs.len() > 0 {
        let head = runs.drop_last();
        assert(star_texts(text, head)) by {
            assert forall|i: int| 0 <= i < head.len() implies (#[trigger] head[i]).0 < head[i].1
                && is_run(text, head[i], '*', head[i].1 - head[i].0) by {
                assert(head[i] == runs[i]);
            }
        }
        lemma_runs_of_texts(text, head, count);
        assert(runs.last() == runs[runs.len() - 1]);
    }
}

proof fn lemma_paired_say(
    text: Seq<char>,
    kind: SpanKind,
    runs: Seq<(int, int)>,
    at: int,
    count: int,
)
    requires
        star_texts(text, runs),
        forall|i: int| 0 <= i < runs.len() ==> star_count(#[trigger] runs[i]) == count,
        0 <= at,
        kind is Italic && count == 1 || kind is Bold && count == 2,
    ensures
        all_say(text, paired_spans(kind, runs, at)),
    decreases runs.len() - at,
{
    if at + 1 < runs.len() {
        lemma_paired_say(text, kind, runs, at + 2, count);
        let rest = paired_spans(kind, runs, at + 2);
        let here = if runs[at].1 < runs[at + 1].0 {
            seq![between(kind, runs[at], runs[at + 1])]
        } else {
            seq![]
        };
        if runs[at].1 < runs[at + 1].0 {
            lemma_between_says(text, kind, runs[at], runs[at + 1], count);
        }
        lemma_all_append(text, here, rest);
    }
}

proof fn lemma_nested_say(
    text: Seq<char>,
    content: (int, int),
    excluded: Seq<(int, int)>,
    kind: SpanKind,
    count: int,
)
    requires
        0 <= content.0,
        content.1 <= text.len(),
        kind is Italic && count == 1 || kind is Bold && count == 2,
    ensures
        all_say(text, nested_spans(text, content, excluded, kind, count)),
{
    lemma_star_texts(text, content.0, content.1, excluded);
    let runs = star_runs(text, content.0, content.1, excluded);
    lemma_runs_of_texts(text, runs, count);
    lemma_paired_say(text, kind, runs_of(runs, count), 0, count);
}

proof fn lemma_partner_fits(runs: Seq<(int, int)>, left: Seq<bool>, at: int, count: int)
    requires
        0 <= at,
    ensures
        partner(runs, left, at, count) matches Some(other) ==> at <= other < runs.len()
            && star_count(runs[other]) == count,
    decreases runs.len() - at,
{
    if at < runs.len() {
        lemma_partner_fits(runs, left, at + 1, count);
    }
}

proof fn lemma_triple_say(text: Seq<char>, runs: Seq<(int, int)>, left: Seq<bool>, at: int)
    requires
        star_texts(text, runs),
        0 <= at,
    ensures
        all_say(text, triple_pass(runs, left, at).0),
    decreases runs.len() - at,
{
    if at < runs.len() {
        lemma_partner_fits(runs, left, at + 1, 3);
        match partner(runs, left, at + 1, 3) {
            Some(other) if left[at] && star_count(runs[at]) == 3 && runs[at].1 < runs[other].0 => {
                let after = left.update(at, false).update(other, false);
                lemma_triple_say(text, runs, after, at + 1);
                let pair = bold_italic(runs[at], runs[other]);
                let bold = between(SpanKind::Bold, runs[at], runs[other]);
                assert(bold.markers[0] == runs[at] && bold.markers[1] == runs[other]);
                assert(between_many_stars(text, bold));
                assert(within_three_stars(text, pair[1]));
                assert(all_say(text, pair));
                lemma_all_append(text, pair, triple_pass(runs, after, at + 1).0);
            },
            _ => {
                lemma_triple_say(text, runs, left, at + 1);
            },
        }
    }
}

proof fn lemma_double_say(
    text: Seq<char>,
    runs: Seq<(int, int)>,
    left: Seq<bool>,
    at: int,
    excluded: Seq<(int, int)>,
)
    requires
        star_texts(text, runs),
        0 <= at,
    ensures
        all_say(text, double_pass(text, runs, left, at, excluded).0),
    decreases runs.len() - at,
{
    if at < runs.len() {
        lemma_partner_fits(runs, left, at + 1, 2);
        match partner(runs, left, at + 1, 2) {
            Some(other) if left[at] && star_count(runs[at]) == 2 && runs[at].1 < runs[other].0 => {
                let content = (runs[at].1, runs[other].0);
                let hidden = excluded + seq![runs[at], runs[other]];
                let after = without_inside(
                    runs,
                    left.update(at, false).update(other, false),
                    content,
                );
                lemma_between_says(text, SpanKind::Bold, runs[at], runs[other], 2);
                lemma_nested_say(text, content, hidden, SpanKind::Italic, 1);
                lemma_double_say(text, runs, after, at + 1, excluded);
                let here = seq![between(SpanKind::Bold, runs[at], runs[other])];
                let nested = nested_spans(text, content, hidden, SpanKind::Italic, 1);
                lemma_all_append(text, here, nested);
                lemma_all_append(
                    text,
                    here + nested,
                    double_pass(text, runs, after, at + 1, excluded).0,
                );
            },
            _ => {
                lemma_double_say(text, runs, left, at + 1, excluded);
            },
        }
    }
}

proof fn lemma_single_say(
    text: Seq<char>,
    runs: Seq<(int, int)>,
    left: Seq<bool>,
    at: int,
    excluded: Seq<(int, int)>,
)
    requires
        star_texts(text, runs),
        0 <= at,
    ensures
        all_say(text, single_pass(text, runs, left, at, excluded)),
    decreases runs.len() - at,
{
    if at < runs.len() {
        lemma_partner_fits(runs, left, at + 1, 1);
        match partner(runs, left, at + 1, 1) {
            Some(other) if left[at] && star_count(runs[at]) == 1 && runs[at].1 < runs[other].0 => {
                let content = (runs[at].1, runs[other].0);
                let hidden = excluded + seq![runs[at], runs[other]];
                let after = left.update(at, false).update(other, false);
                lemma_between_says(text, SpanKind::Italic, runs[at], runs[other], 1);
                lemma_nested_say(text, content, hidden, SpanKind::Bold, 2);
                lemma_single_say(text, runs, after, at + 1, excluded);
                let here = seq![between(SpanKind::Italic, runs[at], runs[other])];
                let nested = nested_spans(text, content, hidden, SpanKind::Bold, 2);
                lemma_all_append(text, here, nested);
                lemma_all_append(
                    text,
                    here + nested,
                    single_pass(text, runs, after, at + 1, excluded),
                );
            },
            _ => {
                lemma_single_say(text, runs, left, at + 1, excluded);
            },
        }
    }
}

proof fn lemma_emphasis_say(text: Seq<char>, from: int, end: int, excluded: Seq<(int, int)>)
    requires
        0 <= from,
        end <= text.len(),
    ensures
        all_say(text, emphasis_spans(text, from, end, excluded)),
{
    lemma_star_texts(text, from, end, excluded);
    let runs = star_runs(text, from, end, excluded);
    let all = Seq::new(runs.len(), |k: int| true);
    let triple = triple_pass(runs, all, 0);
    let double = double_pass(text, runs, triple.1, 0, excluded);
    let taken = excluded + taken_runs(runs, double.1, runs.len() as int);
    lemma_triple_say(text, runs, all, 0);
    lemma_double_say(text, runs, triple.1, 0, excluded);
    lemma_single_say(text, runs, double.1, 0, taken);
    lemma_all_append(text, triple.0, double.0);
    lemma_all_append(text, triple.0 + double.0, single_pass(text, runs, double.1, 0, taken));
}

proof fn lemma_marked_say(text: Seq<char>, kind: SpanKind, character: char, ranges: Seq<(int, int)>)
    requires
        kind is Strikethrough && character == '~' || kind is Highlight && character == '=',
        forall|i: int|
            0 <= i < ranges.len() ==> {
                &&& is_run(text, ((#[trigger] ranges[i]).0, ranges[i].0 + 2), character, 2)
                &&& is_run(text, (ranges[i].1 - 2, ranges[i].1), character, 2)
            },
    ensures
        all_say(text, marked_spans(kind, ranges)),
    decreases ranges.len(),
{
    if ranges.len() > 0 {
        let head = ranges.drop_last();
        assert forall|i: int| 0 <= i < head.len() implies {
            &&& is_run(text, ((#[trigger] head[i]).0, head[i].0 + 2), character, 2)
            &&& is_run(text, (head[i].1 - 2, head[i].1), character, 2)
        } by {
            assert(head[i] == ranges[i]);
        }
        lemma_marked_say(text, kind, character, head);
        let last = ranges.last();
        assert(last == ranges[ranges.len() - 1]);
        let before = marked_spans(kind, head);
        let span = marked_span(kind, last);
        if last.0 + 2 < last.1 - 2 {
            assert(span.markers[0] == (last.0, last.0 + 2));
            assert(span.markers[1] == (last.1 - 2, last.1));
            assert(says_its_marks(text, span));
            let all = before.push(span);
            assert forall|k: int| 0 <= k < all.len() implies says_its_marks(
                text,
                #[trigger] all[k],
            ) by {
                if k < before.len() {
                    assert(all[k] == before[k]);
                }
            }
        }
    }
}

/// A mark of one character, so many times, that stands at a place is a run there.
proof fn lemma_mark_is_run(text: Seq<char>, mark: Seq<char>, at: int, character: char)
    requires
        stands_at(text, mark, at),
        forall|i: int| 0 <= i < mark.len() ==> #[trigger] mark[i] == character,
    ensures
        is_run(text, (at, at + mark.len()), character, mark.len() as int),
{
    assert forall|i: int| at <= i < at + mark.len() implies #[trigger] text[i] == character by {
        assert(text.subrange(at, at + mark.len())[i - at] == text[i]);
        assert(mark[i - at] == character);
    }
}

proof fn lemma_links_say(text: Seq<char>, from: int, end: int, excluded: Seq<(int, int)>)
    requires
        0 <= from,
        end <= text.len(),
    ensures
        all_say(text, link_spans(text, from, end, excluded)),
        forall|k: int|
            0 <= k < link_spans(text, from, end, excluded).len() ==> (#[trigger] link_spans(
                text,
                from,
                end,
                excluded,
            )[k]).kind is Link,
    decreases end - from,
{
    lemma_next_char_fits(text, from, end, '[', excluded);
    if let Some(bracket) = next_char(text, from, end, '[', excluded) {
        if escaped(text, bracket) {
            lemma_links_say(text, bracket + 1, end, excluded);
        } else {
            lemma_next_char_fits(text, bracket + 1, end, ']', excluded);
            if let Some(close) = next_char(text, bracket + 1, end, ']', excluded) {
                if !(close + 1 < end && text[close + 1] == '(' && !excluded_at(
                    excluded,
                    close + 1,
                )) {
                    lemma_links_say(text, bracket + 1, end, excluded);
                } else {
                    lemma_next_char_fits(text, close + 2, end, ')', excluded);
                    if let Some(paren) = next_char(text, close + 2, end, ')', excluded) {
                        lemma_links_say(text, paren + 1, end, excluded);
                        let link = link_span(bracket, close, paren);
                        let rest = link_spans(text, paren + 1, end, excluded);
                        let here = if bracket + 1 < close {
                            seq![link]
                        } else {
                            seq![]
                        };
                        if bracket + 1 < close {
                            assert(link.markers[0] == (bracket, bracket + 1));
                            assert(link.markers[1] == (close, paren + 1));
                            assert(is_link(text, link));
                        }
                        lemma_all_append(text, here, rest);
                    }
                }
            }
        }
    }
}

pub proof fn lemma_next_char_fits(
    text: Seq<char>,
    from: int,
    end: int,
    character: char,
    excluded: Seq<(int, int)>,
)
    ensures
        next_char(text, from, end, character, excluded) matches Some(at) ==> from <= at < end
            && text[at] == character && !excluded_at(excluded, at),
    decreases end - from,
{
    if from < end && !(text[from] == character && !excluded_at(excluded, from)) {
        lemma_next_char_fits(text, from + 1, end, character, excluded);
    }
}

proof fn lemma_inline_say(text: Seq<char>, from: int, end: int)
    requires
        0 <= from,
        end <= text.len(),
    ensures
        all_say(text, inline_spans(text, from, end)),
{
    let none = Seq::<(int, int)>::empty();
    let tick = seq!['`'];
    let codes = marked_ranges(text, from, end, tick, none);
    crate::markdown_spans::law_marked_ranges_are_visible_and_apart(text, from, end, tick, none);
    let code_spans = Seq::new(codes.len(), |i: int| code_span(codes[i]));
    assert forall|k: int| 0 <= k < code_spans.len() implies says_its_marks(
        text,
        #[trigger] code_spans[k],
    ) by {
        let range = codes[k];
        lemma_mark_is_run(text, tick, range.0, '`');
        lemma_mark_is_run(text, tick, range.1 - 1, '`');
        let span = code_span(range);
        assert(span.markers[0] == (range.0, range.0 + 1));
        assert(span.markers[1] == (range.1 - 1, range.1));
    }
    let links = link_spans(text, from, end, codes);
    lemma_links_say(text, from, end, codes);
    let excluded = codes + Seq::new(links.len(), |i: int| full_range(links[i]));
    lemma_emphasis_say(text, from, end, excluded);
    let emphasis = emphasis_spans(text, from, end, excluded);
    let tildes = seq!['~', '~'];
    let equals = seq!['=', '='];
    let struck = marked_ranges(text, from, end, tildes, excluded);
    let bright = marked_ranges(text, from, end, equals, excluded);
    crate::markdown_spans::law_marked_ranges_are_visible_and_apart(text, from, end, tildes, excluded);
    crate::markdown_spans::law_marked_ranges_are_visible_and_apart(text, from, end, equals, excluded);
    assert forall|i: int| 0 <= i < struck.len() implies {
        &&& is_run(text, ((#[trigger] struck[i]).0, struck[i].0 + 2), '~', 2)
        &&& is_run(text, (struck[i].1 - 2, struck[i].1), '~', 2)
    } by {
        lemma_mark_is_run(text, tildes, struck[i].0, '~');
        lemma_mark_is_run(text, tildes, struck[i].1 - 2, '~');
    }
    assert forall|i: int| 0 <= i < bright.len() implies {
        &&& is_run(text, ((#[trigger] bright[i]).0, bright[i].0 + 2), '=', 2)
        &&& is_run(text, (bright[i].1 - 2, bright[i].1), '=', 2)
    } by {
        lemma_mark_is_run(text, equals, bright[i].0, '=');
        lemma_mark_is_run(text, equals, bright[i].1 - 2, '=');
    }
    lemma_marked_say(text, SpanKind::Strikethrough, '~', struck);
    lemma_marked_say(text, SpanKind::Highlight, '=', bright);
    lemma_all_append(text, code_spans, links);
    lemma_all_append(text, code_spans + links, emphasis);
    let three = code_spans + links + emphasis;
    lemma_all_append(text, three, marked_spans(SpanKind::Strikethrough, struck));
    lemma_all_append(
        text,
        three + marked_spans(SpanKind::Strikethrough, struck),
        marked_spans(SpanKind::Highlight, bright),
    );
}

/// The prefix of a block stands where the whitespace before it ends.
proof fn lemma_block_says(text: Seq<char>, from: int, end: int)
    requires
        starts_line(text, from),
        ends_line(text, end),
        from <= end,
        forall|i: int| from <= i < end ==> #[trigger] text[i] != '\n',
    ensures
        block_of(text, from, end) matches Some((kind, prefix_end)) ==> says_its_marks(
            text,
            SpanView { kind, markers: seq![(from, prefix_end)], content: (prefix_end, end) },
        ) && from <= prefix_end,
{
    let line = text.subrange(from, end);
    lemma_skip_space_bounds(line, 0);
    let at = from + skip_space(line, 0);
    assert forall|i: int| from <= i < at implies is_space(#[trigger] text[i]) by {
        assert(line[i - from] == text[i]);
    }
    if let Some((kind, prefix_end)) = block_of(text, from, end) {
        let span = SpanView { kind, markers: seq![(from, prefix_end)], content: (prefix_end, end) };
        assert(span.markers[0] == (from, prefix_end));
        lemma_run_from(line, '#', at - from);
        let hashes = run_from(line, '#', at - from);
        lemma_digits(text, at, end);
        let digits = digits_from(text, at, end);
        if 1 <= hashes <= 3 && prefix_at(text, at + hashes, end, seq![' ']) {
            let prefix = Seq::new(hashes as nat, |i: int| '#').push(' ');
            assert(text.subrange(at, at + prefix.len()) =~= prefix) by {
                assert forall|i: int| at <= i < at + hashes implies #[trigger] text[i] == '#' by {
                    assert(line[i - from] == text[i]);
                }
                assert(text.subrange(at + hashes, at + hashes + 1)[0] == text[at + hashes]);
            }
            assert(is_block(text, span, at, prefix));
            if hashes == 1 {
                assert(prefix =~= seq!['#', ' ']);
            } else if hashes == 2 {
                assert(prefix =~= seq!['#', '#', ' ']);
            } else {
                assert(prefix =~= seq!['#', '#', '#', ' ']);
            }
        } else if prefix_at(text, at, end, seq!['>', ' ']) {
            assert(is_block(text, span, at, seq!['>', ' ']));
        } else if prefix_at(text, at, end, seq!['-', ' ', '[', ' ', ']', ' ']) {
            assert(is_block(text, span, at, seq!['-', ' ', '[', ' ', ']', ' ']));
        } else if prefix_at(text, at, end, seq!['-', ' ', '[', 'x', ']', ' ']) {
            assert(is_block(text, span, at, seq!['-', ' ', '[', 'x', ']', ' ']));
        } else if prefix_at(text, at, end, seq!['-', ' ', '[', 'X', ']', ' ']) {
            assert(is_block(text, span, at, seq!['-', ' ', '[', 'X', ']', ' ']));
        } else if prefix_at(text, at, end, seq!['-', ' ']) {
            assert(is_block(text, span, at, seq!['-', ' ']));
        } else if prefix_at(text, at, end, seq!['*', ' ']) {
            assert(is_block(text, span, at, seq!['*', ' ']));
        } else {
            let prefix = text.subrange(at, at + digits + 2);
            let tail = text.subrange(at + digits, at + digits + 2);
            assert(tail == seq!['.', ' ']);
            assert(tail[0] == text[at + digits] && tail[1] == text[at + digits + 1]);
            assert(is_number(prefix)) by {
                assert forall|i: int| 0 <= i < prefix.len() - 2 implies '0' <= #[trigger] prefix[i]
                    <= '9' by {
                    assert(prefix[i] == text[at + i]);
                }
            }
            assert(is_block(text, span, at, prefix));
        }
    }
}

proof fn lemma_digits(text: Seq<char>, at: int, end: int)
    ensures
        digits_from(text, at, end) >= 0,
        at <= end ==> at + digits_from(text, at, end) <= end,
        forall|i: int|
            at <= i < at + digits_from(text, at, end) ==> '0' <= #[trigger] text[i] <= '9',
    decreases end - at,
{
    if at < end && '0' <= text[at] <= '9' {
        lemma_digits(text, at + 1, end);
    }
}

proof fn lemma_rule_says(text: Seq<char>, from: int, end: int)
    requires
        starts_line(text, from),
        ends_line(text, end),
        from <= end,
        is_divider(text.subrange(from, end)),
    ensures
        is_rule(
            text,
            SpanView { kind: SpanKind::Divider, markers: seq![(from, end)], content: (end, end) },
        ),
{
    let line = text.subrange(from, end);
    let span = SpanView { kind: SpanKind::Divider, markers: seq![(from, end)], content: (end, end) };
    assert(span.markers[0] == (from, end));
    lemma_skip_space_bounds(line, 0);
    let lead = skip_space(line, 0);
    let rest = trimmed_start(line);
    assert(rest == line.skip(lead));
    lemma_skip_space_back_bounds(rest, rest.len() as int);
    let tail = skip_space_back(rest, rest.len() as int);
    let inner = trimmed(line);
    assert(inner == rest.take(tail));
    let a = from + lead;
    let b = a + tail;
    assert forall|i: int| a <= i < b implies #[trigger] text[i] == '-' by {
        assert(inner[i - a] == rest[i - a]);
        assert(rest[i - a] == line[i - from]);
        assert(inner[i - a] == '-');
    }
    assert(is_run(text, (a, b), '-', b - a));
    assert forall|i: int| from <= i < a || b <= i < end implies is_space(#[trigger] text[i]) by {
        assert(line[i - from] == text[i]);
        if i >= b {
            assert(rest[i - a] == line[i - from]);
        }
    }
}

proof fn lemma_line_says(text: Seq<char>, from: int, end: int)
    requires
        starts_line(text, from),
        ends_line(text, end),
        from <= end,
        forall|i: int| from <= i < end ==> #[trigger] text[i] != '\n',
    ensures
        all_say(text, line_spans(text, from, end)),
{
    if is_divider(text.subrange(from, end)) {
        lemma_rule_says(text, from, end);
    } else {
        lemma_block_says(text, from, end);
        lemma_inline_say(text, from, end);
        if let Some((kind, prefix_end)) = block_of(text, from, end) {
            lemma_inline_say(text, prefix_end, end);
            lemma_all_append(
                text,
                seq![SpanView { kind, markers: seq![(from, prefix_end)], content: (prefix_end, end) }],
                inline_spans(text, prefix_end, end),
            );
        }
    }
}

proof fn lemma_spans_say(text: Seq<char>, from: int)
    requires
        starts_line(text, from),
    ensures
        all_say(text, spans_from(text, from)),
    decreases text.len() - from,
{
    lemma_line_bounds(text, from);
    let end = line_end(text, from);
    crate::formatting::lemma_line_end_kind(text, from);
    lemma_line_says(text, from, end);
    if end < text.len() {
        lemma_spans_say(text, end + 1);
        lemma_all_append(text, line_spans(text, from, end), spans_from(text, end + 1));
    }
}

/// The kind of every span is that of its marks: two stars or more on both sides are
/// bold, one is italic, tildes strike through, equals signs highlight, backticks are
/// code, brackets and parentheses a link, and the prefix of a line says which block
/// it is. What a span covers is what its marks enclose, or the rest of its line.
pub proof fn law_every_span_says_its_marks(text: Seq<char>, k: int)
    requires
        0 <= k < spans_of(text).len(),
    ensures
        says_its_marks(text, spans_of(text)[k]),
{
    lemma_spans_say(text, 0);
}

/// A span between single stars is italic, and one between double stars is bold.
pub proof fn law_stars_tell_bold_from_italic(text: Seq<char>, k: int)
    requires
        0 <= k < spans_of(text).len(),
        spans_of(text)[k].markers.len() == 2,
    ensures
        ({
            let span = spans_of(text)[k];
            &&& is_run(text, span.markers[0], '*', 1) ==> span.kind is Italic
            &&& is_run(text, span.markers[0], '*', 2) ==> span.kind is Bold
        }),
{
    law_every_span_says_its_marks(text, k);
    let span = spans_of(text)[k];
    let first = span.markers[0];
    if is_run(text, first, '*', 1) || is_run(text, first, '*', 2) {
        assert(text[first.0] == '*');
    }
}

} // verus!
