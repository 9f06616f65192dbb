//! Lines are styled one by one: what stands on one line has no effect on another.

use vstd::prelude::*;

use crate::markdown_spans::{
    between, block_of, bold_italic, code_span, digits_from, double_pass, emphasis_spans, escaped,
    excluded_at, full_range, inline_spans, line_spans, link_span, link_spans, marked_ranges,
    marked_span, marked_spans, nested_spans, next_char, next_mark, paired_spans, partner,
    prefix_at, runs_of, single_pass, spans_from, spans_of, star_count, star_end, star_runs,
    taken_runs, triple_pass, without_inside, SpanKind, SpanView,
};
use crate::text::{
    byte_len, lemma_encode_concat, lemma_line_bounds, line_end, run_from, skip_space, stands_at,
};

verus! {

/// A range so many characters further on.
pub open spec fn shift_range(range: (int, int), by: int) -> (int, int) {
    (range.0 + by, range.1 + by)
}

/// Ranges so many characters further on.
pub open spec fn shift_ranges(ranges: Seq<(int, int)>, by: int) -> Seq<(int, int)> {
    Seq::new(ranges.len(), |i: int| shift_range(ranges[i], by))
}

/// A span so many characters further on.
pub open spec fn shift_span(span: SpanView, by: int) -> SpanView {
    SpanView {
        kind: span.kind,
        markers: shift_ranges(span.markers, by),
        content: shift_range(span.content, by),
    }
}

/// Spans so many characters further on.
pub open spec fn shift_spans(spans: Seq<SpanView>, by: int) -> Seq<SpanView> {
    Seq::new(spans.len(), |i: int| shift_span(spans[i], by))
}

/// A place so many characters further on, where there is one.
spec fn shift_place(place: Option<int>, by: int) -> Option<int> {
    match place {
        Some(at) => Some(at + by),
        None => None,
    }
}

/// Whether `part` stands in `whole` from `by` on, and not behind a backslash.
pub open spec fn embeds(whole: Seq<char>, part: Seq<char>, by: int) -> bool {
    &&& 0 <= by
    &&& by + part.len() <= whole.len()
    &&& forall|i: int| 0 <= i < part.len() ==> #[trigger] part[i] == whole[by + i]
    &&& by == 0 || whole[by - 1] != '\\'
}

proof fn lemma_shift_append(left: Seq<SpanView>, right: Seq<SpanView>, by: int)
    ensures
        shift_spans(left + right, by) == shift_spans(left, by) + shift_spans(right, by),
{
    assert(shift_spans(left + right, by) =~= shift_spans(left, by) + shift_spans(right, by));
}

proof fn lemma_shift_one(span: SpanView, by: int)
    ensures
        shift_spans(seq![span], by) == seq![shift_span(span, by)],
{
    assert(shift_spans(seq![span], by) =~= seq![shift_span(span, by)]);
}

proof fn lemma_shift_ranges_append(left: Seq<(int, int)>, right: Seq<(int, int)>, by: int)
    ensures
        shift_ranges(left + right, by) == shift_ranges(left, by) + shift_ranges(right, by),
{
    assert(shift_ranges(left + right, by) =~= shift_ranges(left, by) + shift_ranges(right, by));
}

proof fn lemma_escaped(whole: Seq<char>, part: Seq<char>, by: int, at: int)
    requires
        embeds(whole, part, by),
        0 <= at <= part.len(),
    ensures
        escaped(whole, by + at) == escaped(part, at),
{
    if at > 0 {
        assert(part[at - 1] == whole[by + (at - 1)]);
    }
}

proof fn lemma_excluded(ranges: Seq<(int, int)>, at: int, by: int)
    ensures
        excluded_at(shift_ranges(ranges, by), by + at) == excluded_at(ranges, at),
{
    let moved = shift_ranges(ranges, by);
    if excluded_at(ranges, at) {
        let i = choose|i: int|
            0 <= i < ranges.len() && (#[trigger] ranges[i]).0 <= at < ranges[i].1;
        assert(moved[i].0 <= by + at < moved[i].1);
    }
    if excluded_at(moved, by + at) {
        let i = choose|i: int|
            0 <= i < moved.len() && (#[trigger] moved[i]).0 <= by + at < moved[i].1;
        assert(ranges[i].0 <= at < ranges[i].1);
    }
}

proof fn lemma_stands(whole: Seq<char>, part: Seq<char>, by: int, mark: Seq<char>, at: int)
    requires
        embeds(whole, part, by),
        0 <= at,
        at + mark.len() <= part.len(),
    ensures
        stands_at(whole, mark, by + at) == stands_at(part, mark, at),
{
    assert(whole.subrange(by + at, by + at + mark.len()) =~= part.subrange(at, at + mark.len()));
}

proof fn lemma_next_mark_moves(
    whole: Seq<char>,
    part: Seq<char>,
    by: int,
    from: int,
    end: int,
    mark: Seq<char>,
    excluded: Seq<(int, int)>,
)
    requires
        embeds(whole, part, by),
        0 <= from,
        end <= part.len(),
    ensures
        next_mark(whole, by + from, by + end, mark, shift_ranges(excluded, by)) == shift_place(
            next_mark(part, from, end, mark, excluded),
            by,
        ),
        next_mark(part, from, end, mark, excluded) matches Some(at) ==> from <= at && at
            + mark.len() <= end,
    decreases end - from,
{
    if !(from >= end || from + mark.len() > end) {
        lemma_stands(whole, part, by, mark, from);
        lemma_excluded(excluded, from, by);
        lemma_escaped(whole, part, by, from);
        lemma_next_mark_moves(whole, part, by, from + 1, end, mark, excluded);
    }
}

proof fn lemma_marked_ranges_move(
    whole: Seq<char>,
    part: Seq<char>,
    by: int,
    from: int,
    end: int,
    mark: Seq<char>,
    excluded: Seq<(int, int)>,
)
    requires
        embeds(whole, part, by),
        0 <= from,
        end <= part.len(),
    ensures
        marked_ranges(whole, by + from, by + end, mark, shift_ranges(excluded, by))
            == shift_ranges(marked_ranges(part, from, end, mark, excluded), by),
    decreases end - from,
{
    let moved = shift_ranges(excluded, by);
    lemma_next_mark_moves(whole, part, by, from, end, mark, excluded);
    let found = marked_ranges(part, from, end, mark, excluded);
    match next_mark(part, from, end, mark, excluded) {
        Some(open) => {
            lemma_next_mark_moves(
                whole,
                part,
                by,
                open + mark.len() as int,
                end,
                mark,
                excluded,
            );
            assert(by + (open + mark.len()) == (by + open) + mark.len());
            match next_mark(part, open + mark.len(), end, mark, excluded) {
                Some(close) => {
                    if from < close + mark.len() <= end {
                        let next = close + mark.len();
                        lemma_marked_ranges_move(whole, part, by, next, end, mark, excluded);
                        let rest = marked_ranges(part, next, end, mark, excluded);
                        lemma_shift_ranges_append(seq![(open, next)], rest, by);
                        assert(shift_ranges(seq![(open, next)], by) =~= seq![
                            (open + by, next + by),
                        ]);
                        assert(marked_ranges(whole, by + from, by + end, mark, moved) == seq![
                            (open + by, next + by),
                        ] + marked_ranges(whole, by + next, by + end, mark, moved));
                    } else {
                        assert(shift_ranges(found, by) =~= Seq::<(int, int)>::empty());
                    }
                },
                None => {
                    assert(shift_ranges(found, by) =~= Seq::<(int, int)>::empty());
                },
            }
        },
        None => {
            assert(shift_ranges(found, by) =~= Seq::<(int, int)>::empty());
        },
    }
}

proof fn lemma_next_char_moves(
    whole: Seq<char>,
    part: Seq<char>,
    by: int,
    from: int,
    end: int,
    character: char,
    excluded: Seq<(int, int)>,
)
    requires
        embeds(whole, part, by),
        0 <= from,
        end <= part.len(),
    ensures
        next_char(whole, by + from, by + end, character, shift_ranges(excluded, by))
            == shift_place(next_char(part, from, end, character, excluded), by),
        next_char(part, from, end, character, excluded) matches Some(at) ==> from <= at < end,
    decreases end - from,
{
    if from < end {
        lemma_excluded(excluded, from, by);
        assert(part[from] == whole[by + from]);
        lemma_next_char_moves(whole, part, by, from + 1, end, character, excluded);
    }
}

proof fn lemma_links_move(
    whole: Seq<char>,
    part: Seq<char>,
    by: int,
    from: int,
    end: int,
    excluded: Seq<(int, int)>,
)
    requires
        embeds(whole, part, by),
        0 <= from,
        end <= part.len(),
    ensures
        link_spans(whole, by + from, by + end, shift_ranges(excluded, by)) == shift_spans(
            link_spans(part, from, end, excluded),
            by,
        ),
        forall|i: int|
            0 <= i < link_spans(part, from, end, excluded).len() ==> (#[trigger] link_spans(
                part,
                from,
                end,
                excluded,
            )[i]).markers.len() == 2,
    decreases end - from,
{
    let moved = shift_ranges(excluded, by);
    let found = link_spans(part, from, end, excluded);
    let none = Seq::<SpanView>::empty();
    assert(shift_spans(none, by) =~= none);
    lemma_next_char_moves(whole, part, by, from, end, '[', excluded);
    if let Some(bracket) = next_char(part, from, end, '[', excluded) {
        lemma_escaped(whole, part, by, bracket);
        if escaped(part, bracket) {
            lemma_links_move(whole, part, by, bracket + 1, end, excluded);
        } else {
            lemma_next_char_moves(whole, part, by, bracket + 1, end, ']', excluded);
            if let Some(close) = next_char(part, bracket + 1, end, ']', excluded) {
                lemma_excluded(excluded, close + 1, by);
                if close + 1 < end {
                    assert(part[close + 1] == whole[by + (close + 1)]);
                }
                if !(close + 1 < end && part[close + 1] == '(' && !excluded_at(
                    excluded,
                    close + 1,
                )) {
                    lemma_links_move(whole, part, by, bracket + 1, end, excluded);
                } else {
                    lemma_next_char_moves(whole, part, by, close + 2, end, ')', excluded);
                    if let Some(paren) = next_char(part, close + 2, end, ')', excluded) {
                        lemma_links_move(whole, part, by, paren + 1, end, excluded);
                        let rest = link_spans(part, paren + 1, end, excluded);
                        let link = link_span(bracket, close, paren);
                        let here = if bracket + 1 < close {
                            seq![link]
                        } else {
                            none
                        };
                        lemma_shift_append(here, rest, by);
                        lemma_shift_one(link, by);
                        assert(shift_span(link, by) =~= link_span(
                            by + bracket,
                            by + close,
                            by + paren,
                        ));
                    }
                }
            }
        }
    }
}

proof fn lemma_star_end_moves(
    whole: Seq<char>,
    part: Seq<char>,
    by: int,
    from: int,
    end: int,
    excluded: Seq<(int, int)>,
)
    requires
        embeds(whole, part, by),
        0 <= from,
        end <= part.len(),
    ensures
        star_end(whole, by + from, by + end, shift_ranges(excluded, by)) == by + star_end(
            part,
            from,
            end,
            excluded,
        ),
    decreases end - from,
{
    if from < end {
        lemma_excluded(excluded, from, by);
        assert(part[from] == whole[by + from]);
        lemma_star_end_moves(whole, part, by, from + 1, end, excluded);
    }
}

/// Whether all runs lie between two positions and none is empty.
spec fn runs_lie(runs: Seq<(int, int)>, from: int, end: int) -> bool {
    forall|i: int|
        0 <= i < runs.len() ==> from <= (#[trigger] runs[i]).0 && runs[i].0 < runs[i].1
            && runs[i].1 <= end
}

proof fn lemma_star_runs_move(
    whole: Seq<char>,
    part: Seq<char>,
    by: int,
    from: int,
    end: int,
    excluded: Seq<(int, int)>,
)
    requires
        embeds(whole, part, by),
        0 <= from,
        end <= part.len(),
    ensures
        star_runs(whole, by + from, by + end, shift_ranges(excluded, by)) == shift_ranges(
            star_runs(part, from, end, excluded),
            by,
        ),
        runs_lie(star_runs(part, from, end, excluded), from, end),
    decreases end - from,
{
    let none = Seq::<(int, int)>::empty();
    assert(shift_ranges(none, by) =~= none);
    if from < end {
        lemma_excluded(excluded, from, by);
        lemma_escaped(whole, part, by, from);
        assert(part[from] == whole[by + from]);
        if part[from] == '*' && !excluded_at(excluded, from) && !escaped(part, from) {
            lemma_star_end_moves(whole, part, by, from, end, excluded);
            let to = star_end(part, from, end, excluded);
            if from < to <= end {
                lemma_star_runs_move(whole, part, by, to, end, excluded);
                let rest = star_runs(part, to, end, excluded);
                lemma_shift_ranges_append(seq![(from, to)], rest, by);
                assert(shift_ranges(seq![(from, to)], by) =~= seq![(from + by, to + by)]);
                let all = seq![(from, to)] + rest;
                assert forall|i: int| 0 <= i < all.len() implies from <= (#[trigger] all[i]).0
                    && all[i].0 < all[i].1 && all[i].1 <= end by {
                    if i > 0 {
                        assert(all[i] == rest[i - 1]);
                    }
                }
            }
        } else {
            lemma_star_runs_move(whole, part, by, from + 1, end, excluded);
            let rest = star_runs(part, from + 1, end, excluded);
            assert(runs_lie(rest, from, end));
        }
    }
}

proof fn lemma_partner_moves(runs: Seq<(int, int)>, left: Seq<bool>, at: int, count: int, by: int)
    requires
        0 <= at,
    ensures
        partner(shift_ranges(runs, by), left, at, count) == partner(runs, left, at, count),
        partner(runs, left, at, count) matches Some(other) ==> at <= other < runs.len(),
    decreases runs.len() - at,
{
    if at < runs.len() {
        lemma_partner_moves(runs, left, at + 1, count, by);
    }
}

proof fn lemma_runs_of_move(runs: Seq<(int, int)>, count: int, by: int)
    ensures
        runs_of(shift_ranges(runs, by), count) == shift_ranges(runs_of(runs, count), by),
    decreases runs.len(),
{
    let moved = shift_ranges(runs, by);
    if runs.len() == 0 {
        assert(shift_ranges(runs_of(runs, count), by) =~= Seq::<(int, int)>::empty());
    } else {
        lemma_runs_of_move(runs.drop_last(), count, by);
        assert(moved.drop_last() =~= shift_ranges(runs.drop_last(), by));
        assert(moved.last() == shift_range(runs.last(), by));
        let before = runs_of(runs.drop_last(), count);
        assert(shift_ranges(before.push(runs.last()), by) =~= shift_ranges(before, by).push(
            shift_range(runs.last(), by),
        ));
    }
}

proof fn lemma_between_moves(kind: SpanKind, open: (int, int), close: (int, int), by: int)
    ensures
        shift_span(between(kind, open, close), by) == between(
            kind,
            shift_range(open, by),
            shift_range(close, by),
        ),
{
    assert(shift_span(between(kind, open, close), by) =~= between(
        kind,
        shift_range(open, by),
        shift_range(close, by),
    ));
}

proof fn lemma_paired_move(kind: SpanKind, runs: Seq<(int, int)>, at: int, by: int)
    requires
        0 <= at,
    ensures
        paired_spans(kind, shift_ranges(runs, by), at) == shift_spans(
            paired_spans(kind, runs, at),
            by,
        ),
    decreases runs.len() - at,
{
    let none = Seq::<SpanView>::empty();
    assert(shift_spans(none, by) =~= none);
    if at + 1 < runs.len() {
        lemma_paired_move(kind, runs, at + 2, by);
        lemma_between_moves(kind, runs[at], runs[at + 1], by);
        let span = between(kind, runs[at], runs[at + 1]);
        lemma_shift_one(span, by);
        let here = if runs[at].1 < runs[at + 1].0 {
            seq![span]
        } else {
            none
        };
        lemma_shift_append(here, paired_spans(kind, runs, at + 2), by);
    }
}

proof fn lemma_nested_move(
    whole: Seq<char>,
    part: Seq<char>,
    by: int,
    content: (int, int),
    excluded: Seq<(int, int)>,
    kind: SpanKind,
    count: int,
)
    requires
        embeds(whole, part, by),
        0 <= content.0,
        content.1 <= part.len(),
    ensures
        nested_spans(whole, shift_range(content, by), shift_ranges(excluded, by), kind, count)
            == shift_spans(nested_spans(part, content, excluded, kind, count), by),
{
    lemma_star_runs_move(whole, part, by, content.0, content.1, excluded);
    let runs = star_runs(part, content.0, content.1, excluded);
    lemma_runs_of_move(runs, count, by);
    lemma_paired_move(kind, runs_of(runs, count), 0, by);
}

proof fn lemma_triple_moves(runs: Seq<(int, int)>, left: Seq<bool>, at: int, by: int)
    requires
        0 <= at,
        left.len() == runs.len(),
    ensures
        triple_pass(shift_ranges(runs, by), left, at).0 == shift_spans(
            triple_pass(runs, left, at).0,
            by,
        ),
        triple_pass(shift_ranges(runs, by), left, at).1 == triple_pass(runs, left, at).1,
        triple_pass(runs, left, at).1.len() == runs.len(),
    decreases runs.len() - at,
{
    let none = Seq::<SpanView>::empty();
    assert(shift_spans(none, by) =~= none);
    if at < runs.len() {
        lemma_partner_moves(runs, left, at + 1, 3, by);
        let moved = shift_ranges(runs, by);
        match partner(runs, left, at + 1, 3) {
            Some(other) if left[at] && star_count(runs[at]) == 3 && runs[at].1 < runs[other].0 => {
                let after = left.update(at, false).update(other, false);
                lemma_triple_moves(runs, after, at + 1, by);
                let rest = triple_pass(runs, after, at + 1);
                let here = bold_italic(runs[at], runs[other]);
                lemma_shift_append(here, rest.0, by);
                lemma_between_moves(SpanKind::Bold, runs[at], runs[other], by);
                assert(shift_ranges(Seq::<(int, int)>::empty(), by) =~= Seq::<(int, int)>::empty());
                assert(shift_spans(here, by) =~= bold_italic(moved[at], moved[other]));
            },
            _ => {
                lemma_triple_moves(runs, left, at + 1, by);
            },
        }
    }
}

proof fn lemma_double_moves(
    whole: Seq<char>,
    part: Seq<char>,
    by: int,
    runs: Seq<(int, int)>,
    left: Seq<bool>,
    at: int,
    excluded: Seq<(int, int)>,
)
    requires
        embeds(whole, part, by),
        runs_lie(runs, 0, part.len() as int),
        0 <= at,
        left.len() == runs.len(),
    ensures
        double_pass(whole, shift_ranges(runs, by), left, at, shift_ranges(excluded, by)).0
            == shift_spans(double_pass(part, runs, left, at, excluded).0, by),
        double_pass(whole, shift_ranges(runs, by), left, at, shift_ranges(excluded, by)).1
            == double_pass(part, runs, left, at, excluded).1,
        double_pass(part, runs, left, at, excluded).1.len() == runs.len(),
    decreases runs.len() - at,
{
    let none = Seq::<SpanView>::empty();
    assert(shift_spans(none, by) =~= none);
    if at < runs.len() {
        lemma_partner_moves(runs, left, at + 1, 2, by);
        let moved = shift_ranges(runs, by);
        match partner(runs, left, at + 1, 2) {
            Some(other) if left[at] && star_count(runs[at]) == 2 && runs[at].1 < runs[other].0 => {
                let content = (runs[at].1, runs[other].0);
                let pair = seq![runs[at], runs[other]];
                lemma_shift_ranges_append(excluded, pair, by);
                assert(shift_ranges(pair, by) =~= seq![moved[at], moved[other]]);
                lemma_nested_move(whole, part, by, content, excluded + pair, SpanKind::Italic, 1);
                let taken = left.update(at, false).update(other, false);
                let after = without_inside(runs, taken, content);
                assert(without_inside(moved, taken, shift_range(content, by)) =~= after);
                lemma_double_moves(whole, part, by, runs, after, at + 1, excluded);
                let rest = double_pass(part, runs, after, at + 1, excluded);
                let span = between(SpanKind::Bold, runs[at], runs[other]);
                let nested = nested_spans(part, content, excluded + pair, SpanKind::Italic, 1);
                lemma_shift_append(seq![span] + nested, rest.0, by);
                lemma_shift_append(seq![span], nested, by);
                lemma_shift_one(span, by);
                lemma_between_moves(SpanKind::Bold, runs[at], runs[other], by);
            },
            _ => {
                lemma_double_moves(whole, part, by, runs, left, at + 1, excluded);
            },
        }
    }
}

proof fn lemma_taken_move(runs: Seq<(int, int)>, left: Seq<bool>, upto: int, by: int)
    requires
        upto <= runs.len(),
    ensures
        taken_runs(shift_ranges(runs, by), left, upto) == shift_ranges(
            taken_runs(runs, left, upto),
            by,
        ),
    decreases upto,
{
    if upto <= 0 {
        assert(shift_ranges(taken_runs(runs, left, upto), by) =~= Seq::<(int, int)>::empty());
    } else {
        lemma_taken_move(runs, left, upto - 1, by);
        let before = taken_runs(runs, left, upto - 1);
        assert(shift_ranges(before.push(runs[upto - 1]), by) =~= shift_ranges(before, by).push(
            shift_range(runs[upto - 1], by),
        ));
    }
}

proof fn lemma_single_moves(
    whole: Seq<char>,
    part: Seq<char>,
    by: int,
    runs: Seq<(int, int)>,
    left: Seq<bool>,
    at: int,
    excluded: Seq<(int, int)>,
)
    requires
        embeds(whole, part, by),
        runs_lie(runs, 0, part.len() as int),
        0 <= at,
        left.len() == runs.len(),
    ensures
        single_pass(whole, shift_ranges(runs, by), left, at, shift_ranges(excluded, by))
            == shift_spans(single_pass(part, runs, left, at, excluded), by),
    decreases runs.len() - at,
{
    let none = Seq::<SpanView>::empty();
    assert(shift_spans(none, by) =~= none);
    if at < runs.len() {
        lemma_partner_moves(runs, left, at + 1, 1, by);
        let moved = shift_ranges(runs, by);
        match partner(runs, left, at + 1, 1) {
            Some(other) if left[at] && star_count(runs[at]) == 1 && runs[at].1 < runs[other].0 => {
                let content = (runs[at].1, runs[other].0);
                let pair = seq![runs[at], runs[other]];
                lemma_shift_ranges_append(excluded, pair, by);
                assert(shift_ranges(pair, by) =~= seq![moved[at], moved[other]]);
                lemma_nested_move(whole, part, by, content, excluded + pair, SpanKind::Bold, 2);
                let after = left.update(at, false).update(other, false);
                lemma_single_moves(whole, part, by, runs, after, at + 1, excluded);
                let rest = single_pass(part, runs, after, at + 1, excluded);
                let span = between(SpanKind::Italic, runs[at], runs[other]);
                let nested = nested_spans(part, content, excluded + pair, SpanKind::Bold, 2);
                lemma_shift_append(seq![span] + nested, rest, by);
                lemma_shift_append(seq![span], nested, by);
                lemma_shift_one(span, by);
                lemma_between_moves(SpanKind::Italic, runs[at], runs[other], by);
            },
            _ => {
                lemma_single_moves(whole, part, by, runs, left, at + 1, excluded);
            },
        }
    }
}

proof fn lemma_emphasis_moves(
    whole: Seq<char>,
    part: Seq<char>,
    by: int,
    from: int,
    end: int,
    excluded: Seq<(int, int)>,
)
    requires
        embeds(whole, part, by),
        0 <= from,
        end <= part.len(),
    ensures
        emphasis_spans(whole, by + from, by + end, shift_ranges(excluded, by)) == shift_spans(
            emphasis_spans(part, from, end, excluded),
            by,
        ),
{
    lemma_star_runs_move(whole, part, by, from, end, excluded);
    let runs = star_runs(part, from, end, excluded);
    let moved = shift_ranges(runs, by);
    let all = Seq::new(runs.len(), |k: int| true);
    assert(Seq::new(moved.len(), |k: int| true) =~= all);
    lemma_triple_moves(runs, all, 0, by);
    let triple = triple_pass(runs, all, 0);
    assert(runs_lie(runs, 0, part.len() as int));
    lemma_double_moves(whole, part, by, runs, triple.1, 0, excluded);
    let double = double_pass(part, runs, triple.1, 0, excluded);
    lemma_taken_move(runs, double.1, runs.len() as int, by);
    let taken = taken_runs(runs, double.1, runs.len() as int);
    lemma_shift_ranges_append(excluded, taken, by);
    lemma_single_moves(whole, part, by, runs, double.1, 0, excluded + taken);
    let single = single_pass(part, runs, double.1, 0, excluded + taken);
    lemma_shift_append(triple.0 + double.0, single, by);
    lemma_shift_append(triple.0, double.0, by);
}

proof fn lemma_marked_spans_move(kind: SpanKind, ranges: Seq<(int, int)>, by: int)
    ensures
        marked_spans(kind, shift_ranges(ranges, by)) == shift_spans(marked_spans(kind, ranges), by),
    decreases ranges.len(),
{
    let moved = shift_ranges(ranges, by);
    if ranges.len() == 0 {
        assert(shift_spans(marked_spans(kind, ranges), by) =~= Seq::<SpanView>::empty());
    } else {
        lemma_marked_spans_move(kind, ranges.drop_last(), by);
        assert(moved.drop_last() =~= shift_ranges(ranges.drop_last(), by));
        let last = ranges.last();
        assert(moved.last() == shift_range(last, by));
        let before = marked_spans(kind, ranges.drop_last());
        assert(shift_span(marked_span(kind, last), by) =~= marked_span(
            kind,
            shift_range(last, by),
        ));
        assert(shift_spans(before.push(marked_span(kind, last)), by) =~= shift_spans(
            before,
            by,
        ).push(shift_span(marked_span(kind, last), by)));
    }
}

pub proof fn lemma_inline_moves(whole: Seq<char>, part: Seq<char>, by: int, from: int, end: int)
    requires
        embeds(whole, part, by),
        0 <= from,
        end <= part.len(),
    ensures
        inline_spans(whole, by + from, by + end) == shift_spans(inline_spans(part, from, end), by),
{
    let none = Seq::<(int, int)>::empty();
    assert(shift_ranges(none, by) =~= none);
    lemma_marked_ranges_move(whole, part, by, from, end, seq!['`'], none);
    let codes = marked_ranges(part, from, end, seq!['`'], none);
    let moved_codes = shift_ranges(codes, by);
    lemma_links_move(whole, part, by, from, end, codes);
    let links = link_spans(part, from, end, codes);
    let moved_links = shift_spans(links, by);
    let full = Seq::new(links.len(), |i: int| full_range(links[i]));
    assert(shift_ranges(full, by) =~= Seq::new(
        moved_links.len(),
        |i: int| full_range(moved_links[i]),
    ));
    let excluded = codes + full;
    lemma_shift_ranges_append(codes, full, by);
    lemma_emphasis_moves(whole, part, by, from, end, excluded);
    lemma_marked_ranges_move(whole, part, by, from, end, seq!['~', '~'], excluded);
    lemma_marked_ranges_move(whole, part, by, from, end, seq!['=', '='], excluded);
    let struck = marked_ranges(part, from, end, seq!['~', '~'], excluded);
    let bright = marked_ranges(part, from, end, seq!['=', '='], excluded);
    lemma_marked_spans_move(SpanKind::Strikethrough, struck, by);
    lemma_marked_spans_move(SpanKind::Highlight, bright, by);
    let code_spans = Seq::new(codes.len(), |i: int| code_span(codes[i]));
    assert forall|i: int| 0 <= i < codes.len() implies shift_span(#[trigger] code_spans[i], by)
        == code_span(moved_codes[i]) by {
        assert(shift_span(code_span(codes[i]), by) =~= code_span(moved_codes[i]));
    }
    assert(shift_spans(code_spans, by) =~= Seq::new(
        moved_codes.len(),
        |i: int| code_span(moved_codes[i]),
    ));
    let emphasis = emphasis_spans(part, from, end, excluded);
    let one = code_spans + links;
    let two = one + emphasis;
    let three = two + marked_spans(SpanKind::Strikethrough, struck);
    lemma_shift_append(code_spans, links, by);
    lemma_shift_append(one, emphasis, by);
    lemma_shift_append(two, marked_spans(SpanKind::Strikethrough, struck), by);
    lemma_shift_append(three, marked_spans(SpanKind::Highlight, bright), by);
}

proof fn lemma_digits_move(whole: Seq<char>, part: Seq<char>, by: int, at: int, end: int)
    requires
        embeds(whole, part, by),
        0 <= at,
        end <= part.len(),
    ensures
        digits_from(whole, by + at, by + end) == digits_from(part, at, end),
        0 <= digits_from(part, at, end),
    decreases end - at,
{
    if at < end {
        assert(part[at] == whole[by + at]);
        lemma_digits_move(whole, part, by, at + 1, end);
    }
}

proof fn lemma_prefix_moves(
    whole: Seq<char>,
    part: Seq<char>,
    by: int,
    at: int,
    end: int,
    prefix: Seq<char>,
)
    requires
        embeds(whole, part, by),
        0 <= at,
        end <= part.len(),
    ensures
        prefix_at(whole, by + at, by + end, prefix) == prefix_at(part, at, end, prefix),
{
    if at + prefix.len() <= end {
        lemma_stands(whole, part, by, prefix, at);
    }
}

proof fn lemma_block_moves(whole: Seq<char>, part: Seq<char>, by: int, from: int, end: int)
    requires
        embeds(whole, part, by),
        0 <= from <= end <= part.len(),
    ensures
        block_of(whole, by + from, by + end) == (match block_of(part, from, end) {
            Some((kind, prefix_end)) => Some((kind, by + prefix_end)),
            None => None,
        }),
        block_of(part, from, end) matches Some((_, prefix_end)) ==> 0 <= prefix_end,
{
    let line = part.subrange(from, end);
    assert(whole.subrange(by + from, by + end) =~= line);
    crate::text::lemma_skip_space_bounds(line, 0);
    let at = from + skip_space(line, 0);
    crate::text::lemma_run_from(line, '#', at - from);
    let hashes = run_from(line, '#', at - from);
    lemma_digits_move(whole, part, by, at, end);
    let digits = digits_from(part, at, end);
    lemma_prefix_moves(whole, part, by, at + hashes, end, seq![' ']);
    lemma_prefix_moves(whole, part, by, at, end, seq!['>', ' ']);
    lemma_prefix_moves(whole, part, by, at, end, seq!['-', ' ', '[', ' ', ']', ' ']);
    lemma_prefix_moves(whole, part, by, at, end, seq!['-', ' ', '[', 'x', ']', ' ']);
    lemma_prefix_moves(whole, part, by, at, end, seq!['-', ' ', '[', 'X', ']', ' ']);
    lemma_prefix_moves(whole, part, by, at, end, seq!['-', ' ']);
    lemma_prefix_moves(whole, part, by, at, end, seq!['*', ' ']);
    lemma_prefix_moves(whole, part, by, at + digits, end, seq!['.', ' ']);
}

/// The spans of a line depend on the line alone.
proof fn lemma_line_moves(whole: Seq<char>, part: Seq<char>, by: int, from: int, end: int)
    requires
        embeds(whole, part, by),
        0 <= from <= end <= part.len(),
    ensures
        line_spans(whole, by + from, by + end) == shift_spans(line_spans(part, from, end), by),
{
    assert(whole.subrange(by + from, by + end) =~= part.subrange(from, end));
    lemma_block_moves(whole, part, by, from, end);
    lemma_inline_moves(whole, part, by, from, end);
    let divider = SpanView {
        kind: SpanKind::Divider,
        markers: seq![(from, end)],
        content: (end, end),
    };
    lemma_shift_one(divider, by);
    assert(shift_ranges(seq![(from, end)], by) =~= seq![(by + from, by + end)]);
    if let Some((kind, prefix_end)) = block_of(part, from, end) {
        let span = SpanView { kind, markers: seq![(from, prefix_end)], content: (prefix_end, end) };
        lemma_shift_one(span, by);
        assert(shift_ranges(seq![(from, prefix_end)], by) =~= seq![
            (by + from, by + prefix_end),
        ]);
        lemma_inline_moves(whole, part, by, prefix_end, end);
        lemma_shift_append(seq![span], inline_spans(part, prefix_end, end), by);
    }
}

/// The last lines of a text have the spans that they have alone.
proof fn lemma_back_moves(whole: Seq<char>, part: Seq<char>, by: int, from: int)
    requires
        embeds(whole, part, by),
        by + part.len() == whole.len(),
        0 <= from <= part.len(),
    ensures
        spans_from(whole, by + from) == shift_spans(spans_from(part, from), by),
    decreases part.len() - from,
{
    lemma_back_end(whole, part, by, from);
    lemma_line_bounds(part, from);
    let end = line_end(part, from);
    lemma_line_moves(whole, part, by, from, end);
    if end < part.len() {
        lemma_back_moves(whole, part, by, end + 1);
        lemma_shift_append(line_spans(part, from, end), spans_from(part, end + 1), by);
    }
}

proof fn lemma_back_end(whole: Seq<char>, part: Seq<char>, by: int, at: int)
    requires
        embeds(whole, part, by),
        by + part.len() == whole.len(),
        0 <= at <= part.len(),
    ensures
        line_end(whole, by + at) == by + line_end(part, at),
    decreases part.len() - at,
{
    if at < part.len() {
        assert(part[at] == whole[by + at]);
        lemma_back_end(whole, part, by, at + 1);
    }
}

proof fn lemma_front_end(whole: Seq<char>, part: Seq<char>, at: int)
    requires
        embeds(whole, part, 0),
        part.len() < whole.len(),
        whole[part.len() as int] == '\n',
        0 <= at <= part.len(),
    ensures
        line_end(whole, at) == line_end(part, at),
    decreases part.len() - at,
{
    if at < part.len() {
        assert(part[at] == whole[0 + at]);
        lemma_front_end(whole, part, at + 1);
    }
}

/// The first lines of a text have the spans that they have alone.
proof fn lemma_front_stays(whole: Seq<char>, part: Seq<char>, from: int)
    requires
        embeds(whole, part, 0),
        part.len() < whole.len(),
        whole[part.len() as int] == '\n',
        0 <= from <= part.len(),
    ensures
        spans_from(whole, from) == spans_from(part, from) + spans_from(
            whole,
            part.len() as int + 1,
        ),
    decreases part.len() - from,
{
    lemma_front_end(whole, part, from);
    lemma_line_bounds(part, from);
    let end = line_end(part, from);
    lemma_line_moves(whole, part, 0, from, end);
    let here = line_spans(part, from, end);
    assert forall|i: int| 0 <= i < here.len() implies shift_span(#[trigger] here[i], 0)
        == here[i] by {
        assert(shift_span(here[i], 0) =~= here[i]);
    }
    assert(shift_spans(here, 0) =~= here);
    let behind = spans_from(whole, part.len() as int + 1);
    if end < part.len() {
        lemma_front_stays(whole, part, end + 1);
        assert(here + (spans_from(part, end + 1) + behind) =~= (here + spans_from(part, end + 1))
            + behind);
    }
}

/// Lines are styled one by one: the spans of two texts with a line feed between
/// them are those of the first and then those of the second, which stand so many
/// characters further on, and so many bytes, as the first text and the line feed
/// take.
pub proof fn law_lines_are_styled_apart(first: Seq<char>, second: Seq<char>)
    ensures
        spans_of(first + seq!['\n'] + second) == spans_of(first) + shift_spans(
            spans_of(second),
            first.len() as int + 1,
        ),
        forall|at: int|
            0 <= at <= first.len() ==> byte_len((first + seq!['\n'] + second).take(at)) == byte_len(
                #[trigger] first.take(at),
            ),
        forall|at: int|
            0 <= at <= second.len() ==> byte_len(
                (first + seq!['\n'] + second).take(first.len() + 1 + at),
            ) == byte_len(first) + 1 + byte_len(#[trigger] second.take(at)),
{
    let whole = first + seq!['\n'] + second;
    let by = first.len() as int + 1;
    assert(embeds(whole, first, 0));
    assert(whole[by - 1] == '\n');
    assert(embeds(whole, second, by));
    lemma_front_stays(whole, first, 0);
    lemma_back_moves(whole, second, by, 0);
    let head = first.push('\n');
    crate::text::lemma_byte_len_push(first, '\n');
    assert(crate::text::char_width('\n') == 1);
    assert forall|at: int| 0 <= at <= first.len() implies byte_len(whole.take(at)) == byte_len(
        #[trigger] first.take(at),
    ) by {
        assert(whole.take(at) =~= first.take(at));
    }
    assert forall|at: int| 0 <= at <= second.len() implies byte_len(whole.take(by + at))
        == byte_len(first) + 1 + byte_len(#[trigger] second.take(at)) by {
        lemma_encode_concat(head, second.take(at));
        assert(whole.take(by + at) =~= head + second.take(at));
    }
}

} // verus!
