//! Which parts of a Markdown text a live preview styles, and which of them are
//! marker punctuation. The text is only looked at: what is not recognised gets
//! no span.

use core::ops::Range;
use vstd::prelude::*;

use crate::text::{
    after_space, byte_len, chars_of, count_from, end_of_line, lemma_byte_len_monotone,
    lemma_byte_len_push, line_end, matches_at, run_from, skip_space, stands_at, trim_bounds,
    trimmed, width_of,
};

verus! {

#[derive(Clone, Copy, Debug, PartialEq, Eq, Structural)]
pub enum SpanKind {
    Heading1,
    Heading2,
    Heading3,
    Bold,
    Italic,
    Strikethrough,
    Highlight,
    InlineCode,
    Quote,
    BulletItem,
    NumberedItem,
    ChecklistItem { checked: bool },
    Link,
    Divider,
}

/// A styled part of a text. The ranges are in bytes.
#[derive(Debug, PartialEq, Eq)]
pub struct Span {
    pub kind: SpanKind,
    /// The marker punctuation of the span.
    pub marker_ranges: Vec<Range<usize>>,
    /// What the style applies to.
    pub content_range: Range<usize>,
}

/// A styled part of a text. The ranges are in characters, each as its start and
/// its end.
#[verifier::ext_equal]
pub struct SpanView {
    pub kind: SpanKind,
    pub markers: Seq<(int, int)>,
    pub content: (int, int),
}

/// Whether the span and all of its markers lie between two positions.
pub open spec fn span_within(span: SpanView, from: int, to: int) -> bool {
    &&& from <= span.content.0 <= span.content.1 <= to
    &&& forall|i: int|
        0 <= i < span.markers.len() ==> from <= (#[trigger] span.markers[i]).0 <= span.markers[i].1
            <= to
}

/// Whether all of the spans lie between two positions.
pub open spec fn spans_within(spans: Seq<SpanView>, from: int, to: int) -> bool {
    forall|i: int| 0 <= i < spans.len() ==> span_within(#[trigger] spans[i], from, to)
}

// What each construct is.

/// Whether a backslash stands before a position.
pub open spec fn escaped(text: Seq<char>, at: int) -> bool {
    at > 0 && text[at - 1] == '\\'
}

/// Whether a position lies in one of the ranges.
pub open spec fn excluded_at(ranges: Seq<(int, int)>, at: int) -> bool {
    exists|i: int| 0 <= i < ranges.len() && (#[trigger] ranges[i]).0 <= at < ranges[i].1
}

/// The first place from `from` on where a mark stands that is neither escaped
/// nor starts in an excluded range, and that ends by `end`.
pub open spec fn next_mark(
    text: Seq<char>,
    from: int,
    end: int,
    mark: Seq<char>,
    excluded: Seq<(int, int)>,
) -> Option<int>
    decreases end - from,
{
    if from >= end || from + mark.len() > end {
        None
    } else if stands_at(text, mark, from) && !excluded_at(excluded, from) && !escaped(text, from) {
        Some(from)
    } else {
        next_mark(text, from + 1, end, mark, excluded)
    }
}

/// The ranges from one mark to the next, markers and all, from left to right
/// and without overlap.
pub open spec fn marked_ranges(
    text: Seq<char>,
    from: int,
    end: int,
    mark: Seq<char>,
    excluded: Seq<(int, int)>,
) -> Seq<(int, int)>
    decreases end - from,
{
    match next_mark(text, from, end, mark, excluded) {
        Some(open) => match next_mark(text, open + mark.len(), end, mark, excluded) {
            Some(close) => if from < close + mark.len() <= end {
                seq![(open, close + mark.len())] + marked_ranges(
                    text,
                    close + mark.len(),
                    end,
                    mark,
                    excluded,
                )
            } else {
                seq![]
            },
            None => seq![],
        },
        None => seq![],
    }
}

/// The first place of a character from `from` up to `end` that is not excluded.
pub open spec fn next_char(
    text: Seq<char>,
    from: int,
    end: int,
    character: char,
    excluded: Seq<(int, int)>,
) -> Option<int>
    decreases end - from,
{
    if from >= end {
        None
    } else if text[from] == character && !excluded_at(excluded, from) {
        Some(from)
    } else {
        next_char(text, from + 1, end, character, excluded)
    }
}

/// A link with its brackets and its target.
pub open spec fn link_span(bracket: int, close: int, paren: int) -> SpanView {
    SpanView {
        kind: SpanKind::Link,
        markers: seq![(bracket, bracket + 1), (close, paren + 1)],
        content: (bracket + 1, close),
    }
}

/// The links of a line: `[text](target)` with a text that is not empty and a
/// first bracket that is not escaped. No bracket and no parenthesis of a link is
/// excluded: what stands in code is no mark.
pub open spec fn link_spans(text: Seq<char>, from: int, end: int, excluded: Seq<(int, int)>) -> Seq<
    SpanView,
>
    decreases end - from,
{
    match next_char(text, from, end, '[', excluded) {
        None => seq![],
        Some(bracket) => if !(from <= bracket < end) {
            seq![]
        } else if escaped(text, bracket) {
            link_spans(text, bracket + 1, end, excluded)
        } else {
            match next_char(text, bracket + 1, end, ']', excluded) {
                None => seq![],
                Some(close) => if !(close + 1 < end && text[close + 1] == '(' && !excluded_at(
                    excluded,
                    close + 1,
                )) {
                    link_spans(text, bracket + 1, end, excluded)
                } else {
                    match next_char(text, close + 2, end, ')', excluded) {
                        None => seq![],
                        Some(paren) => if !(from <= paren < end) {
                            seq![]
                        } else {
                            (if bracket + 1 < close {
                                seq![link_span(bracket, close, paren)]
                            } else {
                                seq![]
                            }) + link_spans(text, paren + 1, end, excluded)
                        },
                    }
                },
            }
        },
    }
}

/// Where a run of stars that starts at `from` ends.
pub open spec fn star_end(text: Seq<char>, from: int, end: int, excluded: Seq<(int, int)>) -> int
    decreases end - from,
{
    if from < end && text[from] == '*' && !excluded_at(excluded, from) {
        star_end(text, from + 1, end, excluded)
    } else {
        from
    }
}

/// The runs of stars that do not start escaped, none of them excluded.
pub open spec fn star_runs(text: Seq<char>, from: int, end: int, excluded: Seq<(int, int)>) -> Seq<
    (int, int),
>
    decreases end - from,
{
    if from >= end {
        seq![]
    } else if text[from] == '*' && !excluded_at(excluded, from) && !escaped(text, from) {
        let to = star_end(text, from, end, excluded);
        if !(from < to <= end) {
            seq![]
        } else {
            seq![(from, to)] + star_runs(text, to, end, excluded)
        }
    } else {
        star_runs(text, from + 1, end, excluded)
    }
}

/// The length of a run of stars, where all from three on count as three.
pub open spec fn star_count(run: (int, int)) -> int {
    if run.1 - run.0 > 3 {
        3
    } else {
        run.1 - run.0
    }
}

/// The first run after `at` that is left and has a length.
pub open spec fn partner(runs: Seq<(int, int)>, left: Seq<bool>, at: int, count: int) -> Option<int>
    decreases runs.len() - at,
{
    if at >= runs.len() {
        None
    } else if left[at] && star_count(runs[at]) == count {
        Some(at)
    } else {
        partner(runs, left, at + 1, count)
    }
}

/// A span between two markers.
pub open spec fn between(kind: SpanKind, open: (int, int), close: (int, int)) -> SpanView {
    SpanView { kind, markers: seq![open, close], content: (open.1, close.0) }
}

/// What three stars on both sides give: bold, which has the markers, and italic.
pub open spec fn bold_italic(open: (int, int), close: (int, int)) -> Seq<SpanView> {
    seq![
        between(SpanKind::Bold, open, close),
        SpanView { kind: SpanKind::Italic, markers: seq![], content: (open.1, close.0) },
    ]
}

/// The runs of a length.
pub open spec fn runs_of(runs: Seq<(int, int)>, count: int) -> Seq<(int, int)>
    decreases runs.len(),
{
    if runs.len() == 0 {
        seq![]
    } else if star_count(runs.last()) == count {
        runs_of(runs.drop_last(), count).push(runs.last())
    } else {
        runs_of(runs.drop_last(), count)
    }
}

/// The spans between the first and the second run, the third and the fourth,
/// and so on.
pub open spec fn paired_spans(kind: SpanKind, runs: Seq<(int, int)>, at: int) -> Seq<SpanView>
    decreases runs.len() - at,
{
    if at + 1 >= runs.len() {
        seq![]
    } else {
        (if runs[at].1 < runs[at + 1].0 {
            seq![between(kind, runs[at], runs[at + 1])]
        } else {
            seq![]
        }) + paired_spans(kind, runs, at + 2)
    }
}

/// The spans that are nested in another: runs of a length, two by two.
pub open spec fn nested_spans(
    text: Seq<char>,
    content: (int, int),
    excluded: Seq<(int, int)>,
    kind: SpanKind,
    count: int,
) -> Seq<SpanView> {
    paired_spans(kind, runs_of(star_runs(text, content.0, content.1, excluded), count), 0)
}

/// The runs that are left once those that start within a range are taken.
pub open spec fn without_inside(
    runs: Seq<(int, int)>,
    left: Seq<bool>,
    content: (int, int),
) -> Seq<bool> {
    Seq::new(
        left.len(),
        |k: int| left[k] && !(content.0 <= runs[k].0 < content.1),
    )
}

/// The first pass: runs of three stars. The spans, and the runs that are left.
pub open spec fn triple_pass(runs: Seq<(int, int)>, left: Seq<bool>, at: int) -> (
    Seq<SpanView>,
    Seq<bool>,
)
    decreases runs.len() - at,
{
    if at >= runs.len() {
        (seq![], left)
    } else {
        match partner(runs, left, at + 1, 3) {
            Some(other) if left[at] && star_count(runs[at]) == 3 && runs[at].1 < runs[other].0 => {
                let rest = triple_pass(
                    runs,
                    left.update(at, false).update(other, false),
                    at + 1,
                );
                (bold_italic(runs[at], runs[other]) + rest.0, rest.1)
            },
            _ => triple_pass(runs, left, at + 1),
        }
    }
}

/// The second pass: runs of two stars, with italic nested between them.
pub open spec fn double_pass(
    text: Seq<char>,
    runs: Seq<(int, int)>,
    left: Seq<bool>,
    at: int,
    excluded: Seq<(int, int)>,
) -> (Seq<SpanView>, Seq<bool>)
    decreases runs.len() - at,
{
    if at >= runs.len() {
        (seq![], left)
    } else {
        match partner(runs, left, at + 1, 2) {
            Some(other) if left[at] && star_count(runs[at]) == 2 && runs[at].1 < runs[other].0 => {
                let content = (runs[at].1, runs[other].0);
                let nested = nested_spans(
                    text,
                    content,
                    excluded + seq![runs[at], runs[other]],
                    SpanKind::Italic,
                    1,
                );
                let rest = double_pass(
                    text,
                    runs,
                    without_inside(runs, left.update(at, false).update(other, false), content),
                    at + 1,
                    excluded,
                );
                (seq![between(SpanKind::Bold, runs[at], runs[other])] + nested + rest.0, rest.1)
            },
            _ => double_pass(text, runs, left, at + 1, excluded),
        }
    }
}

/// The runs that are not left.
pub open spec fn taken_runs(runs: Seq<(int, int)>, left: Seq<bool>, upto: int) -> Seq<(int, int)>
    decreases upto,
{
    if upto <= 0 {
        seq![]
    } else if left[upto - 1] {
        taken_runs(runs, left, upto - 1)
    } else {
        taken_runs(runs, left, upto - 1).push(runs[upto - 1])
    }
}

/// The third pass: single stars, with bold nested between them.
pub open spec fn single_pass(
    text: Seq<char>,
    runs: Seq<(int, int)>,
    left: Seq<bool>,
    at: int,
    excluded: Seq<(int, int)>,
) -> Seq<SpanView>
    decreases runs.len() - at,
{
    if at >= runs.len() {
        seq![]
    } else {
        match partner(runs, left, at + 1, 1) {
            Some(other) if left[at] && star_count(runs[at]) == 1 && runs[at].1 < runs[other].0 => {
                let content = (runs[at].1, runs[other].0);
                let nested = nested_spans(
                    text,
                    content,
                    excluded + seq![runs[at], runs[other]],
                    SpanKind::Bold,
                    2,
                );
                seq![between(SpanKind::Italic, runs[at], runs[other])] + nested + single_pass(
                    text,
                    runs,
                    left.update(at, false).update(other, false),
                    at + 1,
                    excluded,
                )
            },
            _ => single_pass(text, runs, left, at + 1, excluded),
        }
    }
}

/// Bold and italic: three stars first, then two, then one.
pub open spec fn emphasis_spans(
    text: Seq<char>,
    from: int,
    end: int,
    excluded: Seq<(int, int)>,
) -> Seq<SpanView> {
    let runs = star_runs(text, from, end, excluded);
    let all = Seq::new(runs.len(), |k: int| true);
    let triple = triple_pass(runs, all, 0);
    let double = double_pass(text, runs, triple.1, 0, excluded);
    let taken = excluded + taken_runs(runs, double.1, runs.len() as int);
    triple.0 + double.0 + single_pass(text, runs, double.1, 0, taken)
}

/// The span of a range between two marks of two characters.
pub open spec fn marked_span(kind: SpanKind, range: (int, int)) -> SpanView {
    SpanView {
        kind,
        markers: seq![(range.0, range.0 + 2), (range.1 - 2, range.1)],
        content: (range.0 + 2, range.1 - 2),
    }
}

/// The spans of ranges between marks of two characters, without the empty ones.
pub open spec fn marked_spans(kind: SpanKind, ranges: Seq<(int, int)>) -> Seq<SpanView>
    decreases ranges.len(),
{
    if ranges.len() == 0 {
        seq![]
    } else {
        let last = ranges.last();
        let before = marked_spans(kind, ranges.drop_last());
        if last.0 + 2 < last.1 - 2 {
            before.push(marked_span(kind, last))
        } else {
            before
        }
    }
}

/// The span of a range between two backticks.
pub open spec fn code_span(range: (int, int)) -> SpanView {
    SpanView {
        kind: SpanKind::InlineCode,
        markers: seq![(range.0, range.0 + 1), (range.1 - 1, range.1)],
        content: (range.0 + 1, range.1 - 1),
    }
}

/// A link from its first bracket to its last parenthesis.
pub open spec fn full_range(span: SpanView) -> (int, int) {
    (span.markers[0].0, span.markers[1].1)
}

/// The constructs within a line. Code comes first and hides all the others in
/// it; a link hides emphasis.
pub open spec fn inline_spans(text: Seq<char>, from: int, end: int) -> Seq<SpanView> {
    let none = Seq::<(int, int)>::empty();
    let codes = marked_ranges(text, from, end, seq!['`'], none);
    let links = link_spans(text, from, end, codes);
    let excluded = codes + Seq::new(links.len(), |i: int| full_range(links[i]));
    Seq::new(codes.len(), |i: int| code_span(codes[i])) + links + emphasis_spans(
        text,
        from,
        end,
        excluded,
    ) + marked_spans(
        SpanKind::Strikethrough,
        marked_ranges(text, from, end, seq!['~', '~'], excluded),
    ) + marked_spans(
        SpanKind::Highlight,
        marked_ranges(text, from, end, seq!['=', '='], excluded),
    )
}

/// A line of three or more hyphens.
pub open spec fn is_divider(line: Seq<char>) -> bool {
    let inner = trimmed(line);
    inner.len() >= 3 && forall|i: int| 0 <= i < inner.len() ==> inner[i] == '-'
}

/// How many digits stand in a row from `at` up to `end`.
pub open spec fn digits_from(text: Seq<char>, at: int, end: int) -> int
    decreases end - at,
{
    if at < end && '0' <= text[at] <= '9' {
        1 + digits_from(text, at + 1, end)
    } else {
        0
    }
}

/// Whether a prefix stands at a position of a line that ends at `end`.
pub open spec fn prefix_at(text: Seq<char>, at: int, end: int, prefix: Seq<char>) -> bool {
    at + prefix.len() <= end && stands_at(text, prefix, at)
}

/// The kind of the block that a line is, and where its prefix ends.
pub open spec fn block_of(text: Seq<char>, from: int, end: int) -> Option<(SpanKind, int)> {
    let at = from + skip_space(text.subrange(from, end), 0);
    let hashes = run_from(text.subrange(from, end), '#', at - from);
    let digits = digits_from(text, at, end);
    if 1 <= hashes <= 3 && prefix_at(text, at + hashes, end, seq![' ']) {
        Some(
            (
                if hashes == 1 {
                    SpanKind::Heading1
                } else if hashes == 2 {
                    SpanKind::Heading2
                } else {
                    SpanKind::Heading3
                },
                at + hashes + 1,
            ),
        )
    } else if prefix_at(text, at, end, seq!['>', ' ']) {
        Some((SpanKind::Quote, at + 2))
    } else if prefix_at(text, at, end, seq!['-', ' ', '[', ' ', ']', ' ']) {
        Some((SpanKind::ChecklistItem { checked: false }, at + 6))
    } else if prefix_at(text, at, end, seq!['-', ' ', '[', 'x', ']', ' ']) || prefix_at(
        text,
        at,
        end,
        seq!['-', ' ', '[', 'X', ']', ' '],
    ) {
        Some((SpanKind::ChecklistItem { checked: true }, at + 6))
    } else if prefix_at(text, at, end, seq!['-', ' ']) || prefix_at(text, at, end, seq!['*', ' ']) {
        Some((SpanKind::BulletItem, at + 2))
    } else if digits > 0 && prefix_at(text, at + digits, end, seq!['.', ' ']) {
        Some((SpanKind::NumberedItem, at + digits + 2))
    } else {
        None
    }
}

/// The spans of a line.
pub open spec fn line_spans(text: Seq<char>, from: int, end: int) -> Seq<SpanView> {
    if is_divider(text.subrange(from, end)) {
        seq![
            SpanView { kind: SpanKind::Divider, markers: seq![(from, end)], content: (end, end) },
        ]
    } else {
        match block_of(text, from, end) {
            Some((kind, prefix_end)) => seq![
                SpanView { kind, markers: seq![(from, prefix_end)], content: (prefix_end, end) },
            ] + inline_spans(text, prefix_end, end),
            None => inline_spans(text, from, end),
        }
    }
}

/// The spans of the lines from `from` on.
pub open spec fn spans_from(text: Seq<char>, from: int) -> Seq<SpanView>
    decreases text.len() - from,
{
    let end = line_end(text, from);
    if from <= end < text.len() {
        line_spans(text, from, end) + spans_from(text, end + 1)
    } else {
        line_spans(text, from, end)
    }
}

/// The spans of a text, line by line.
pub open spec fn spans_of(text: Seq<char>) -> Seq<SpanView> {
    spans_from(text, 0)
}

// Finding the constructs.

/// A span with ranges in characters. At most two of its markers are there.
#[derive(Clone, Copy)]
struct CharSpan {
    kind: SpanKind,
    markers: usize,
    first: (usize, usize),
    second: (usize, usize),
    content: (usize, usize),
}

spec fn range_view(range: (usize, usize)) -> (int, int) {
    (range.0 as int, range.1 as int)
}

spec fn ranges_view(ranges: Seq<(usize, usize)>) -> Seq<(int, int)> {
    Seq::new(ranges.len(), |i: int| range_view(ranges[i]))
}

impl CharSpan {
    spec fn shown(self) -> SpanView {
        SpanView {
            kind: self.kind,
            markers: if self.markers == 0 {
                seq![]
            } else if self.markers == 1 {
                seq![range_view(self.first)]
            } else {
                seq![range_view(self.first), range_view(self.second)]
            },
            content: range_view(self.content),
        }
    }
}

spec fn shown_all(spans: Seq<CharSpan>) -> Seq<SpanView> {
    Seq::new(spans.len(), |i: int| spans[i].shown())
}

proof fn lemma_shown_push(spans: Seq<CharSpan>, span: CharSpan)
    ensures
        shown_all(spans.push(span)) == shown_all(spans).push(span.shown()),
{
    assert(shown_all(spans.push(span)) =~= shown_all(spans).push(span.shown()));
}

proof fn lemma_shown_append(left: Seq<CharSpan>, right: Seq<CharSpan>)
    ensures
        shown_all(left + right) == shown_all(left) + shown_all(right),
{
    assert(shown_all(left + right) =~= shown_all(left) + shown_all(right));
}

proof fn lemma_ranges_push(ranges: Seq<(usize, usize)>, range: (usize, usize))
    ensures
        ranges_view(ranges.push(range)) == ranges_view(ranges).push(range_view(range)),
{
    assert(ranges_view(ranges.push(range)) =~= ranges_view(ranges).push(range_view(range)));
}

fn is_excluded(ranges: &[(usize, usize)], at: usize) -> (inside: bool)
    ensures
        inside == excluded_at(ranges_view(ranges@), at as int),
{
    let ghost all = ranges_view(ranges@);
    let mut index: usize = 0;
    while index < ranges.len()
        invariant
            index <= ranges@.len(),
            all == ranges_view(ranges@),
            forall|i: int| 0 <= i < index ==> !((#[trigger] all[i]).0 <= at < all[i].1),
        decreases ranges@.len() - index,
    {
        let range = ranges[index];
        proof {
            assert(all[index as int] == range_view(range));
        }
        if range.0 <= at && at < range.1 {
            return true;
        }
        index += 1;
    }
    false
}

fn is_escaped(chars: &[char], at: usize) -> (is: bool)
    requires
        at <= chars@.len(),
    ensures
        is == escaped(chars@, at as int),
{
    at > 0 && chars[at - 1] == '\\'
}

fn find_mark(
    chars: &[char],
    from: usize,
    end: usize,
    mark: &[char],
    excluded: &[(usize, usize)],
) -> (found: Option<usize>)
    requires
        end <= chars@.len(),
        mark@.len() >= 1,
    ensures
        match found {
            Some(at) => next_mark(chars@, from as int, end as int, mark@, ranges_view(excluded@))
                == Some(at as int) && from <= at && at + mark@.len() <= end,
            None => next_mark(chars@, from as int, end as int, mark@, ranges_view(excluded@)) is None,
        },
{
    let mut at: usize = from;
    while at < end && mark.len() <= end - at
        invariant
            from <= at,
            end <= chars@.len(),
            mark@.len() >= 1,
            next_mark(chars@, at as int, end as int, mark@, ranges_view(excluded@)) == next_mark(
                chars@,
                from as int,
                end as int,
                mark@,
                ranges_view(excluded@),
            ),
        decreases end - at,
    {
        if matches_at(chars, mark, at) && !is_excluded(excluded, at) && !is_escaped(chars, at) {
            return Some(at);
        }
        at += 1;
    }
    None
}

fn find_marked(
    chars: &[char],
    from: usize,
    end: usize,
    mark: &[char],
    excluded: &[(usize, usize)],
) -> (ranges: Vec<(usize, usize)>)
    requires
        from <= end <= chars@.len(),
        mark@.len() >= 1,
    ensures
        ranges_view(ranges@) == marked_ranges(
            chars@,
            from as int,
            end as int,
            mark@,
            ranges_view(excluded@),
        ),
        forall|i: int|
            0 <= i < ranges@.len() ==> from <= (#[trigger] ranges@[i]).0 && ranges@[i].0 + 2
                * mark@.len() <= ranges@[i].1 <= end,
{
    let ghost hidden = ranges_view(excluded@);
    let ghost whole = marked_ranges(chars@, from as int, end as int, mark@, hidden);
    let mut ranges: Vec<(usize, usize)> = Vec::new();
    let mut cursor: usize = from;
    proof {
        assert(ranges_view(ranges@) + whole == whole);
    }
    loop
        invariant
            from <= cursor <= end <= chars@.len(),
            mark@.len() >= 1,
            hidden == ranges_view(excluded@),
            whole == marked_ranges(chars@, from as int, end as int, mark@, hidden),
            whole == ranges_view(ranges@) + marked_ranges(
                chars@,
                cursor as int,
                end as int,
                mark@,
                hidden,
            ),
            forall|i: int|
                0 <= i < ranges@.len() ==> from <= (#[trigger] ranges@[i]).0 && ranges@[i].0 + 2
                    * mark@.len() <= ranges@[i].1 <= end,
        decreases end - cursor,
    {
        let open: usize = match find_mark(chars, cursor, end, mark, excluded) {
            Some(open) => open,
            None => {
                return ranges;
            },
        };
        let close: usize = match find_mark(chars, open + mark.len(), end, mark, excluded) {
            Some(close) => close,
            None => {
                return ranges;
            },
        };
        let ghost done = ranges@;
        let next: usize = close + mark.len();
        ranges.push((open, next));
        proof {
            lemma_ranges_push(done, (open, next));
            let rest = marked_ranges(chars@, next as int, end as int, mark@, hidden);
            assert(marked_ranges(chars@, cursor as int, end as int, mark@, hidden) == seq![
                (open as int, next as int),
            ] + rest);
            assert(ranges_view(done) + (seq![(open as int, next as int)] + rest) =~= ranges_view(
                ranges@,
            ) + rest);
        }
        cursor = next;
    }
}

fn find_char(
    chars: &[char],
    from: usize,
    end: usize,
    character: char,
    excluded: &[(usize, usize)],
) -> (found: Option<usize>)
    requires
        end <= chars@.len(),
    ensures
        match found {
            Some(at) => next_char(
                chars@,
                from as int,
                end as int,
                character,
                ranges_view(excluded@),
            ) == Some(at as int) && from <= at < end,
            None => next_char(
                chars@,
                from as int,
                end as int,
                character,
                ranges_view(excluded@),
            ) is None,
        },
{
    let ghost hidden = ranges_view(excluded@);
    let mut at: usize = from;
    while at < end
        invariant
            from <= at,
            end <= chars@.len(),
            hidden == ranges_view(excluded@),
            next_char(chars@, at as int, end as int, character, hidden) == next_char(
                chars@,
                from as int,
                end as int,
                character,
                hidden,
            ),
        decreases end - at,
    {
        if chars[at] == character && !is_excluded(excluded, at) {
            return Some(at);
        }
        at += 1;
    }
    None
}

/// Whether the spans are shown as `expected` and lie between two positions.
spec fn found(spans: Seq<CharSpan>, expected: Seq<SpanView>, from: int, to: int) -> bool {
    shown_all(spans) == expected && spans_within(expected, from, to)
}

fn find_links(chars: &[char], from: usize, end: usize, excluded: &[(usize, usize)]) -> (spans: Vec<
    CharSpan,
>)
    requires
        from <= end <= chars@.len(),
    ensures
        found(
            spans@,
            link_spans(chars@, from as int, end as int, ranges_view(excluded@)),
            from as int,
            end as int,
        ),
        forall|i: int| 0 <= i < spans@.len() ==> (#[trigger] spans@[i]).markers == 2,
{
    let ghost hidden = ranges_view(excluded@);
    let ghost whole = link_spans(chars@, from as int, end as int, hidden);
    let mut spans: Vec<CharSpan> = Vec::new();
    let mut at: usize = from;
    proof {
        assert(shown_all(spans@) + whole == whole);
    }
    while at < end
        invariant
            from <= at <= end <= chars@.len(),
            hidden == ranges_view(excluded@),
            whole == link_spans(chars@, from as int, end as int, hidden),
            whole == shown_all(spans@) + link_spans(chars@, at as int, end as int, hidden),
            spans_within(shown_all(spans@), from as int, end as int),
            forall|i: int| 0 <= i < spans@.len() ==> (#[trigger] spans@[i]).markers == 2,
        ensures
            whole == shown_all(spans@),
        decreases end - at,
    {
        let bracket: usize = match find_char(chars, at, end, '[', excluded) {
            Some(bracket) => bracket,
            None => {
                break;
            },
        };
        if is_escaped(chars, bracket) {
            at = bracket + 1;
            continue;
        }
        let close: usize = match find_char(chars, bracket + 1, end, ']', excluded) {
            Some(close) => close,
            None => {
                break;
            },
        };
        if !(close + 1 < end && chars[close + 1] == '(' && !is_excluded(excluded, close + 1)) {
            at = bracket + 1;
            continue;
        }
        let paren: usize = match find_char(chars, close + 2, end, ')', excluded) {
            Some(paren) => paren,
            None => {
                break;
            },
        };
        let ghost done = spans@;
        let ghost rest = link_spans(chars@, paren + 1, end as int, hidden);
        if bracket + 1 < close {
            let span = CharSpan {
                kind: SpanKind::Link,
                markers: 2,
                first: (bracket, bracket + 1),
                second: (close, paren + 1),
                content: (bracket + 1, close),
            };
            spans.push(span);
            proof {
                lemma_shown_push(done, span);
                let shown = link_span(bracket as int, close as int, paren as int);
                assert(span.shown() =~= shown);
                assert(shown_all(done) + (seq![shown] + rest) =~= shown_all(spans@) + rest);
            }
        } else {
            proof {
                assert(shown_all(done) + (Seq::<SpanView>::empty() + rest) =~= shown_all(spans@)
                    + rest);
            }
        }
        at = paren + 1;
    }
    spans
}

fn find_star_runs(chars: &[char], from: usize, end: usize, excluded: &[(usize, usize)]) -> (runs: Vec<
    (usize, usize),
>)
    requires
        from <= end <= chars@.len(),
    ensures
        ranges_view(runs@) == star_runs(chars@, from as int, end as int, ranges_view(excluded@)),
        ordered(runs@, from as int, end as int),
{
    let ghost hidden = ranges_view(excluded@);
    let ghost whole = star_runs(chars@, from as int, end as int, hidden);
    let mut runs: Vec<(usize, usize)> = Vec::new();
    let mut at: usize = from;
    proof {
        assert(ranges_view(runs@) + whole == whole);
    }
    while at < end
        invariant
            from <= at <= end <= chars@.len(),
            hidden == ranges_view(excluded@),
            whole == star_runs(chars@, from as int, end as int, hidden),
            whole == ranges_view(runs@) + star_runs(chars@, at as int, end as int, hidden),
            ordered(runs@, from as int, at as int),
        decreases end - at,
    {
        if chars[at] == '*' && !is_excluded(excluded, at) && !is_escaped(chars, at) {
            let start: usize = at;
            let ghost done = runs@;
            while at < end && chars[at] == '*' && !is_excluded(excluded, at)
                invariant
                    start <= at <= end <= chars@.len(),
                    hidden == ranges_view(excluded@),
                    star_end(chars@, at as int, end as int, hidden) == star_end(
                        chars@,
                        start as int,
                        end as int,
                        hidden,
                    ),
                decreases end - at,
            {
                at += 1;
            }
            proof {
                assert(at == star_end(chars@, start as int, end as int, hidden));
                assert(star_end(chars@, start as int, end as int, hidden) == star_end(
                    chars@,
                    start + 1,
                    end as int,
                    hidden,
                ));
                lemma_star_end(chars@, start + 1, end as int, hidden);
            }
            runs.push((start, at));
            proof {
                lemma_ranges_push(done, (start, at));
                let rest = star_runs(chars@, at as int, end as int, hidden);
                assert(ranges_view(done) + (seq![(start as int, at as int)] + rest)
                    =~= ranges_view(runs@) + rest);
            }
        } else {
            at += 1;
        }
    }
    proof {
        assert(ranges_view(runs@) + Seq::<(int, int)>::empty() == ranges_view(runs@));
    }
    runs
}

proof fn lemma_star_end(text: Seq<char>, from: int, end: int, excluded: Seq<(int, int)>)
    requires
        from <= end,
    ensures
        from <= star_end(text, from, end, excluded) <= end,
    decreases end - from,
{
    if from < end && text[from] == '*' && !excluded_at(excluded, from) {
        lemma_star_end(text, from + 1, end, excluded);
    }
}

/// Runs from left to right between two positions, none of them empty.
spec fn ordered(runs: Seq<(usize, usize)>, from: int, to: int) -> bool {
    &&& forall|i: int|
        0 <= i < runs.len() ==> from <= (#[trigger] runs[i]).0 < runs[i].1 <= to
    &&& forall|i: int, j: int|
        0 <= i < j < runs.len() ==> (#[trigger] runs[i]).1 <= (#[trigger] runs[j]).0
}

fn count_stars(run: (usize, usize)) -> (count: usize)
    requires
        run.0 <= run.1,
    ensures
        count == star_count(range_view(run)),
{
    if run.1 - run.0 > 3 {
        3
    } else {
        run.1 - run.0
    }
}

fn between_runs(kind: SpanKind, open: (usize, usize), close: (usize, usize)) -> (span: CharSpan)
    ensures
        span.shown() == between(kind, range_view(open), range_view(close)),
{
    let span = CharSpan {
        kind,
        markers: 2,
        first: open,
        second: close,
        content: (open.1, close.0),
    };
    proof {
        assert(span.shown() =~= between(kind, range_view(open), range_view(close)));
    }
    span
}

fn select_runs(
    runs: &[(usize, usize)],
    count: usize,
    Ghost(from): Ghost<int>,
    Ghost(to): Ghost<int>,
) -> (chosen: Vec<(usize, usize)>)
    requires
        ordered(runs@, from, to),
    ensures
        ranges_view(chosen@) == runs_of(ranges_view(runs@), count as int),
        ordered(chosen@, from, to),
{
    let mut chosen: Vec<(usize, usize)> = Vec::new();
    let mut index: usize = 0;
    while index < runs.len()
        invariant
            index <= runs@.len(),
            ordered(runs@, from, to),
            ordered(chosen@, from, to),
            index < runs@.len() ==> forall|i: int| 0 <= i < chosen@.len() ==> (#[trigger] chosen@[i]).1 <= runs@[index as int].0,
            ranges_view(chosen@) == runs_of(ranges_view(runs@.take(index as int)), count as int),
        decreases runs@.len() - index,
    {
        let run = runs[index];
        let ghost done = chosen@;
        proof {
            let before = ranges_view(runs@.take(index as int));
            let after = ranges_view(runs@.take(index + 1));
            assert(after.drop_last() =~= before);
            assert(after.last() == range_view(run));
        }
        if count_stars(run) == count {
            chosen.push(run);
            proof {
                lemma_ranges_push(done, run);
            }
        }
        index += 1;
    }
    proof {
        assert(runs@.take(index as int) == runs@);
    }
    chosen
}

fn find_nested(
    chars: &[char],
    content: (usize, usize),
    excluded: &[(usize, usize)],
    kind: SpanKind,
    count: usize,
) -> (spans: Vec<CharSpan>)
    requires
        content.0 <= content.1 <= chars@.len(),
    ensures
        found(
            spans@,
            nested_spans(
                chars@,
                range_view(content),
                ranges_view(excluded@),
                kind,
                count as int,
            ),
            content.0 as int,
            content.1 as int,
        ),
{
    let all = find_star_runs(chars, content.0, content.1, excluded);
    let runs = select_runs(&all, count, Ghost(content.0 as int), Ghost(content.1 as int));
    let ghost chosen = ranges_view(runs@);
    let ghost whole = paired_spans(kind, chosen, 0);
    let mut spans: Vec<CharSpan> = Vec::new();
    let mut at: usize = 0;
    proof {
        assert(shown_all(spans@) + whole == whole);
    }
    while at < runs.len() && 1 < runs.len() - at
        invariant
            at <= runs@.len(),
            chosen == ranges_view(runs@),
            ordered(runs@, content.0 as int, content.1 as int),
            whole == paired_spans(kind, chosen, 0),
            whole == shown_all(spans@) + paired_spans(kind, chosen, at as int),
            spans_within(shown_all(spans@), content.0 as int, content.1 as int),
        decreases runs@.len() - at,
    {
        let open = runs[at];
        let close = runs[at + 1];
        let ghost done = spans@;
        let ghost rest = paired_spans(kind, chosen, at + 2);
        if open.1 < close.0 {
            let span = between_runs(kind, open, close);
            spans.push(span);
            proof {
                lemma_shown_push(done, span);
                assert(shown_all(done) + (seq![span.shown()] + rest) =~= shown_all(spans@) + rest);
            }
        } else {
            proof {
                assert(shown_all(done) + (Seq::<SpanView>::empty() + rest) =~= shown_all(spans@)
                    + rest);
            }
        }
        at += 2;
    }
    proof {
        assert(shown_all(spans@) + Seq::<SpanView>::empty() == shown_all(spans@));
    }
    spans
}

fn find_partner(runs: &[(usize, usize)], left: &[bool], from: usize, count: usize) -> (found: Option<usize>)
    requires
        left@.len() == runs@.len(),
        forall|i: int| 0 <= i < runs@.len() ==> (#[trigger] runs@[i]).0 <= runs@[i].1,
    ensures
        match found {
            Some(at) => partner(ranges_view(runs@), left@, from as int, count as int) == Some(
                at as int,
            ) && from <= at < runs@.len(),
            None => partner(ranges_view(runs@), left@, from as int, count as int) is None,
        },
{
    let ghost all = ranges_view(runs@);
    let mut at: usize = from;
    while at < runs.len()
        invariant
            from <= at,
            left@.len() == runs@.len(),
            forall|i: int| 0 <= i < runs@.len() ==> (#[trigger] runs@[i]).0 <= runs@[i].1,
            all == ranges_view(runs@),
            partner(all, left@, at as int, count as int) == partner(
                all,
                left@,
                from as int,
                count as int,
            ),
        decreases runs@.len() - at,
    {
        proof {
            assert(all[at as int] == range_view(runs@[at as int]));
        }
        if left[at] && count_stars(runs[at]) == count {
            return Some(at);
        }
        at += 1;
    }
    None
}

proof fn lemma_within_append(left: Seq<SpanView>, right: Seq<SpanView>, from: int, to: int)
    requires
        spans_within(left, from, to),
        spans_within(right, from, to),
    ensures
        spans_within(left + right, from, to),
{
    assert forall|i: int| 0 <= i < (left + right).len() implies span_within(
        #[trigger] (left + right)[i],
        from,
        to,
    ) by {
        if i < left.len() {
            assert((left + right)[i] == left[i]);
        } else {
            assert((left + right)[i] == right[i - left.len()]);
        }
    }
}

proof fn lemma_within_wider(spans: Seq<SpanView>, from: int, to: int, wide_from: int, wide_to: int)
    requires
        spans_within(spans, from, to),
        wide_from <= from,
        to <= wide_to,
    ensures
        spans_within(spans, wide_from, wide_to),
{
    assert forall|i: int| 0 <= i < spans.len() implies span_within(
        #[trigger] spans[i],
        wide_from,
        wide_to,
    ) by {
        assert(span_within(spans[i], from, to));
    }
}

fn run_triple_pass(
    runs: &[(usize, usize)],
    left: &mut Vec<bool>,
    Ghost(from): Ghost<int>,
    Ghost(to): Ghost<int>,
) -> (spans: Vec<CharSpan>)
    requires
        old(left)@.len() == runs@.len(),
        ordered(runs@, from, to),
    ensures
        final(left)@.len() == runs@.len(),
        final(left)@ == triple_pass(ranges_view(runs@), old(left)@, 0).1,
        found(spans@, triple_pass(ranges_view(runs@), old(left)@, 0).0, from, to),
{
    let ghost all = ranges_view(runs@);
    let ghost whole = triple_pass(all, left@, 0);
    let mut spans: Vec<CharSpan> = Vec::new();
    let mut at: usize = 0;
    proof {
        assert(shown_all(spans@) + whole.0 == whole.0);
    }
    while at < runs.len()
        invariant
            at <= runs@.len(),
            left@.len() == runs@.len(),
            all == ranges_view(runs@),
            ordered(runs@, from, to),
            whole == triple_pass(all, old(left)@, 0),
            whole.0 == shown_all(spans@) + triple_pass(all, left@, at as int).0,
            whole.1 == triple_pass(all, left@, at as int).1,
            spans_within(shown_all(spans@), from, to),
        decreases runs@.len() - at,
    {
        let run = runs[at];
        proof {
            assert(all[at as int] == range_view(run));
        }
        if left[at] && count_stars(run) == 3 {
            if let Some(other) = find_partner(runs, left.as_slice(), at + 1, 3) {
                let close = runs[other];
                proof {
                    assert(all[other as int] == range_view(close));
                }
                if run.1 < close.0 {
                    let ghost done = spans@;
                    let bold = between_runs(SpanKind::Bold, run, close);
                    let italic = CharSpan {
                        kind: SpanKind::Italic,
                        markers: 0,
                        first: (0, 0),
                        second: (0, 0),
                        content: (run.1, close.0),
                    };
                    spans.push(bold);
                    spans.push(italic);
                    let ghost rest = triple_pass(
                        all,
                        left@.update(at as int, false).update(other as int, false),
                        at + 1,
                    );
                    left.set(at, false);
                    left.set(other, false);
                    proof {
                        let pair = bold_italic(all[at as int], all[other as int]);
                        assert(italic.shown() =~= pair[1]);
                        lemma_shown_push(done, bold);
                        lemma_shown_push(done.push(bold), italic);
                        assert(shown_all(done) + (pair + rest.0) =~= shown_all(spans@) + rest.0);
                    }
                }
            }
        }
        at += 1;
    }
    proof {
        assert(shown_all(spans@) + Seq::<SpanView>::empty() == shown_all(spans@));
    }
    spans
}

fn copy_ranges(ranges: &[(usize, usize)]) -> (copy: Vec<(usize, usize)>)
    ensures
        copy@ == ranges@,
{
    let mut copy: Vec<(usize, usize)> = Vec::new();
    let mut index: usize = 0;
    while index < ranges.len()
        invariant
            index <= ranges@.len(),
            copy@ == ranges@.take(index as int),
        decreases ranges@.len() - index,
    {
        copy.push(ranges[index]);
        index += 1;
        proof {
            assert(ranges@.take(index as int) == ranges@.take(index - 1).push(ranges@[index - 1]));
        }
    }
    proof {
        assert(ranges@.take(index as int) == ranges@);
    }
    copy
}

/// The ranges with two more behind them.
fn with_two(ranges: &[(usize, usize)], one: (usize, usize), two: (usize, usize)) -> (more: Vec<
    (usize, usize),
>)
    ensures
        ranges_view(more@) == ranges_view(ranges@) + seq![range_view(one), range_view(two)],
{
    let mut more = copy_ranges(ranges);
    more.push(one);
    more.push(two);
    proof {
        assert(ranges_view(more@) =~= ranges_view(ranges@) + seq![range_view(one), range_view(two)]);
    }
    more
}

fn run_double_pass(
    chars: &[char],
    runs: &[(usize, usize)],
    left: &mut Vec<bool>,
    excluded: &[(usize, usize)],
    Ghost(from): Ghost<int>,
    Ghost(to): Ghost<int>,
) -> (spans: Vec<CharSpan>)
    requires
        old(left)@.len() == runs@.len(),
        ordered(runs@, from, to),
        to <= chars@.len(),
    ensures
        final(left)@.len() == runs@.len(),
        final(left)@ == double_pass(
            chars@,
            ranges_view(runs@),
            old(left)@,
            0,
            ranges_view(excluded@),
        ).1,
        found(
            spans@,
            double_pass(chars@, ranges_view(runs@), old(left)@, 0, ranges_view(excluded@)).0,
            from,
            to,
        ),
{
    let ghost all = ranges_view(runs@);
    let ghost hidden = ranges_view(excluded@);
    let ghost whole = double_pass(chars@, all, left@, 0, hidden);
    let mut spans: Vec<CharSpan> = Vec::new();
    let mut at: usize = 0;
    proof {
        assert(shown_all(spans@) + whole.0 == whole.0);
    }
    while at < runs.len()
        invariant
            at <= runs@.len(),
            left@.len() == runs@.len(),
            to <= chars@.len(),
            all == ranges_view(runs@),
            hidden == ranges_view(excluded@),
            ordered(runs@, from, to),
            whole == double_pass(chars@, all, old(left)@, 0, hidden),
            whole.0 == shown_all(spans@) + double_pass(chars@, all, left@, at as int, hidden).0,
            whole.1 == double_pass(chars@, all, left@, at as int, hidden).1,
            spans_within(shown_all(spans@), from, to),
        decreases runs@.len() - at,
    {
        let run = runs[at];
        proof {
            assert(all[at as int] == range_view(run));
        }
        if left[at] && count_stars(run) == 2 {
            if let Some(other) = find_partner(runs, left.as_slice(), at + 1, 2) {
                let close = runs[other];
                proof {
                    assert(all[other as int] == range_view(close));
                }
                if run.1 < close.0 {
                    let ghost done = spans@;
                    let ghost before = left@;
                    let content: (usize, usize) = (run.1, close.0);
                    let bold = between_runs(SpanKind::Bold, run, close);
                    let hiding = with_two(excluded, run, close);
                    let mut nested = find_nested(chars, content, &hiding, SpanKind::Italic, 1);
                    let ghost inner = shown_all(nested@);
                    let ghost nested_spans_found = nested@;
                    spans.push(bold);
                    spans.append(&mut nested);
                    left.set(at, false);
                    left.set(other, false);
                    let ghost marked = left@;
                    let mut index: usize = 0;
                    while index < runs.len()
                        invariant
                            index <= runs@.len(),
                            left@.len() == runs@.len(),
                            marked.len() == runs@.len(),
                            all == ranges_view(runs@),
                            forall|k: int|
                                0 <= k < index ==> #[trigger] left@[k] == without_inside(
                                    all,
                                    marked,
                                    range_view(content),
                                )[k],
                            forall|k: int| index <= k < runs@.len() ==> left@[k] == marked[k],
                        decreases runs@.len() - index,
                    {
                        let start: usize = runs[index].0;
                        proof {
                            assert(all[index as int].0 == start);
                        }
                        if content.0 <= start && start < content.1 {
                            left.set(index, false);
                        }
                        index += 1;
                    }
                    proof {
                        let taken = without_inside(all, marked, range_view(content));
                        assert(left@ =~= taken);
                        let rest = double_pass(chars@, all, taken, at + 1, hidden);
                        lemma_shown_push(done, bold);
                        lemma_shown_append(done.push(bold), nested_spans_found);
                        assert(spans@ =~= done.push(bold) + nested_spans_found);
                        lemma_within_wider(inner, content.0 as int, content.1 as int, from, to);
                        assert(span_within(bold.shown(), from, to));
                        assert(spans_within(shown_all(done).push(bold.shown()), from, to));
                        lemma_within_append(
                            shown_all(done).push(bold.shown()),
                            inner,
                            from,
                            to,
                        );
                        assert(double_pass(chars@, all, before, at as int, hidden).0
                            == seq![bold.shown()] + inner + rest.0);
                        assert(shown_all(done) + (seq![bold.shown()] + inner + rest.0)
                            =~= shown_all(spans@) + rest.0);
                    }
                }
            }
        }
        at += 1;
    }
    proof {
        assert(shown_all(spans@) + Seq::<SpanView>::empty() == shown_all(spans@));
    }
    spans
}

fn collect_taken(runs: &[(usize, usize)], left: &[bool], excluded: &[(usize, usize)]) -> (taken: Vec<
    (usize, usize),
>)
    requires
        left@.len() == runs@.len(),
    ensures
        ranges_view(taken@) == ranges_view(excluded@) + taken_runs(
            ranges_view(runs@),
            left@,
            runs@.len() as int,
        ),
{
    let ghost all = ranges_view(runs@);
    let ghost hidden = ranges_view(excluded@);
    let mut taken = copy_ranges(excluded);
    let mut index: usize = 0;
    proof {
        assert(hidden + Seq::<(int, int)>::empty() == hidden);
    }
    while index < runs.len()
        invariant
            index <= runs@.len(),
            left@.len() == runs@.len(),
            all == ranges_view(runs@),
            ranges_view(taken@) == hidden + taken_runs(all, left@, index as int),
        decreases runs@.len() - index,
    {
        proof {
            assert(all[index as int] == range_view(runs@[index as int]));
        }
        if !left[index] {
            let ghost done = taken@;
            taken.push(runs[index]);
            proof {
                lemma_ranges_push(done, runs@[index as int]);
                assert(hidden + taken_runs(all, left@, index as int).push(all[index as int])
                    =~= ranges_view(taken@));
            }
        }
        index += 1;
    }
    taken
}

fn run_single_pass(
    chars: &[char],
    runs: &[(usize, usize)],
    left: &mut Vec<bool>,
    excluded: &[(usize, usize)],
    Ghost(from): Ghost<int>,
    Ghost(to): Ghost<int>,
) -> (spans: Vec<CharSpan>)
    requires
        old(left)@.len() == runs@.len(),
        ordered(runs@, from, to),
        to <= chars@.len(),
    ensures
        found(
            spans@,
            single_pass(chars@, ranges_view(runs@), old(left)@, 0, ranges_view(excluded@)),
            from,
            to,
        ),
{
    let ghost all = ranges_view(runs@);
    let ghost hidden = ranges_view(excluded@);
    let ghost whole = single_pass(chars@, all, left@, 0, hidden);
    let mut spans: Vec<CharSpan> = Vec::new();
    let mut at: usize = 0;
    proof {
        assert(shown_all(spans@) + whole == whole);
    }
    while at < runs.len()
        invariant
            at <= runs@.len(),
            left@.len() == runs@.len(),
            to <= chars@.len(),
            all == ranges_view(runs@),
            hidden == ranges_view(excluded@),
            ordered(runs@, from, to),
            whole == single_pass(chars@, all, old(left)@, 0, hidden),
            whole == shown_all(spans@) + single_pass(chars@, all, left@, at as int, hidden),
            spans_within(shown_all(spans@), from, to),
        decreases runs@.len() - at,
    {
        let run = runs[at];
        proof {
            assert(all[at as int] == range_view(run));
        }
        if left[at] && count_stars(run) == 1 {
            if let Some(other) = find_partner(runs, left.as_slice(), at + 1, 1) {
                let close = runs[other];
                proof {
                    assert(all[other as int] == range_view(close));
                }
                if run.1 < close.0 {
                    let ghost done = spans@;
                    let ghost before = left@;
                    let content: (usize, usize) = (run.1, close.0);
                    let italic = between_runs(SpanKind::Italic, run, close);
                    let hiding = with_two(excluded, run, close);
                    let mut nested = find_nested(chars, content, &hiding, SpanKind::Bold, 2);
                    let ghost inner = shown_all(nested@);
                    let ghost nested_spans_found = nested@;
                    spans.push(italic);
                    spans.append(&mut nested);
                    left.set(at, false);
                    left.set(other, false);
                    proof {
                        let rest = single_pass(chars@, all, left@, at + 1, hidden);
                        lemma_shown_push(done, italic);
                        lemma_shown_append(done.push(italic), nested_spans_found);
                        assert(spans@ =~= done.push(italic) + nested_spans_found);
                        lemma_within_wider(inner, content.0 as int, content.1 as int, from, to);
                        assert(span_within(italic.shown(), from, to));
                        assert(spans_within(shown_all(done).push(italic.shown()), from, to));
                        lemma_within_append(
                            shown_all(done).push(italic.shown()),
                            inner,
                            from,
                            to,
                        );
                        assert(single_pass(chars@, all, before, at as int, hidden)
                            == seq![italic.shown()] + inner + rest);
                        assert(shown_all(done) + (seq![italic.shown()] + inner + rest)
                            =~= shown_all(spans@) + rest);
                    }
                }
            }
        }
        at += 1;
    }
    proof {
        assert(shown_all(spans@) + Seq::<SpanView>::empty() == shown_all(spans@));
    }
    spans
}

fn find_emphasis(chars: &[char], from: usize, end: usize, excluded: &[(usize, usize)]) -> (spans: Vec<
    CharSpan,
>)
    requires
        from <= end <= chars@.len(),
    ensures
        found(
            spans@,
            emphasis_spans(chars@, from as int, end as int, ranges_view(excluded@)),
            from as int,
            end as int,
        ),
{
    let runs = find_star_runs(chars, from, end, excluded);
    let ghost lo = from as int;
    let ghost hi = end as int;
    let mut left: Vec<bool> = Vec::new();
    while left.len() < runs.len()
        invariant
            left@.len() <= runs@.len(),
            forall|k: int| 0 <= k < left@.len() ==> left@[k],
        decreases runs@.len() - left@.len(),
    {
        left.push(true);
    }
    proof {
        assert(left@ =~= Seq::new(runs@.len(), |k: int| true));
    }
    let mut spans = run_triple_pass(&runs, &mut left, Ghost(lo), Ghost(hi));
    let ghost triple = spans@;
    let mut double = run_double_pass(chars, &runs, &mut left, excluded, Ghost(lo), Ghost(hi));
    let ghost second = double@;
    let taken = collect_taken(&runs, &left, excluded);
    let mut single = run_single_pass(chars, &runs, &mut left, &taken, Ghost(lo), Ghost(hi));
    let ghost third = single@;
    spans.append(&mut double);
    spans.append(&mut single);
    proof {
        assert(spans@ =~= triple + second + third);
        lemma_shown_append(triple, second);
        lemma_shown_append(triple + second, third);
        lemma_within_append(shown_all(triple), shown_all(second), lo, hi);
        lemma_within_append(shown_all(triple) + shown_all(second), shown_all(third), lo, hi);
    }
    spans
}

fn spans_of_marked(
    kind: SpanKind,
    ranges: &[(usize, usize)],
    Ghost(from): Ghost<int>,
    Ghost(to): Ghost<int>,
) -> (spans: Vec<CharSpan>)
    requires
        forall|i: int|
            0 <= i < ranges@.len() ==> from <= (#[trigger] ranges@[i]).0 && ranges@[i].0 + 4
                <= ranges@[i].1 <= to,
    ensures
        found(spans@, marked_spans(kind, ranges_view(ranges@)), from, to),
{
    let mut spans: Vec<CharSpan> = Vec::new();
    let mut index: usize = 0;
    proof {
        assert(shown_all(spans@) =~= marked_spans(kind, ranges_view(ranges@.take(0))));
    }
    while index < ranges.len()
        invariant
            index <= ranges@.len(),
            forall|i: int|
                0 <= i < ranges@.len() ==> from <= (#[trigger] ranges@[i]).0 && ranges@[i].0 + 4
                    <= ranges@[i].1 <= to,
            found(spans@, marked_spans(kind, ranges_view(ranges@.take(index as int))), from, to),
        decreases ranges@.len() - index,
    {
        let range = ranges[index];
        let ghost done = spans@;
        proof {
            let before = ranges_view(ranges@.take(index as int));
            let after = ranges_view(ranges@.take(index + 1));
            assert(after.drop_last() =~= before);
            assert(after.last() == range_view(range));
        }
        if range.0 + 2 < range.1 - 2 {
            let span = CharSpan {
                kind,
                markers: 2,
                first: (range.0, range.0 + 2),
                second: (range.1 - 2, range.1),
                content: (range.0 + 2, range.1 - 2),
            };
            spans.push(span);
            proof {
                lemma_shown_push(done, span);
                assert(span.shown() =~= marked_span(kind, range_view(range)));
                assert(span_within(span.shown(), from, to));
            }
        }
        index += 1;
    }
    proof {
        assert(ranges@.take(index as int) == ranges@);
    }
    spans
}

fn find_inline(chars: &[char], from: usize, end: usize) -> (spans: Vec<CharSpan>)
    requires
        from <= end <= chars@.len(),
    ensures
        found(spans@, inline_spans(chars@, from as int, end as int), from as int, end as int),
{
    let ghost lo = from as int;
    let ghost hi = end as int;
    let none: Vec<(usize, usize)> = Vec::new();
    let tick: [char; 1] = ['`'];
    let strike: [char; 2] = ['~', '~'];
    let highlight: [char; 2] = ['=', '='];
    proof {
        assert(ranges_view(none@) =~= Seq::<(int, int)>::empty());
        assert(tick@ =~= seq!['`']);
        assert(strike@ =~= seq!['~', '~']);
        assert(highlight@ =~= seq!['=', '=']);
    }
    let codes = find_marked(chars, from, end, &tick, &none);
    let mut spans: Vec<CharSpan> = Vec::new();
    let mut index: usize = 0;
    while index < codes.len()
        invariant
            index <= codes@.len(),
            lo == from,
            hi == end,
            forall|i: int|
                0 <= i < codes@.len() ==> from <= (#[trigger] codes@[i]).0 && codes@[i].0 + 2
                    <= codes@[i].1 <= end,
            shown_all(spans@) == Seq::new(
                index as nat,
                |i: int| code_span(ranges_view(codes@)[i]),
            ),
            spans_within(shown_all(spans@), lo, hi),
        decreases codes@.len() - index,
    {
        let code = codes[index];
        let ghost done = spans@;
        let span = CharSpan {
            kind: SpanKind::InlineCode,
            markers: 2,
            first: (code.0, code.0 + 1),
            second: (code.1 - 1, code.1),
            content: (code.0 + 1, code.1 - 1),
        };
        spans.push(span);
        index += 1;
        proof {
            lemma_shown_push(done, span);
            assert(span.shown() =~= code_span(range_view(code)));
            assert(span_within(span.shown(), lo, hi));
            assert(shown_all(spans@) =~= Seq::new(
                index as nat,
                |i: int| code_span(ranges_view(codes@)[i]),
            ));
        }
    }
    let ghost coded = spans@;
    let mut links = find_links(chars, from, end, &codes);
    let ghost linked = links@;
    let mut excluded = copy_ranges(&codes);
    let mut index: usize = 0;
    while index < links.len()
        invariant
            index <= links@.len(),
            links@ == linked,
            forall|i: int| 0 <= i < linked.len() ==> (#[trigger] linked[i]).markers == 2,
            ranges_view(excluded@) == ranges_view(codes@) + Seq::new(
                index as nat,
                |i: int| full_range(shown_all(linked)[i]),
            ),
        decreases links@.len() - index,
    {
        let link = links[index];
        let ghost done = excluded@;
        excluded.push((link.first.0, link.second.1));
        index += 1;
        proof {
            lemma_ranges_push(done, (link.first.0, link.second.1));
            assert(shown_all(linked)[index - 1] == link.shown());
            assert(ranges_view(excluded@) =~= ranges_view(codes@) + Seq::new(
                index as nat,
                |i: int| full_range(shown_all(linked)[i]),
            ));
        }
    }
    let ghost hidden = ranges_view(excluded@);
    let mut emphasis = find_emphasis(chars, from, end, &excluded);
    let ghost stressed = emphasis@;
    let strikes = find_marked(chars, from, end, &strike, &excluded);
    let mut struck = spans_of_marked(SpanKind::Strikethrough, &strikes, Ghost(lo), Ghost(hi));
    let ghost third = struck@;
    let highlights = find_marked(chars, from, end, &highlight, &excluded);
    let mut lit = spans_of_marked(SpanKind::Highlight, &highlights, Ghost(lo), Ghost(hi));
    let ghost fourth = lit@;
    spans.append(&mut links);
    spans.append(&mut emphasis);
    spans.append(&mut struck);
    spans.append(&mut lit);
    proof {
        assert(spans@ =~= coded + linked + stressed + third + fourth);
        lemma_shown_append(coded, linked);
        lemma_shown_append(coded + linked, stressed);
        lemma_shown_append(coded + linked + stressed, third);
        lemma_shown_append(coded + linked + stressed + third, fourth);
        lemma_within_append(shown_all(coded), shown_all(linked), lo, hi);
        lemma_within_append(shown_all(coded + linked), shown_all(stressed), lo, hi);
        lemma_within_append(shown_all(coded + linked + stressed), shown_all(third), lo, hi);
        lemma_within_append(
            shown_all(coded + linked + stressed + third),
            shown_all(fourth),
            lo,
            hi,
        );
        let codes_seen = marked_ranges(chars@, lo, hi, seq!['`'], Seq::empty());
        let links_seen = link_spans(chars@, lo, hi, codes_seen);
        assert(ranges_view(codes@) == codes_seen);
        assert(shown_all(linked) == links_seen);
        assert(hidden =~= codes_seen + Seq::new(
            links_seen.len(),
            |i: int| full_range(links_seen[i]),
        ));
        assert(shown_all(coded) =~= Seq::new(codes_seen.len(), |i: int| code_span(codes_seen[i])));
        assert(shown_all(spans@) =~= inline_spans(chars@, lo, hi));
    }
    spans
}

fn divides(line: &[char]) -> (is: bool)
    ensures
        is == is_divider(line@),
{
    let (start, end) = trim_bounds(line);
    let ghost inner = trimmed(line@);
    if end - start < 3 {
        return false;
    }
    let mut at: usize = start;
    while at < end
        invariant
            start <= at <= end <= line@.len(),
            inner == line@.subrange(start as int, end as int),
            inner == trimmed(line@),
            forall|i: int| 0 <= i < at - start ==> inner[i] == '-',
        decreases end - at,
    {
        proof {
            assert(inner[at - start] == line@[at as int]);
        }
        if line[at] != '-' {
            return false;
        }
        at += 1;
    }
    true
}

fn has_prefix_at(chars: &[char], at: usize, end: usize, prefix: &[char]) -> (has: bool)
    requires
        at <= end <= chars@.len(),
    ensures
        has == prefix_at(chars@, at as int, end as int, prefix@),
{
    prefix.len() <= end - at && matches_at(chars, prefix, at)
}

fn count_digits(chars: &[char], at: usize, end: usize) -> (count: usize)
    requires
        at <= end <= chars@.len(),
    ensures
        count == digits_from(chars@, at as int, end as int),
        at + count <= end,
{
    let mut to: usize = at;
    while to < end && '0' <= chars[to] && chars[to] <= '9'
        invariant
            at <= to <= end <= chars@.len(),
            to - at + digits_from(chars@, to as int, end as int) == digits_from(
                chars@,
                at as int,
                end as int,
            ),
        decreases end - to,
    {
        to += 1;
    }
    to - at
}

fn find_block(chars: &[char], from: usize, end: usize) -> (found: Option<(SpanKind, usize)>)
    requires
        from <= end <= chars@.len(),
    ensures
        match found {
            Some((kind, prefix_end)) => block_of(chars@, from as int, end as int) == Some(
                (kind, prefix_end as int),
            ) && from <= prefix_end <= end,
            None => block_of(chars@, from as int, end as int) is None,
        },
{
    let line: &[char] = &chars[from..end];
    let space: usize = after_space(line, 0);
    let at: usize = from + space;
    let hashes: usize = count_from(line, '#', space);
    let blank: [char; 1] = [' '];
    let quote: [char; 2] = ['>', ' '];
    let open: [char; 6] = ['-', ' ', '[', ' ', ']', ' '];
    let done: [char; 6] = ['-', ' ', '[', 'x', ']', ' '];
    let done_upper: [char; 6] = ['-', ' ', '[', 'X', ']', ' '];
    let hyphen: [char; 2] = ['-', ' '];
    let star: [char; 2] = ['*', ' '];
    let dot: [char; 2] = ['.', ' '];
    proof {
        assert(blank@ =~= seq![' ']);
        assert(quote@ =~= seq!['>', ' ']);
        assert(open@ =~= seq!['-', ' ', '[', ' ', ']', ' ']);
        assert(done@ =~= seq!['-', ' ', '[', 'x', ']', ' ']);
        assert(done_upper@ =~= seq!['-', ' ', '[', 'X', ']', ' ']);
        assert(hyphen@ =~= seq!['-', ' ']);
        assert(star@ =~= seq!['*', ' ']);
        assert(dot@ =~= seq!['.', ' ']);
    }
    if 1 <= hashes && hashes <= 3 && has_prefix_at(chars, at + hashes, end, &blank) {
        let kind = if hashes == 1 {
            SpanKind::Heading1
        } else if hashes == 2 {
            SpanKind::Heading2
        } else {
            SpanKind::Heading3
        };
        return Some((kind, at + hashes + 1));
    }
    if has_prefix_at(chars, at, end, &quote) {
        return Some((SpanKind::Quote, at + 2));
    }
    if has_prefix_at(chars, at, end, &open) {
        return Some((SpanKind::ChecklistItem { checked: false }, at + 6));
    }
    if has_prefix_at(chars, at, end, &done) || has_prefix_at(chars, at, end, &done_upper) {
        return Some((SpanKind::ChecklistItem { checked: true }, at + 6));
    }
    if has_prefix_at(chars, at, end, &hyphen) || has_prefix_at(chars, at, end, &star) {
        return Some((SpanKind::BulletItem, at + 2));
    }
    let digits: usize = count_digits(chars, at, end);
    if digits > 0 && has_prefix_at(chars, at + digits, end, &dot) {
        return Some((SpanKind::NumberedItem, at + digits + 2));
    }
    None
}

fn scan_line(chars: &[char], from: usize, end: usize) -> (spans: Vec<CharSpan>)
    requires
        from <= end <= chars@.len(),
    ensures
        found(spans@, line_spans(chars@, from as int, end as int), from as int, end as int),
{
    let ghost lo = from as int;
    let ghost hi = end as int;
    if divides(&chars[from..end]) {
        let span = CharSpan {
            kind: SpanKind::Divider,
            markers: 1,
            first: (from, end),
            second: (0, 0),
            content: (end, end),
        };
        let mut spans: Vec<CharSpan> = Vec::new();
        spans.push(span);
        proof {
            assert(span.shown() =~= line_spans(chars@, lo, hi)[0]);
            assert(shown_all(spans@) =~= line_spans(chars@, lo, hi));
        }
        return spans;
    }
    match find_block(chars, from, end) {
        Some((kind, prefix_end)) => {
            let span = CharSpan {
                kind,
                markers: 1,
                first: (from, prefix_end),
                second: (0, 0),
                content: (prefix_end, end),
            };
            let mut spans: Vec<CharSpan> = Vec::new();
            spans.push(span);
            let mut inner = find_inline(chars, prefix_end, end);
            let ghost inside = inner@;
            let ghost head = spans@;
            spans.append(&mut inner);
            proof {
                let block = SpanView {
                    kind,
                    markers: seq![(lo, prefix_end as int)],
                    content: (prefix_end as int, hi),
                };
                assert(span.shown() =~= block);
                assert(shown_all(head) =~= seq![block]);
                lemma_shown_append(head, inside);
                lemma_within_wider(shown_all(inside), prefix_end as int, hi, lo, hi);
                lemma_within_append(seq![block], shown_all(inside), lo, hi);
            }
            spans
        },
        None => find_inline(chars, from, end),
    }
}

/// Whether a span of a text in bytes is a span of it in characters.
pub open spec fn span_shows(text: Seq<char>, span: Span, expected: SpanView) -> bool {
    &&& span.kind == expected.kind
    &&& range_shows(text, span.content_range, expected.content)
    &&& span.marker_ranges@.len() == expected.markers.len()
    &&& forall|i: int|
        0 <= i < expected.markers.len() ==> range_shows(
            text,
            #[trigger] span.marker_ranges@[i],
            expected.markers[i],
        )
}

/// Whether a range in bytes starts and ends where a range in characters does.
pub open spec fn range_shows(text: Seq<char>, range: Range<usize>, expected: (int, int)) -> bool {
    &&& 0 <= expected.0 <= expected.1 <= text.len()
    &&& range.start == byte_len(text.take(expected.0))
    &&& range.end == byte_len(text.take(expected.1))
}

fn byte_range_of(
    offsets: &[usize],
    range: (usize, usize),
    Ghost(text): Ghost<Seq<char>>,
) -> (bytes: Range<usize>)
    requires
        range.0 <= range.1 <= text.len(),
        offsets@.len() == text.len() + 1,
        forall|k: int| 0 <= k <= text.len() ==> #[trigger] offsets@[k] == byte_len(text.take(k)),
    ensures
        range_shows(text, bytes, range_view(range)),
{
    Range { start: offsets[range.0], end: offsets[range.1] }
}

/// The byte offset of each character of a text, and of its end.
fn byte_offsets(text: &str, chars: &[char]) -> (offsets: Vec<usize>)
    requires
        chars@ == text@,
    ensures
        offsets@.len() == chars@.len() + 1,
        forall|k: int|
            0 <= k <= chars@.len() ==> #[trigger] offsets@[k] == byte_len(chars@.take(k)),
{
    let total: usize = text.as_bytes().len();
    let mut offsets: Vec<usize> = Vec::new();
    offsets.push(0);
    let mut offset: usize = 0;
    let mut index: usize = 0;
    proof {
        assert(chars@.take(0) == Seq::<char>::empty());
        assert(chars@.take(chars@.len() as int) == chars@);
    }
    while index < chars.len()
        invariant
            index <= chars@.len(),
            total == byte_len(chars@),
            chars@.take(chars@.len() as int) == chars@,
            offset == byte_len(chars@.take(index as int)),
            offsets@.len() == index + 1,
            forall|k: int|
                0 <= k <= index ==> #[trigger] offsets@[k] == byte_len(chars@.take(k)),
        decreases chars@.len() - index,
    {
        proof {
            assert(chars@.take(index + 1) == chars@.take(index as int).push(chars@[index as int]));
            lemma_byte_len_push(chars@.take(index as int), chars@[index as int]);
            lemma_byte_len_monotone(chars@, index + 1, chars@.len() as int);
        }
        offset += width_of(chars[index]);
        offsets.push(offset);
        index += 1;
    }
    offsets
}

/// The style spans of a text, line by line. Every range lies within the text
/// and cuts no character, whatever the text is; markup that is not complete
/// gets no span.
pub fn compute_spans(text: &str) -> (spans: Vec<Span>)
    ensures
        spans@.len() == spans_of(text@).len(),
        forall|i: int|
            0 <= i < spans@.len() ==> span_shows(text@, #[trigger] spans@[i], spans_of(text@)[i]),
        spans_within(spans_of(text@), 0, text@.len() as int),
{
    let chars = chars_of(text);
    let ghost whole = spans_of(text@);
    let mut scanned: Vec<CharSpan> = Vec::new();
    let mut from: usize = 0;
    proof {
        assert(shown_all(scanned@) + whole == whole);
    }
    loop
        invariant_except_break
            whole == shown_all(scanned@) + spans_from(text@, from as int),
        invariant
            from <= chars@.len(),
            chars@ == text@,
            whole == spans_of(text@),
            spans_within(shown_all(scanned@), 0, chars@.len() as int),
        ensures
            whole == shown_all(scanned@),
        decreases chars@.len() - from,
    {
        let end: usize = end_of_line(&chars, from);
        let mut line = scan_line(&chars, from, end);
        let ghost done = scanned@;
        let ghost found_here = line@;
        scanned.append(&mut line);
        proof {
            lemma_shown_append(done, found_here);
            lemma_within_wider(
                shown_all(found_here),
                from as int,
                end as int,
                0,
                chars@.len() as int,
            );
            lemma_within_append(
                shown_all(done),
                shown_all(found_here),
                0,
                chars@.len() as int,
            );
        }
        if end == chars.len() {
            break;
        }
        proof {
            let rest = spans_from(text@, end + 1);
            assert(shown_all(done) + (shown_all(found_here) + rest) =~= shown_all(scanned@) + rest);
        }
        from = end + 1;
    }
    let offsets = byte_offsets(text, &chars);
    let mut spans: Vec<Span> = Vec::new();
    let mut index: usize = 0;
    while index < scanned.len()
        invariant
            index <= scanned@.len(),
            spans@.len() == index,
            chars@ == text@,
            whole == shown_all(scanned@),
            spans_within(whole, 0, chars@.len() as int),
            offsets@.len() == chars@.len() + 1,
            forall|k: int|
                0 <= k <= chars@.len() ==> #[trigger] offsets@[k] == byte_len(chars@.take(k)),
            forall|i: int| 0 <= i < index ==> span_shows(text@, #[trigger] spans@[i], whole[i]),
        decreases scanned@.len() - index,
    {
        let span = scanned[index];
        proof {
            assert(whole[index as int] == span.shown());
            assert(span_within(span.shown(), 0, chars@.len() as int));
        }
        let mut marker_ranges: Vec<Range<usize>> = Vec::new();
        if span.markers > 0 {
            proof {
                assert(span.shown().markers[0] == range_view(span.first));
            }
            marker_ranges.push(byte_range_of(&offsets, span.first, Ghost(text@)));
        }
        if span.markers > 1 {
            proof {
                assert(span.shown().markers[1] == range_view(span.second));
            }
            marker_ranges.push(byte_range_of(&offsets, span.second, Ghost(text@)));
        }
        let content_range = byte_range_of(&offsets, span.content, Ghost(text@));
        spans.push(Span { kind: span.kind, marker_ranges, content_range });
        index += 1;
    }
    spans
}

/// A run of stars is made of stars, none of them in a part that is hidden, and
/// its first star is not escaped: code and links hide the emphasis in them.
pub proof fn law_hidden_stars_are_no_markers(
    text: Seq<char>,
    from: int,
    end: int,
    excluded: Seq<(int, int)>,
)
    requires
        0 <= from,
        end <= text.len(),
    ensures
        forall|i: int, at: int|
            #![trigger star_runs(text, from, end, excluded)[i], text[at]]
            0 <= i < star_runs(text, from, end, excluded).len() && star_runs(
                text,
                from,
                end,
                excluded,
            )[i].0 <= at < star_runs(text, from, end, excluded)[i].1 ==> text[at] == '*'
                && !excluded_at(excluded, at),
        forall|i: int|
            0 <= i < star_runs(text, from, end, excluded).len() ==> !escaped(
                text,
                (#[trigger] star_runs(text, from, end, excluded)[i]).0,
            ),
    decreases end - from,
{
    if from < end {
        if text[from] == '*' && !excluded_at(excluded, from) && !escaped(text, from) {
            let to = star_end(text, from, end, excluded);
            lemma_star_end(text, from + 1, end, excluded);
            lemma_star_end_stars(text, from, end, excluded);
            law_hidden_stars_are_no_markers(text, to, end, excluded);
            let rest = star_runs(text, to, end, excluded);
            let runs = star_runs(text, from, end, excluded);
            assert(runs == seq![(from, to)] + rest);
            assert forall|i: int, at: int|
                #![trigger runs[i], text[at]]
                0 <= i < runs.len() && runs[i].0 <= at < runs[i].1 implies text[at] == '*'
                && !excluded_at(excluded, at) by {
                if i > 0 {
                    assert(runs[i] == rest[i - 1]);
                }
            }
            assert forall|i: int| 0 <= i < runs.len() implies !escaped(
                text,
                (#[trigger] runs[i]).0,
            ) by {
                if i > 0 {
                    assert(runs[i] == rest[i - 1]);
                }
            }
        } else {
            law_hidden_stars_are_no_markers(text, from + 1, end, excluded);
            assert(star_runs(text, from, end, excluded) == star_runs(
                text,
                from + 1,
                end,
                excluded,
            ));
        }
    } else {
        assert(star_runs(text, from, end, excluded) == Seq::<(int, int)>::empty());
    }
}

proof fn lemma_star_end_stars(text: Seq<char>, from: int, end: int, excluded: Seq<(int, int)>)
    ensures
        forall|at: int|
            from <= at < star_end(text, from, end, excluded) ==> #[trigger] text[at] == '*'
                && !excluded_at(excluded, at),
    decreases end - from,
{
    if from < end && text[from] == '*' && !excluded_at(excluded, from) {
        lemma_star_end_stars(text, from + 1, end, excluded);
    }
}

/// A range between two marks starts and ends with a mark that is neither hidden
/// nor escaped, and ranges follow each other without overlap.
pub proof fn law_marked_ranges_are_visible_and_apart(
    text: Seq<char>,
    from: int,
    end: int,
    mark: Seq<char>,
    excluded: Seq<(int, int)>,
)
    requires
        0 <= from,
        end <= text.len(),
        mark.len() > 0,
    ensures
        ({
            let ranges = marked_ranges(text, from, end, mark, excluded);
            &&& forall|i: int|
                0 <= i < ranges.len() ==> {
                    &&& from <= (#[trigger] ranges[i]).0
                    &&& ranges[i].0 + 2 * mark.len() <= ranges[i].1 <= end
                    &&& stands_at(text, mark, ranges[i].0)
                    &&& !excluded_at(excluded, ranges[i].0)
                    &&& !escaped(text, ranges[i].0)
                    &&& stands_at(text, mark, ranges[i].1 - mark.len())
                    &&& !excluded_at(excluded, ranges[i].1 - mark.len())
                    &&& !escaped(text, ranges[i].1 - mark.len())
                }
            &&& forall|i: int, j: int|
                0 <= i < j < ranges.len() ==> (#[trigger] ranges[i]).1 <= (#[trigger] ranges[j]).0
        }),
    decreases end - from,
{
    lemma_next_mark(text, from, end, mark, excluded);
    match next_mark(text, from, end, mark, excluded) {
        Some(open) => {
            lemma_next_mark(text, open + mark.len(), end, mark, excluded);
            match next_mark(text, open + mark.len(), end, mark, excluded) {
                Some(close) => {
                    let next = close + mark.len();
                    law_marked_ranges_are_visible_and_apart(text, next, end, mark, excluded);
                    let rest = marked_ranges(text, next, end, mark, excluded);
                    let ranges = marked_ranges(text, from, end, mark, excluded);
                    assert(ranges == seq![(open, next)] + rest);
                    assert forall|i: int| 0 <= i < ranges.len() implies {
                        &&& from <= (#[trigger] ranges[i]).0
                        &&& ranges[i].0 + 2 * mark.len() <= ranges[i].1 <= end
                        &&& stands_at(text, mark, ranges[i].0)
                        &&& !excluded_at(excluded, ranges[i].0)
                        &&& !escaped(text, ranges[i].0)
                        &&& stands_at(text, mark, ranges[i].1 - mark.len())
                        &&& !excluded_at(excluded, ranges[i].1 - mark.len())
                        &&& !escaped(text, ranges[i].1 - mark.len())
                    } by {
                        if i > 0 {
                            assert(ranges[i] == rest[i - 1]);
                        }
                    }
                    assert forall|i: int, j: int|
                        0 <= i < j < ranges.len() implies (#[trigger] ranges[i]).1 <= (
                    #[trigger] ranges[j]).0 by {
                        assert(ranges[j] == rest[j - 1]);
                        if i > 0 {
                            assert(ranges[i] == rest[i - 1]);
                        }
                    }
                },
                None => {},
            }
        },
        None => {},
    }
}

proof fn lemma_next_mark(
    text: Seq<char>,
    from: int,
    end: int,
    mark: Seq<char>,
    excluded: Seq<(int, int)>,
)
    ensures
        next_mark(text, from, end, mark, excluded) matches Some(at) ==> from <= at && at
            + mark.len() <= end && stands_at(text, mark, at) && !excluded_at(excluded, at)
            && !escaped(text, at),
    decreases end - from,
{
    if from < end && from + mark.len() <= end && !(stands_at(text, mark, from) && !excluded_at(
        excluded,
        from,
    ) && !escaped(text, from)) {
        lemma_next_mark(text, from + 1, end, mark, excluded);
    }
}

} // verus!
