//! Which spans a line has: the forms of a line and what each of them shows.

use vstd::prelude::*;

use crate::markdown_laws::lemma_next_char_fits;
use crate::markdown_spans::{
    between, code_span, digits_from, double_pass, emphasis_spans, escaped, excluded_at, full_range,
    inline_spans, is_divider, line_spans, link_span, link_spans, marked_ranges, marked_spans,
    nested_spans, next_char, next_mark, paired_spans, partner, prefix_at, runs_of, single_pass,
    spans_of, star_count, star_end, star_runs, taken_runs, triple_pass, without_inside, SpanKind,
    SpanView,
};
use crate::text::{
    is_space, lemma_line_bounds, lemma_skip_space_back_bounds, run_from, skip_space,
    skip_space_back, stands_at, trimmed, trimmed_start,
};

verus! {

/// Whether a text is free of marks: of what stands for emphasis, code, links and
/// escapes, and of line breaks.
pub open spec fn plain(text: Seq<char>) -> bool {
    forall|i: int| 0 <= i < text.len() ==> !is_mark(#[trigger] text[i])
}

/// The characters that marks are made of.
pub open spec fn is_mark(character: char) -> bool {
    character == '*' || character == '`' || character == '~' || character == '=' || character == '['
        || character == '\\' || character == '\n'
}

/// Whether a line does not start as a block or a divider does.
pub open spec fn starts_as_text(line: Seq<char>) -> bool {
    &&& line.len() > 0
    &&& !is_space(line[0])
    &&& line[0] != '#'
    &&& line[0] != '>'
    &&& line[0] != '-'
    &&& !('0' <= line[0] <= '9')
    &&& !(line[0] == '*' && line.len() > 1 && line[1] == ' ')
}

/// A span with markers of a length on both sides of a content.
pub open spec fn span_round(kind: SpanKind, at: int, marker: int, content: int) -> SpanView {
    SpanView {
        kind,
        markers: seq![
            (at, at + marker),
            (at + marker + content, at + marker + content + marker),
        ],
        content: (at + marker, at + marker + content),
    }
}

// Finding and not finding.

proof fn lemma_no_mark(
    text: Seq<char>,
    from: int,
    end: int,
    mark: Seq<char>,
    excluded: Seq<(int, int)>,
)
    requires
        0 <= from,
        end <= text.len(),
        mark.len() > 0,
        forall|i: int|
            from <= i < end && #[trigger] text[i] == mark[0] ==> excluded_at(excluded, i)
                || escaped(text, i),
    ensures
        next_mark(text, from, end, mark, excluded) is None,
        marked_ranges(text, from, end, mark, excluded) == Seq::<(int, int)>::empty(),
    decreases end - from,
{
    if from < end && from + mark.len() <= end {
        if stands_at(text, mark, from) {
            assert(text.subrange(from, from + mark.len())[0] == text[from]);
        }
        lemma_no_mark(text, from + 1, end, mark, excluded);
    }
}

proof fn lemma_mark_at(
    text: Seq<char>,
    from: int,
    at: int,
    end: int,
    mark: Seq<char>,
    excluded: Seq<(int, int)>,
)
    requires
        0 <= from <= at,
        at + mark.len() <= end <= text.len(),
        mark.len() > 0,
        forall|i: int| from <= i < at ==> #[trigger] text[i] != mark[0],
        stands_at(text, mark, at),
        !excluded_at(excluded, at),
        !escaped(text, at),
    ensures
        next_mark(text, from, end, mark, excluded) == Some(at),
    decreases at - from,
{
    if from < at {
        if stands_at(text, mark, from) {
            assert(text.subrange(from, from + mark.len())[0] == text[from]);
        }
        lemma_mark_at(text, from + 1, at, end, mark, excluded);
    }
}

proof fn lemma_one_range(text: Seq<char>, open: int, close: int, mark: Seq<char>)
    requires
        0 <= open,
        open + mark.len() <= close,
        close + mark.len() <= text.len(),
        mark.len() > 0,
        stands_at(text, mark, open),
        stands_at(text, mark, close),
        !escaped(text, open),
        !escaped(text, close),
        forall|i: int|
            (0 <= i < open || open + mark.len() <= i < close || close + mark.len() <= i
                < text.len()) ==> #[trigger] text[i] != mark[0],
    ensures
        marked_ranges(text, 0, text.len() as int, mark, Seq::<(int, int)>::empty()) == seq![
            (open, close + mark.len()),
        ],
{
    let none = Seq::<(int, int)>::empty();
    let end = text.len() as int;
    lemma_mark_at(text, 0, open, end, mark, none);
    lemma_mark_at(text, open + mark.len(), close, end, mark, none);
    lemma_no_mark(text, close + mark.len(), end, mark, none);
}

proof fn lemma_no_links(text: Seq<char>, from: int, end: int, excluded: Seq<(int, int)>)
    requires
        0 <= from,
        end <= text.len(),
        forall|i: int|
            from <= i < end && #[trigger] text[i] == '[' ==> excluded_at(excluded, i) || escaped(
                text,
                i,
            ),
    ensures
        link_spans(text, from, end, excluded) == Seq::<SpanView>::empty(),
    decreases end - from,
{
    lemma_next_char_fits(text, from, end, '[', excluded);
    if let Some(bracket) = next_char(text, from, end, '[', excluded) {
        lemma_no_links(text, bracket + 1, end, excluded);
    }
}

proof fn lemma_char_at(
    text: Seq<char>,
    from: int,
    at: int,
    end: int,
    character: char,
    excluded: Seq<(int, int)>,
)
    requires
        0 <= from <= at < end,
        end <= text.len(),
        forall|i: int| from <= i < at ==> #[trigger] text[i] != character,
        text[at] == character,
        !excluded_at(excluded, at),
    ensures
        next_char(text, from, end, character, excluded) == Some(at),
    decreases at - from,
{
    if from < at {
        lemma_char_at(text, from + 1, at, end, character, excluded);
    }
}

proof fn lemma_stars_skipped(
    text: Seq<char>,
    from: int,
    to: int,
    end: int,
    excluded: Seq<(int, int)>,
)
    requires
        0 <= from <= to <= end,
        end <= text.len(),
        forall|i: int|
            from <= i < to && #[trigger] text[i] == '*' ==> excluded_at(excluded, i) || escaped(
                text,
                i,
            ),
    ensures
        star_runs(text, from, end, excluded) == star_runs(text, to, end, excluded),
    decreases to - from,
{
    if from < to {
        lemma_stars_skipped(text, from + 1, to, end, excluded);
    }
}

proof fn lemma_star_end_at(
    text: Seq<char>,
    from: int,
    to: int,
    end: int,
    excluded: Seq<(int, int)>,
)
    requires
        0 <= from <= to <= end,
        end <= text.len(),
        forall|i: int|
            from <= i < to ==> #[trigger] text[i] == '*' && !excluded_at(excluded, i),
        to == end || text[to] != '*',
    ensures
        star_end(text, from, end, excluded) == to,
    decreases to - from,
{
    if from < to {
        assert(text[from] == '*');
        lemma_star_end_at(text, from + 1, to, end, excluded);
    }
}

proof fn lemma_star_run_at(
    text: Seq<char>,
    from: int,
    to: int,
    end: int,
    excluded: Seq<(int, int)>,
)
    requires
        0 <= from < to <= end,
        end <= text.len(),
        forall|i: int|
            from <= i < to ==> #[trigger] text[i] == '*' && !excluded_at(excluded, i),
        to == end || text[to] != '*',
        !escaped(text, from),
    ensures
        star_runs(text, from, end, excluded) == seq![(from, to)] + star_runs(
            text,
            to,
            end,
            excluded,
        ),
{
    assert(text[from] == '*');
    lemma_star_end_at(text, from, to, end, excluded);
}

proof fn lemma_no_stars(text: Seq<char>, from: int, end: int, excluded: Seq<(int, int)>)
    requires
        0 <= from,
        end <= text.len(),
        forall|i: int|
            from <= i < end && #[trigger] text[i] == '*' ==> excluded_at(excluded, i) || escaped(
                text,
                i,
            ),
    ensures
        star_runs(text, from, end, excluded) == Seq::<(int, int)>::empty(),
        emphasis_spans(text, from, end, excluded) == Seq::<SpanView>::empty(),
{
    if from < end {
        lemma_stars_skipped(text, from, end, end, excluded);
    }
}

/// Two runs of as many stars with no other between them.
proof fn lemma_two_runs(text: Seq<char>, open: (int, int), close: (int, int))
    requires
        0 <= open.0 < open.1,
        open.1 < close.0 < close.1,
        close.1 <= text.len(),
        forall|i: int|
            0 <= i < text.len() ==> ((#[trigger] text[i] == '*') <==> (open.0 <= i < open.1
                || close.0 <= i < close.1)),
        !escaped(text, open.0),
        !escaped(text, close.0),
    ensures
        star_runs(text, 0, text.len() as int, Seq::<(int, int)>::empty()) == seq![open, close],
{
    let none = Seq::<(int, int)>::empty();
    let end = text.len() as int;
    lemma_stars_skipped(text, 0, open.0, end, none);
    lemma_star_run_at(text, open.0, open.1, end, none);
    lemma_stars_skipped(text, open.1, close.0, end, none);
    lemma_star_run_at(text, close.0, close.1, end, none);
    lemma_no_stars(text, close.1, end, none);
    assert(star_runs(text, 0, end, none) =~= seq![open, close]);
}

// A line as a whole.

pub proof fn lemma_one_line(text: Seq<char>)
    requires
        forall|i: int| 0 <= i < text.len() ==> #[trigger] text[i] != '\n',
    ensures
        spans_of(text) == line_spans(text, 0, text.len() as int),
{
    lemma_line_bounds(text, 0);
    crate::formatting::lemma_line_end_kind(text, 0);
}

pub proof fn lemma_text_line(text: Seq<char>)
    requires
        starts_as_text(text),
        forall|i: int| 0 <= i < text.len() ==> #[trigger] text[i] != '\n',
    ensures
        spans_of(text) == inline_spans(text, 0, text.len() as int),
{
    lemma_one_line(text);
    let end = text.len() as int;
    let line = text.subrange(0, end);
    assert(line =~= text);
    assert(skip_space(line, 0) == 0);
    assert(run_from(line, '#', 0) == 0);
    assert(digits_from(text, 0, end) == 0);
    let rest = trimmed_start(line);
    assert(rest =~= line);
    lemma_skip_space_back_bounds(rest, end);
    let tail = skip_space_back(rest, end);
    if tail == 0 {
        assert(is_space(rest[0]));
    }
    assert(trimmed(line)[0] == text[0]);
    assert(!is_divider(line));
    lemma_no_prefix_at(text, 0, '>');
    lemma_no_prefix_at(text, 0, '-');
    assert(!prefix_at(text, 0, end, seq!['*', ' '])) by {
        if prefix_at(text, 0, end, seq!['*', ' ']) {
            let found = text.subrange(0, 2);
            assert(found[0] == text[0] && found[1] == text[1]);
        }
    }
}

pub proof fn lemma_no_prefix_at(text: Seq<char>, at: int, character: char)
    requires
        0 <= at < text.len(),
        text[at] != character,
    ensures
        forall|prefix: Seq<char>, end: int|
            prefix.len() > 0 && prefix[0] == character ==> !(#[trigger] prefix_at(
                text,
                at,
                end,
                prefix,
            )),
{
    assert forall|prefix: Seq<char>, end: int|
        prefix.len() > 0 && prefix[0] == character implies !(#[trigger] prefix_at(
        text,
        at,
        end,
        prefix,
    )) by {
        if prefix_at(text, at, end, prefix) {
            assert(text.subrange(at, at + prefix.len())[0] == text[at]);
        }
    }
}

/// A line with neither code nor links has its emphasis, then what is struck
/// through, then what is highlighted.
proof fn lemma_only_emphasis(text: Seq<char>, from: int)
    requires
        0 <= from <= text.len(),
        forall|i: int|
            from <= i < text.len() && (#[trigger] text[i] == '`' || text[i] == '[') ==> escaped(
                text,
                i,
            ),
    ensures
        ({
            let end = text.len() as int;
            let none = Seq::<(int, int)>::empty();
            inline_spans(text, from, end) == emphasis_spans(text, from, end, none) + marked_spans(
                SpanKind::Strikethrough,
                marked_ranges(text, from, end, seq!['~', '~'], none),
            ) + marked_spans(
                SpanKind::Highlight,
                marked_ranges(text, from, end, seq!['=', '='], none),
            )
        }),
{
    let end = text.len() as int;
    let none = Seq::<(int, int)>::empty();
    lemma_no_mark(text, from, end, seq!['`'], none);
    let codes = marked_ranges(text, from, end, seq!['`'], none);
    lemma_no_links(text, from, end, codes);
    let links = link_spans(text, from, end, codes);
    let excluded = codes + Seq::new(links.len(), |i: int| full_range(links[i]));
    assert(excluded =~= none);
    let emphasis = emphasis_spans(text, from, end, none);
    let shown = Seq::new(codes.len(), |i: int| code_span(codes[i]));
    assert(shown + links + emphasis =~= emphasis);
}

// What the forms show.

/// A line without marks shows nothing.
pub proof fn law_plain_text_has_no_spans(text: Seq<char>)
    requires
        plain(text),
        starts_as_text(text),
    ensures
        spans_of(text) == Seq::<SpanView>::empty(),
{
    assert(forall|i: int| 0 <= i < text.len() ==> !is_mark(#[trigger] text[i]));
    law_escaped_marks_show_nothing(text);
}

/// A mark behind a backslash is a character like any other: a line whose marks are
/// all escaped shows nothing.
pub proof fn law_escaped_marks_show_nothing(text: Seq<char>)
    requires
        starts_as_text(text),
        forall|i: int| 0 <= i < text.len() ==> #[trigger] text[i] != '\n',
        forall|i: int|
            0 <= i < text.len() && is_mark(#[trigger] text[i]) ==> text[i] == '\\' || i > 0
                && text[i - 1] == '\\',
    ensures
        spans_of(text) == Seq::<SpanView>::empty(),
{
    lemma_text_line(text);
    lemma_quiet_inline(text, 0);
}

pub proof fn lemma_quiet_inline(text: Seq<char>, from: int)
    requires
        0 <= from <= text.len(),
        forall|i: int|
            from <= i < text.len() && is_mark(#[trigger] text[i]) ==> text[i] == '\\' || escaped(
                text,
                i,
            ),
    ensures
        inline_spans(text, from, text.len() as int) == Seq::<SpanView>::empty(),
{
    let end = text.len() as int;
    let none = Seq::<(int, int)>::empty();
    lemma_only_emphasis(text, from);
    lemma_no_stars(text, from, end, none);
    lemma_no_mark(text, from, end, seq!['~', '~'], none);
    lemma_no_mark(text, from, end, seq!['=', '='], none);
    assert(inline_spans(text, from, end) =~= seq![]);
}

/// The text `before`, `mark`, `inner`, `mark`, `after`.
pub open spec fn wrapped(
    before: Seq<char>,
    mark: Seq<char>,
    inner: Seq<char>,
    after: Seq<char>,
) -> Seq<char> {
    before + mark + inner + mark + after
}

/// What stands where in a wrapped text.
proof fn lemma_wrapped(before: Seq<char>, mark: Seq<char>, inner: Seq<char>, after: Seq<char>)
    ensures
        ({
            let text = wrapped(before, mark, inner, after);
            let open = before.len() as int;
            let inside = open + mark.len();
            let close = inside + inner.len();
            let behind = close + mark.len();
            &&& text.len() == behind + after.len()
            &&& stands_at(text, mark, open)
            &&& stands_at(text, mark, close)
            &&& forall|i: int| 0 <= i < open ==> #[trigger] text[i] == before[i]
            &&& forall|i: int| open <= i < inside ==> #[trigger] text[i] == mark[i - open]
            &&& forall|i: int| inside <= i < close ==> #[trigger] text[i] == inner[i - inside]
            &&& forall|i: int| close <= i < behind ==> #[trigger] text[i] == mark[i - close]
            &&& forall|i: int| behind <= i < text.len() ==> #[trigger] text[i] == after[i - behind]
        }),
{
    let text = wrapped(before, mark, inner, after);
    let open = before.len() as int;
    let close = open + mark.len() + inner.len();
    assert(text.subrange(open, open + mark.len()) =~= mark);
    assert(text.subrange(close, close + mark.len()) =~= mark);
}

/// What a wrapped text of plain parts is made of.
proof fn lemma_wrapped_plain(
    before: Seq<char>,
    mark: Seq<char>,
    character: char,
    inner: Seq<char>,
    after: Seq<char>,
)
    requires
        plain(before),
        plain(inner),
        plain(after),
        inner.len() > 0,
        mark.len() > 0,
        is_mark(character),
        character != '\\',
        forall|i: int| 0 <= i < mark.len() ==> #[trigger] mark[i] == character,
    ensures
        ({
            let text = wrapped(before, mark, inner, after);
            let open = before.len() as int;
            let close = open + mark.len() + inner.len();
            &&& !escaped(text, open)
            &&& !escaped(text, close)
            &&& forall|i: int|
                0 <= i < text.len() ==> if open <= i < open + mark.len() || close <= i < close
                    + mark.len() {
                    #[trigger] text[i] == character
                } else {
                    !is_mark(text[i])
                }
        }),
{
    lemma_wrapped(before, mark, inner, after);
    let text = wrapped(before, mark, inner, after);
    let open = before.len() as int;
    let inside = open + mark.len();
    let close = inside + inner.len();
    let behind = close + mark.len();
    assert forall|i: int| 0 <= i < text.len() implies if open <= i < inside || close <= i
        < behind {
        #[trigger] text[i] == character
    } else {
        !is_mark(text[i])
    } by {
        if i < open {
            assert(!is_mark(before[i]));
        } else if inside <= i < close {
            assert(!is_mark(inner[i - inside]));
        } else if behind <= i {
            assert(!is_mark(after[i - behind]));
        }
    }
    if open > 0 {
        assert(!is_mark(text[open - 1]));
    }
    assert(!is_mark(text[close - 1]));
}

/// The emphasis of two runs of as many stars.
proof fn lemma_pair_emphasis(text: Seq<char>, open: (int, int), close: (int, int))
    requires
        star_runs(text, 0, text.len() as int, Seq::<(int, int)>::empty()) == seq![open, close],
        0 <= open.0 < open.1 < close.0 < close.1,
        close.1 <= text.len(),
        open.1 - open.0 == close.1 - close.0,
        open.1 - open.0 <= 2,
        forall|i: int| open.1 <= i < close.0 ==> #[trigger] text[i] != '*',
    ensures
        emphasis_spans(text, 0, text.len() as int, Seq::<(int, int)>::empty()) == seq![
            between(
                if open.1 - open.0 == 2 {
                    SpanKind::Bold
                } else {
                    SpanKind::Italic
                },
                open,
                close,
            ),
        ],
{
    let none = Seq::<(int, int)>::empty();
    let runs = seq![open, close];
    let all = Seq::new(runs.len(), |k: int| true);
    let end = text.len() as int;
    reveal_with_fuel(partner, 3);
    reveal_with_fuel(triple_pass, 3);
    assert(triple_pass(runs, all, 0) == (Seq::<SpanView>::empty(), all));
    if open.1 - open.0 == 2 {
        let hidden = none + seq![open, close];
        lemma_no_stars(text, open.1, close.0, hidden);
        assert(nested_spans(text, (open.1, close.0), hidden, SpanKind::Italic, 1) =~= seq![]);
        let first = all.update(0, false).update(1, false);
        let after = without_inside(runs, first, (open.1, close.0));
        assert(after =~= first);
        assert(double_pass(text, runs, after, 1, none) == (Seq::<SpanView>::empty(), after)) by {
            reveal_with_fuel(double_pass, 3);
        }
        assert(double_pass(text, runs, all, 0, none).0 =~= seq![
            between(SpanKind::Bold, open, close),
        ]);
        let taken = none + taken_runs(runs, after, 2);
        reveal_with_fuel(single_pass, 3);
        assert(single_pass(text, runs, after, 0, taken) =~= seq![]);
    } else {
        reveal_with_fuel(double_pass, 3);
        assert(double_pass(text, runs, all, 0, none) == (Seq::<SpanView>::empty(), all));
        let taken = none + taken_runs(runs, all, 2);
        let hidden = taken + seq![open, close];
        lemma_no_stars(text, open.1, close.0, hidden);
        assert(nested_spans(text, (open.1, close.0), hidden, SpanKind::Bold, 2) =~= seq![]);
        let after = all.update(0, false).update(1, false);
        assert(single_pass(text, runs, after, 1, taken) =~= seq![]) by {
            reveal_with_fuel(single_pass, 3);
        }
        assert(single_pass(text, runs, all, 0, taken) =~= seq![
            between(SpanKind::Italic, open, close),
        ]);
    }
    assert(emphasis_spans(text, 0, end, none).len() == 1);
}

proof fn lemma_only_stars(text: Seq<char>)
    requires
        forall|i: int|
            0 <= i < text.len() ==> #[trigger] text[i] == '*' || !is_mark(text[i]),
        starts_as_text(text),
    ensures
        spans_of(text) == emphasis_spans(
            text,
            0,
            text.len() as int,
            Seq::<(int, int)>::empty(),
        ),
{
    let end = text.len() as int;
    let none = Seq::<(int, int)>::empty();
    lemma_text_line(text);
    lemma_only_emphasis(text, 0);
    lemma_no_mark(text, 0, end, seq!['~', '~'], none);
    lemma_no_mark(text, 0, end, seq!['=', '='], none);
    assert(inline_spans(text, 0, end) =~= emphasis_spans(text, 0, end, none));
}

/// Between double stars a plain text is bold, and nothing else is styled.
pub proof fn law_double_stars_are_bold(before: Seq<char>, inner: Seq<char>, after: Seq<char>)
    requires
        plain(before),
        plain(inner),
        plain(after),
        inner.len() > 0,
        before.len() > 0 ==> starts_as_text(before),
    ensures
        spans_of(wrapped(before, seq!['*', '*'], inner, after)) == seq![
            span_round(SpanKind::Bold, before.len() as int, 2, inner.len() as int),
        ],
{
    let mark = seq!['*', '*'];
    let text = wrapped(before, mark, inner, after);
    let at = before.len() as int;
    let size = inner.len() as int;
    lemma_wrapped(before, mark, inner, after);
    lemma_wrapped_plain(before, mark, '*', inner, after);
    let open = (at, at + 2);
    let close = (at + 2 + size, at + 4 + size);
    if at > 0 {
        assert(text[0] == before[0]);
        assert(!is_mark(text[0]));
    } else {
        assert(text[0] == '*' && text[1] == '*');
    }
    assert(starts_as_text(text));
    lemma_only_stars(text);
    lemma_two_runs(text, open, close);
    lemma_pair_emphasis(text, open, close);
    let found = span_round(SpanKind::Bold, at, 2, size);
    assert(found.markers =~= between(SpanKind::Bold, open, close).markers);
}

/// Between single stars a plain text is italic, and nothing else is styled.
pub proof fn law_single_stars_are_italic(before: Seq<char>, inner: Seq<char>, after: Seq<char>)
    requires
        plain(before),
        plain(inner),
        plain(after),
        inner.len() > 0,
        starts_as_text(wrapped(before, seq!['*'], inner, after)),
    ensures
        spans_of(wrapped(before, seq!['*'], inner, after)) == seq![
            span_round(SpanKind::Italic, before.len() as int, 1, inner.len() as int),
        ],
{
    let mark = seq!['*'];
    let text = wrapped(before, mark, inner, after);
    let at = before.len() as int;
    let size = inner.len() as int;
    lemma_wrapped(before, mark, inner, after);
    lemma_wrapped_plain(before, mark, '*', inner, after);
    let open = (at, at + 1);
    let close = (at + 1 + size, at + 2 + size);
    lemma_only_stars(text);
    lemma_two_runs(text, open, close);
    lemma_pair_emphasis(text, open, close);
    let found = span_round(SpanKind::Italic, at, 1, size);
    assert(found.markers =~= between(SpanKind::Italic, open, close).markers);
}

/// The passes find nothing where no run is left.
proof fn lemma_none_left(
    text: Seq<char>,
    runs: Seq<(int, int)>,
    left: Seq<bool>,
    at: int,
    excluded: Seq<(int, int)>,
)
    requires
        0 <= at,
        left.len() == runs.len(),
        forall|k: int| 0 <= k < left.len() ==> !(#[trigger] left[k]),
    ensures
        double_pass(text, runs, left, at, excluded) == (Seq::<SpanView>::empty(), left),
        single_pass(text, runs, left, at, excluded) == Seq::<SpanView>::empty(),
    decreases runs.len() - at,
{
    if at < runs.len() {
        assert(!left[at]);
        lemma_none_left(text, runs, left, at + 1, excluded);
    }
}

/// The emphasis of two runs of three stars or more.
proof fn lemma_triple_emphasis(text: Seq<char>, open: (int, int), close: (int, int))
    requires
        star_runs(text, 0, text.len() as int, Seq::<(int, int)>::empty()) == seq![open, close],
        0 <= open.0 < open.1 < close.0 < close.1,
        close.1 <= text.len(),
        open.1 - open.0 >= 3,
        close.1 - close.0 >= 3,
    ensures
        emphasis_spans(text, 0, text.len() as int, Seq::<(int, int)>::empty()) == seq![
            between(SpanKind::Bold, open, close),
            SpanView { kind: SpanKind::Italic, markers: seq![], content: (open.1, close.0) },
        ],
{
    let none = Seq::<(int, int)>::empty();
    let runs = seq![open, close];
    let all = Seq::new(runs.len(), |k: int| true);
    let end = text.len() as int;
    reveal_with_fuel(partner, 3);
    let after = all.update(0, false).update(1, false);
    assert(triple_pass(runs, after, 1) == (Seq::<SpanView>::empty(), after)) by {
        reveal_with_fuel(triple_pass, 3);
    }
    let pair = seq![
        between(SpanKind::Bold, open, close),
        SpanView { kind: SpanKind::Italic, markers: seq![], content: (open.1, close.0) },
    ];
    assert(triple_pass(runs, all, 0).0 =~= pair);
    lemma_none_left(text, runs, after, 0, none);
    let taken = none + taken_runs(runs, after, 2);
    lemma_none_left(text, runs, after, 0, taken);
    assert(emphasis_spans(text, 0, end, none) =~= pair);
}

/// Between runs of three stars a plain text is bold, with the markers, and italic.
pub proof fn law_triple_stars_are_bold_and_italic(
    before: Seq<char>,
    inner: Seq<char>,
    after: Seq<char>,
)
    requires
        plain(before),
        plain(inner),
        plain(after),
        inner.len() > 0,
        before.len() > 0 ==> starts_as_text(before),
    ensures
        ({
            let at = before.len() as int;
            let size = inner.len() as int;
            spans_of(wrapped(before, seq!['*', '*', '*'], inner, after)) == seq![
                span_round(SpanKind::Bold, at, 3, size),
                SpanView {
                    kind: SpanKind::Italic,
                    markers: seq![],
                    content: (at + 3, at + 3 + size),
                },
            ]
        }),
{
    let mark = seq!['*', '*', '*'];
    let text = wrapped(before, mark, inner, after);
    let at = before.len() as int;
    let size = inner.len() as int;
    lemma_wrapped(before, mark, inner, after);
    lemma_wrapped_plain(before, mark, '*', inner, after);
    let open = (at, at + 3);
    let close = (at + 3 + size, at + 6 + size);
    if at > 0 {
        assert(text[0] == before[0]);
        assert(!is_mark(text[0]));
    } else {
        assert(text[0] == '*' && text[1] == '*');
    }
    assert(starts_as_text(text));
    lemma_only_stars(text);
    lemma_two_runs(text, open, close);
    lemma_triple_emphasis(text, open, close);
    let found = span_round(SpanKind::Bold, at, 3, size);
    assert(found.markers =~= between(SpanKind::Bold, open, close).markers);
}

proof fn lemma_one_marked_span(kind: SpanKind, at: int, size: int)
    requires
        size > 0,
    ensures
        marked_spans(kind, seq![(at, at + 4 + size)]) == seq![span_round(kind, at, 2, size)],
        marked_spans(kind, Seq::<(int, int)>::empty()) == Seq::<SpanView>::empty(),
{
    let range = (at, at + 4 + size);
    let found = span_round(kind, at, 2, size);
    let shown = crate::markdown_spans::marked_span(kind, range);
    assert(found.markers =~= shown.markers);
    assert(seq![range].drop_last() =~= Seq::<(int, int)>::empty());
    assert(seq![range].last() == range);
    reveal_with_fuel(marked_spans, 2);
    assert(marked_spans(kind, seq![range]) =~= seq![found]);
}

proof fn lemma_two_marks_found(text: Seq<char>, at: int, size: int, character: char, kind: SpanKind)
    requires
        starts_as_text(text),
        0 <= at,
        size > 0,
        at + 4 + size <= text.len(),
        stands_at(text, seq![character, character], at),
        stands_at(text, seq![character, character], at + 2 + size),
        !escaped(text, at),
        !escaped(text, at + 2 + size),
        forall|i: int|
            0 <= i < text.len() ==> if at <= i < at + 2 || at + 2 + size <= i < at + 4 + size {
                #[trigger] text[i] == character
            } else {
                !is_mark(text[i])
            },
        kind is Strikethrough && character == '~' || kind is Highlight && character == '=',
    ensures
        spans_of(text) == seq![span_round(kind, at, 2, size)],
{
    let mark = seq![character, character];
    let end = text.len() as int;
    let none = Seq::<(int, int)>::empty();
    lemma_text_line(text);
    lemma_only_emphasis(text, 0);
    lemma_no_stars(text, 0, end, none);
    lemma_one_range(text, at, at + 2 + size, mark);
    lemma_one_marked_span(SpanKind::Strikethrough, at, size);
    lemma_one_marked_span(SpanKind::Highlight, at, size);
    if kind is Strikethrough {
        lemma_no_mark(text, 0, end, seq!['=', '='], none);
    } else {
        lemma_no_mark(text, 0, end, seq!['~', '~'], none);
    }
    assert(inline_spans(text, 0, end) =~= seq![span_round(kind, at, 2, size)]);
}

proof fn lemma_two_marks(
    before: Seq<char>,
    character: char,
    kind: SpanKind,
    inner: Seq<char>,
    after: Seq<char>,
)
    requires
        plain(before),
        plain(inner),
        plain(after),
        inner.len() > 0,
        before.len() > 0 ==> starts_as_text(before),
        kind is Strikethrough && character == '~' || kind is Highlight && character == '=',
    ensures
        spans_of(wrapped(before, seq![character, character], inner, after)) == seq![
            span_round(kind, before.len() as int, 2, inner.len() as int),
        ],
{
    let mark = seq![character, character];
    let text = wrapped(before, mark, inner, after);
    let at = before.len() as int;
    lemma_wrapped(before, mark, inner, after);
    lemma_wrapped_plain(before, mark, character, inner, after);
    if at > 0 {
        assert(text[0] == before[0]);
        assert(!is_mark(text[0]));
    } else {
        assert(text[0] == character);
    }
    assert(starts_as_text(text));
    lemma_two_marks_found(text, at, inner.len() as int, character, kind);
}

/// Between two tildes on each side a plain text is struck through, and nothing else
/// is styled.
pub proof fn law_double_tildes_strike_through(
    before: Seq<char>,
    inner: Seq<char>,
    after: Seq<char>,
)
    requires
        plain(before),
        plain(inner),
        plain(after),
        inner.len() > 0,
        before.len() > 0 ==> starts_as_text(before),
    ensures
        spans_of(wrapped(before, seq!['~', '~'], inner, after)) == seq![
            span_round(SpanKind::Strikethrough, before.len() as int, 2, inner.len() as int),
        ],
{
    lemma_two_marks(before, '~', SpanKind::Strikethrough, inner, after);
}

/// Between two equals signs on each side a plain text is highlighted, and nothing
/// else is styled.
pub proof fn law_double_equals_highlight(before: Seq<char>, inner: Seq<char>, after: Seq<char>)
    requires
        plain(before),
        plain(inner),
        plain(after),
        inner.len() > 0,
        before.len() > 0 ==> starts_as_text(before),
    ensures
        spans_of(wrapped(before, seq!['=', '='], inner, after)) == seq![
            span_round(SpanKind::Highlight, before.len() as int, 2, inner.len() as int),
        ],
{
    lemma_two_marks(before, '=', SpanKind::Highlight, inner, after);
}

/// Between backticks a text is code, whatever marks stand in it: they show nothing.
pub proof fn law_code_hides_its_marks(before: Seq<char>, inner: Seq<char>, after: Seq<char>)
    requires
        plain(before),
        plain(after),
        forall|i: int| 0 <= i < inner.len() ==> #[trigger] inner[i] != '`' && inner[i] != '\n',
        inner.len() > 0 ==> inner.last() != '\\',
        before.len() > 0 ==> starts_as_text(before),
    ensures
        spans_of(wrapped(before, seq!['`'], inner, after)) == seq![
            span_round(SpanKind::InlineCode, before.len() as int, 1, inner.len() as int),
        ],
{
    let mark = seq!['`'];
    let text = wrapped(before, mark, inner, after);
    let end = text.len() as int;
    let none = Seq::<(int, int)>::empty();
    let at = before.len() as int;
    let size = inner.len() as int;
    let close = at + 1 + size;
    lemma_wrapped(before, mark, inner, after);
    assert forall|i: int| 0 <= i < at || close < i < end implies !is_mark(#[trigger] text[i]) by {
        if i < at {
            assert(!is_mark(before[i]));
        } else {
            assert(!is_mark(after[i - close - 1]));
        }
    }
    assert forall|i: int| 0 <= i < end implies #[trigger] text[i] != '\n' by {
        if at < i < close {
            assert(inner[i - at - 1] != '\n');
        }
    }
    if at > 0 {
        assert(text[0] == before[0]);
    } else {
        assert(text[0] == '`');
    }
    if at > 0 {
        assert(!is_mark(text[at - 1]));
    }
    assert(text[at] == '`');
    if size > 0 {
        assert(text[close - 1] == inner[size - 1]);
    }
    assert(starts_as_text(text));
    lemma_text_line(text);
    lemma_one_range(text, at, close, mark);
    let codes = seq![(at, close + 1)];
    assert forall|i: int| at <= i <= close implies #[trigger] excluded_at(codes, i) by {
        assert(codes[0].0 <= i < codes[0].1);
    }
    assert forall|i: int| 0 <= i < end && is_mark(#[trigger] text[i]) implies excluded_at(
        codes,
        i,
    ) by {
        assert(at <= i <= close);
    }
    lemma_no_links(text, 0, end, codes);
    let links = link_spans(text, 0, end, codes);
    let excluded = codes + Seq::new(links.len(), |i: int| full_range(links[i]));
    assert(excluded =~= codes);
    lemma_no_stars(text, 0, end, codes);
    lemma_no_mark(text, 0, end, seq!['~', '~'], codes);
    lemma_no_mark(text, 0, end, seq!['=', '='], codes);
    let found = span_round(SpanKind::InlineCode, at, 1, size);
    assert(code_span((at, close + 1)).markers =~= found.markers);
    assert(inline_spans(text, 0, end) =~= seq![found]);
}

/// A text in brackets with an address in parentheses behind it is a link, whatever
/// marks other than backticks stand in it: they show nothing.
pub proof fn law_a_link_hides_its_marks(
    before: Seq<char>,
    inner: Seq<char>,
    target: Seq<char>,
    after: Seq<char>,
)
    requires
        plain(before),
        plain(after),
        inner.len() > 0,
        forall|i: int|
            0 <= i < inner.len() ==> #[trigger] inner[i] != '`' && inner[i] != '\n' && inner[i]
                != ']',
        forall|i: int|
            0 <= i < target.len() ==> #[trigger] target[i] != '`' && target[i] != '\n' && target[i]
                != ')',
        before.len() > 0 ==> starts_as_text(before),
    ensures
        ({
            let at = before.len() as int;
            let close = at + 1 + inner.len();
            let behind = close + 3 + target.len();
            spans_of(before + seq!['['] + inner + seq![']', '('] + target + seq![')'] + after)
                == seq![
                SpanView {
                    kind: SpanKind::Link,
                    markers: seq![(at, at + 1), (close, behind)],
                    content: (at + 1, close),
                },
            ]
        }),
{
    let text = before + seq!['['] + inner + seq![']', '('] + target + seq![')'] + after;
    let end = text.len() as int;
    let none = Seq::<(int, int)>::empty();
    let at = before.len() as int;
    let close = at + 1 + inner.len();
    let paren = close + 2 + target.len();
    assert forall|i: int| 0 <= i < at || paren < i < end implies !is_mark(#[trigger] text[i]) by {
        if i < at {
            assert(text[i] == before[i]);
            assert(!is_mark(before[i]));
        } else {
            assert(text[i] == after[i - paren - 1]);
            assert(!is_mark(after[i - paren - 1]));
        }
    }
    assert(text[at] == '[');
    assert(text[close] == ']');
    assert(text[close + 1] == '(');
    assert(text[paren] == ')');
    assert forall|i: int| at < i < close implies #[trigger] text[i] != '`' && text[i] != '\n'
        && text[i] != ']' by {
        assert(text[i] == inner[i - at - 1]);
    }
    assert forall|i: int| close + 2 <= i < paren implies #[trigger] text[i] != '`' && text[i]
        != '\n' && text[i] != ')' by {
        assert(text[i] == target[i - close - 2]);
    }
    assert forall|i: int| 0 <= i < end implies #[trigger] text[i] != '`' && text[i] != '\n' by {}
    if at > 0 {
        assert(text[0] == before[0]);
        assert(!is_mark(text[at - 1]));
    }
    assert(starts_as_text(text));
    lemma_text_line(text);
    lemma_no_mark(text, 0, end, seq!['`'], none);
    lemma_char_at(text, 0, at, end, '[', none);
    lemma_char_at(text, at + 1, close, end, ']', none);
    lemma_char_at(text, close + 2, paren, end, ')', none);
    lemma_no_links(text, paren + 1, end, none);
    let link = link_span(at, close, paren);
    let links = link_spans(text, 0, end, none);
    assert(links =~= seq![link]);
    let covered = seq![(at, paren + 1)];
    let excluded = none + Seq::new(links.len(), |i: int| full_range(links[i]));
    assert(full_range(link) == (at, paren + 1));
    assert(excluded =~= covered);
    assert forall|i: int| 0 <= i < end && is_mark(#[trigger] text[i]) implies excluded_at(
        covered,
        i,
    ) by {
        assert(covered[0].0 <= i < covered[0].1);
    }
    lemma_no_stars(text, 0, end, covered);
    lemma_no_mark(text, 0, end, seq!['~', '~'], covered);
    lemma_no_mark(text, 0, end, seq!['=', '='], covered);
    let codes = marked_ranges(text, 0, end, seq!['`'], none);
    assert(Seq::new(codes.len(), |i: int| code_span(codes[i])) =~= seq![]);
    assert(inline_spans(text, 0, end) =~= seq![link]);
}

// One emphasis within another.

/// Two runs of stars that stand within two others.
proof fn lemma_four_runs(
    text: Seq<char>,
    outer_open: (int, int),
    open: (int, int),
    close: (int, int),
    outer_close: (int, int),
)
    requires
        0 <= outer_open.0 < outer_open.1 < open.0 < open.1 < close.0 < close.1 < outer_close.0
            < outer_close.1,
        outer_close.1 <= text.len(),
        forall|i: int|
            0 <= i < text.len() ==> ((#[trigger] text[i] == '*') <==> (outer_open.0 <= i
                < outer_open.1 || open.0 <= i < open.1 || close.0 <= i < close.1 || outer_close.0
                <= i < outer_close.1)),
        forall|i: int| 0 <= i < text.len() ==> #[trigger] text[i] != '\\',
    ensures
        star_runs(text, 0, text.len() as int, Seq::<(int, int)>::empty()) == seq![
            outer_open,
            open,
            close,
            outer_close,
        ],
{
    let none = Seq::<(int, int)>::empty();
    let end = text.len() as int;
    lemma_stars_skipped(text, 0, outer_open.0, end, none);
    lemma_star_run_at(text, outer_open.0, outer_open.1, end, none);
    lemma_stars_skipped(text, outer_open.1, open.0, end, none);
    lemma_star_run_at(text, open.0, open.1, end, none);
    lemma_stars_skipped(text, open.1, close.0, end, none);
    lemma_star_run_at(text, close.0, close.1, end, none);
    lemma_stars_skipped(text, close.1, outer_close.0, end, none);
    lemma_star_run_at(text, outer_close.0, outer_close.1, end, none);
    lemma_no_stars(text, outer_close.1, end, none);
    assert(star_runs(text, 0, end, none) =~= seq![outer_open, open, close, outer_close]);
}

/// Two runs between others, within a range that those others hide.
proof fn lemma_inner_runs(
    text: Seq<char>,
    from: int,
    open: (int, int),
    close: (int, int),
    end: int,
    excluded: Seq<(int, int)>,
)
    requires
        0 <= from < open.0 < open.1 < close.0 < close.1 < end,
        end <= text.len(),
        forall|i: int|
            from <= i < end ==> ((#[trigger] text[i] == '*') <==> (open.0 <= i < open.1 || close.0
                <= i < close.1)),
        forall|i: int| 0 <= i < text.len() ==> #[trigger] text[i] != '\\',
        forall|i: int| from <= i < end ==> !(#[trigger] excluded_at(excluded, i)),
    ensures
        star_runs(text, from, end, excluded) == seq![open, close],
{
    lemma_stars_skipped(text, from, open.0, end, excluded);
    lemma_star_run_at(text, open.0, open.1, end, excluded);
    lemma_stars_skipped(text, open.1, close.0, end, excluded);
    lemma_star_run_at(text, close.0, close.1, end, excluded);
    lemma_no_stars(text, close.1, end, excluded);
    assert(star_runs(text, from, end, excluded) =~= seq![open, close]);
}

proof fn lemma_pair_nested(
    text: Seq<char>,
    content: (int, int),
    excluded: Seq<(int, int)>,
    kind: SpanKind,
    open: (int, int),
    close: (int, int),
    count: int,
)
    requires
        star_runs(text, content.0, content.1, excluded) == seq![open, close],
        open.1 < close.0,
        star_count(open) == count,
        star_count(close) == count,
    ensures
        nested_spans(text, content, excluded, kind, count) == seq![between(kind, open, close)],
{
    let runs = seq![open, close];
    let one = runs.drop_last();
    assert(one =~= seq![open]);
    assert(one.drop_last() =~= seq![]);
    assert(one.last() == open && runs.last() == close);
    reveal_with_fuel(runs_of, 3);
    assert(runs_of(runs, count) =~= runs);
    reveal_with_fuel(paired_spans, 2);
    assert(paired_spans(kind, runs, 0) =~= seq![between(kind, open, close)]);
}

/// Single stars within double stars.
proof fn lemma_italic_in_bold(
    text: Seq<char>,
    outer_open: (int, int),
    open: (int, int),
    close: (int, int),
    outer_close: (int, int),
)
    requires
        0 <= outer_open.0 < outer_open.1 < open.0 < open.1 < close.0 < close.1 < outer_close.0
            < outer_close.1,
        outer_close.1 <= text.len(),
        outer_open.1 - outer_open.0 == 2,
        outer_close.1 - outer_close.0 == 2,
        open.1 - open.0 == 1,
        close.1 - close.0 == 1,
        star_runs(text, 0, text.len() as int, Seq::<(int, int)>::empty()) == seq![
            outer_open,
            open,
            close,
            outer_close,
        ],
        star_runs(
            text,
            outer_open.1,
            outer_close.0,
            Seq::<(int, int)>::empty() + seq![outer_open, outer_close],
        ) == seq![open, close],
    ensures
        emphasis_spans(text, 0, text.len() as int, Seq::<(int, int)>::empty()) == seq![
            between(SpanKind::Bold, outer_open, outer_close),
            between(SpanKind::Italic, open, close),
        ],
{
    let none = Seq::<(int, int)>::empty();
    let runs = seq![outer_open, open, close, outer_close];
    let all = Seq::new(runs.len(), |k: int| true);
    let content = (outer_open.1, outer_close.0);
    let hidden = none + seq![outer_open, outer_close];
    reveal_with_fuel(partner, 5);
    assert(triple_pass(runs, all, 0) == (Seq::<SpanView>::empty(), all)) by {
        reveal_with_fuel(triple_pass, 5);
    }
    lemma_pair_nested(text, content, hidden, SpanKind::Italic, open, close, 1);
    let after = without_inside(runs, all.update(0, false).update(3, false), content);
    assert forall|k: int| 0 <= k < after.len() implies !(#[trigger] after[k]) by {
        if k == 1 {
            assert(runs[1] == open);
        } else if k == 2 {
            assert(runs[2] == close);
        }
    }
    lemma_none_left(text, runs, after, 1, none);
    assert(partner(runs, all, 1, 2) == Some(3int));
    let pair = seq![
        between(SpanKind::Bold, outer_open, outer_close),
        between(SpanKind::Italic, open, close),
    ];
    assert(double_pass(text, runs, all, 0, none).0 =~= pair);
    assert(double_pass(text, runs, all, 0, none).1 == after);
    lemma_none_left(text, runs, after, 0, none + taken_runs(runs, after, 4));
    assert(emphasis_spans(text, 0, text.len() as int, none) =~= pair);
}

/// Double stars within single stars.
proof fn lemma_bold_in_italic(
    text: Seq<char>,
    outer_open: (int, int),
    open: (int, int),
    close: (int, int),
    outer_close: (int, int),
)
    requires
        0 <= outer_open.0 < outer_open.1 < open.0 < open.1 < close.0 < close.1 < outer_close.0
            < outer_close.1,
        outer_close.1 <= text.len(),
        outer_open.1 - outer_open.0 == 1,
        outer_close.1 - outer_close.0 == 1,
        open.1 - open.0 == 2,
        close.1 - close.0 == 2,
        star_runs(text, 0, text.len() as int, Seq::<(int, int)>::empty()) == seq![
            outer_open,
            open,
            close,
            outer_close,
        ],
        forall|i: int|
            outer_open.1 <= i < outer_close.0 && #[trigger] text[i] == '*' ==> open.0 <= i < open.1
                || close.0 <= i < close.1,
    ensures
        emphasis_spans(text, 0, text.len() as int, Seq::<(int, int)>::empty()) == seq![
            between(SpanKind::Bold, open, close),
            between(SpanKind::Italic, outer_open, outer_close),
        ],
{
    let none = Seq::<(int, int)>::empty();
    let runs = seq![outer_open, open, close, outer_close];
    let all = Seq::new(runs.len(), |k: int| true);
    reveal_with_fuel(partner, 5);
    assert(triple_pass(runs, all, 0) == (Seq::<SpanView>::empty(), all)) by {
        reveal_with_fuel(triple_pass, 5);
    }
    let content = (open.1, close.0);
    let hidden = none + seq![open, close];
    lemma_no_stars(text, open.1, close.0, hidden);
    assert(nested_spans(text, content, hidden, SpanKind::Italic, 1) =~= seq![]);
    let first = all.update(1, false).update(2, false);
    let after = without_inside(runs, first, content);
    assert(runs[0] == outer_open && runs[3] == outer_close);
    assert(after =~= first);
    assert(double_pass(text, runs, after, 2, none) == (Seq::<SpanView>::empty(), after)) by {
        reveal_with_fuel(double_pass, 3);
    }
    let bold = seq![between(SpanKind::Bold, open, close)];
    assert(partner(runs, all, 2, 2) == Some(2int));
    assert(double_pass(text, runs, all, 1, none).0 =~= bold);
    assert(double_pass(text, runs, all, 0, none).0 =~= bold);
    assert(double_pass(text, runs, all, 0, none).1 == after);
    reveal_with_fuel(taken_runs, 5);
    let took = taken_runs(runs, after, 4);
    assert(took =~= seq![open, close]);
    let taken = none + took;
    let covered = taken + seq![outer_open, outer_close];
    assert forall|i: int|
        outer_open.1 <= i < outer_close.0 && #[trigger] text[i] == '*' implies excluded_at(
        covered,
        i,
    ) by {
        assert(covered[0] == open && covered[1] == close);
    }
    lemma_no_stars(text, outer_open.1, outer_close.0, covered);
    let within = (outer_open.1, outer_close.0);
    assert(nested_spans(text, within, covered, SpanKind::Bold, 2) =~= seq![]);
    let last = after.update(0, false).update(3, false);
    lemma_none_left(text, runs, last, 1, taken);
    assert(partner(runs, after, 1, 1) == Some(3int));
    assert(single_pass(text, runs, after, 0, taken) =~= seq![
        between(SpanKind::Italic, outer_open, outer_close),
    ]);
    assert(emphasis_spans(text, 0, text.len() as int, none) =~= seq![
        between(SpanKind::Bold, open, close),
        between(SpanKind::Italic, outer_open, outer_close),
    ]);
}

/// What stands where where one wrapped text is wrapped in stars once more.
proof fn lemma_wrapped_twice(
    before: Seq<char>,
    outer: Seq<char>,
    left: Seq<char>,
    mark: Seq<char>,
    inner: Seq<char>,
    right: Seq<char>,
    after: Seq<char>,
)
    requires
        plain(before),
        plain(left),
        plain(inner),
        plain(right),
        plain(after),
        forall|i: int| 0 <= i < outer.len() ==> #[trigger] outer[i] == '*',
        forall|i: int| 0 <= i < mark.len() ==> #[trigger] mark[i] == '*',
    ensures
        ({
            let text = wrapped(before, outer, wrapped(left, mark, inner, right), after);
            let a = before.len() as int;
            let b = a + outer.len() + left.len();
            let c = b + mark.len() + inner.len();
            let d = c + mark.len() + right.len();
            &&& text.len() == d + outer.len() + after.len()
            &&& forall|i: int|
                0 <= i < text.len() ==> ((#[trigger] text[i] == '*') <==> (a <= i < a + outer.len()
                    || b <= i < b + mark.len() || c <= i < c + mark.len() || d <= i < d
                    + outer.len()))
            &&& forall|i: int|
                0 <= i < text.len() ==> #[trigger] text[i] == '*' || !is_mark(text[i])
        }),
{
    let middle = wrapped(left, mark, inner, right);
    let text = wrapped(before, outer, middle, after);
    lemma_wrapped(before, outer, middle, after);
    lemma_wrapped(left, mark, inner, right);
    let a = before.len() as int;
    let from = a + outer.len();
    let b = from + left.len();
    let c = b + mark.len() + inner.len();
    let d = c + mark.len() + right.len();
    assert(middle.len() == d - from);
    assert forall|i: int| 0 <= i < text.len() implies if a <= i < a + outer.len() || b <= i < b
        + mark.len() || c <= i < c + mark.len() || d <= i < d + outer.len() {
        #[trigger] text[i] == '*'
    } else {
        !is_mark(text[i])
    } by {
        if i < a {
            assert(!is_mark(before[i]));
        } else if i < from {
            assert(outer[i - a] == '*');
        } else if i < d {
            let j = i - from;
            assert(text[i] == middle[j]);
            if i < b {
                assert(!is_mark(left[j]));
            } else if i < b + mark.len() {
                assert(mark[i - b] == '*');
            } else if i < c {
                assert(!is_mark(inner[i - b - mark.len()]));
            } else if i < c + mark.len() {
                assert(mark[i - c] == '*');
            } else {
                assert(!is_mark(right[i - c - mark.len()]));
            }
        } else if i < d + outer.len() {
            assert(outer[i - d] == '*');
        } else {
            assert(!is_mark(after[i - d - outer.len()]));
        }
    }
}

/// Single stars within double stars are italic within bold: the bold span has the
/// double stars for its markers, the italic one the single stars, and there is no
/// other.
pub proof fn law_italic_nests_in_bold(
    before: Seq<char>,
    left: Seq<char>,
    inner: Seq<char>,
    right: Seq<char>,
    after: Seq<char>,
)
    requires
        plain(before),
        plain(left),
        plain(inner),
        plain(right),
        plain(after),
        left.len() > 0,
        inner.len() > 0,
        right.len() > 0,
        before.len() > 0 ==> starts_as_text(before),
    ensures
        spans_of(
            wrapped(before, seq!['*', '*'], wrapped(left, seq!['*'], inner, right), after),
        ) == seq![
            span_round(
                SpanKind::Bold,
                before.len() as int,
                2,
                left.len() as int + 1 + inner.len() + 1 + right.len(),
            ),
            span_round(
                SpanKind::Italic,
                before.len() as int + 2 + left.len(),
                1,
                inner.len() as int,
            ),
        ],
{
    let outer = seq!['*', '*'];
    let mark = seq!['*'];
    let text = wrapped(before, outer, wrapped(left, mark, inner, right), after);
    lemma_wrapped_twice(before, outer, left, mark, inner, right, after);
    let a = before.len() as int;
    let b = a + 2 + left.len();
    let c = b + 1 + inner.len();
    let d = c + 1 + right.len();
    if a > 0 {
        lemma_wrapped(before, outer, wrapped(left, mark, inner, right), after);
        assert(text[0] == before[0]);
    } else {
        assert(text[0] == '*' && text[1] == '*');
    }
    assert(starts_as_text(text));
    lemma_only_stars(text);
    let outer_open = (a, a + 2);
    let open = (b, b + 1);
    let close = (c, c + 1);
    let outer_close = (d, d + 2);
    lemma_four_runs(text, outer_open, open, close, outer_close);
    let hidden = Seq::<(int, int)>::empty() + seq![outer_open, outer_close];
    assert forall|i: int| a + 2 <= i < d implies !(#[trigger] excluded_at(hidden, i)) by {
        assert(hidden[0] == outer_open && hidden[1] == outer_close);
    }
    lemma_inner_runs(text, a + 2, open, close, d, hidden);
    lemma_italic_in_bold(text, outer_open, open, close, outer_close);
    let size = left.len() as int + 1 + inner.len() + 1 + right.len();
    let bold = span_round(SpanKind::Bold, a, 2, size);
    assert(bold.markers =~= between(SpanKind::Bold, outer_open, outer_close).markers);
    let italic = span_round(SpanKind::Italic, b, 1, inner.len() as int);
    assert(italic.markers =~= between(SpanKind::Italic, open, close).markers);
}

/// Double stars within single stars are bold within italic, and there is no other
/// span.
pub proof fn law_bold_nests_in_italic(
    before: Seq<char>,
    left: Seq<char>,
    inner: Seq<char>,
    right: Seq<char>,
    after: Seq<char>,
)
    requires
        plain(before),
        plain(left),
        plain(inner),
        plain(right),
        plain(after),
        left.len() > 0,
        inner.len() > 0,
        right.len() > 0,
        starts_as_text(
            wrapped(before, seq!['*'], wrapped(left, seq!['*', '*'], inner, right), after),
        ),
    ensures
        spans_of(
            wrapped(before, seq!['*'], wrapped(left, seq!['*', '*'], inner, right), after),
        ) == seq![
            span_round(
                SpanKind::Bold,
                before.len() as int + 1 + left.len(),
                2,
                inner.len() as int,
            ),
            span_round(
                SpanKind::Italic,
                before.len() as int,
                1,
                left.len() as int + 2 + inner.len() + 2 + right.len(),
            ),
        ],
{
    let outer = seq!['*'];
    let mark = seq!['*', '*'];
    let text = wrapped(before, outer, wrapped(left, mark, inner, right), after);
    lemma_wrapped_twice(before, outer, left, mark, inner, right, after);
    let a = before.len() as int;
    let b = a + 1 + left.len();
    let c = b + 2 + inner.len();
    let d = c + 2 + right.len();
    lemma_only_stars(text);
    let outer_open = (a, a + 1);
    let open = (b, b + 2);
    let close = (c, c + 2);
    let outer_close = (d, d + 1);
    lemma_four_runs(text, outer_open, open, close, outer_close);
    lemma_bold_in_italic(text, outer_open, open, close, outer_close);
    let size = left.len() as int + 2 + inner.len() + 2 + right.len();
    let italic = span_round(SpanKind::Italic, a, 1, size);
    assert(italic.markers =~= between(SpanKind::Italic, outer_open, outer_close).markers);
    let bold = span_round(SpanKind::Bold, b, 2, inner.len() as int);
    assert(bold.markers =~= between(SpanKind::Bold, open, close).markers);
}

} // verus!
