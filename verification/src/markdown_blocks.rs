//! Which block a line is: what a prefix makes of the line that it starts.

use vstd::prelude::*;

use crate::markdown_forms::{
    lemma_no_prefix_at, lemma_one_line, lemma_quiet_inline, lemma_text_line, plain, starts_as_text,
};
use crate::markdown_lines::{embeds, lemma_inline_moves, shift_spans};
use crate::markdown_spans::{
    block_of, digits_from, escaped, is_divider, prefix_at, spans_of, SpanKind, SpanView,
};
use crate::text::{
    is_space, lemma_skip_space_back_bounds, run_from, skip_space, skip_space_back, stands_at,
    trimmed, trimmed_start,
};

verus! {

/// Whether a text is whitespace on one line.
pub open spec fn blank(text: Seq<char>) -> bool {
    forall|i: int| 0 <= i < text.len() ==> is_space(#[trigger] text[i]) && text[i] != '\n'
}

/// Whether a text has no line break.
pub open spec fn one_line(text: Seq<char>) -> bool {
    forall|i: int| 0 <= i < text.len() ==> #[trigger] text[i] != '\n'
}

/// Whether a text is made of digits, and not empty.
pub open spec fn digits(text: Seq<char>) -> bool {
    text.len() > 0 && forall|i: int| 0 <= i < text.len() ==> '0' <= #[trigger] text[i] <= '9'
}

/// Whether a text starts as the box of a checklist does, behind its hyphen.
pub open spec fn starts_with_box(text: Seq<char>) -> bool {
    &&& text.len() >= 4
    &&& text[0] == '['
    &&& text[1] == ' ' || text[1] == 'x' || text[1] == 'X'
    &&& text[2] == ']'
    &&& text[3] == ' '
}

/// A block: one marker from the start of the line to the end of the prefix, and the
/// rest of the line for its content.
pub open spec fn block_span(kind: SpanKind, marker: int, end: int) -> SpanView {
    SpanView { kind, markers: seq![(0, marker)], content: (marker, end) }
}

/// Whether a line is a block of a kind with a prefix, and its body is styled as it
/// would be on its own.
pub open spec fn shows_block(
    kind: SpanKind,
    lead: Seq<char>,
    prefix: Seq<char>,
    body: Seq<char>,
) -> bool {
    let line = lead + prefix + body;
    let marker = lead.len() + prefix.len();
    let block = block_span(kind, marker as int, line.len() as int);
    &&& plain(body) ==> spans_of(line) == seq![block]
    &&& starts_as_text(body) ==> spans_of(line) == seq![block] + shift_spans(
        spans_of(body),
        marker as int,
    )
}

proof fn lemma_skip_exact(text: Seq<char>, at: int, to: int)
    requires
        0 <= at <= to < text.len(),
        forall|i: int| at <= i < to ==> is_space(#[trigger] text[i]),
        !is_space(text[to]),
    ensures
        skip_space(text, at) == to,
    decreases to - at,
{
    if at < to {
        lemma_skip_exact(text, at + 1, to);
    }
}

proof fn lemma_run_exact(text: Seq<char>, character: char, at: int, to: int)
    requires
        0 <= at <= to < text.len(),
        forall|i: int| at <= i < to ==> #[trigger] text[i] == character,
        text[to] != character,
    ensures
        run_from(text, character, at) == to - at,
    decreases to - at,
{
    if at < to {
        lemma_run_exact(text, character, at + 1, to);
    }
}

proof fn lemma_digits_exact(text: Seq<char>, at: int, to: int, end: int)
    requires
        0 <= at <= to < end,
        end <= text.len(),
        forall|i: int| at <= i < to ==> '0' <= #[trigger] text[i] <= '9',
        !('0' <= text[to] <= '9'),
    ensures
        digits_from(text, at, end) == to - at,
    decreases to - at,
{
    if at < to {
        lemma_digits_exact(text, at + 1, to, end);
    }
}

/// A line whose prefix is found is a block with a styled body.
proof fn lemma_block_line(
    kind: SpanKind,
    lead: Seq<char>,
    prefix: Seq<char>,
    body: Seq<char>,
)
    requires
        blank(lead),
        one_line(prefix),
        one_line(body),
        prefix.len() >= 2,
        prefix.last() == ' ',
        !is_space(prefix[0]),
        prefix[0] == '-' ==> prefix[1] == ' ',
        block_of(lead + prefix + body, 0, (lead + prefix + body).len() as int) == Some(
            (kind, lead.len() as int + prefix.len() as int),
        ),
    ensures
        shows_block(kind, lead, prefix, body),
{
    let line = lead + prefix + body;
    let end = line.len() as int;
    let marker = lead.len() as int + prefix.len() as int;
    assert forall|i: int| 0 <= i < end implies #[trigger] line[i] != '\n' by {
        if i < lead.len() {
            assert(line[i] == lead[i]);
        } else if i < marker {
            assert(line[i] == prefix[i - lead.len()]);
        } else {
            assert(line[i] == body[i - marker]);
        }
    }
    lemma_one_line(line);
    lemma_no_divider(lead, prefix, body);
    assert(line.subrange(0, end) =~= line);
    assert forall|i: int| 0 <= i < body.len() implies #[trigger] body[i] == line[marker + i] by {}
    assert(line[marker - 1] == prefix.last());
    assert(embeds(line, body, marker));
    lemma_inline_moves(line, body, marker, 0, body.len() as int);
    if plain(body) {
        assert forall|i: int|
            marker <= i < line.len() && crate::markdown_forms::is_mark(
                #[trigger] line[i],
            ) implies line[i] == '\\' || escaped(line, i) by {
            assert(line[i] == body[i - marker]);
        }
        lemma_quiet_inline(line, marker);
        assert(spans_of(line) =~= seq![block_span(kind, marker, end)]);
    }
    if starts_as_text(body) {
        lemma_text_line(body);
    }
}

proof fn lemma_no_divider(lead: Seq<char>, prefix: Seq<char>, body: Seq<char>)
    requires
        blank(lead),
        prefix.len() >= 2,
        !is_space(prefix[0]),
        prefix[0] == '-' ==> prefix[1] == ' ',
    ensures
        !is_divider(lead + prefix + body),
        skip_space(lead + prefix + body, 0) == lead.len(),
{
    let line = lead + prefix + body;
    let start = lead.len() as int;
    assert forall|i: int| 0 <= i < start implies is_space(#[trigger] line[i]) by {
        assert(line[i] == lead[i]);
    }
    assert(line[start] == prefix[0]);
    assert(line[start + 1] == prefix[1]);
    lemma_skip_exact(line, 0, start);
    let rest = trimmed_start(line);
    assert(rest == line.skip(start));
    assert(rest[0] == prefix[0] && rest[1] == prefix[1]);
    let size = rest.len() as int;
    lemma_skip_space_back_bounds(rest, size);
    let tail = skip_space_back(rest, size);
    let inner = trimmed(line);
    assert(inner == rest.take(tail));
    if inner.len() >= 3 {
        assert(inner[0] == prefix[0] && inner[1] == prefix[1]);
    }
}

/// What a line with a prefix starts with, behind its whitespace.
proof fn lemma_prefixed(lead: Seq<char>, prefix: Seq<char>, body: Seq<char>)
    requires
        blank(lead),
        prefix.len() >= 2,
        !is_space(prefix[0]),
        prefix[0] == '-' ==> prefix[1] == ' ',
    ensures
        ({
            let line = lead + prefix + body;
            let at = lead.len() as int;
            &&& line.subrange(0, line.len() as int) == line
            &&& skip_space(line, 0) == at
            &&& prefix_at(line, at, line.len() as int, prefix)
            &&& forall|i: int| at <= i < at + prefix.len() ==> #[trigger] line[i] == prefix[i - at]
            &&& forall|i: int|
                at + prefix.len() <= i < line.len() ==> #[trigger] line[i] == body[i - at
                    - prefix.len()]
        }),
{
    let line = lead + prefix + body;
    let at = lead.len() as int;
    lemma_no_divider(lead, prefix, body);
    assert(line.subrange(0, line.len() as int) =~= line);
    assert(line.subrange(at, at + prefix.len()) =~= prefix);
}

proof fn lemma_hashes(lead: Seq<char>, count: nat, body: Seq<char>)
    requires
        blank(lead),
        1 <= count <= 3,
    ensures
        ({
            let prefix = Seq::new(count, |i: int| '#').push(' ');
            let line = lead + prefix + body;
            block_of(line, 0, line.len() as int) == Some(
                (
                    if count == 1 {
                        SpanKind::Heading1
                    } else if count == 2 {
                        SpanKind::Heading2
                    } else {
                        SpanKind::Heading3
                    },
                    lead.len() as int + prefix.len() as int,
                ),
            )
        }),
{
    let prefix = Seq::new(count, |i: int| '#').push(' ');
    let line = lead + prefix + body;
    let at = lead.len() as int;
    let end = line.len() as int;
    lemma_prefixed(lead, prefix, body);
    assert forall|i: int| at <= i < at + count implies #[trigger] line[i] == '#' by {}
    assert(line[at + count] == ' ');
    lemma_run_exact(line, '#', at, at + count);
    assert(line.subrange(at + count, at + count + 1) =~= seq![' ']);
    assert(stands_at(line, seq![' '], at + count));
}

/// One, two or three number signs and a space make a heading of that level.
pub proof fn law_number_signs_make_a_heading(lead: Seq<char>, body: Seq<char>)
    requires
        blank(lead),
        one_line(body),
    ensures
        shows_block(SpanKind::Heading1, lead, seq!['#', ' '], body),
        shows_block(SpanKind::Heading2, lead, seq!['#', '#', ' '], body),
        shows_block(SpanKind::Heading3, lead, seq!['#', '#', '#', ' '], body),
{
    lemma_hashes(lead, 1, body);
    lemma_hashes(lead, 2, body);
    lemma_hashes(lead, 3, body);
    assert(Seq::new(1, |i: int| '#').push(' ') =~= seq!['#', ' ']);
    assert(Seq::new(2, |i: int| '#').push(' ') =~= seq!['#', '#', ' ']);
    assert(Seq::new(3, |i: int| '#').push(' ') =~= seq!['#', '#', '#', ' ']);
    lemma_block_line(SpanKind::Heading1, lead, seq!['#', ' '], body);
    lemma_block_line(SpanKind::Heading2, lead, seq!['#', '#', ' '], body);
    lemma_block_line(SpanKind::Heading3, lead, seq!['#', '#', '#', ' '], body);
}

/// A greater-than sign and a space make a quote.
pub proof fn law_a_greater_sign_makes_a_quote(lead: Seq<char>, body: Seq<char>)
    requires
        blank(lead),
        one_line(body),
    ensures
        shows_block(SpanKind::Quote, lead, seq!['>', ' '], body),
{
    let prefix = seq!['>', ' '];
    let line = lead + prefix + body;
    lemma_prefixed(lead, prefix, body);
    assert(line[lead.len() as int] == '>');
    assert(run_from(line, '#', lead.len() as int) == 0);
    lemma_block_line(SpanKind::Quote, lead, prefix, body);
}

proof fn lemma_box(lead: Seq<char>, filled: char, body: Seq<char>)
    requires
        blank(lead),
        filled == ' ' || filled == 'x' || filled == 'X',
    ensures
        ({
            let line = lead + seq!['-', ' ', '[', filled, ']', ' '] + body;
            block_of(line, 0, line.len() as int) == Some(
                (SpanKind::ChecklistItem { checked: filled != ' ' }, lead.len() as int + 6),
            )
        }),
{
    let prefix = seq!['-', ' ', '[', filled, ']', ' '];
    let line = lead + prefix + body;
    let at = lead.len() as int;
    let end = line.len() as int;
    lemma_prefixed(lead, prefix, body);
    assert(line[at] == '-');
    assert(line[at + 3] == filled);
    assert(run_from(line, '#', at) == 0);
    lemma_no_prefix_at(line, at, '>');
    if filled != ' ' {
        let empty = seq!['-', ' ', '[', ' ', ']', ' '];
        if prefix_at(line, at, end, empty) {
            assert(line.subrange(at, at + 6)[3] == line[at + 3]);
            assert(empty[3] == ' ');
        }
    }
}

/// A hyphen, a box and a space make an item of a checklist, which is checked where
/// the box holds an x.
pub proof fn law_a_box_makes_a_checklist_item(lead: Seq<char>, body: Seq<char>)
    requires
        blank(lead),
        one_line(body),
    ensures
        shows_block(
            SpanKind::ChecklistItem { checked: false },
            lead,
            seq!['-', ' ', '[', ' ', ']', ' '],
            body,
        ),
        shows_block(
            SpanKind::ChecklistItem { checked: true },
            lead,
            seq!['-', ' ', '[', 'x', ']', ' '],
            body,
        ),
        shows_block(
            SpanKind::ChecklistItem { checked: true },
            lead,
            seq!['-', ' ', '[', 'X', ']', ' '],
            body,
        ),
{
    lemma_box(lead, ' ', body);
    lemma_box(lead, 'x', body);
    lemma_box(lead, 'X', body);
    let open = SpanKind::ChecklistItem { checked: false };
    let done = SpanKind::ChecklistItem { checked: true };
    lemma_block_line(open, lead, seq!['-', ' ', '[', ' ', ']', ' '], body);
    lemma_block_line(done, lead, seq!['-', ' ', '[', 'x', ']', ' '], body);
    lemma_block_line(done, lead, seq!['-', ' ', '[', 'X', ']', ' '], body);
}

/// A hyphen or a star and a space make an item of a list, unless a box follows the
/// hyphen.
pub proof fn law_a_bullet_makes_a_list_item(lead: Seq<char>, body: Seq<char>)
    requires
        blank(lead),
        one_line(body),
    ensures
        shows_block(SpanKind::BulletItem, lead, seq!['*', ' '], body),
        !starts_with_box(body) ==> shows_block(SpanKind::BulletItem, lead, seq!['-', ' '], body),
{
    let at = lead.len() as int;
    let star = seq!['*', ' '];
    let starred = lead + star + body;
    lemma_prefixed(lead, star, body);
    assert(starred[at] == '*');
    assert(run_from(starred, '#', at) == 0);
    lemma_no_prefix_at(starred, at, '>');
    lemma_no_prefix_at(starred, at, '-');
    lemma_block_line(SpanKind::BulletItem, lead, star, body);
    if !starts_with_box(body) {
        let hyphen = seq!['-', ' '];
        let line = lead + hyphen + body;
        let end = line.len() as int;
        lemma_prefixed(lead, hyphen, body);
        assert(line[at] == '-');
        assert(run_from(line, '#', at) == 0);
        lemma_no_prefix_at(line, at, '>');
        lemma_no_box(lead, body, ' ');
        lemma_no_box(lead, body, 'x');
        lemma_no_box(lead, body, 'X');
        lemma_block_line(SpanKind::BulletItem, lead, hyphen, body);
    }
}

proof fn lemma_no_box(lead: Seq<char>, body: Seq<char>, filled: char)
    requires
        !starts_with_box(body),
        filled == ' ' || filled == 'x' || filled == 'X',
    ensures
        ({
            let line = lead + seq!['-', ' '] + body;
            !prefix_at(
                line,
                lead.len() as int,
                line.len() as int,
                seq!['-', ' ', '[', filled, ']', ' '],
            )
        }),
{
    let line = lead + seq!['-', ' '] + body;
    let at = lead.len() as int;
    let boxed = seq!['-', ' ', '[', filled, ']', ' '];
    if prefix_at(line, at, line.len() as int, boxed) {
        let found = line.subrange(at, at + 6);
        assert(found == boxed);
        assert(found[2] == body[0] && boxed[2] == '[');
        assert(found[3] == body[1] && boxed[3] == filled);
        assert(found[4] == body[2] && boxed[4] == ']');
        assert(found[5] == body[3] && boxed[5] == ' ');
    }
}

/// Digits, a dot and a space make an item of a numbered list.
pub proof fn law_a_number_makes_a_numbered_item(
    lead: Seq<char>,
    number: Seq<char>,
    body: Seq<char>,
)
    requires
        blank(lead),
        digits(number),
        one_line(body),
    ensures
        shows_block(SpanKind::NumberedItem, lead, number + seq!['.', ' '], body),
{
    let prefix = number + seq!['.', ' '];
    let line = lead + prefix + body;
    let at = lead.len() as int;
    let end = line.len() as int;
    let dot = at + number.len() as int;
    assert(prefix[0] == number[0]);
    lemma_prefixed(lead, prefix, body);
    assert forall|i: int| at <= i < dot implies '0' <= #[trigger] line[i] <= '9' by {
        assert(line[i] == prefix[i - at]);
        assert(prefix[i - at] == number[i - at]);
    }
    assert(line[dot] == '.');
    assert(line[dot + 1] == ' ');
    assert(line[at] == number[0]);
    lemma_digits_exact(line, at, dot, end);
    assert(run_from(line, '#', at) == 0);
    lemma_no_prefix_at(line, at, '>');
    lemma_no_prefix_at(line, at, '-');
    lemma_no_prefix_at(line, at, '*');
    assert(line.subrange(dot, dot + 2) =~= seq!['.', ' ']);
    assert forall|i: int| 0 <= i < prefix.len() implies #[trigger] prefix[i] != '\n' by {
        if i < number.len() {
            assert(prefix[i] == number[i]);
        }
    }
    lemma_block_line(SpanKind::NumberedItem, lead, prefix, body);
}

/// A line of three hyphens or more, with nothing but whitespace round them, is a
/// divider and nothing else.
pub proof fn law_hyphens_make_a_divider(lead: Seq<char>, count: nat, trail: Seq<char>)
    requires
        blank(lead),
        blank(trail),
        count >= 3,
    ensures
        ({
            let line = lead + Seq::new(count, |i: int| '-') + trail;
            let end = line.len() as int;
            spans_of(line) == seq![
                SpanView { kind: SpanKind::Divider, markers: seq![(0, end)], content: (end, end) },
            ]
        }),
{
    let hyphens = Seq::new(count, |i: int| '-');
    let line = lead + hyphens + trail;
    let end = line.len() as int;
    let start = lead.len() as int;
    assert forall|i: int| 0 <= i < end implies #[trigger] line[i] != '\n' by {
        if i < start {
            assert(line[i] == lead[i]);
        } else if i >= start + count {
            assert(line[i] == trail[i - start - count]);
        }
    }
    assert forall|i: int| 0 <= i < start implies is_space(#[trigger] line[i]) by {
        assert(line[i] == lead[i]);
    }
    lemma_one_line(line);
    assert(line.subrange(0, end) =~= line);
    lemma_skip_exact(line, 0, start);
    let rest = trimmed_start(line);
    assert(rest =~= hyphens + trail);
    let size = rest.len() as int;
    assert forall|i: int| count <= i < size implies is_space(#[trigger] rest[i]) by {
        assert(rest[i] == trail[i - count]);
    }
    lemma_skip_back_exact(rest, count as int, size);
    assert(trimmed(line) =~= hyphens);
    assert(is_divider(line));
}

proof fn lemma_skip_back_exact(text: Seq<char>, to: int, at: int)
    requires
        0 < to <= at <= text.len(),
        forall|i: int| to <= i < at ==> is_space(#[trigger] text[i]),
        !is_space(text[to - 1]),
    ensures
        skip_space_back(text, at) == to,
    decreases at - to,
{
    if to < at {
        lemma_skip_back_exact(text, to, at - 1);
    }
}

} // verus!
