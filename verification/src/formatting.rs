//! What a formatting button does to the text of a note and its selection.

use vstd::prelude::*;

use crate::text::{
    after_space, byte_len, bytes_before, char_floor, chars_of, count_before, count_from,
    end_of_line, find_from, first_at, floor_char, last_at, lemma_byte_len_monotone,
    lemma_char_floor, lemma_first_at, lemma_floor_at, lemma_last_at, lemma_line_bounds,
    lemma_run_before, lemma_run_from, lemma_skip_space_bounds, line_end, line_start, matches_at,
    push_all, run_before, run_from, skip_space, stands_at, start_of_line, string_of,
    trimmed_start,
};

verus! {

#[derive(Clone, Copy, Debug, PartialEq, Eq, Structural)]
pub enum FormatAction {
    Normal,
    Heading1,
    Heading2,
    Heading3,
    Bold,
    Italic,
    Strikethrough,
    Highlight,
    InlineCode,
    CodeBlock,
    Quote,
    BulletedList,
    NumberedList,
    Checklist,
    Link,
    HorizontalDivider,
}

/// A text with a selection, which is given in bytes.
#[derive(Clone, Debug, PartialEq, Eq)]
pub struct FormatEdit {
    pub text: String,
    pub selection_start: usize,
    pub selection_end: usize,
}

/// A text with a selection, which is given in characters.
#[verifier::ext_equal]
pub struct EditView {
    pub text: Seq<char>,
    pub from: int,
    pub to: int,
}

impl FormatEdit {
    /// Whether this is the given text with the given selection.
    pub open spec fn shows(&self, edit: EditView) -> bool {
        &&& 0 <= edit.from <= edit.to <= edit.text.len()
        &&& self.text@ == edit.text
        &&& self.selection_start == byte_len(edit.text.take(edit.from))
        &&& self.selection_end == byte_len(edit.text.take(edit.to))
    }
}

/// A marker that stands on both sides of a span: so many times one character.
/// Bold and italic share theirs and are told apart by the parity of a run.
#[derive(Clone, Copy)]
pub struct Marker {
    pub character: char,
    pub len: usize,
}

impl Marker {
    pub open spec fn is_italic(self) -> bool {
        self.character == '*' && self.len == 1
    }

    /// The marker written out.
    pub open spec fn spec_text(self) -> Seq<char> {
        Seq::new(self.len as nat, |i: int| self.character)
    }

    /// Whether a run of so many marker characters means that the marker is
    /// there. An even run of stars is bold and holds no italic marker.
    pub open spec fn present(self, run: int) -> bool {
        if self.is_italic() {
            run % 2 == 1
        } else {
            run >= self.len
        }
    }

    fn text(&self) -> (text: Vec<char>)
        ensures
            text@ == self.spec_text(),
    {
        let mut text: Vec<char> = Vec::new();
        let mut count: usize = 0;
        while count < self.len
            invariant
                count <= self.len,
                text@ == Seq::new(count as nat, |i: int| self.character),
            decreases self.len - count,
        {
            text.push(self.character);
            count += 1;
            proof {
                assert(text@ == Seq::new(count as nat, |i: int| self.character));
            }
        }
        text
    }

    fn present_for_run(&self, count: usize) -> (present: bool)
        ensures
            present == self.present(count as int),
    {
        if self.character == '*' && self.len == 1 {
            count % 2 != 0
        } else {
            count >= self.len
        }
    }
}

// Each edit, in characters.

/// `before` and `after` put round the selection, or round a placeholder.
pub open spec fn wrapped(
    text: Seq<char>,
    start: int,
    end: int,
    before: Seq<char>,
    after: Seq<char>,
    placeholder: Seq<char>,
) -> EditView {
    let selected = if start == end {
        placeholder
    } else {
        text.subrange(start, end)
    };
    EditView {
        text: text.take(start) + before + selected + after + text.skip(end),
        from: start + before.len(),
        to: start + before.len() + selected.len(),
    }
}

/// The part from `start` to `end` replaced, and the replacement selected.
pub open spec fn replaced(text: Seq<char>, start: int, end: int, new: Seq<char>) -> EditView {
    EditView { text: text.take(start) + new + text.skip(end), from: start, to: start + new.len() }
}

/// `new` put in at a position, and the cursor behind it.
pub open spec fn inserted(text: Seq<char>, at: int, new: Seq<char>) -> EditView {
    EditView {
        text: text.take(at) + new + text.skip(at),
        from: at + new.len(),
        to: at + new.len(),
    }
}

/// A block with each of its lines rewritten.
pub open spec fn each_line(block: Seq<char>, rewrite: spec_fn(Seq<char>) -> Seq<char>) -> Seq<char>
    decreases block.len(),
{
    let end = line_end(block, 0);
    if 0 <= end < block.len() {
        rewrite(block.take(end)) + seq!['\n'] + each_line(block.skip(end + 1), rewrite)
    } else {
        rewrite(block)
    }
}

/// Whether every line of a block has a property.
pub open spec fn every_line(block: Seq<char>, holds: spec_fn(Seq<char>) -> bool) -> bool
    decreases block.len(),
{
    let end = line_end(block, 0);
    if 0 <= end < block.len() {
        holds(block.take(end)) && every_line(block.skip(end + 1), holds)
    } else {
        holds(block)
    }
}

/// The level of the heading that a line is: one to three, or zero for none.
pub open spec fn heading_level(line: Seq<char>) -> int {
    let hashes = run_from(line, '#', 0);
    if 1 <= hashes <= 3 && hashes < line.len() && line[hashes] == ' ' {
        hashes
    } else {
        0
    }
}

/// A heading mark of a level: so many `#` and a space, or nothing.
pub open spec fn heading_mark(level: int) -> Seq<char> {
    if level == 1 {
        seq!['#', ' ']
    } else if level == 2 {
        seq!['#', '#', ' ']
    } else if level == 3 {
        seq!['#', '#', '#', ' ']
    } else {
        seq![]
    }
}

/// A line without its `#` and the whitespace behind them.
pub open spec fn without_heading(line: Seq<char>) -> Seq<char> {
    trimmed_start(line.skip(run_from(line, '#', 0)))
}

/// A line of whitespace alone, or with a heading of this level.
pub open spec fn blank_or_heading(line: Seq<char>, level: int) -> bool {
    skip_space(line, 0) == line.len() || heading_level(line) == level
}

/// Puts a prefix before a line.
pub open spec fn prefix_rewrite(prefix: Seq<char>) -> spec_fn(Seq<char>) -> Seq<char> {
    |line: Seq<char>| prefix + line
}

/// Puts a heading mark in the place of the one that a line has.
pub open spec fn heading_rewrite(mark: Seq<char>) -> spec_fn(Seq<char>) -> Seq<char> {
    |line: Seq<char>| mark + without_heading(line)
}

/// Tells lines of whitespace and headings of a level from the others.
pub open spec fn heading_test(level: int) -> spec_fn(Seq<char>) -> bool {
    |line: Seq<char>| blank_or_heading(line, level)
}

/// The lines of the selection made headings of a level, or paragraphs where
/// all of them have the level already.
pub open spec fn headed(text: Seq<char>, start: int, end: int, level: int) -> EditView {
    let from = line_start(text, start);
    let to = line_end(text, end);
    let block = text.subrange(from, to);
    let already = level > 0 && every_line(block, heading_test(level));
    let mark = if already {
        heading_mark(0)
    } else {
        heading_mark(level)
    };
    replaced(text, from, to, each_line(block, heading_rewrite(mark)))
}

/// The lines of the selection with a prefix each.
pub open spec fn prefixed(text: Seq<char>, start: int, end: int, prefix: Seq<char>) -> EditView {
    let from = line_start(text, start);
    let to = line_end(text, end);
    replaced(text, from, to, each_line(text.subrange(from, to), prefix_rewrite(prefix)))
}

/// The selection holds the markers: `**word**` is selected as a whole. For italic
/// the run at either end must be odd: an even one is bold and nothing else.
pub open spec fn markers_inside(text: Seq<char>, start: int, end: int, marker: Marker) -> bool {
    let selected = text.subrange(start, end);
    let len = marker.len as int;
    let lead = run_from(selected, marker.character, 0);
    let trail = run_before(selected, marker.character, selected.len() as int);
    let run = if lead <= trail {
        lead
    } else {
        trail
    };
    &&& selected.len() > 2 * len
    &&& marker.present(run)
    &&& !(marker.is_italic() && (lead % 2 == 0 || trail % 2 == 0))
}

/// The markers stand right outside the selection: `word` is selected in `**word**`.
pub open spec fn markers_outside(text: Seq<char>, start: int, end: int, marker: Marker) -> bool {
    let before = run_before(text, marker.character, start);
    let after = run_from(text, marker.character, end);
    let run = if before <= after {
        before
    } else {
        after
    };
    &&& start != end
    &&& marker.present(run)
    &&& !(marker.is_italic() && (before % 2 == 0 || after % 2 == 0))
}

/// How many runs of marker characters from `at` up to `to` hold the marker.
pub open spec fn marked_runs(text: Seq<char>, marker: Marker, at: int, to: int) -> nat
    decreases
            (if at < to {
                to - at
            } else {
                0
            }),
{
    if !(0 <= at < to) {
        0
    } else {
        let run = run_from(text, marker.character, at);
        if run <= 0 {
            marked_runs(text, marker, at + 1, to)
        } else {
            (if marker.present(run) {
                1nat
            } else {
                0
            }) + marked_runs(text, marker, at + run, to)
        }
    }
}

/// Whether the run of marker characters that ends at `at` opens a span: on a line
/// that starts at `from`, the runs that hold the marker open and close in turn.
pub open spec fn opens_span(text: Seq<char>, marker: Marker, from: int, at: int) -> bool {
    marked_runs(text, marker, from, at - run_before(text, marker.character, at)) % 2 == 0
}

/// The markers to the two sides of the cursor on its line, where they enclose
/// a span that the cursor sits in: the positions of the two.
pub open spec fn markers_around(text: Seq<char>, cursor: int, marker: Marker) -> Option<(int, int)> {
    let len = marker.len as int;
    let from = line_start(text, cursor);
    let to = line_end(text, cursor);
    match (
        last_at(text.subrange(from, cursor), marker.spec_text(), cursor - from),
        first_at(text.subrange(cursor, to), marker.spec_text(), 0),
    ) {
        (Some(back), Some(ahead)) => {
            let left = from + back;
            let right = cursor + ahead;
            if left + len == right || (exists|i: int|
                left + len <= i < right && text[i] == marker.character) {
                None
            } else if marker.is_italic() && ((left > 0 && text[left - 1] == '*') || (right + len
                < text.len() && text[right + len] == '*')) {
                None
            } else if !opens_span(text, marker, from, left + len) {
                None
            } else {
                Some((left, right))
            }
        },
        _ => None,
    }
}

/// The marker taken away where the selection or the span round the cursor has
/// it, and put round the selection or a placeholder where it has not.
pub open spec fn toggled(
    text: Seq<char>,
    start: int,
    end: int,
    marker: Marker,
    placeholder: Seq<char>,
) -> EditView {
    let len = marker.len as int;
    if markers_inside(text, start, end, marker) {
        replaced(text, start, end, text.subrange(start + len, end - len))
    } else if markers_outside(text, start, end, marker) {
        EditView {
            text: text.take(start - len) + text.subrange(start, end) + text.skip(end + len),
            from: start - len,
            to: end - len,
        }
    } else {
        match markers_around(text, start, marker) {
            Some((left, right)) if start == end => replaced(
                text,
                left,
                right + len,
                text.subrange(left + len, right),
            ),
            _ => wrapped(text, start, end, marker.spec_text(), marker.spec_text(), placeholder),
        }
    }
}

/// What an action does to a text with the selection from `start` to `end`.
pub open spec fn formatted(text: Seq<char>, start: int, end: int, action: FormatAction) -> EditView {
    match action {
        FormatAction::Normal => headed(text, start, end, 0),
        FormatAction::Heading1 => headed(text, start, end, 1),
        FormatAction::Heading2 => headed(text, start, end, 2),
        FormatAction::Heading3 => headed(text, start, end, 3),
        FormatAction::Bold => toggled(
            text,
            start,
            end,
            Marker { character: '*', len: 2 },
            "bold text"@,
        ),
        FormatAction::Italic => toggled(
            text,
            start,
            end,
            Marker { character: '*', len: 1 },
            "italic text"@,
        ),
        FormatAction::Strikethrough => toggled(
            text,
            start,
            end,
            Marker { character: '~', len: 2 },
            "struck text"@,
        ),
        FormatAction::Highlight => toggled(
            text,
            start,
            end,
            Marker { character: '=', len: 2 },
            "highlighted text"@,
        ),
        FormatAction::InlineCode => toggled(
            text,
            start,
            end,
            Marker { character: '`', len: 1 },
            "code"@,
        ),
        FormatAction::CodeBlock => wrapped(text, start, end, "```\n"@, "\n```"@, "code"@),
        FormatAction::Link => wrapped(text, start, end, "["@, "](https://)"@, "link text"@),
        FormatAction::Quote => prefixed(text, start, end, "> "@),
        FormatAction::BulletedList => prefixed(text, start, end, "- "@),
        FormatAction::NumberedList => prefixed(text, start, end, "1. "@),
        FormatAction::Checklist => prefixed(text, start, end, "- [ ] "@),
        FormatAction::HorizontalDivider => inserted(text, start, "\n---\n"@),
    }
}

/// The selection in characters: both ends go back to the start of a character,
/// and the end does not stand before the start.
pub open spec fn selection_in_chars(text: Seq<char>, start: usize, end: usize) -> (int, int) {
    let from = char_floor(text, start as int);
    let to = char_floor(text, end as int);
    (
        from,
        if to < from {
            from
        } else {
            to
        },
    )
}

fn finish(chars: Vec<char>, from: usize, to: usize) -> (edit: FormatEdit)
    requires
        from <= to <= chars@.len(),
    ensures
        edit.shows(EditView { text: chars@, from: from as int, to: to as int }),
{
    FormatEdit {
        text: string_of(&chars),
        selection_start: bytes_before(&chars, from),
        selection_end: bytes_before(&chars, to),
    }
}

fn wrap(
    chars: &[char],
    start: usize,
    end: usize,
    before: &[char],
    after: &[char],
    placeholder: &[char],
) -> (edit: FormatEdit)
    requires
        start <= end <= chars@.len(),
    ensures
        edit.shows(wrapped(chars@, start as int, end as int, before@, after@, placeholder@)),
{
    let mut text: Vec<char> = Vec::new();
    push_all(&mut text, &chars[0..start]);
    push_all(&mut text, before);
    let from: usize = text.len();
    if start == end {
        push_all(&mut text, placeholder);
    } else {
        push_all(&mut text, &chars[start..end]);
    }
    let to: usize = text.len();
    push_all(&mut text, after);
    push_all(&mut text, &chars[end..chars.len()]);
    proof {
        let edit = wrapped(chars@, start as int, end as int, before@, after@, placeholder@);
        assert(chars@.subrange(0, start as int) == chars@.take(start as int));
        assert(chars@.subrange(end as int, chars@.len() as int) == chars@.skip(end as int));
        assert(text@ =~= edit.text);
    }
    finish(text, from, to)
}

fn replace(chars: &[char], start: usize, end: usize, new: &[char]) -> (edit: FormatEdit)
    requires
        start <= end <= chars@.len(),
    ensures
        edit.shows(replaced(chars@, start as int, end as int, new@)),
{
    let mut text: Vec<char> = Vec::new();
    push_all(&mut text, &chars[0..start]);
    push_all(&mut text, new);
    let to: usize = text.len();
    push_all(&mut text, &chars[end..chars.len()]);
    proof {
        assert(text@ =~= replaced(chars@, start as int, end as int, new@).text);
    }
    finish(text, start, to)
}

fn insert(chars: &[char], at: usize, new: &[char]) -> (edit: FormatEdit)
    requires
        at <= chars@.len(),
    ensures
        edit.shows(inserted(chars@, at as int, new@)),
{
    let mut text: Vec<char> = Vec::new();
    push_all(&mut text, &chars[0..at]);
    push_all(&mut text, new);
    let cursor: usize = text.len();
    push_all(&mut text, &chars[at..chars.len()]);
    proof {
        assert(text@ =~= inserted(chars@, at as int, new@).text);
    }
    finish(text, cursor, cursor)
}

/// The end of a line is the same in a text and in what is left of it.
proof fn lemma_line_end_skip(text: Seq<char>, from: int, at: int)
    requires
        0 <= from <= text.len(),
        0 <= at <= text.len() - from,
    ensures
        from + line_end(text.skip(from), at) == line_end(text, from + at),
    decreases text.len() - from - at,
{
    let rest = text.skip(from);
    if at < rest.len() {
        assert(rest[at] == text[from + at]);
        if rest[at] != '\n' {
            lemma_line_end_skip(text, from, at + 1);
        }
    }
}

/// One line of a block, and the block behind it.
proof fn lemma_first_line(block: Seq<char>, from: int, rewrite: spec_fn(Seq<char>) -> Seq<char>)
    requires
        0 <= from <= block.len(),
    ensures
        ({
            let end = line_end(block, from);
            &&& from <= end <= block.len()
            &&& each_line(block.skip(from), rewrite) == if end < block.len() {
                rewrite(block.subrange(from, end)) + seq!['\n'] + each_line(
                    block.skip(end + 1),
                    rewrite,
                )
            } else {
                rewrite(block.subrange(from, end))
            }
        }),
{
    let end = line_end(block, from);
    let rest = block.skip(from);
    lemma_line_end_skip(block, from, 0);
    lemma_line_bounds(block, from);
    lemma_line_bounds(rest, 0);
    if end < block.len() {
        assert(rest.take(end - from) == block.subrange(from, end));
        assert(rest.skip(end - from + 1) == block.skip(end + 1));
    } else {
        assert(rest == block.subrange(from, end));
    }
}

/// The same, for a property of every line.
proof fn lemma_first_line_test(block: Seq<char>, from: int, holds: spec_fn(Seq<char>) -> bool)
    requires
        0 <= from <= block.len(),
    ensures
        ({
            let end = line_end(block, from);
            &&& from <= end <= block.len()
            &&& every_line(block.skip(from), holds) == (holds(block.subrange(from, end)) && (end
                < block.len() ==> every_line(block.skip(end + 1), holds)))
        }),
{
    let end = line_end(block, from);
    let rest = block.skip(from);
    lemma_line_end_skip(block, from, 0);
    lemma_line_bounds(block, from);
    lemma_line_bounds(rest, 0);
    if end < block.len() {
        assert(rest.take(end - from) == block.subrange(from, end));
        assert(rest.skip(end - from + 1) == block.skip(end + 1));
    } else {
        assert(rest == block.subrange(from, end));
    }
}

/// Every line of the block with the prefix before it.
fn prefix_each_line(block: &[char], prefix: &[char]) -> (out: Vec<char>)
    ensures
        out@ == each_line(block@, prefix_rewrite(prefix@)),
{
    let ghost rewrite = prefix_rewrite(prefix@);
    let mut out: Vec<char> = Vec::new();
    let mut from: usize = 0;
    proof {
        assert(block@.skip(0) == block@);
    }
    loop
        invariant
            from <= block@.len(),
            rewrite == prefix_rewrite(prefix@),
            each_line(block@, rewrite) == out@ + each_line(block@.skip(from as int), rewrite),
        decreases block@.len() - from,
    {
        let end: usize = end_of_line(block, from);
        let ghost done = out@;
        let line: &[char] = &block[from..end];
        push_all(&mut out, prefix);
        push_all(&mut out, line);
        proof {
            lemma_first_line(block@, from as int, rewrite);
            assert(rewrite(line@) == prefix@ + line@);
            assert(out@ == done + rewrite(line@));
        }
        if end == block.len() {
            return out;
        }
        out.push('\n');
        from = end + 1;
        proof {
            assert(out@ == done + rewrite(line@) + seq!['\n']);
            assert(out@ + each_line(block@.skip(from as int), rewrite) == done + (rewrite(line@)
                + seq!['\n'] + each_line(block@.skip(from as int), rewrite)));
        }
    }
}

/// Every line of the block with the heading mark in the place of its own.
fn head_each_line(block: &[char], mark: &[char]) -> (out: Vec<char>)
    ensures
        out@ == each_line(block@, heading_rewrite(mark@)),
{
    let ghost rewrite = heading_rewrite(mark@);
    let mut out: Vec<char> = Vec::new();
    let mut from: usize = 0;
    proof {
        assert(block@.skip(0) == block@);
    }
    loop
        invariant
            from <= block@.len(),
            rewrite == heading_rewrite(mark@),
            each_line(block@, rewrite) == out@ + each_line(block@.skip(from as int), rewrite),
        decreases block@.len() - from,
    {
        let end: usize = end_of_line(block, from);
        let ghost done = out@;
        let line: &[char] = &block[from..end];
        let hashes: usize = count_from(line, '#', 0);
        let rest: &[char] = &line[hashes..line.len()];
        let space: usize = after_space(rest, 0);
        let kept: &[char] = &rest[space..rest.len()];
        push_all(&mut out, mark);
        push_all(&mut out, kept);
        proof {
            lemma_first_line(block@, from as int, rewrite);
            assert(rest@ == line@.skip(hashes as int));
            assert(kept@ == rest@.skip(space as int));
            assert(kept@ == without_heading(line@));
            assert(rewrite(line@) == mark@ + kept@);
            assert(out@ == done + rewrite(line@));
        }
        if end == block.len() {
            return out;
        }
        out.push('\n');
        from = end + 1;
        proof {
            assert(out@ == done + rewrite(line@) + seq!['\n']);
            assert(out@ + each_line(block@.skip(from as int), rewrite) == done + (rewrite(line@)
                + seq!['\n'] + each_line(block@.skip(from as int), rewrite)));
        }
    }
}

fn level_of(line: &[char]) -> (level: usize)
    ensures
        level == heading_level(line@),
{
    let hashes: usize = count_from(line, '#', 0);
    if 1 <= hashes && hashes <= 3 && hashes < line.len() && line[hashes] == ' ' {
        hashes
    } else {
        0
    }
}

/// Whether every line of the block is blank or a heading of the level.
fn all_at_level(block: &[char], level: usize) -> (all: bool)
    ensures
        all == every_line(block@, heading_test(level as int)),
{
    let ghost holds = heading_test(level as int);
    let mut from: usize = 0;
    proof {
        assert(block@.skip(0) == block@);
    }
    loop
        invariant
            from <= block@.len(),
            holds == heading_test(level as int),
            every_line(block@, holds) == every_line(block@.skip(from as int), holds),
        decreases block@.len() - from,
    {
        let end: usize = end_of_line(block, from);
        let line: &[char] = &block[from..end];
        proof {
            lemma_first_line_test(block@, from as int, holds);
            assert(holds(line@) == blank_or_heading(line@, level as int));
        }
        if after_space(line, 0) != line.len() && level_of(line) != level {
            return false;
        }
        if end == block.len() {
            return true;
        }
        from = end + 1;
    }
}

fn mark_of(level: usize) -> (mark: Vec<char>)
    requires
        level <= 3,
    ensures
        mark@ == heading_mark(level as int),
{
    let mut mark: Vec<char> = Vec::new();
    if level > 0 {
        mark.push('#');
        if level > 1 {
            mark.push('#');
        }
        if level > 2 {
            mark.push('#');
        }
        mark.push(' ');
    }
    proof {
        assert(mark@ =~= heading_mark(level as int));
    }
    mark
}

fn heading(chars: &[char], start: usize, end: usize, level: usize) -> (edit: FormatEdit)
    requires
        start <= end <= chars@.len(),
        level <= 3,
    ensures
        edit.shows(headed(chars@, start as int, end as int, level as int)),
{
    let from: usize = start_of_line(chars, start);
    let to: usize = end_of_line(chars, end);
    let block: &[char] = &chars[from..to];
    let already = level > 0 && all_at_level(block, level);
    let mark = mark_of(if already {
        0
    } else {
        level
    });
    let new = head_each_line(block, &mark);
    replace(chars, from, to, &new)
}

fn prefix_lines(chars: &[char], start: usize, end: usize, prefix: &[char]) -> (edit: FormatEdit)
    requires
        start <= end <= chars@.len(),
    ensures
        edit.shows(prefixed(chars@, start as int, end as int, prefix@)),
{
    let from: usize = start_of_line(chars, start);
    let to: usize = end_of_line(chars, end);
    let new = prefix_each_line(&chars[from..to], prefix);
    replace(chars, from, to, &new)
}

/// The last position of `part` in `chars`.
fn find_last(chars: &[char], part: &[char]) -> (found: Option<usize>)
    ensures
        match found {
            Some(at) => last_at(chars@, part@, chars@.len() as int) == Some(at as int) && at
                + part@.len() <= chars@.len(),
            None => last_at(chars@, part@, chars@.len() as int) is None,
        },
{
    let mut at: usize = chars.len();
    loop
        invariant
            at <= chars@.len(),
            last_at(chars@, part@, at as int) == last_at(chars@, part@, chars@.len() as int),
        decreases at,
    {
        if matches_at(chars, part, at) {
            return Some(at);
        }
        if at == 0 {
            proof {
                assert(last_at(chars@, part@, -1) is None);
            }
            return None;
        }
        at -= 1;
    }
}

/// Whether the character stands anywhere from `from` up to `to`.
fn stands_between(chars: &[char], character: char, from: usize, to: usize) -> (found: bool)
    requires
        from <= to <= chars@.len(),
    ensures
        found == exists|i: int| from <= i < to && chars@[i] == character,
{
    let mut at: usize = from;
    while at < to
        invariant
            from <= at <= to <= chars@.len(),
            forall|i: int| from <= i < at ==> chars@[i] != character,
        decreases to - at,
    {
        if chars[at] == character {
            return true;
        }
        at += 1;
    }
    false
}

/// How many runs of marker characters from `from` up to `to` hold the marker.
fn count_marked(chars: &[char], marker: Marker, from: usize, to: usize) -> (count: usize)
    requires
        to <= chars@.len(),
    ensures
        count == marked_runs(chars@, marker, from as int, to as int),
{
    let total: usize = chars.len();
    let mut at: usize = from;
    let mut count: usize = 0;
    while at < to
        invariant
            to <= total == chars@.len(),
            from <= at,
            count <= at - from,
            count + marked_runs(chars@, marker, at as int, to as int) == marked_runs(
                chars@,
                marker,
                from as int,
                to as int,
            ),
        decreases
                (if at < to {
                    to - at
                } else {
                    0
                }),
    {
        let run: usize = count_from(chars, marker.character, at);
        if run == 0 {
            at += 1;
        } else {
            if marker.present_for_run(run) {
                count += 1;
            }
            at += run;
        }
    }
    count
}

/// The markers round the cursor on its line, where they enclose a span that the
/// cursor sits in.
fn find_around(chars: &[char], cursor: usize, marker: Marker) -> (found: Option<(usize, usize)>)
    requires
        cursor <= chars@.len(),
        1 <= marker.len <= 2,
    ensures
        match found {
            Some((left, right)) => {
                &&& markers_around(chars@, cursor as int, marker) == Some(
                    (left as int, right as int),
                )
                &&& left + marker.len <= right
                &&& right + marker.len <= chars@.len()
            },
            None => markers_around(chars@, cursor as int, marker) is None,
        },
{
    let from: usize = start_of_line(chars, cursor);
    let to: usize = end_of_line(chars, cursor);
    let text = marker.text();
    let back: usize = match find_last(&chars[from..cursor], &text) {
        Some(back) => back,
        None => {
            return None;
        },
    };
    let ahead: usize = match find_from(&chars[cursor..to], &text, 0) {
        Some(ahead) => ahead,
        None => {
            return None;
        },
    };
    let left: usize = from + back;
    let right: usize = cursor + ahead;
    let inner: usize = left + marker.len;
    proof {
        assert(marker.spec_text().len() == marker.len);
        assert(inner <= cursor <= right);
        assert(right + marker.len <= to);
    }
    if inner == right {
        return None;
    }
    if stands_between(chars, marker.character, inner, right) {
        return None;
    }
    if marker.character == '*' && marker.len == 1 {
        if left > 0 && chars[left - 1] == '*' {
            return None;
        }
        if right + marker.len < chars.len() && chars[right + marker.len] == '*' {
            return None;
        }
    }
    let run: usize = count_before(chars, marker.character, inner);
    if count_marked(chars, marker, from, inner - run) % 2 != 0 {
        return None;
    }
    Some((left, right))
}

fn toggle_wrap(chars: &[char], start: usize, end: usize, marker: Marker, placeholder: &[char]) -> (edit:
    FormatEdit)
    requires
        start <= end <= chars@.len(),
        1 <= marker.len <= 2,
    ensures
        edit.shows(toggled(chars@, start as int, end as int, marker, placeholder@)),
{
    let len: usize = marker.len;
    let total: usize = chars.len();
    if end - start > 2 * len {
        let selected: &[char] = &chars[start..end];
        let lead: usize = count_from(selected, marker.character, 0);
        let trail: usize = count_before(selected, marker.character, selected.len());
        let run: usize = if lead <= trail {
            lead
        } else {
            trail
        };
        let italic = marker.character == '*' && len == 1;
        if marker.present_for_run(run) && !(italic && (lead % 2 == 0 || trail % 2 == 0)) {
            return replace(chars, start, end, &chars[start + len..end - len]);
        }
    }
    assert(!markers_inside(chars@, start as int, end as int, marker));
    let before: usize = count_before(chars, marker.character, start);
    let after: usize = count_from(chars, marker.character, end);
    let run: usize = if before <= after {
        before
    } else {
        after
    };
    if start != end && marker.present_for_run(run) && !(marker.character == '*' && len == 1 && (
    before % 2 == 0 || after % 2 == 0)) {
        let mut text: Vec<char> = Vec::new();
        push_all(&mut text, &chars[0..start - len]);
        push_all(&mut text, &chars[start..end]);
        push_all(&mut text, &chars[end + len..total]);
        proof {
            assert(text@ =~= toggled(
                chars@,
                start as int,
                end as int,
                marker,
                placeholder@,
            ).text);
        }
        return finish(text, start - len, end - len);
    }
    assert(!markers_outside(chars@, start as int, end as int, marker));
    if start == end {
        if let Some((left, right)) = find_around(chars, start, marker) {
            return replace(chars, left, right + len, &chars[left + len..right]);
        }
    }
    let text = marker.text();
    wrap(chars, start, end, &text, &text, placeholder)
}

/// Applies a formatting action to a text with a selection given in bytes, and
/// gives the new text with its selection.
///
/// A button that wraps takes the marker away again where it is there already,
/// and a heading button replaces the heading that a line has.
pub fn apply_markdown_format(
    source: &str,
    selection_start: usize,
    selection_end: usize,
    action: FormatAction,
) -> (edit: FormatEdit)
    ensures
        ({
            let (start, end) = selection_in_chars(source@, selection_start, selection_end);
            edit.shows(formatted(source@, start, end, action))
        }),
{
    let chars = chars_of(source);
    let start: usize = floor_char(source, &chars, selection_start);
    let floor: usize = floor_char(source, &chars, selection_end);
    let end: usize = if floor < start {
        start
    } else {
        floor
    };
    match action {
        FormatAction::Normal => heading(&chars, start, end, 0),
        FormatAction::Heading1 => heading(&chars, start, end, 1),
        FormatAction::Heading2 => heading(&chars, start, end, 2),
        FormatAction::Heading3 => heading(&chars, start, end, 3),
        FormatAction::Bold => toggle_wrap(
            &chars,
            start,
            end,
            Marker { character: '*', len: 2 },
            &chars_of("bold text"),
        ),
        FormatAction::Italic => toggle_wrap(
            &chars,
            start,
            end,
            Marker { character: '*', len: 1 },
            &chars_of("italic text"),
        ),
        FormatAction::Strikethrough => toggle_wrap(
            &chars,
            start,
            end,
            Marker { character: '~', len: 2 },
            &chars_of("struck text"),
        ),
        FormatAction::Highlight => toggle_wrap(
            &chars,
            start,
            end,
            Marker { character: '=', len: 2 },
            &chars_of("highlighted text"),
        ),
        FormatAction::InlineCode => toggle_wrap(
            &chars,
            start,
            end,
            Marker { character: '`', len: 1 },
            &chars_of("code"),
        ),
        FormatAction::CodeBlock => wrap(
            &chars,
            start,
            end,
            &chars_of("```\n"),
            &chars_of("\n```"),
            &chars_of("code"),
        ),
        FormatAction::Link => wrap(
            &chars,
            start,
            end,
            &chars_of("["),
            &chars_of("](https://)"),
            &chars_of("link text"),
        ),
        FormatAction::Quote => prefix_lines(&chars, start, end, &chars_of("> ")),
        FormatAction::BulletedList => prefix_lines(&chars, start, end, &chars_of("- ")),
        FormatAction::NumberedList => prefix_lines(&chars, start, end, &chars_of("1. ")),
        FormatAction::Checklist => prefix_lines(&chars, start, end, &chars_of("- [ ] ")),
        FormatAction::HorizontalDivider => insert(&chars, start, &chars_of("\n---\n")),
    }
}

/// Two marks and what stands between them, put back where they were taken away.
proof fn lemma_put_back(text: Seq<char>, left: int, right: int, mark: Seq<char>)
    requires
        0 <= left,
        left + mark.len() <= right,
        right + mark.len() <= text.len(),
        text.subrange(left, left + mark.len()) == mark,
        text.subrange(right, right + mark.len()) == mark,
    ensures
        ({
            let inner = text.subrange(left + mark.len(), right);
            let bare = text.take(left) + inner + text.skip(right + mark.len());
            let end = left + inner.len();
            &&& 0 <= left <= end <= bare.len()
            &&& bare.take(left) + mark + bare.subrange(left, end) + mark + bare.skip(end) == text
        }),
{
    let inner = text.subrange(left + mark.len(), right);
    let bare = text.take(left) + inner + text.skip(right + mark.len());
    let end = left + inner.len();
    assert(bare.take(left) =~= text.take(left));
    assert(bare.subrange(left, end) =~= inner);
    assert(bare.skip(end) =~= text.skip(right + mark.len()));
    assert(text.take(left) + text.subrange(left, left + mark.len()) + inner + text.subrange(
        right,
        right + mark.len(),
    ) + text.skip(right + mark.len()) =~= text);
}

/// What a toggle does is to take two markers away, or to put two round the selection
/// or a placeholder.
pub proof fn lemma_toggled_kinds(
    text: Seq<char>,
    start: int,
    end: int,
    marker: Marker,
    placeholder: Seq<char>,
)
    requires
        0 <= start <= end <= text.len(),
        1 <= marker.len <= 2,
    ensures
        ({
            let edit = toggled(text, start, end, marker, placeholder);
            let mark = marker.spec_text();
            ||| 0 <= edit.from <= edit.to <= edit.text.len() && edit.text.take(edit.from) + mark
                + edit.text.subrange(edit.from, edit.to) + mark + edit.text.skip(edit.to) == text
            ||| edit == wrapped(text, start, end, mark, mark, placeholder)
        }),
{
    let mark = marker.spec_text();
    let len = marker.len as int;
    let character = marker.character;
    if markers_inside(text, start, end, marker) {
        let selected = text.subrange(start, end);
        lemma_run_from(selected, character, 0);
        lemma_run_before(selected, character, selected.len() as int);
        assert(text.subrange(start, start + len) =~= mark) by {
            assert forall|i: int| start <= i < start + len implies text[i] == character by {
                assert(selected[i - start] == text[i]);
            }
        }
        assert(text.subrange(end - len, end) =~= mark) by {
            assert forall|i: int| end - len <= i < end implies text[i] == character by {
                assert(selected[i - start] == text[i]);
            }
        }
        lemma_put_back(text, start, end - len, mark);
    } else if markers_outside(text, start, end, marker) {
        lemma_run_before(text, character, start);
        lemma_run_from(text, character, end);
        assert(text.subrange(start - len, start) =~= mark);
        assert(text.subrange(end, end + len) =~= mark);
        lemma_put_back(text, start - len, end, mark);
    } else if start == end {
        if let Some((left, right)) = markers_around(text, start, marker) {
            lemma_around_stands(text, start, marker);
            lemma_put_back(text, left, right, mark);
        }
    }
}

/// Where markers are found round the cursor, they stand there.
proof fn lemma_around_stands(text: Seq<char>, cursor: int, marker: Marker)
    requires
        0 <= cursor <= text.len(),
        1 <= marker.len <= 2,
        markers_around(text, cursor, marker) is Some,
    ensures
        ({
            let (left, right) = markers_around(text, cursor, marker)->Some_0;
            &&& 0 <= left
            &&& left + marker.len <= cursor <= right
            &&& right + marker.len <= text.len()
            &&& text.subrange(left, left + marker.len) == marker.spec_text()
            &&& text.subrange(right, right + marker.len) == marker.spec_text()
        }),
{
    let mark = marker.spec_text();
    let from = line_start(text, cursor);
    let to = line_end(text, cursor);
    lemma_line_bounds(text, cursor);
    let front = text.subrange(from, cursor);
    let back = text.subrange(cursor, to);
    lemma_last_at(front, mark, cursor - from);
    lemma_first_at(back, mark, 0);
    let (left, right) = markers_around(text, cursor, marker)->Some_0;
    assert(text.subrange(left, left + marker.len) =~= front.subrange(
        left - from,
        left - from + marker.len,
    ));
    assert(text.subrange(right, right + marker.len) =~= back.subrange(
        right - cursor,
        right - cursor + marker.len,
    ));
}

/// A run of one character that nothing of it stands next to.
proof fn lemma_lone_run(head: Seq<char>, marker: Marker, rest: Seq<char>)
    requires
        head.len() == 0 || head.last() != marker.character,
        rest.len() == 0 || rest[0] != marker.character,
    ensures
        ({
            let text = head + marker.spec_text() + rest;
            let at = head.len() as int;
            &&& run_from(text, marker.character, at) == marker.len
            &&& run_before(text, marker.character, at + marker.len) == marker.len
        }),
{
    lemma_run_behind(head, marker, rest);
    lemma_run_ahead(head, marker, rest);
}

/// No run before a position holds the marker where its character does not stand.
proof fn lemma_no_marked_runs(text: Seq<char>, marker: Marker, at: int, to: int)
    requires
        0 <= at,
        to <= text.len(),
        forall|i: int| at <= i < to ==> text[i] != marker.character,
    ensures
        marked_runs(text, marker, at, to) == 0,
    decreases
            (if at < to {
                to - at
            } else {
                0
            }),
{
    if at < to {
        lemma_no_marked_runs(text, marker, at + 1, to);
    }
}

/// A text with a span between two markers.
pub open spec fn spanned(
    front: Seq<char>,
    marker: Marker,
    inner: Seq<char>,
    back: Seq<char>,
) -> Seq<char> {
    front + marker.spec_text() + inner + marker.spec_text() + back
}

/// Whether nothing else of a marker stands round a span or in it, and the span is
/// neither empty nor goes over a line break.
pub open spec fn lone_span(
    front: Seq<char>,
    inner: Seq<char>,
    back: Seq<char>,
    marker: Marker,
) -> bool {
    &&& 1 <= marker.len <= 2
    &&& marker.character != '\n'
    &&& inner.len() > 0
    &&& forall|i: int| 0 <= i < front.len() ==> #[trigger] front[i] != marker.character
    &&& forall|i: int|
        0 <= i < inner.len() ==> #[trigger] inner[i] != marker.character && inner[i] != '\n'
    &&& forall|i: int| 0 <= i < back.len() ==> #[trigger] back[i] != marker.character
}

/// A span that is selected with its markers loses them.
proof fn lemma_marker_goes_inside(
    front: Seq<char>,
    inner: Seq<char>,
    back: Seq<char>,
    marker: Marker,
    placeholder: Seq<char>,
)
    requires
        lone_span(front, inner, back, marker),
    ensures
        ({
            let open = front.len() as int;
            let bare = EditView { text: front + inner + back, from: open, to: open + inner.len() };
            toggled(
                spanned(front, marker, inner, back),
                open,
                open + 2 * marker.len + inner.len(),
                marker,
                placeholder,
            ) == bare
        }),
{
    let mark = marker.spec_text();
    let len = marker.len as int;
    let character = marker.character;
    let text = spanned(front, marker, inner, back);
    let open = front.len() as int;
    let first = open + len;
    let last = first + inner.len();
    let close = last + len;
    let bare = EditView { text: front + inner + back, from: open, to: open + inner.len() };
    let selected = text.subrange(open, close);
    assert(selected =~= mark + inner + mark);
    assert(selected =~= Seq::<char>::empty() + mark + (inner + mark));
    lemma_lone_run(Seq::<char>::empty(), marker, inner + mark);
    assert(selected =~= (mark + inner) + mark + Seq::<char>::empty());
    assert((mark + inner).last() == inner.last());
    lemma_lone_run(mark + inner, marker, Seq::<char>::empty());
    assert(markers_inside(text, open, close, marker));
    assert(text.subrange(open + len, close - len) =~= inner);
    assert(text.take(open) =~= front);
    assert(text.skip(close) =~= back);
    assert(toggled(text, open, close, marker, placeholder) =~= bare);
}

/// A span that is selected without its markers loses them.
proof fn lemma_marker_goes_outside(
    front: Seq<char>,
    inner: Seq<char>,
    back: Seq<char>,
    marker: Marker,
    placeholder: Seq<char>,
)
    requires
        lone_span(front, inner, back, marker),
    ensures
        ({
            let open = front.len() as int;
            let bare = EditView { text: front + inner + back, from: open, to: open + inner.len() };
            toggled(
                spanned(front, marker, inner, back),
                open + marker.len,
                open + marker.len + inner.len(),
                marker,
                placeholder,
            ) == bare
        }),
{
    let mark = marker.spec_text();
    let len = marker.len as int;
    let character = marker.character;
    let text = spanned(front, marker, inner, back);
    let open = front.len() as int;
    let first = open + len;
    let last = first + inner.len();
    let close = last + len;
    let bare = EditView { text: front + inner + back, from: open, to: open + inner.len() };
    assert(text =~= front + mark + (inner + mark + back));
    lemma_lone_run(front, marker, inner + mark + back);
    assert(text =~= (front + mark + inner) + mark + back);
    assert((front + mark + inner).last() == inner.last());
    lemma_lone_run(front + mark + inner, marker, back);
    let middle = text.subrange(first, last);
    assert(middle =~= inner);
    lemma_run_from(middle, character, 0);
    assert(run_from(middle, character, 0) == 0);
    lemma_run_before(middle, character, middle.len() as int);
    assert(run_before(middle, character, middle.len() as int) == 0);
    assert(!markers_inside(text, first, last, marker));
    assert(markers_outside(text, first, last, marker));
    assert(text.take(first - len) =~= front);
    assert(text.skip(last + len) =~= back);
    assert(toggled(text, first, last, marker, placeholder) =~= bare);
}

/// Markers round the cursor are found where nothing else of the marker stands.
proof fn lemma_found_round(text: Seq<char>, open: int, last: int, at: int, marker: Marker)
    requires
        1 <= marker.len <= 2,
        marker.character != '\n',
        0 <= open,
        open + marker.len < last,
        last + marker.len <= text.len(),
        open + marker.len <= at <= last,
        forall|i: int|
            open <= i < open + marker.len || last <= i < last + marker.len ==> #[trigger] text[i]
                == marker.character,
        forall|i: int|
            0 <= i < text.len() && !(open <= i < open + marker.len || last <= i < last + marker.len)
                ==> #[trigger] text[i] != marker.character,
        forall|i: int| open <= i < last + marker.len ==> #[trigger] text[i] != '\n',
    ensures
        markers_around(text, at, marker) == Some((open, last)),
{
    let mark = marker.spec_text();
    let len = marker.len as int;
    let character = marker.character;
    let from = line_start(text, at);
    let to = line_end(text, at);
    lemma_line_bounds(text, at);
    lemma_line_start_kind(text, at);
    lemma_line_end_kind(text, at);
    assert(from <= open) by {
        if from > open {
            assert(text[from - 1] == '\n');
        }
    }
    assert(last + len <= to) by {
        if to < last + len {
            assert(text[to] == '\n');
        }
    }
    let head = text.subrange(from, at);
    let tail = text.subrange(at, to);
    assert(last_at(head, mark, at - from) == Some(open - from)) by {
        lemma_last_at(head, mark, at - from);
        assert(head.subrange(open - from, open - from + len) =~= mark);
        assert(stands_at(head, mark, open - from));
        let k = last_at(head, mark, at - from)->Some_0;
        assert(head.subrange(k, k + len)[0] == mark[0]);
        assert(head.subrange(k, k + len)[len - 1] == mark[len - 1]);
        assert(text[from + k] == character);
        assert(text[from + k + len - 1] == character);
    }
    assert(first_at(tail, mark, 0) == Some(last - at)) by {
        lemma_first_at(tail, mark, 0);
        assert(tail.subrange(last - at, last - at + len) =~= mark);
        assert(stands_at(tail, mark, last - at));
        let j = first_at(tail, mark, 0)->Some_0;
        assert(tail.subrange(j, j + len)[0] == mark[0]);
        assert(tail.subrange(j, j + len)[len - 1] == mark[len - 1]);
        assert(text[at + j] == character);
        assert(text[at + j + len - 1] == character);
    }
    lemma_no_marked_runs(text, marker, from, open);
    assert(run_before(text, character, open + len) == len) by {
        reveal_with_fuel(run_before, 4);
        assert(text[open] == character && text[open + len - 1] == character);
        if open > 0 {
            assert(text[open - 1] != character);
        }
    }
    assert(opens_span(text, marker, from, open + len));
}

/// Markers round the cursor are found.
proof fn lemma_marker_is_round_the_cursor(
    front: Seq<char>,
    inner: Seq<char>,
    back: Seq<char>,
    cursor: int,
    marker: Marker,
)
    requires
        lone_span(front, inner, back, marker),
        0 <= cursor <= inner.len(),
    ensures
        markers_around(
            spanned(front, marker, inner, back),
            front.len() + marker.len + cursor,
            marker,
        ) == Some((front.len() as int, front.len() + marker.len + inner.len())),
{
    let text = spanned(front, marker, inner, back);
    let open = front.len() as int;
    let first = open + marker.len;
    let last = first + inner.len();
    let close = last + marker.len;
    assert forall|i: int| 0 <= i < text.len() && !(open <= i < first || last <= i < close) implies
        #[trigger] text[i] != marker.character by {
        if i < open {
            assert(text[i] == front[i]);
        } else if i < last {
            assert(text[i] == inner[i - first]);
        } else {
            assert(text[i] == back[i - close]);
        }
    }
    assert forall|i: int| open <= i < close implies #[trigger] text[i] != '\n' by {
        if first <= i < last {
            assert(text[i] == inner[i - first]);
        }
    }
    lemma_found_round(text, open, last, first + cursor, marker);
}

/// A span that the cursor stands in loses its markers.
proof fn lemma_marker_goes_at_cursor(
    front: Seq<char>,
    inner: Seq<char>,
    back: Seq<char>,
    cursor: int,
    marker: Marker,
    placeholder: Seq<char>,
)
    requires
        lone_span(front, inner, back, marker),
        0 <= cursor <= inner.len(),
    ensures
        ({
            let open = front.len() as int;
            let bare = EditView { text: front + inner + back, from: open, to: open + inner.len() };
            toggled(
                spanned(front, marker, inner, back),
                open + marker.len + cursor,
                open + marker.len + cursor,
                marker,
                placeholder,
            ) == bare
        }),
{
    let mark = marker.spec_text();
    let len = marker.len as int;
    let character = marker.character;
    let text = spanned(front, marker, inner, back);
    let open = front.len() as int;
    let first = open + len;
    let last = first + inner.len();
    let close = last + len;
    let bare = EditView { text: front + inner + back, from: open, to: open + inner.len() };
    let at = first + cursor;
    lemma_marker_is_round_the_cursor(front, inner, back, cursor, marker);
    assert(!markers_inside(text, at, at, marker));
    assert(text.subrange(first, last) =~= inner);
    assert(text.take(open) =~= front);
    assert(text.skip(close) =~= back);
    assert(toggled(text, at, at, marker, placeholder) =~= bare);
}

/// A marker goes from a span that is selected with its markers, that is selected
/// without them, or that the cursor stands in, where nothing else of the marker
/// stands in the text.
pub proof fn lemma_present_marker_goes(
    front: Seq<char>,
    inner: Seq<char>,
    back: Seq<char>,
    cursor: int,
    marker: Marker,
    placeholder: Seq<char>,
)
    requires
        1 <= marker.len <= 2,
        forall|i: int| 0 <= i < front.len() ==> front[i] != marker.character,
        forall|i: int|
            0 <= i < inner.len() ==> inner[i] != marker.character && inner[i] != '\n',
        forall|i: int| 0 <= i < back.len() ==> back[i] != marker.character,
        marker.character != '\n',
        inner.len() > 0,
        0 <= cursor <= inner.len(),
    ensures
        ({
            let mark = marker.spec_text();
            let text = front + mark + inner + mark + back;
            let open = front.len() as int;
            let first = open + marker.len;
            let last = first + inner.len();
            let close = last + marker.len;
            let bare = EditView { text: front + inner + back, from: open, to: open + inner.len() };
            &&& toggled(text, open, close, marker, placeholder) == bare
            &&& toggled(text, first, last, marker, placeholder) == bare
            &&& toggled(text, first + cursor, first + cursor, marker, placeholder) == bare
        }),
{
    lemma_marker_goes_inside(front, inner, back, marker, placeholder);
    lemma_marker_goes_outside(front, inner, back, marker, placeholder);
    lemma_marker_goes_at_cursor(front, inner, back, cursor, marker, placeholder);
}

/// A selection acts as the characters that it covers: both ends go back to the
/// start of a character, and an end before the start goes to the start.
pub proof fn law_selection_acts_as_its_floor(
    text: Seq<char>,
    start: usize,
    end: usize,
    floor_start: usize,
    floor_end: usize,
    action: FormatAction,
)
    requires
        ({
            let (from, to) = selection_in_chars(text, start, end);
            &&& floor_start == byte_len(text.take(from))
            &&& floor_end == byte_len(text.take(to))
        }),
    ensures
        floor_start <= start && floor_start <= floor_end,
        floor_end <= end || floor_end == floor_start,
        forall|k: int|
            selection_in_chars(text, start, end).0 < k <= text.len() ==> byte_len(
                #[trigger] text.take(k),
            ) > start,
        forall|k: int|
            selection_in_chars(text, start, end).1 < k <= text.len() ==> byte_len(
                #[trigger] text.take(k),
            ) > end,
        ({
            let (from, to) = selection_in_chars(text, start, end);
            let (floor_from, floor_to) = selection_in_chars(text, floor_start, floor_end);
            &&& 0 <= from <= to <= text.len()
            &&& formatted(text, floor_from, floor_to, action) == formatted(text, from, to, action)
        }),
{
    let (from, to) = selection_in_chars(text, start, end);
    lemma_char_floor(text, start as int);
    lemma_char_floor(text, end as int);
    lemma_floor_at(text, from);
    lemma_floor_at(text, to);
    lemma_byte_len_monotone(text, from, to);
}

/// Wrapping a selection puts nothing in the place of anything: without the two
/// parts that were added, the text is the one before.
pub proof fn law_wrapping_keeps_the_text(
    text: Seq<char>,
    start: int,
    end: int,
    before: Seq<char>,
    after: Seq<char>,
    placeholder: Seq<char>,
)
    requires
        0 <= start < end <= text.len(),
    ensures
        ({
            let edit = wrapped(text, start, end, before, after, placeholder);
            &&& edit.text.take(edit.from - before.len()) + edit.text.subrange(edit.from, edit.to)
                + edit.text.skip(edit.to + after.len()) == text
            &&& edit.text.subrange(edit.from, edit.to) == text.subrange(start, end)
        }),
{
    let edit = wrapped(text, start, end, before, after, placeholder);
    assert(edit.text.subrange(edit.from, edit.to) =~= text.subrange(start, end));
    assert(edit.text.take(start) + text.subrange(start, end) + edit.text.skip(
        edit.to + after.len(),
    ) =~= text);
}

/// A run behind a marker is as long as the run before it and the marker.
proof fn lemma_run_behind(head: Seq<char>, marker: Marker, rest: Seq<char>)
    ensures
        run_before(head + marker.spec_text() + rest, marker.character, (head.len() + marker.len)
            as int) == run_before(head, marker.character, head.len() as int) + marker.len,
{
    let text = head + marker.spec_text() + rest;
    lemma_run_before_prefix(head, marker.spec_text() + rest, marker.character, head.len() as int);
    assert(text == head + (marker.spec_text() + rest));
    lemma_run_before_marker(head, marker, rest, marker.len as nat);
}

proof fn lemma_run_before_marker(head: Seq<char>, marker: Marker, rest: Seq<char>, count: nat)
    requires
        count <= marker.len,
    ensures
        run_before(head + marker.spec_text() + rest, marker.character, (head.len() + count) as int)
            == run_before(
            head + marker.spec_text() + rest,
            marker.character,
            head.len() as int,
        ) + count,
    decreases count,
{
    if count > 0 {
        let text = head + marker.spec_text() + rest;
        assert(text[head.len() + count - 1] == marker.character);
        lemma_run_before_marker(head, marker, rest, (count - 1) as nat);
    }
}

proof fn lemma_run_before_prefix(head: Seq<char>, rest: Seq<char>, character: char, at: int)
    requires
        0 <= at <= head.len(),
    ensures
        run_before(head + rest, character, at) == run_before(head, character, at),
    decreases at,
{
    if at > 0 {
        assert((head + rest)[at - 1] == head[at - 1]);
        lemma_run_before_prefix(head, rest, character, at - 1);
    }
}

/// A run that starts with a marker is as long as the marker and the run behind it.
proof fn lemma_run_ahead(head: Seq<char>, marker: Marker, rest: Seq<char>)
    ensures
        run_from(head + marker.spec_text() + rest, marker.character, head.len() as int)
            == run_from(rest, marker.character, 0) + marker.len,
{
    lemma_run_from_suffix(head + marker.spec_text(), rest, marker.character, 0);
    lemma_run_from_marker(head, marker, rest, marker.len as nat);
}

proof fn lemma_run_from_marker(head: Seq<char>, marker: Marker, rest: Seq<char>, count: nat)
    requires
        count <= marker.len,
    ensures
        run_from(
            head + marker.spec_text() + rest,
            marker.character,
            head.len() + marker.len - count,
        ) == run_from(
            head + marker.spec_text() + rest,
            marker.character,
            (head.len() + marker.len) as int,
        ) + count,
    decreases count,
{
    if count > 0 {
        let text = head + marker.spec_text() + rest;
        assert(text[head.len() + marker.len - count] == marker.character);
        lemma_run_from_marker(head, marker, rest, (count - 1) as nat);
    }
}

proof fn lemma_run_from_suffix(head: Seq<char>, rest: Seq<char>, character: char, at: int)
    requires
        0 <= at <= rest.len(),
    ensures
        run_from(head + rest, character, head.len() + at) == run_from(rest, character, at),
    decreases rest.len() - at,
{
    if at < rest.len() {
        assert((head + rest)[head.len() + at] == rest[at]);
        lemma_run_from_suffix(head, rest, character, at + 1);
    }
}

/// Pressing a button that wrapped a selection once more takes the markers away
/// again and gives back the text and the selection.
///
/// Left out is italic with an odd run of stars on one side of the selection,
/// where the second press does not undo the first.
pub proof fn law_second_press_undoes_the_first(
    text: Seq<char>,
    start: int,
    end: int,
    marker: Marker,
    placeholder: Seq<char>,
)
    requires
        0 <= start < end <= text.len(),
        1 <= marker.len <= 2,
        !markers_inside(text, start, end, marker),
        !markers_outside(text, start, end, marker),
        marker.is_italic() ==> run_before(text, '*', start) % 2 == 0 && run_from(text, '*', end) % 2
            == 0,
    ensures
        ({
            let first = toggled(text, start, end, marker, placeholder);
            let second = toggled(first.text, first.from, first.to, marker, placeholder);
            &&& first == wrapped(
                text,
                start,
                end,
                marker.spec_text(),
                marker.spec_text(),
                placeholder,
            )
            &&& second == (EditView { text, from: start, to: end })
        }),
{
    let mark = marker.spec_text();
    let len = marker.len as int;
    let character = marker.character;
    let selected = text.subrange(start, end);
    let first = toggled(text, start, end, marker, placeholder);
    assert(first == wrapped(text, start, end, mark, mark, placeholder));
    let head = text.take(start);
    let tail = text.skip(end);
    assert(first.text == head + mark + (selected + mark + tail));
    assert(first.text == (head + mark + selected) + mark + tail);
    lemma_run_behind(head, marker, selected + mark + tail);
    lemma_run_ahead(head + mark + selected, marker, tail);
    lemma_run_before_prefix(head, tail, character, start);
    assert(run_before(text, character, start) == run_before(head, character, start)) by {
        lemma_run_before_prefix(head, text.skip(start), character, start);
        assert(head + text.skip(start) == text);
    }
    assert(run_from(text, character, end) == run_from(tail, character, 0)) by {
        lemma_run_from_suffix(text.take(end), tail, character, 0);
        assert(text.take(end) + tail == text);
    }
    assert(first.text.subrange(first.from, first.to) =~= selected);
    lemma_run_before(text, character, start);
    lemma_run_from(text, character, end);
    assert(markers_outside(first.text, first.from, first.to, marker));
    assert(first.text.take(first.from - len) =~= head);
    assert(first.text.skip(first.to + len) =~= tail);
    assert(head + selected + tail =~= text);
}

/// Italic on a word in bold puts a pair of stars more round it and does not
/// touch the bold.
pub proof fn law_italic_does_not_rewrite_bold(
    text: Seq<char>,
    start: int,
    end: int,
    placeholder: Seq<char>,
)
    requires
        0 <= start < end <= text.len(),
        text[start] != '*',
        run_before(text, '*', start) % 2 == 0,
    ensures
        ({
            let marker = Marker { character: '*', len: 1 };
            toggled(text, start, end, marker, placeholder) == wrapped(
                text,
                start,
                end,
                marker.spec_text(),
                marker.spec_text(),
                placeholder,
            )
        }),
{
    let marker = Marker { character: '*', len: 1 };
    let selected = text.subrange(start, end);
    assert(selected[0] == text[start]);
    lemma_run_before(selected, '*', selected.len() as int);
    assert(run_from(selected, '*', 0) == 0);
}

/// A line without a line break is its own end.
proof fn lemma_line_end_whole(line: Seq<char>, rest: Seq<char>, at: int)
    requires
        0 <= at <= line.len(),
        forall|i: int| 0 <= i < line.len() ==> line[i] != '\n',
        rest.len() == 0 || rest[0] == '\n',
    ensures
        line_end(line + rest, at) == line.len(),
    decreases line.len() - at,
{
    if at < line.len() {
        assert((line + rest)[at] == line[at]);
        lemma_line_end_whole(line, rest, at + 1);
    } else if rest.len() > 0 {
        assert((line + rest)[at] == rest[0]);
    }
}

/// A line with a heading mark has the level of the mark, and taking the heading
/// away gives the line without its first heading.
proof fn lemma_marked_line(line: Seq<char>, level: int)
    requires
        1 <= level <= 3,
        forall|i: int| 0 <= i < line.len() ==> line[i] != '\n',
    ensures
        ({
            let marked = heading_mark(level) + without_heading(line);
            &&& heading_level(marked) == level
            &&& without_heading(marked) == without_heading(line)
            &&& forall|i: int| 0 <= i < marked.len() ==> marked[i] != '\n'
        }),
{
    let hashes = run_from(line, '#', 0);
    lemma_run_from(line, '#', 0);
    let rest = line.skip(hashes);
    lemma_skip_space_bounds(rest, 0);
    let space = skip_space(rest, 0);
    let kept = without_heading(line);
    assert(kept == rest.skip(space));
    let marked = heading_mark(level) + kept;
    assert forall|i: int| 0 <= i < marked.len() implies marked[i] != '\n' by {
        if i > level {
            assert(marked[i] == line[hashes + space + (i - level - 1)]);
        }
    }
    reveal_with_fuel(run_from, 5);
    assert(run_from(marked, '#', 0) == level);
    let behind = marked.skip(level);
    assert(behind == seq![' '] + kept);
    assert(behind[0] == ' ');
    if kept.len() > 0 {
        assert(kept[0] == rest[space]);
        assert(behind[1] == kept[0]);
    }
    reveal_with_fuel(skip_space, 3);
    assert(skip_space(behind, 0) == 1);
    assert(behind.skip(1) =~= kept);
}

proof fn lemma_marked_block(block: Seq<char>, level: int)
    requires
        1 <= level <= 3,
    ensures
        ({
            let marked = each_line(block, heading_rewrite(heading_mark(level)));
            &&& every_line(marked, heading_test(level))
            &&& each_line(marked, heading_rewrite(heading_mark(0))) == each_line(
                block,
                heading_rewrite(heading_mark(0)),
            )
        }),
    decreases block.len(),
{
    let mark = heading_mark(level);
    let rewrite = heading_rewrite(mark);
    let strip = heading_rewrite(heading_mark(0));
    let holds = heading_test(level);
    let end = line_end(block, 0);
    lemma_line_bounds(block, 0);
    let line = block.take(end);
    assert(forall|i: int| 0 <= i < line.len() ==> line[i] == block[i]);
    lemma_marked_line(line, level);
    let marked_line = mark + without_heading(line);
    assert(rewrite(line) == marked_line);
    assert(strip(line) == heading_mark(0) + without_heading(line));
    assert(strip(marked_line) == strip(line));
    assert(holds(marked_line));
    if end < block.len() {
        let rest = block.skip(end + 1);
        lemma_marked_block(rest, level);
        let marked_rest = each_line(rest, rewrite);
        let marked = each_line(block, rewrite);
        let tail = seq!['\n'] + marked_rest;
        assert(marked == marked_line + tail);
        lemma_line_end_whole(marked_line, tail, 0);
        assert(marked.take(marked_line.len() as int) =~= marked_line);
        assert(marked.skip((marked_line.len() + 1) as int) =~= marked_rest);
    } else {
        assert(line == block);
        lemma_line_end_whole(marked_line, Seq::empty(), 0);
        assert(marked_line + Seq::<char>::empty() == marked_line);
    }
}

/// Pressing a heading button once more returns the lines to paragraphs, as
/// Normal does.
pub proof fn law_second_heading_press_gives_paragraphs(
    text: Seq<char>,
    start: int,
    end: int,
    level: int,
)
    requires
        0 <= start <= end <= text.len(),
        1 <= level <= 3,
        !every_line(
            text.subrange(line_start(text, start), line_end(text, end)),
            heading_test(level),
        ),
    ensures
        ({
            let first = headed(text, start, end, level);
            let second = headed(first.text, first.from, first.to, level);
            second == headed(text, start, end, 0)
        }),
{
    let from = line_start(text, start);
    let to = line_end(text, end);
    lemma_line_bounds(text, start);
    lemma_line_bounds(text, end);
    let block = text.subrange(from, to);
    let first = headed(text, start, end, level);
    let marked = each_line(block, heading_rewrite(heading_mark(level)));
    assert(first.text == text.take(from) + marked + text.skip(to));
    lemma_marked_block(block, level);
    lemma_line_start_kind(text, start);
    if from > 0 {
        assert(first.text[from - 1] == text[from - 1]);
    }
    assert(line_start(first.text, first.from) == from);
    lemma_line_end_kind(text, end);
    if to < text.len() {
        assert(first.text[first.to] == text[to]);
    }
    assert(line_end(first.text, first.to) == first.to);
    assert(first.text.subrange(first.from, first.to) =~= marked);
    assert(first.text.take(first.from) =~= text.take(from));
    assert(first.text.skip(first.to) =~= text.skip(to));
}

pub proof fn lemma_line_start_kind(text: Seq<char>, at: int)
    requires
        0 <= at <= text.len(),
    ensures
        line_start(text, at) > 0 ==> text[line_start(text, at) - 1] == '\n',
    decreases at,
{
    if at > 0 && text[at - 1] != '\n' {
        lemma_line_start_kind(text, at - 1);
    }
}

pub proof fn lemma_line_end_kind(text: Seq<char>, at: int)
    requires
        0 <= at <= text.len(),
    ensures
        line_end(text, at) < text.len() ==> text[line_end(text, at)] == '\n',
    decreases text.len() - at,
{
    if at < text.len() && text[at] != '\n' {
        lemma_line_end_kind(text, at + 1);
    }
}

} // verus!
