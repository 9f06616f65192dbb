//! What each formatting button does, in terms of the text before and after.

use vstd::prelude::*;

use crate::formatting::{
    each_line, every_line, formatted, heading_level, heading_mark, heading_rewrite, heading_test,
    prefix_rewrite, without_heading, EditView, FormatAction, Marker,
};
use crate::path_laws::law_a_separator_parts_a_text;
use crate::text::{
    is_space, lemma_line_bounds, lemma_run_from, lemma_skip_space_bounds, lemma_split_whole,
    line_end, line_start, run_from, skip_space, split_on,
};

verus! {

/// Whether an edit puts two parts round what stands from `start` to `end` and
/// selects what stood there: nothing of the text is lost, and nothing else comes.
pub open spec fn puts_round(
    text: Seq<char>,
    start: int,
    end: int,
    before: Seq<char>,
    after: Seq<char>,
    edit: EditView,
) -> bool {
    &&& edit.text == text.take(start) + before + text.subrange(start, end) + after + text.skip(end)
    &&& edit.from == start + before.len()
    &&& edit.to == edit.from + (end - start)
    &&& edit.text.subrange(edit.from, edit.to) == text.subrange(start, end)
}

/// Whether an edit puts two parts with a sample between them at the cursor, and
/// selects the sample.
pub open spec fn puts_sample(
    text: Seq<char>,
    at: int,
    before: Seq<char>,
    sample: Seq<char>,
    after: Seq<char>,
    edit: EditView,
) -> bool {
    &&& edit.text == text.take(at) + before + sample + after + text.skip(at)
    &&& edit.from == at + before.len()
    &&& edit.to == edit.from + sample.len()
    &&& edit.text.subrange(edit.from, edit.to) == sample
}

/// A code block puts fences on lines of their own round the selection, and a link
/// puts brackets and an address round it. What was selected stays, and stays
/// selected; without a selection a sample takes its place.
pub proof fn law_fences_and_links_keep_the_selection(text: Seq<char>, start: int, end: int)
    requires
        0 <= start <= end <= text.len(),
    ensures
        start < end ==> puts_round(
            text,
            start,
            end,
            "```\n"@,
            "\n```"@,
            formatted(text, start, end, FormatAction::CodeBlock),
        ),
        start < end ==> puts_round(
            text,
            start,
            end,
            "["@,
            "](https://)"@,
            formatted(text, start, end, FormatAction::Link),
        ),
        start == end ==> puts_sample(
            text,
            start,
            "```\n"@,
            "code"@,
            "\n```"@,
            formatted(text, start, end, FormatAction::CodeBlock),
        ),
        start == end ==> puts_sample(
            text,
            start,
            "["@,
            "link text"@,
            "](https://)"@,
            formatted(text, start, end, FormatAction::Link),
        ),
{
    let block = formatted(text, start, end, FormatAction::CodeBlock);
    let link = formatted(text, start, end, FormatAction::Link);
    if start < end {
        assert(block.text.subrange(block.from, block.to) =~= text.subrange(start, end));
        assert(link.text.subrange(link.from, link.to) =~= text.subrange(start, end));
    } else {
        assert(block.text.subrange(block.from, block.to) =~= "code"@);
        assert(link.text.subrange(link.from, link.to) =~= "link text"@);
    }
}

/// What a button that toggles a marker puts on either side, and the sample that it
/// puts in where nothing is selected.
pub open spec fn toggle_parts(action: FormatAction) -> Option<(Seq<char>, Seq<char>)> {
    match action {
        FormatAction::Bold => Some((seq!['*', '*'], "bold text"@)),
        FormatAction::Italic => Some((seq!['*'], "italic text"@)),
        FormatAction::Strikethrough => Some((seq!['~', '~'], "struck text"@)),
        FormatAction::Highlight => Some((seq!['=', '='], "highlighted text"@)),
        FormatAction::InlineCode => Some((seq!['`'], "code"@)),
        _ => None,
    }
}

proof fn lemma_marker_texts()
    ensures
        (Marker { character: '*', len: 2 }).spec_text() == seq!['*', '*'],
        (Marker { character: '*', len: 1 }).spec_text() == seq!['*'],
        (Marker { character: '~', len: 2 }).spec_text() == seq!['~', '~'],
        (Marker { character: '=', len: 2 }).spec_text() == seq!['=', '='],
        (Marker { character: '`', len: 1 }).spec_text() == seq!['`'],
{
    assert((Marker { character: '*', len: 2 }).spec_text() =~= seq!['*', '*']);
    assert((Marker { character: '*', len: 1 }).spec_text() =~= seq!['*']);
    assert((Marker { character: '~', len: 2 }).spec_text() =~= seq!['~', '~']);
    assert((Marker { character: '=', len: 2 }).spec_text() =~= seq!['=', '=']);
    assert((Marker { character: '`', len: 1 }).spec_text() =~= seq!['`']);
}

/// The marker of an action, as the toggles take it.
spec fn marker_for(action: FormatAction) -> Marker {
    match action {
        FormatAction::Bold => Marker { character: '*', len: 2 },
        FormatAction::Italic => Marker { character: '*', len: 1 },
        FormatAction::Strikethrough => Marker { character: '~', len: 2 },
        FormatAction::Highlight => Marker { character: '=', len: 2 },
        _ => Marker { character: '`', len: 1 },
    }
}

/// Whether an edit takes two markers away and nothing else: with them put back
/// round what is selected then, the text is what it was.
pub open spec fn takes_away(text: Seq<char>, marker: Seq<char>, edit: EditView) -> bool {
    &&& 0 <= edit.from <= edit.to <= edit.text.len()
    &&& edit.text.take(edit.from) + marker + edit.text.subrange(edit.from, edit.to) + marker
        + edit.text.skip(edit.to) == text
}

/// A button that toggles a marker does one of two things to a text: it puts its
/// marker on both sides of the selection, or of a sample where nothing is selected,
/// or it takes its marker away from two sides. No other character comes or goes.
pub proof fn law_toggles_put_or_take_their_marker(
    text: Seq<char>,
    start: int,
    end: int,
    action: FormatAction,
)
    requires
        0 <= start <= end <= text.len(),
        toggle_parts(action) is Some,
    ensures
        ({
            let (marker, sample) = toggle_parts(action)->Some_0;
            let edit = formatted(text, start, end, action);
            ||| takes_away(text, marker, edit)
            ||| start < end && puts_round(text, start, end, marker, marker, edit)
            ||| start == end && puts_sample(text, start, marker, sample, marker, edit)
        }),
{
    lemma_marker_texts();
    let (marker, sample) = toggle_parts(action)->Some_0;
    let edit = formatted(text, start, end, action);
    crate::formatting::lemma_toggled_kinds(text, start, end, marker_for(action), sample);
    if !takes_away(text, marker, edit) {
        if start < end {
            assert(edit.text.subrange(edit.from, edit.to) =~= text.subrange(start, end));
        } else {
            assert(edit.text.subrange(edit.from, edit.to) =~= sample);
        }
    }
}

/// In a text without the character of its marker a toggle always puts the marker,
/// and never takes anything.
pub proof fn law_an_absent_marker_is_put(
    text: Seq<char>,
    start: int,
    end: int,
    action: FormatAction,
)
    requires
        0 <= start <= end <= text.len(),
        toggle_parts(action) matches Some(parts) && forall|i: int|
            0 <= i < text.len() ==> text[i] != parts.0[0],
    ensures
        ({
            let (marker, sample) = toggle_parts(action)->Some_0;
            let edit = formatted(text, start, end, action);
            &&& start < end ==> puts_round(text, start, end, marker, marker, edit)
            &&& start == end ==> puts_sample(text, start, marker, sample, marker, edit)
        }),
{
    law_toggles_put_or_take_their_marker(text, start, end, action);
    let (marker, sample) = toggle_parts(action)->Some_0;
    let edit = formatted(text, start, end, action);
    if takes_away(text, marker, edit) {
        assert(text[edit.from] == marker[0]);
    }
}

/// A text with one span between two markers, and nothing else of the marker.
pub open spec fn one_span(
    front: Seq<char>,
    marker: Seq<char>,
    inner: Seq<char>,
    back: Seq<char>,
) -> Seq<char> {
    front + marker + inner + marker + back
}

/// A toggle takes its marker away from a span that is selected with its markers,
/// from one that is selected without them, and from one that the cursor stands in,
/// and selects what the markers enclosed.
pub proof fn law_a_present_marker_is_taken(
    front: Seq<char>,
    inner: Seq<char>,
    back: Seq<char>,
    cursor: int,
    action: FormatAction,
)
    requires
        toggle_parts(action) matches Some(parts) && forall|i: int|
            (0 <= i < front.len() ==> front[i] != parts.0[0]) && (0 <= i < inner.len() ==> inner[i]
                != parts.0[0] && inner[i] != '\n') && (0 <= i < back.len() ==> back[i]
                != parts.0[0]),
        inner.len() > 0,
        0 <= cursor <= inner.len(),
    ensures
        ({
            let marker = toggle_parts(action)->Some_0.0;
            let text = one_span(front, marker, inner, back);
            let open = front.len() as int;
            let first = open + marker.len();
            let last = first + inner.len();
            let close = last + marker.len();
            let bare = EditView { text: front + inner + back, from: open, to: open + inner.len() };
            &&& formatted(text, open, close, action) == bare
            &&& formatted(text, first, last, action) == bare
            &&& formatted(text, first + cursor, first + cursor, action) == bare
        }),
{
    lemma_marker_texts();
    let (marker, sample) = toggle_parts(action)->Some_0;
    crate::formatting::lemma_present_marker_goes(
        front,
        inner,
        back,
        cursor,
        marker_for(action),
        sample,
    );
}

/// Whether a text has no line break in it.
pub open spec fn is_line(text: Seq<char>) -> bool {
    forall|i: int| 0 <= i < text.len() ==> #[trigger] text[i] != '\n'
}

proof fn lemma_lines(block: Seq<char>, rewrite: spec_fn(Seq<char>) -> Seq<char>)
    requires
        forall|line: Seq<char>| is_line(line) ==> is_line(#[trigger] rewrite(line)),
    ensures
        split_on(each_line(block, rewrite), '\n').len() == split_on(block, '\n').len(),
        forall|k: int|
            0 <= k < split_on(block, '\n').len() ==> #[trigger] split_on(
                each_line(block, rewrite),
                '\n',
            )[k] == rewrite(split_on(block, '\n')[k]),
    decreases block.len(),
{
    lemma_line_bounds(block, 0);
    let end = line_end(block, 0);
    let line = block.take(end);
    assert(forall|i: int| 0 <= i < line.len() ==> line[i] == block[i]);
    let new = rewrite(line);
    assert(is_line(line));
    assert(is_line(new));
    lemma_split_whole(line, '\n');
    lemma_split_whole(new, '\n');
    if end < block.len() {
        let rest = block.skip(end + 1);
        lemma_lines(rest, rewrite);
        crate::formatting::lemma_line_end_kind(block, 0);
        assert(block =~= line + seq!['\n'] + rest);
        law_a_separator_parts_a_text(line, rest, '\n');
        law_a_separator_parts_a_text(new, each_line(rest, rewrite), '\n');
        let whole = each_line(block, rewrite);
        assert(split_on(whole, '\n') == seq![new] + split_on(each_line(rest, rewrite), '\n'));
        assert(split_on(block, '\n') == seq![line] + split_on(rest, '\n'));
        assert forall|k: int| 0 <= k < split_on(block, '\n').len() implies #[trigger] split_on(
            whole,
            '\n',
        )[k] == rewrite(split_on(block, '\n')[k]) by {
            if k > 0 {
                assert(split_on(block, '\n')[k] == split_on(rest, '\n')[k - 1]);
                assert(split_on(whole, '\n')[k] == split_on(each_line(rest, rewrite), '\n')[k - 1]);
            }
        }
    } else {
        assert(line =~= block);
    }
}

/// Whether `from` and `to` are the start of the first line and the end of the last
/// line that a selection touches.
pub open spec fn whole_lines(text: Seq<char>, start: int, end: int, from: int, to: int) -> bool {
    &&& 0 <= from <= start <= end <= to <= text.len()
    &&& from == 0 || text[from - 1] == '\n'
    &&& to == text.len() || text[to] == '\n'
    &&& forall|i: int| from <= i < start ==> text[i] != '\n'
    &&& forall|i: int| end <= i < to ==> text[i] != '\n'
}

proof fn lemma_whole_lines(text: Seq<char>, start: int, end: int)
    requires
        0 <= start <= end <= text.len(),
    ensures
        whole_lines(text, start, end, line_start(text, start), line_end(text, end)),
{
    lemma_line_bounds(text, start);
    lemma_line_bounds(text, end);
    crate::formatting::lemma_line_start_kind(text, start);
    crate::formatting::lemma_line_end_kind(text, end);
}

/// There is one first and one last line that a selection touches.
proof fn lemma_same_lines(text: Seq<char>, start: int, end: int, from: int, to: int)
    requires
        whole_lines(text, start, end, from, to),
    ensures
        from == line_start(text, start),
        to == line_end(text, end),
{
    lemma_whole_lines(text, start, end);
    let first = line_start(text, start);
    let last = line_end(text, end);
    if from < first {
        assert(text[first - 1] == '\n');
    } else if first < from {
        assert(text[from - 1] == '\n');
    }
    if to < last {
        assert(text[to] == '\n');
    } else if last < to {
        assert(text[last] == '\n');
    }
}

/// What a list button, or the button for quotes, puts before a line.
pub open spec fn line_prefix(action: FormatAction) -> Option<Seq<char>> {
    match action {
        FormatAction::Quote => Some(seq!['>', ' ']),
        FormatAction::BulletedList => Some(seq!['-', ' ']),
        FormatAction::NumberedList => Some(seq!['1', '.', ' ']),
        FormatAction::Checklist => Some(seq!['-', ' ', '[', ' ', ']', ' ']),
        _ => None,
    }
}

proof fn lemma_prefixes()
    ensures
        "> "@ == seq!['>', ' '],
        "- "@ == seq!['-', ' '],
        "1. "@ == seq!['1', '.', ' '],
        "- [ ] "@ == seq!['-', ' ', '[', ' ', ']', ' '],
{
    reveal_strlit("> ");
    reveal_strlit("- ");
    reveal_strlit("1. ");
    reveal_strlit("- [ ] ");
    assert("> "@ =~= seq!['>', ' ']);
    assert("- "@ =~= seq!['-', ' ']);
    assert("1. "@ =~= seq!['1', '.', ' ']);
    assert("- [ ] "@ =~= seq!['-', ' ', '[', ' ', ']', ' ']);
}

/// Quotes and lists put their prefix before every line that the selection touches,
/// the blank ones too, and before no other. Without the prefixes the lines are what
/// they were; what stands before and behind them stays, and they are selected.
pub proof fn law_every_selected_line_gets_its_prefix(
    text: Seq<char>,
    start: int,
    end: int,
    from: int,
    to: int,
    action: FormatAction,
)
    requires
        whole_lines(text, start, end, from, to),
        line_prefix(action) is Some,
    ensures
        ({
            let prefix = line_prefix(action)->Some_0;
            let edit = formatted(text, start, end, action);
            let before = split_on(text.subrange(from, to), '\n');
            let after = split_on(edit.text.subrange(edit.from, edit.to), '\n');
            &&& edit.from == from
            &&& edit.text.take(from) == text.take(from)
            &&& edit.text.skip(edit.to) == text.skip(to)
            &&& after.len() == before.len()
            &&& forall|k: int| 0 <= k < before.len() ==> #[trigger] after[k] == prefix + before[k]
        }),
{
    lemma_prefixes();
    lemma_same_lines(text, start, end, from, to);
    let prefix = line_prefix(action)->Some_0;
    let edit = formatted(text, start, end, action);
    let block = text.subrange(from, to);
    let rewrite = prefix_rewrite(prefix);
    assert forall|line: Seq<char>| is_line(line) implies is_line(#[trigger] rewrite(line)) by {
        assert forall|i: int| 0 <= i < rewrite(line).len() implies #[trigger] rewrite(line)[i]
            != '\n' by {
            assert(rewrite(line) == prefix + line);
            if i >= prefix.len() {
                assert(rewrite(line)[i] == line[i - prefix.len()]);
            }
        }
    }
    lemma_lines(block, rewrite);
    let new = each_line(block, rewrite);
    assert(edit.text.take(from) =~= text.take(from));
    assert(edit.text.subrange(edit.from, edit.to) =~= new);
    assert(edit.text.skip(edit.to) =~= text.skip(to));
    let before = split_on(block, '\n');
    let after = split_on(new, '\n');
    assert forall|k: int| 0 <= k < before.len() implies #[trigger] after[k] == prefix
        + before[k] by {
        assert(after[k] == rewrite(before[k]));
    }
}

/// What a heading button puts before a line.
pub open spec fn heading_prefix_of(action: FormatAction) -> Option<Seq<char>> {
    match action {
        FormatAction::Normal => Some(seq![]),
        FormatAction::Heading1 => Some(seq!['#', ' ']),
        FormatAction::Heading2 => Some(seq!['#', '#', ' ']),
        FormatAction::Heading3 => Some(seq!['#', '#', '#', ' ']),
        _ => None,
    }
}

/// Whether a text is what is left of a line without its `#` and the whitespace
/// behind them.
pub open spec fn bare_line(line: Seq<char>, bare: Seq<char>) -> bool {
    exists|hashes: int, space: int|
        {
            &&& 0 <= hashes <= space <= line.len()
            &&& bare == #[trigger] line.subrange(space, line.len() as int)
            &&& forall|i: int| 0 <= i < hashes ==> line[i] == '#'
            &&& forall|i: int| hashes <= i < space ==> is_space(#[trigger] line[i])
            &&& hashes == line.len() || line[hashes] != '#'
            &&& space == line.len() || !is_space(line[space])
            &&& #[trigger] line.subrange(0, hashes) == line.take(hashes)
        }
}

proof fn lemma_bare(line: Seq<char>)
    ensures
        bare_line(line, without_heading(line)),
{
    lemma_run_from(line, '#', 0);
    let hashes = run_from(line, '#', 0);
    let rest = line.skip(hashes);
    lemma_skip_space_bounds(rest, 0);
    let space = hashes + skip_space(rest, 0);
    assert(without_heading(line) =~= line.subrange(space, line.len() as int));
    assert(line.subrange(0, hashes) =~= line.take(hashes));
    assert forall|i: int| hashes <= i < space implies is_space(#[trigger] line[i]) by {
        assert(rest[i - hashes] == line[i]);
    }
    if space < line.len() {
        assert(rest[space - hashes] == line[space]);
    }
}

/// Whether a line is blank or a heading with a prefix, such as `## `.
pub open spec fn blank_or_prefixed(line: Seq<char>, prefix: Seq<char>) -> bool {
    ||| forall|i: int| 0 <= i < line.len() ==> is_space(#[trigger] line[i])
    ||| prefix.len() <= line.len() && line.take(prefix.len() as int) == prefix
}

/// A heading button puts the mark of its level before every line that the selection
/// touches, in the place of the mark that the line has, and takes the marks away
/// where every line but blank ones has that very mark already. Normal text takes
/// them away always. The rest of each line, and all other lines, stay.
pub proof fn law_a_heading_button_sets_the_level_of_every_line(
    text: Seq<char>,
    start: int,
    end: int,
    from: int,
    to: int,
    action: FormatAction,
)
    requires
        whole_lines(text, start, end, from, to),
        heading_prefix_of(action) is Some,
    ensures
        ({
            let prefix = heading_prefix_of(action)->Some_0;
            let edit = formatted(text, start, end, action);
            let before = split_on(text.subrange(from, to), '\n');
            let after = split_on(edit.text.subrange(edit.from, edit.to), '\n');
            let already = forall|k: int|
                0 <= k < before.len() ==> blank_or_prefixed(#[trigger] before[k], prefix);
            let mark = if already {
                Seq::<char>::empty()
            } else {
                prefix
            };
            &&& edit.from == from
            &&& edit.text.take(from) == text.take(from)
            &&& edit.text.skip(edit.to) == text.skip(to)
            &&& after.len() == before.len()
            &&& forall|k: int|
                0 <= k < before.len() ==> (#[trigger] after[k]).len() >= mark.len() && after[k].take(
                    mark.len() as int,
                ) == mark && bare_line(before[k], after[k].skip(mark.len() as int))
        }),
{
    lemma_same_lines(text, start, end, from, to);
    let prefix = heading_prefix_of(action)->Some_0;
    let level: int = match action {
        FormatAction::Heading1 => 1,
        FormatAction::Heading2 => 2,
        FormatAction::Heading3 => 3,
        _ => 0,
    };
    assert(heading_mark(level) =~= prefix);
    let edit = formatted(text, start, end, action);
    let block = text.subrange(from, to);
    let before = split_on(block, '\n');
    lemma_every_line(block, level);
    let held = every_line(block, heading_test(level));
    let already = forall|k: int|
        0 <= k < before.len() ==> blank_or_prefixed(#[trigger] before[k], prefix);
    let mark = if already {
        Seq::<char>::empty()
    } else {
        prefix
    };
    if level > 0 {
        assert forall|k: int| 0 <= k < before.len() implies blank_or_prefixed(
            #[trigger] before[k],
            prefix,
        ) == crate::formatting::blank_or_heading(before[k], level) by {
            lemma_blank_or_heading(before[k], level);
        }
        assert(held == already);
    }
    let used = if level > 0 && held {
        heading_mark(0)
    } else {
        heading_mark(level)
    };
    assert(used =~= mark);
    let rewrite = heading_rewrite(used);
    assert forall|line: Seq<char>| is_line(line) implies is_line(#[trigger] rewrite(line)) by {
        lemma_run_from(line, '#', 0);
        let hashes = run_from(line, '#', 0);
        let rest = line.skip(hashes);
        lemma_skip_space_bounds(rest, 0);
        let space = skip_space(rest, 0);
        assert forall|i: int| 0 <= i < rewrite(line).len() implies #[trigger] rewrite(line)[i]
            != '\n' by {
            assert(rewrite(line) == used + without_heading(line));
            if i >= used.len() {
                assert(rewrite(line)[i] == line[hashes + space + (i - used.len())]);
            }
        }
    }
    lemma_lines(block, rewrite);
    let new = each_line(block, rewrite);
    assert(edit.text.take(from) =~= text.take(from));
    assert(edit.text.subrange(edit.from, edit.to) =~= new);
    assert(edit.text.skip(edit.to) =~= text.skip(to));
    let after = split_on(new, '\n');
    assert forall|k: int| 0 <= k < before.len() implies (#[trigger] after[k]).len() >= mark.len()
        && after[k].take(mark.len() as int) == mark && bare_line(
        before[k],
        after[k].skip(mark.len() as int),
    ) by {
        assert(after[k] == rewrite(before[k]));
        assert(after[k] == used + without_heading(before[k]));
        assert(after[k].take(mark.len() as int) =~= mark);
        assert(after[k].skip(mark.len() as int) =~= without_heading(before[k]));
        lemma_bare(before[k]);
    }
}

proof fn lemma_blank_or_heading(line: Seq<char>, level: int)
    requires
        1 <= level <= 3,
    ensures
        crate::formatting::blank_or_heading(line, level) == blank_or_prefixed(
            line,
            heading_mark(level),
        ),
{
    let prefix = heading_mark(level);
    lemma_skip_space_bounds(line, 0);
    lemma_run_from(line, '#', 0);
    let hashes = run_from(line, '#', 0);
    if prefix.len() <= line.len() && line.take(prefix.len() as int) == prefix {
        assert forall|i: int| 0 <= i < prefix.len() implies line[i] == prefix[i] by {
            assert(line.take(prefix.len() as int)[i] == line[i]);
        }
        assert(prefix[level] == ' ');
        if hashes > level {
            assert(line[level] == '#');
        } else if hashes < level {
            assert(prefix[hashes] == '#');
        }
        assert(heading_level(line) == level);
    } else if heading_level(line) == level {
        assert(line.take(prefix.len() as int) =~= prefix);
    }
    if skip_space(line, 0) < line.len() {
        assert(!is_space(line[skip_space(line, 0)]));
    }
}

proof fn lemma_every_line(block: Seq<char>, level: int)
    ensures
        every_line(block, heading_test(level)) <==> forall|k: int|
            0 <= k < split_on(block, '\n').len() ==> crate::formatting::blank_or_heading(
                #[trigger] split_on(block, '\n')[k],
                level,
            ),
    decreases block.len(),
{
    let holds = heading_test(level);
    lemma_line_bounds(block, 0);
    let end = line_end(block, 0);
    let line = block.take(end);
    assert(forall|i: int| 0 <= i < line.len() ==> line[i] == block[i]);
    lemma_split_whole(line, '\n');
    let all = split_on(block, '\n');
    if end < block.len() {
        let rest = block.skip(end + 1);
        lemma_every_line(rest, level);
        crate::formatting::lemma_line_end_kind(block, 0);
        assert(block =~= line + seq!['\n'] + rest);
        law_a_separator_parts_a_text(line, rest, '\n');
        let others = split_on(rest, '\n');
        assert(all == seq![line] + others);
        assert(all[0] == line);
        assert forall|k: int| 0 <= k < others.len() implies #[trigger] others[k] == all[k + 1] by {}
        if every_line(block, holds) {
            assert forall|k: int| 0 <= k < all.len() implies crate::formatting::blank_or_heading(
                #[trigger] all[k],
                level,
            ) by {
                if k > 0 {
                    assert(others[k - 1] == all[k]);
                }
            }
        }
        if forall|k: int|
            0 <= k < all.len() ==> crate::formatting::blank_or_heading(#[trigger] all[k], level) {
            assert(holds(line));
            assert forall|k: int| 0 <= k < others.len() implies crate::formatting::blank_or_heading(
                #[trigger] others[k],
                level,
            ) by {
                assert(others[k] == all[k + 1]);
            }
        }
    } else {
        assert(line =~= block);
        assert(all[0] == block);
    }
}

/// A divider comes on a line of its own at the start of the selection. Nothing of
/// the text is lost, what was selected among it, and the cursor stands behind it.
pub proof fn law_a_divider_is_put_in(text: Seq<char>, start: int, end: int)
    requires
        0 <= start <= end <= text.len(),
    ensures
        ({
            let edit = formatted(text, start, end, FormatAction::HorizontalDivider);
            &&& edit.text == text.take(start) + seq!['\n', '-', '-', '-', '\n'] + text.skip(start)
            &&& edit.from == start + 5
            &&& edit.to == edit.from
        }),
{
    reveal_strlit("\n---\n");
    assert("\n---\n"@ =~= seq!['\n', '-', '-', '-', '\n']);
}

} // verus!
