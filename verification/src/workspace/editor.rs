//! The editor: positions in characters and in bytes, what a format changes in
//! the buffer, and which styles are shown.

use vstd::prelude::*;
use vstd::utf8::{
    decode_utf8, decode_utf8_encode_utf8, decode_utf8_split, encode_utf8, encode_utf8_decode_utf8,
    encode_utf8_valid_utf8, is_char_boundary, is_char_boundary_start_end_of_seq,
    partial_valid_partial_invalid_utf8, valid_utf8, valid_utf8_split,
};

use crate::formatting::{
    apply_markdown_format, formatted, selection_in_chars, FormatAction,
};
use crate::markdown_spans::{
    compute_spans, range_shows, span_shows, spans_of, SpanKind, SpanView,
};
use crate::text::{
    byte_len, bytes_before, char_floor, chars_of, floor_char, lemma_byte_len_monotone,
    lemma_char_floor, lemma_encode_concat, lemma_floor_at, string_between,
};

verus! {

// Positions.

/// The byte at which a character starts, or the number of bytes of the text.
pub open spec fn byte_of(text: Seq<char>, position: int) -> nat {
    if position < text.len() {
        byte_len(text.take(position))
    } else {
        byte_len(text)
    }
}

/// The byte at which a character starts, or the number of bytes of the text.
pub fn char_to_byte(value: &str, char_index: usize) -> (bytes: usize)
    ensures
        bytes == byte_of(value@, char_index as int),
{
    let chars = chars_of(value);
    if char_index < chars.len() {
        bytes_before(&chars, char_index)
    } else {
        proof {
            assert(value@.take(value@.len() as int) == value@);
        }
        bytes_before(&chars, chars.len())
    }
}

/// How many characters stand before a byte. Bytes behind the text count as its end.
pub fn byte_to_char(value: &str, byte_index: usize) -> (chars: usize)
    ensures
        chars == char_floor(value@, byte_index as int),
{
    floor_char(value, &chars_of(value), byte_index)
}

/// A byte at which a character starts stands for that character.
pub proof fn law_positions_round_trip(text: Seq<char>, position: int)
    requires
        0 <= position <= text.len(),
    ensures
        char_floor(text, byte_of(text, position) as int) == position,
{
    assert(text.take(text.len() as int) == text);
    lemma_floor_at(text, position);
}

// What changes in the buffer.

/// How many bytes two sequences have in common at their fronts.
pub open spec fn common_front(left: Seq<u8>, right: Seq<u8>, from: int) -> int
    decreases left.len() - from,
{
    if from < left.len() && from < right.len() && left[from] == right[from] {
        common_front(left, right, from + 1)
    } else {
        from
    }
}

/// How many bytes two sequences have in common at their backs, up to a number.
pub open spec fn common_back(left: Seq<u8>, right: Seq<u8>, from: int, limit: int) -> int
    decreases limit - from,
{
    if from < limit && left[left.len() - 1 - from] == right[right.len() - 1 - from] {
        common_back(left, right, from + 1, limit)
    } else {
        from
    }
}

/// The smaller of two numbers of bytes.
pub open spec fn shorter(left: Seq<u8>, right: Seq<u8>) -> int {
    if left.len() < right.len() {
        left.len() as int
    } else {
        right.len() as int
    }
}

/// How many bytes at the back stay: as many of the common ones as are whole
/// characters in both.
pub open spec fn whole_back(left: Seq<u8>, right: Seq<u8>, bytes: int) -> int
    decreases bytes,
{
    if bytes > 0 && !(is_char_boundary(left, left.len() - bytes) && is_char_boundary(
        right,
        right.len() - bytes,
    )) {
        whole_back(left, right, bytes - 1)
    } else {
        bytes
    }
}

/// How many bytes at the front and at the back two texts have in common. No
/// byte counts twice.
pub open spec fn affixes(left: Seq<char>, right: Seq<char>) -> (int, int) {
    let one = encode_utf8(left);
    let two = encode_utf8(right);
    let front = common_front(one, two, 0);
    (front, common_back(one, two, 0, shorter(one, two) - front))
}

proof fn lemma_common_front(left: Seq<u8>, right: Seq<u8>, from: int)
    requires
        0 <= from <= left.len(),
        from <= right.len(),
        left.take(from) == right.take(from),
    ensures
        ({
            let front = common_front(left, right, from);
            &&& from <= front <= left.len()
            &&& front <= right.len()
            &&& left.take(front) == right.take(front)
        }),
    decreases left.len() - from,
{
    if from < left.len() && from < right.len() && left[from] == right[from] {
        assert(left.take(from + 1) =~= left.take(from).push(left[from]));
        assert(right.take(from + 1) =~= right.take(from).push(right[from]));
        lemma_common_front(left, right, from + 1);
    }
}

proof fn lemma_common_back(left: Seq<u8>, right: Seq<u8>, from: int, limit: int)
    requires
        0 <= from <= limit,
        limit <= left.len(),
        limit <= right.len(),
        left.skip(left.len() - from) == right.skip(right.len() - from),
    ensures
        ({
            let back = common_back(left, right, from, limit);
            &&& from <= back <= limit
            &&& left.skip(left.len() - back) == right.skip(right.len() - back)
        }),
    decreases limit - from,
{
    if from < limit && left[left.len() - 1 - from] == right[right.len() - 1 - from] {
        let next = from + 1;
        assert(left.skip(left.len() - next) =~= seq![left[left.len() - next]] + left.skip(
            left.len() - from,
        ));
        assert(right.skip(right.len() - next) =~= seq![right[right.len() - next]] + right.skip(
            right.len() - from,
        ));
        lemma_common_back(left, right, next, limit);
    }
}

/// Gives how many bytes two texts have in common at their fronts and backs.
pub fn common_affix_bytes(left: &str, right: &str) -> (common: (usize, usize))
    ensures
        (common.0 as int, common.1 as int) == affixes(left@, right@),
{
    let one: &[u8] = left.as_bytes();
    let two: &[u8] = right.as_bytes();
    let max: usize = if one.len() < two.len() {
        one.len()
    } else {
        two.len()
    };
    let mut front: usize = 0;
    while front < max && one[front] == two[front]
        invariant
            front <= max,
            max == shorter(one@, two@),
            common_front(one@, two@, front as int) == common_front(one@, two@, 0),
        decreases max - front,
    {
        front += 1;
    }
    let limit: usize = max - front;
    let mut back: usize = 0;
    while back < limit && one[one.len() - 1 - back] == two[two.len() - 1 - back]
        invariant
            back <= limit,
            limit <= one@.len(),
            limit <= two@.len(),
            common_back(one@, two@, back as int, limit as int) == common_back(
                one@,
                two@,
                0,
                limit as int,
            ),
        decreases limit - back,
    {
        back += 1;
    }
    (front, back)
}

/// A text whose bytes are the first of another is the front of it.
pub proof fn lemma_front_in_chars(front: Seq<char>, whole: Seq<char>)
    requires
        byte_len(front) <= byte_len(whole),
        encode_utf8(whole).take(byte_len(front) as int) == encode_utf8(front),
    ensures
        front.len() <= whole.len(),
        whole.take(front.len() as int) == front,
{
    let bytes = encode_utf8(whole);
    let at = byte_len(front) as int;
    encode_utf8_valid_utf8(front);
    encode_utf8_valid_utf8(whole);
    assert(bytes.subrange(0, at) =~= encode_utf8(front));
    let tail = bytes.subrange(at, bytes.len() as int);
    if !valid_utf8(tail) {
        partial_valid_partial_invalid_utf8(bytes, at);
    }
    let rest = decode_utf8(tail);
    decode_utf8_encode_utf8(tail);
    lemma_encode_concat(front, rest);
    assert(encode_utf8(front + rest) =~= bytes);
    encode_utf8_decode_utf8(front + rest);
    encode_utf8_decode_utf8(whole);
    assert(whole == front + rest);
    assert(whole.take(front.len() as int) =~= front);
}

/// A byte at which a character starts, as a number of characters.
proof fn lemma_boundary_in_chars(text: Seq<char>, index: int)
    requires
        0 <= index <= byte_len(text),
        is_char_boundary(encode_utf8(text), index),
    ensures
        ({
            let at = char_floor(text, index);
            &&& 0 <= at <= text.len()
            &&& byte_len(text.take(at)) == index
            &&& encode_utf8(text.skip(at)) == encode_utf8(text).skip(index)
            &&& encode_utf8(text.take(at)) == encode_utf8(text).take(index)
        }),
{
    let bytes = encode_utf8(text);
    encode_utf8_valid_utf8(text);
    valid_utf8_split(bytes, index);
    decode_utf8_split(bytes, index);
    encode_utf8_decode_utf8(text);
    let head = bytes.subrange(0, index);
    let tail = bytes.subrange(index, bytes.len() as int);
    let front = decode_utf8(head);
    let back = decode_utf8(tail);
    decode_utf8_encode_utf8(head);
    decode_utf8_encode_utf8(tail);
    assert(text == front + back);
    assert(text.take(front.len() as int) =~= front);
    assert(text.skip(front.len() as int) =~= back);
    lemma_floor_at(text, front.len() as int);
    assert(tail =~= bytes.skip(index));
    assert(head =~= bytes.take(index));
}

proof fn lemma_whole_back(left: Seq<u8>, right: Seq<u8>, bytes: int)
    requires
        0 <= bytes,
        bytes <= left.len(),
        bytes <= right.len(),
        valid_utf8(left),
        valid_utf8(right),
        left.skip(left.len() - bytes) == right.skip(right.len() - bytes),
    ensures
        ({
            let back = whole_back(left, right, bytes);
            &&& 0 <= back <= bytes
            &&& is_char_boundary(left, left.len() - back)
            &&& is_char_boundary(right, right.len() - back)
            &&& left.skip(left.len() - back) == right.skip(right.len() - back)
        }),
    decreases bytes,
{
    if bytes > 0 && !(is_char_boundary(left, left.len() - bytes) && is_char_boundary(
        right,
        right.len() - bytes,
    )) {
        let next = bytes - 1;
        assert(left.skip(left.len() - next) =~= left.skip(left.len() - bytes).skip(1));
        assert(right.skip(right.len() - next) =~= right.skip(right.len() - bytes).skip(1));
        lemma_whole_back(left, right, next);
    } else if bytes == 0 {
        is_char_boundary_start_end_of_seq(left);
        is_char_boundary_start_end_of_seq(right);
    }
}

/// A part of a buffer that is replaced, in characters.
#[derive(Debug, PartialEq, Eq)]
pub struct Replacement {
    pub start: usize,
    pub end: usize,
    pub text: String,
}

/// Whether a replacement makes one text of another.
pub open spec fn makes(replacement: Replacement, source: Seq<char>, edited: Seq<char>) -> bool {
    &&& replacement.start <= replacement.end <= source.len()
    &&& edited == source.take(replacement.start as int) + replacement.text@ + source.skip(
        replacement.end as int,
    )
}

/// Whether a replacement leaves what two texts have in common at their fronts and
/// backs, as far as that is whole characters.
pub open spec fn replaces_least(
    replacement: Replacement,
    source: Seq<char>,
    edited: Seq<char>,
) -> bool {
    &&& replacement.start == char_floor(source, affixes(source, edited).0)
    &&& replacement.end == char_floor(
        source,
        byte_len(source) - whole_back(
            encode_utf8(source),
            encode_utf8(edited),
            affixes(source, edited).1,
        ),
    )
}

/// The part of a buffer that has to be replaced for it to hold another text:
/// without what the two have in common at their fronts and backs.
pub fn plan_replacement(source: &str, edited: &str) -> (replacement: Replacement)
    ensures
        makes(replacement, source@, edited@),
        replaces_least(replacement, source@, edited@),
{
    let ghost one = encode_utf8(source@);
    let ghost two = encode_utf8(edited@);
    let (front, common) = common_affix_bytes(source, edited);
    let source_chars = chars_of(source);
    let edited_chars = chars_of(edited);
    let source_len: usize = source.as_bytes().len();
    let edited_len: usize = edited.as_bytes().len();
    proof {
        assert(one.take(0) =~= two.take(0));
        lemma_common_front(one, two, 0);
        assert(one.skip(one.len() as int) =~= two.skip(two.len() as int));
        lemma_common_back(one, two, 0, shorter(one, two) - front);
        encode_utf8_valid_utf8(source@);
        encode_utf8_valid_utf8(edited@);
    }
    let mut back: usize = common;
    while back > 0 && !(source.is_char_boundary(source_len - back) && edited.is_char_boundary(
        edited_len - back,
    ))
        invariant
            back <= common,
            common <= source_len,
            common <= edited_len,
            one == encode_utf8(source@),
            two == encode_utf8(edited@),
            source_len == one.len(),
            edited_len == two.len(),
            whole_back(one, two, back as int) == whole_back(one, two, common as int),
        decreases back,
    {
        back -= 1;
    }
    let start: usize = floor_char(source, &source_chars, front);
    let end: usize = floor_char(source, &source_chars, source_len - back);
    let edited_end: usize = floor_char(edited, &edited_chars, edited_len - back);
    proof {
        lemma_whole_back(one, two, common as int);
        lemma_char_floor(source@, front as int);
        lemma_boundary_in_chars(source@, source_len - back);
        lemma_boundary_in_chars(edited@, edited_len - back);
        // The fronts are the same text.
        let head = source@.take(start as int);
        let rest = source@.skip(start as int);
        assert(source@ =~= head + rest);
        lemma_encode_concat(head, rest);
        assert(one.take(byte_len(head) as int) =~= encode_utf8(head));
        assert(two.take(byte_len(head) as int) =~= two.take(front as int).take(
            byte_len(head) as int,
        ));
        assert(one.take(byte_len(head) as int) =~= one.take(front as int).take(
            byte_len(head) as int,
        ));
        lemma_front_in_chars(head, edited@);
        assert(edited@.take(start as int) == head);
        // So are the backs.
        let source_tail = source@.skip(end as int);
        let edited_tail = edited@.skip(edited_end as int);
        encode_utf8_decode_utf8(source_tail);
        encode_utf8_decode_utf8(edited_tail);
        assert(source_tail == edited_tail);
        // The front ends before the back starts.
        if start > end {
            lemma_byte_len_monotone(source@, end as int, start as int);
        }
        if start > edited_end {
            lemma_byte_len_monotone(edited@, edited_end as int, start as int);
        }
    }
    let text = string_between(&edited_chars, start, edited_end);
    proof {
        assert(edited@ =~= edited@.take(start as int) + edited@.subrange(
            start as int,
            edited_end as int,
        ) + edited@.skip(edited_end as int));
    }
    Replacement { start, end, text }
}

/// What a format changes in the buffer, and what is selected then.
#[derive(Debug, PartialEq, Eq)]
pub struct BufferEdit {
    pub replacement: Replacement,
    pub selection_start: usize,
    pub selection_end: usize,
}

/// The selection within a text, in characters.
pub open spec fn clamped(text: Seq<char>, position: int) -> int {
    if position < text.len() {
        position
    } else {
        text.len() as int
    }
}

/// What a format makes of the buffer.
pub fn format_buffer(source: &str, start_chars: usize, end_chars: usize, action: FormatAction) -> (edit:
    BufferEdit)
    requires
        start_chars <= end_chars,
    ensures
        ({
            let start = clamped(source@, start_chars as int);
            let end = clamped(source@, end_chars as int);
            let wanted = formatted(source@, start, end, action);
            &&& makes(edit.replacement, source@, wanted.text)
            &&& replaces_least(edit.replacement, source@, wanted.text)
            &&& edit.selection_start == wanted.from
            &&& edit.selection_end == wanted.to
        }),
{
    let start: usize = char_to_byte(source, start_chars);
    let end: usize = char_to_byte(source, end_chars);
    proof {
        law_positions_round_trip(source@, clamped(source@, start_chars as int));
        law_positions_round_trip(source@, clamped(source@, end_chars as int));
        assert(source@.take(source@.len() as int) == source@);
        assert(selection_in_chars(source@, start, end) == (
            clamped(source@, start_chars as int),
            clamped(source@, end_chars as int),
        ));
    }
    let edited = apply_markdown_format(source, start, end, action);
    let ghost wanted = formatted(
        source@,
        clamped(source@, start_chars as int),
        clamped(source@, end_chars as int),
        action,
    );
    let replacement = plan_replacement(source, &edited.text);
    let selection_start: usize = byte_to_char(&edited.text, edited.selection_start);
    let selection_end: usize = byte_to_char(&edited.text, edited.selection_end);
    proof {
        lemma_floor_at(edited.text@, wanted.from);
        lemma_floor_at(edited.text@, wanted.to);
    }
    BufferEdit { replacement, selection_start, selection_end }
}

// Styles.

/// The name of the style of marks.
pub const MARKDOWN_MARKER_TAG: &'static str = "md-marker";

/// The name of the style for a kind of span, where it has one.
pub open spec fn style_of(kind: SpanKind) -> Option<Seq<char>> {
    match kind {
        SpanKind::Heading1 => Some("md-h1"@),
        SpanKind::Heading2 => Some("md-h2"@),
        SpanKind::Heading3 => Some("md-h3"@),
        SpanKind::Bold => Some("md-bold"@),
        SpanKind::Italic => Some("md-italic"@),
        SpanKind::Strikethrough => Some("md-strike"@),
        SpanKind::Highlight => Some("md-highlight"@),
        SpanKind::InlineCode => Some("md-code"@),
        SpanKind::Quote => Some("md-quote"@),
        SpanKind::Link => Some("md-link"@),
        SpanKind::ChecklistItem { checked } => if checked {
            Some("md-checked"@)
        } else {
            None
        },
        SpanKind::BulletItem => None,
        SpanKind::NumberedItem => None,
        SpanKind::Divider => None,
    }
}

/// The name of the style for a kind of span, where it has one.
pub fn content_tag_name(kind: SpanKind) -> (name: Option<&'static str>)
    ensures
        style_of(kind) == (match name {
            Some(name) => Some(name@),
            None => None,
        }),
{
    match kind {
        SpanKind::Heading1 => Some("md-h1"),
        SpanKind::Heading2 => Some("md-h2"),
        SpanKind::Heading3 => Some("md-h3"),
        SpanKind::Bold => Some("md-bold"),
        SpanKind::Italic => Some("md-italic"),
        SpanKind::Strikethrough => Some("md-strike"),
        SpanKind::Highlight => Some("md-highlight"),
        SpanKind::InlineCode => Some("md-code"),
        SpanKind::Quote => Some("md-quote"),
        SpanKind::Link => Some("md-link"),
        SpanKind::ChecklistItem { checked } => {
            if checked {
                Some("md-checked")
            } else {
                None
            }
        },
        SpanKind::BulletItem => None,
        SpanKind::NumberedItem => None,
        SpanKind::Divider => None,
    }
}

/// A style on a part of the buffer, in characters.
#[derive(Clone, Copy, Debug, PartialEq, Eq)]
pub struct StyleRange {
    pub name: &'static str,
    pub start: usize,
    pub end: usize,
}

/// A style on a part of the buffer, with its name as a text.
#[verifier::ext_equal]
pub struct StyleView {
    pub name: Seq<char>,
    pub start: int,
    pub end: int,
}

impl StyleRange {
    pub open spec fn shown(&self) -> StyleView {
        StyleView { name: self.name@, start: self.start as int, end: self.end as int }
    }
}

pub open spec fn styles_shown(styles: Seq<StyleRange>) -> Seq<StyleView> {
    Seq::new(styles.len(), |i: int| styles[i].shown())
}

/// A style on a range, unless the range is empty.
pub open spec fn style_on(name: Seq<char>, range: (int, int)) -> Seq<StyleView> {
    if range.0 < range.1 {
        seq![StyleView { name, start: range.0, end: range.1 }]
    } else {
        seq![]
    }
}

/// The styles of the first marks of a span.
pub open spec fn mark_styles(span: SpanView, count: int) -> Seq<StyleView>
    decreases count,
{
    if count <= 0 {
        seq![]
    } else {
        mark_styles(span, count - 1) + style_on(MARKDOWN_MARKER_TAG@, span.markers[count - 1])
    }
}

/// The styles of a span: its marks, then its content.
pub open spec fn span_styles(span: SpanView) -> Seq<StyleView> {
    mark_styles(span, span.markers.len() as int) + match style_of(span.kind) {
        Some(name) => style_on(name, span.content),
        None => seq![],
    }
}

/// The styles of spans, one after the other.
pub open spec fn all_styles(spans: Seq<SpanView>) -> Seq<StyleView>
    decreases spans.len(),
{
    if spans.len() == 0 {
        seq![]
    } else {
        all_styles(spans.drop_last()) + span_styles(spans.last())
    }
}

fn push_style(
    styles: &mut Vec<StyleRange>,
    name: &'static str,
    text: &str,
    start: usize,
    end: usize,
    Ghost(range): Ghost<(int, int)>,
)
    requires
        0 <= range.0 <= range.1 <= text@.len(),
        start == byte_len(text@.take(range.0)),
        end == byte_len(text@.take(range.1)),
    ensures
        styles_shown(final(styles)@) == styles_shown(old(styles)@) + style_on(name@, range),
{
    proof {
        lemma_floor_at(text@, range.0);
        lemma_floor_at(text@, range.1);
        lemma_byte_len_monotone(text@, range.0, range.1);
    }
    if start >= end {
        proof {
            assert(styles_shown(styles@) + style_on(name@, range) =~= styles_shown(styles@));
        }
        return;
    }
    let from: usize = byte_to_char(text, start);
    let to: usize = byte_to_char(text, end);
    styles.push(StyleRange { name, start: from, end: to });
    proof {
        assert(styles_shown(styles@) =~= styles_shown(old(styles)@) + style_on(name@, range));
    }
}

/// The styles of a text, to be put on the buffer in order.
pub fn markdown_styles(text: &str) -> (styles: Vec<StyleRange>)
    ensures
        styles_shown(styles@) == all_styles(spans_of(text@)),
{
    let spans = compute_spans(text);
    let ghost all = spans_of(text@);
    let mut styles: Vec<StyleRange> = Vec::new();
    let mut index: usize = 0;
    proof {
        assert(styles_shown(styles@) =~= all_styles(all.take(0)));
    }
    while index < spans.len()
        invariant
            index <= spans@.len(),
            all == spans_of(text@),
            spans@.len() == all.len(),
            forall|i: int|
                0 <= i < spans@.len() ==> span_shows(
                    text@,
                    #[trigger] spans@[i],
                    all[i],
                ),
            styles_shown(styles@) == all_styles(all.take(index as int)),
        decreases spans@.len() - index,
    {
        let span = &spans[index];
        let ghost shown = all[index as int];
        let ghost before = styles_shown(styles@);
        let mut at: usize = 0;
        proof {
            assert(before + mark_styles(shown, 0) =~= before);
        }
        while at < span.marker_ranges.len()
            invariant
                at <= span.marker_ranges@.len(),
                span_shows(text@, *span, shown),
                styles_shown(styles@) == before + mark_styles(shown, at as int),
            decreases span.marker_ranges@.len() - at,
        {
            let range = &span.marker_ranges[at];
            proof {
                assert(range_shows(
                    text@,
                    span.marker_ranges@[at as int],
                    shown.markers[at as int],
                ));
            }
            push_style(
                &mut styles,
                MARKDOWN_MARKER_TAG,
                text,
                range.start,
                range.end,
                Ghost(shown.markers[at as int]),
            );
            proof {
                assert(before + mark_styles(shown, at as int) + style_on(
                    MARKDOWN_MARKER_TAG@,
                    shown.markers[at as int],
                ) =~= before + mark_styles(shown, at + 1));
            }
            at += 1;
        }
        let ghost marked = styles_shown(styles@);
        if let Some(name) = content_tag_name(span.kind) {
            push_style(
                &mut styles,
                name,
                text,
                span.content_range.start,
                span.content_range.end,
                Ghost(shown.content),
            );
        }
        proof {
            let next = all.take(index + 1);
            assert(next.drop_last() =~= all.take(index as int));
            assert(next.last() == shown);
            assert(styles_shown(styles@) =~= before + span_styles(shown));
        }
        index += 1;
    }
    proof {
        assert(all.take(index as int) == all);
    }
    styles
}

// The buttons for formats.

/// Which formats hold at the cursor or over the selection.
#[derive(Clone, Copy, Debug, PartialEq, Eq, Structural)]
pub struct ActiveFormats {
    pub bold: bool,
    pub italic: bool,
}

/// The character whose style counts for a cursor: the one before it, but at the
/// start of a line the one after it.
pub fn probe_position(cursor: usize, starts_line: bool) -> (probe: usize)
    requires
        !starts_line ==> cursor > 0,
    ensures
        probe == (if starts_line {
            cursor as int
        } else {
            cursor - 1
        }),
{
    if starts_line {
        cursor
    } else {
        cursor - 1
    }
}

/// Whether a style is on every character of a selection.
pub fn covers_range(styled: &[bool], start: usize, end: usize) -> (covers: bool)
    requires
        start <= end <= styled@.len(),
    ensures
        covers == (forall|i: int| start <= i < end ==> #[trigger] styled@[i]),
{
    let mut at: usize = start;
    while at < end
        invariant
            start <= at <= end <= styled@.len(),
            forall|i: int| start <= i < at ==> #[trigger] styled@[i],
        decreases end - at,
    {
        if !styled[at] {
            return false;
        }
        at += 1;
    }
    true
}

} // verus!
