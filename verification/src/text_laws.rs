//! What the operations on texts keep and give.

use vstd::prelude::*;
use vstd::utf8::encode_utf8;

use crate::path_laws::law_a_separator_parts_a_text;
use crate::text::{
    byte_len, contains_text, decimal, decimal_digit, is_space, joined_texts, lemma_encode_concat,
    lemma_skip_space_back_bounds, lemma_skip_space_bounds, lemma_split_whole, same_ascii_folded,
    skip_space, skip_space_back, split_on, stands_at, text_before, trimmed, trimmed_start,
    word_end, words, words_from,
};

verus! {

/// Whether a text is nothing but whitespace.
pub open spec fn all_space(text: Seq<char>) -> bool {
    forall|i: int| 0 <= i < text.len() ==> is_space(#[trigger] text[i])
}

/// Whether a text is one word: not empty, and without whitespace.
pub open spec fn one_word(text: Seq<char>) -> bool {
    text.len() > 0 && forall|i: int| 0 <= i < text.len() ==> !is_space(#[trigger] text[i])
}

/// Whether a text is another with whitespace round it, and starts and ends with
/// something else.
pub open spec fn trims_to(text: Seq<char>, inner: Seq<char>, at: int) -> bool {
    &&& stands_at(text, inner, at)
    &&& forall|i: int|
        0 <= i < at || at + inner.len() <= i < text.len() ==> is_space(#[trigger] text[i])
    &&& inner.len() > 0 ==> !is_space(inner[0]) && !is_space(inner.last())
}

/// Trimming takes the whitespace at the two ends, all of it and nothing else.
pub proof fn law_trimming_takes_the_space_at_the_ends(text: Seq<char>)
    ensures
        exists|at: int| trims_to(text, trimmed(text), at),
        trimmed(text).len() == 0 <==> all_space(text),
{
    lemma_skip_space_bounds(text, 0);
    let lead = skip_space(text, 0);
    let rest = trimmed_start(text);
    let size = rest.len() as int;
    lemma_skip_space_back_bounds(rest, size);
    let tail = skip_space_back(rest, size);
    let inner = trimmed(text);
    assert(inner == rest.take(tail));
    assert(text.subrange(lead, lead + tail) =~= inner);
    assert forall|i: int| 0 <= i < lead || lead + tail <= i < text.len() implies is_space(
        #[trigger] text[i],
    ) by {
        if i >= lead {
            assert(rest[i - lead] == text[i]);
        }
    }
    if tail > 0 {
        if size > 0 {
            assert(rest[0] == text[lead]);
        }
        assert(inner[0] == text[lead]);
        assert(inner.last() == rest[tail - 1]);
    }
    assert(trims_to(text, inner, lead));
    if all_space(text) {
        if tail > 0 {
            assert(is_space(text[lead]));
        }
    }
}

// Words.

proof fn lemma_spaces_skipped(text: Seq<char>, at: int, to: int)
    requires
        0 <= at <= to <= text.len(),
        forall|i: int| at <= i < to ==> is_space(#[trigger] text[i]),
    ensures
        skip_space(text, at) == skip_space(text, to),
        words_from(text, at) == words_from(text, to),
    decreases to - at,
{
    if at < to {
        lemma_spaces_skipped(text, at + 1, to);
    }
    lemma_skip_space_bounds(text, to);
}

proof fn lemma_word_end(text: Seq<char>, at: int)
    requires
        0 <= at <= text.len(),
    ensures
        at <= word_end(text, at) <= text.len(),
        word_end(text, at) < text.len() ==> is_space(text[word_end(text, at)]),
        at < text.len() && !is_space(text[at]) ==> at < word_end(text, at),
    decreases text.len() - at,
{
    if at < text.len() && !is_space(text[at]) {
        lemma_word_end(text, at + 1);
    }
}

proof fn lemma_word_end_behind(head: Seq<char>, tail: Seq<char>, at: int)
    requires
        0 <= at <= tail.len(),
    ensures
        word_end(head + tail, head.len() + at) == head.len() + word_end(tail, at),
        skip_space(head + tail, head.len() + at) == head.len() + skip_space(tail, at),
    decreases tail.len() - at,
{
    if at < tail.len() {
        assert((head + tail)[head.len() + at] == tail[at]);
        lemma_word_end_behind(head, tail, at + 1);
    }
}

proof fn lemma_words_behind(head: Seq<char>, tail: Seq<char>, at: int)
    requires
        0 <= at <= tail.len(),
    ensures
        words_from(head + tail, head.len() + at) == words_from(tail, at),
    decreases tail.len() - at,
{
    let whole = head + tail;
    lemma_word_end_behind(head, tail, at);
    lemma_skip_space_bounds(tail, at);
    let start = skip_space(tail, at);
    lemma_word_end_behind(head, tail, start);
    lemma_word_end(tail, start);
    let end = word_end(tail, start);
    if start < end {
        assert(whole.subrange(head.len() + start, head.len() + end) =~= tail.subrange(start, end));
        lemma_words_behind(head, tail, end);
    }
}

/// The end of a word that a space or the end follows.
proof fn lemma_word_end_in_front(left: Seq<char>, right: Seq<char>, at: int)
    requires
        0 <= at <= left.len(),
        right.len() > 0,
        is_space(right[0]),
    ensures
        word_end(left + right, at) == word_end(left, at),
        skip_space(left, at) < left.len() ==> skip_space(left + right, at) == skip_space(left, at),
    decreases left.len() - at,
{
    let whole = left + right;
    if at < left.len() {
        assert(whole[at] == left[at]);
        lemma_word_end_in_front(left, right, at + 1);
    } else {
        assert(whole[at] == right[0]);
    }
}

proof fn lemma_words_in_front(left: Seq<char>, gap: Seq<char>, right: Seq<char>, at: int)
    requires
        0 <= at <= left.len(),
        gap.len() > 0,
        all_space(gap),
    ensures
        words_from(left + gap + right, at) == words_from(left, at) + words(right),
    decreases left.len() - at,
{
    let behind = gap + right;
    let whole = left + gap + right;
    assert(whole =~= left + behind);
    assert(behind[0] == gap[0]);
    lemma_word_end_in_front(left, behind, at);
    lemma_skip_space_bounds(left, at);
    let start = skip_space(left, at);
    if start < left.len() {
        lemma_word_end_in_front(left, behind, start);
        lemma_word_end(left, start);
        let end = word_end(left, start);
        assert(whole.subrange(start, end) =~= left.subrange(start, end));
        lemma_words_in_front(left, gap, right, end);
        assert(seq![left.subrange(start, end)] + (words_from(left, end) + words(right)) =~= (seq![
            left.subrange(start, end),
        ] + words_from(left, end)) + words(right));
    } else {
        let head = left + gap;
        let mid = head.len() as int;
        assert forall|i: int| at <= i < mid implies is_space(#[trigger] whole[i]) by {
            if i < left.len() {
                assert(whole[i] == left[i]);
            } else {
                assert(whole[i] == gap[i - left.len()]);
            }
        }
        lemma_spaces_skipped(whole, at, mid);
        lemma_words_behind(head, right, 0);
        assert(words_from(left, at) =~= seq![]);
        assert(words_from(left, at) + words(right) =~= words(right));
    }
}

/// The words of two texts with whitespace between them are those of the first and
/// then those of the second; a text without whitespace is one word, and whitespace
/// alone has none.
pub proof fn law_words_stand_between_spaces(left: Seq<char>, gap: Seq<char>, right: Seq<char>)
    requires
        gap.len() > 0,
        all_space(gap),
    ensures
        words(left + gap + right) == words(left) + words(right),
        one_word(left) ==> words(left) == seq![left],
        all_space(left) ==> words(left) == Seq::<Seq<char>>::empty(),
{
    lemma_words_in_front(left, gap, right, 0);
    if one_word(left) {
        lemma_word_end(left, 0);
        if word_end(left, 0) < left.len() {
            assert(!is_space(left[word_end(left, 0)]));
        }
        assert(!is_space(left[0]));
        assert(left.subrange(0, left.len() as int) =~= left);
        let end = left.len() as int;
        assert(skip_space(left, end) == end);
        assert(words_from(left, end) =~= seq![]);
        assert(words(left) =~= seq![left]);
    }
    if all_space(left) {
        let end = left.len() as int;
        lemma_spaces_skipped(left, 0, end);
        assert(words_from(left, end) =~= seq![]);
    }
}

// Parts of a text.

/// Joining texts and parting them again at the separator gives the texts back, as
/// long as none of them holds it.
pub proof fn law_joined_texts_part_again(parts: Seq<Seq<char>>, separator: char)
    requires
        parts.len() > 0,
        forall|i: int, k: int|
            0 <= i < parts.len() && 0 <= k < parts[i].len() ==> #[trigger] parts[i][k] != separator,
    ensures
        split_on(joined_texts(parts, seq![separator]), separator) == parts,
    decreases parts.len(),
{
    let last = parts.last();
    assert(last == parts[parts.len() - 1]);
    assert forall|k: int| 0 <= k < last.len() implies #[trigger] last[k] != separator by {
        assert(parts[parts.len() - 1][k] != separator);
    }
    lemma_split_whole(last, separator);
    assert(split_on(last, separator) =~= seq![last]);
    if parts.len() == 1 {
        assert(parts =~= seq![last]);
    } else {
        let front = parts.drop_last();
        assert forall|i: int, k: int| 0 <= i < front.len() && 0 <= k < front[i].len() implies
            #[trigger] front[i][k] != separator by {
            assert(parts[i][k] != separator);
        }
        law_joined_texts_part_again(front, separator);
        law_a_separator_parts_a_text(
            joined_texts(front, seq![separator]),
            last,
            separator,
        );
        assert(front + seq![last] =~= parts);
    }
}

/// A text holds another where it is something, the other and something.
pub proof fn law_a_text_holds_what_stands_in_it(
    left: Seq<char>,
    part: Seq<char>,
    right: Seq<char>,
    text: Seq<char>,
)
    ensures
        contains_text(left + part + right, part),
        contains_text(text, part) ==> exists|at: int|
            0 <= at <= text.len() && #[trigger] text.take(at) + part + text.skip(at + part.len())
                == text,
{
    let whole = left + part + right;
    let at = left.len() as int;
    assert(whole.subrange(at, at + part.len()) =~= part);
    assert(stands_at(whole, part, at));
    if contains_text(text, part) {
        let place = choose|place: int| stands_at(text, part, place);
        let again = text.take(place) + part + text.skip(place + part.len());
        assert forall|i: int| 0 <= i < text.len() implies again[i] == text[i] by {
            if place <= i < place + part.len() {
                assert(text.subrange(place, place + part.len())[i - place] == text[i]);
            }
        }
        assert(again =~= text);
    }
}

// Orders and cases.

/// Texts are in the order of a dictionary: the first character in which they differ
/// tells, and a text stands before those that it begins.
pub proof fn law_texts_are_ordered_as_in_a_dictionary(
    start: Seq<char>,
    one: char,
    left: Seq<char>,
    two: char,
    right: Seq<char>,
)
    ensures
        one < two ==> text_before(start + seq![one] + left, start + seq![two] + right),
        text_before(start, start + seq![one] + left),
        !text_before(start, start),
    decreases start.len(),
{
    if start.len() > 0 {
        let rest = start.drop_first();
        law_texts_are_ordered_as_in_a_dictionary(rest, one, left, two, right);
        let first = start + seq![one] + left;
        let second = start + seq![two] + right;
        assert(first[0] == start[0] && second[0] == start[0]);
        assert(first.drop_first() =~= rest + seq![one] + left);
        assert(second.drop_first() =~= rest + seq![two] + right);
    } else {
        assert((start + seq![one] + left)[0] == one);
        assert((start + seq![two] + right)[0] == two);
    }
}

/// Whether two characters are the same ASCII letter in two cases.
pub open spec fn two_cases(upper: char, lower: char) -> bool {
    'A' <= upper <= 'Z' && lower as int == upper as int + 32
}

/// Two texts are the same but for case where they are so character by character:
/// the two are equal, or the same letter from `A` to `Z` in its two cases.
pub proof fn law_only_the_case_of_letters_is_folded(left: Seq<char>, right: Seq<char>)
    ensures
        same_ascii_folded(left, right) <==> left.len() == right.len() && forall|i: int|
            0 <= i < left.len() ==> #[trigger] left[i] == right[i] || two_cases(left[i], right[i])
                || two_cases(right[i], left[i]),
{
    if same_ascii_folded(left, right) {
        assert forall|i: int| 0 <= i < left.len() implies #[trigger] left[i] == right[i]
            || two_cases(left[i], right[i]) || two_cases(right[i], left[i]) by {}
    }
}

// Numbers.

/// The number that decimal digits stand for.
pub open spec fn number_of(text: Seq<char>) -> int
    decreases text.len(),
{
    if text.len() == 0 {
        0
    } else {
        number_of(text.drop_last()) * 10 + (text.last() as int - '0' as int)
    }
}

/// The digits of a number stand for it, are all from `0` to `9`, and do not start
/// with a zero that could be left out.
pub proof fn law_decimal_digits_read_back(value: nat)
    ensures
        number_of(decimal(value)) == value,
        decimal(value).len() > 0,
        decimal(value).len() > 1 ==> decimal(value)[0] != '0',
        value > 0 ==> decimal(value)[0] != '0',
        forall|i: int| 0 <= i < decimal(value).len() ==> '0' <= #[trigger] decimal(value)[i] <= '9',
    decreases value,
{
    let last = decimal_digit(value % 10);
    assert(last as int == '0' as int + value % 10);
    if value < 10 {
        assert(decimal(value).drop_last() =~= seq![]);
        reveal_with_fuel(number_of, 2);
    } else {
        law_decimal_digits_read_back(value / 10);
        let front = decimal(value / 10);
        assert(decimal(value).drop_last() =~= front);
        assert(decimal(value)[0] == front[0]);
        assert forall|i: int| 0 <= i < decimal(value).len() implies '0' <= #[trigger] decimal(
            value,
        )[i] <= '9' by {
            if i < front.len() {
                assert(decimal(value)[i] == front[i]);
            }
        }
    }
}

// Bytes.

/// A range of bytes that goes from one character to another holds the encoding of
/// the characters between them.
pub proof fn law_byte_ranges_hold_whole_characters(text: Seq<char>, from: int, to: int)
    requires
        0 <= from <= to <= text.len(),
    ensures
        ({
            let start = byte_len(text.take(from)) as int;
            let end = byte_len(text.take(to)) as int;
            &&& start <= end <= encode_utf8(text).len()
            &&& encode_utf8(text).subrange(start, end) == encode_utf8(text.subrange(from, to))
        }),
{
    let front = text.take(from);
    let middle = text.subrange(from, to);
    let behind = text.skip(to);
    assert(text.take(to) =~= front + middle);
    assert(text =~= front + middle + behind);
    lemma_encode_concat(front, middle);
    lemma_encode_concat(front + middle, behind);
    let start = byte_len(front) as int;
    let end = byte_len(text.take(to)) as int;
    assert(encode_utf8(text).subrange(start, end) =~= encode_utf8(middle));
}

} // verus!
