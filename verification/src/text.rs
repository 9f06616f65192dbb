//! Text as a sequence of characters: whitespace, searching, splitting, ordering.

use vstd::prelude::*;
use vstd::utf8::*;

verus! {

/// Trusted: [`String::push`] appends the character at the end of the string.
pub assume_specification[ String::push ](string: &mut String, character: char)
    ensures
        final(string)@ == old(string)@.push(character),
;

/// The lowercase form of a text, as the standard library's Unicode tables give it.
pub uninterp spec fn lowercase(text: Seq<char>) -> Seq<char>;

/// The lowercase form of an ASCII letter; any other character as it is.
pub open spec fn ascii_lower(character: char) -> char {
    if 'A' <= character <= 'Z' {
        ((character as u32) + 32) as char
    } else {
        character
    }
}

/// Trusted: [`str::to_lowercase`] gives a text that depends on its argument
/// alone. In an ASCII text it replaces the letters `A` to `Z` and nothing else.
#[verifier::external_body]
pub(crate) fn to_lowercase(text: &str) -> (lower: String)
    ensures
        lower@ == lowercase(text@),
        is_ascii_chars(text@) ==> lower@ == text@.map_values(|c: char| ascii_lower(c)),
{
    text.to_lowercase()
}

/// Trusted: [`String::from_utf8`] gives the text that the bytes encode, and an
/// error exactly where they are not valid UTF-8.
#[verifier::external_body]
pub(crate) fn decode_text(bytes: Vec<u8>) -> (text: Option<String>)
    ensures
        match text {
            Some(text) => valid_utf8(bytes@) && text@ == decode_utf8(bytes@),
            None => !valid_utf8(bytes@),
        },
{
    String::from_utf8(bytes).ok()
}

/// The characters of a text, one by one.
pub fn chars_of(text: &str) -> (chars: Vec<char>)
    ensures
        chars@ == text@,
{
    let mut chars: Vec<char> = Vec::new();
    for character in iter: text.chars()
        invariant
            chars@ == iter.seq().take(iter.index() as int),
            iter.seq() == text@,
    {
        chars.push(character);
    }
    proof {
        assert(text@.take(text@.len() as int) == text@);
    }
    chars
}

/// The text made of the characters from `from` up to `to`.
pub fn string_between(chars: &[char], from: usize, to: usize) -> (text: String)
    requires
        from <= to <= chars@.len(),
    ensures
        text@ == chars@.subrange(from as int, to as int),
{
    let mut text: String = String::new();
    let mut index: usize = from;
    while index < to
        invariant
            from <= index <= to <= chars@.len(),
            text@ == chars@.subrange(from as int, index as int),
        decreases to - index,
    {
        text.push(chars[index]);
        index += 1;
        proof {
            assert(chars@.subrange(from as int, index as int) == chars@.subrange(
                from as int,
                index - 1,
            ).push(chars@[index - 1]));
        }
    }
    text
}

/// The text made of the given characters.
pub fn string_of(chars: &[char]) -> (text: String)
    ensures
        text@ == chars@,
{
    let text = string_between(chars, 0, chars.len());
    proof {
        assert(chars@.subrange(0, chars@.len() as int) == chars@);
    }
    text
}

/// A text of its own with the same characters.
pub fn copy_text(text: &str) -> (copy: String)
    ensures
        copy@ == text@,
{
    text.to_owned()
}

/// Whether two texts have the same characters.
pub fn same_text(left: &str, right: &str) -> (same: bool)
    ensures
        same == (left@ == right@),
{
    left.to_owned() == right.to_owned()
}

/// Appends the characters of `more` to `chars`.
pub fn push_all(chars: &mut Vec<char>, more: &[char])
    ensures
        final(chars)@ == old(chars)@ + more@,
{
    let mut index: usize = 0;
    while index < more.len()
        invariant
            index <= more@.len(),
            chars@ == old(chars)@ + more@.take(index as int),
        decreases more@.len() - index,
    {
        chars.push(more[index]);
        index += 1;
        proof {
            assert(more@.take(index as int) == more@.take(index - 1).push(more@[index - 1]));
        }
    }
    proof {
        assert(more@.take(index as int) == more@);
    }
}

// Bytes taken by a text.

/// How many bytes the UTF-8 encoding of `text` takes.
pub open spec fn byte_len(text: Seq<char>) -> nat {
    encode_utf8(text).len()
}

/// How many bytes the UTF-8 encoding of one character takes.
pub open spec fn char_width(character: char) -> nat {
    encode_scalar(character as u32).len()
}

/// Encoding a text is encoding its parts one after the other.
pub proof fn lemma_encode_concat(left: Seq<char>, right: Seq<char>)
    ensures
        encode_utf8(left + right) == encode_utf8(left) + encode_utf8(right),
        byte_len(left + right) == byte_len(left) + byte_len(right),
    decreases left.len(),
{
    if left.len() == 0 {
        assert(left + right == right);
        assert(encode_utf8(left) + encode_utf8(right) == encode_utf8(right));
    } else {
        lemma_encode_concat(left.drop_first(), right);
        assert((left + right).drop_first() == left.drop_first() + right);
        assert(encode_utf8(left + right) == encode_utf8(left) + encode_utf8(right));
    }
}

/// One character more makes the text longer by that character's width.
pub proof fn lemma_byte_len_push(text: Seq<char>, character: char)
    ensures
        byte_len(text.push(character)) == byte_len(text) + char_width(character),
        1 <= char_width(character) <= 4,
{
    let one = seq![character];
    assert(text.push(character) == text + one);
    lemma_encode_concat(text, one);
    assert(one.drop_first() == Seq::<char>::empty());
    reveal_with_fuel(encode_utf8, 2);
    assert(encode_utf8(one) == encode_scalar(character as u32) + Seq::<u8>::empty());
}

/// Every prefix is at least as long in bytes as a shorter prefix, by one byte
/// for each character between them.
pub proof fn lemma_byte_len_monotone(text: Seq<char>, from: int, to: int)
    requires
        0 <= from <= to <= text.len(),
    ensures
        byte_len(text.take(from)) + (to - from) <= byte_len(text.take(to)),
    decreases to - from,
{
    if from < to {
        lemma_byte_len_monotone(text, from, to - 1);
        assert(text.take(to) == text.take(to - 1).push(text[to - 1]));
        lemma_byte_len_push(text.take(to - 1), text[to - 1]);
    }
}

/// The width of a character's UTF-8 encoding.
pub fn width_of(character: char) -> (width: usize)
    ensures
        width == char_width(character),
{
    let code: u32 = character as u32;
    if code < 0x80 {
        1
    } else if code < 0x800 {
        2
    } else if code < 0x10000 {
        3
    } else {
        4
    }
}

// Whitespace.

/// The characters with Unicode's `White_Space` property.
pub open spec fn is_space(character: char) -> bool {
    let code = character as u32;
    ||| 0x9 <= code <= 0xd
    ||| code == 0x20
    ||| code == 0x85
    ||| code == 0xa0
    ||| code == 0x1680
    ||| 0x2000 <= code <= 0x200a
    ||| code == 0x2028
    ||| code == 0x2029
    ||| code == 0x202f
    ||| code == 0x205f
    ||| code == 0x3000
}

pub fn is_whitespace(character: char) -> (space: bool)
    ensures
        space == is_space(character),
{
    let code: u32 = character as u32;
    (0x9 <= code && code <= 0xd) || code == 0x20 || code == 0x85 || code == 0xa0 || code == 0x1680
        || (0x2000 <= code && code <= 0x200a) || code == 0x2028 || code == 0x2029 || code == 0x202f
        || code == 0x205f || code == 0x3000
}

/// The first position from `at` on that holds no whitespace, or the end.
pub open spec fn skip_space(text: Seq<char>, at: int) -> int
    decreases text.len() - at,
{
    if 0 <= at < text.len() && is_space(text[at]) {
        skip_space(text, at + 1)
    } else {
        at
    }
}

/// The first position such that all from there up to `at` is whitespace.
pub open spec fn skip_space_back(text: Seq<char>, at: int) -> int
    decreases at,
{
    if 0 < at <= text.len() && is_space(text[at - 1]) {
        skip_space_back(text, at - 1)
    } else {
        at
    }
}

/// `text` without the whitespace at its start.
pub open spec fn trimmed_start(text: Seq<char>) -> Seq<char> {
    text.skip(skip_space(text, 0))
}

/// `text` without the whitespace at its end.
pub open spec fn trimmed_end(text: Seq<char>) -> Seq<char> {
    text.take(skip_space_back(text, text.len() as int))
}

/// `text` without the whitespace at its two ends.
pub open spec fn trimmed(text: Seq<char>) -> Seq<char> {
    trimmed_end(trimmed_start(text))
}

pub proof fn lemma_skip_space_bounds(text: Seq<char>, at: int)
    requires
        0 <= at <= text.len(),
    ensures
        at <= skip_space(text, at) <= text.len(),
        forall|i: int| at <= i < skip_space(text, at) ==> is_space(#[trigger] text[i]),
        skip_space(text, at) < text.len() ==> !is_space(text[skip_space(text, at)]),
    decreases text.len() - at,
{
    if at < text.len() && is_space(text[at]) {
        lemma_skip_space_bounds(text, at + 1);
    }
}

pub proof fn lemma_skip_space_back_bounds(text: Seq<char>, at: int)
    requires
        0 <= at <= text.len(),
    ensures
        0 <= skip_space_back(text, at) <= at,
        forall|i: int| skip_space_back(text, at) <= i < at ==> is_space(#[trigger] text[i]),
        skip_space_back(text, at) > 0 ==> !is_space(text[skip_space_back(text, at) - 1]),
    decreases at,
{
    if at > 0 && is_space(text[at - 1]) {
        lemma_skip_space_back_bounds(text, at - 1);
    }
}

/// The first position from `at` on that holds no whitespace.
pub fn after_space(chars: &[char], at: usize) -> (position: usize)
    requires
        at <= chars@.len(),
    ensures
        position == skip_space(chars@, at as int),
        at <= position <= chars@.len(),
{
    let mut position: usize = at;
    while position < chars.len() && is_whitespace(chars[position])
        invariant
            at <= position <= chars@.len(),
            skip_space(chars@, position as int) == skip_space(chars@, at as int),
        decreases chars@.len() - position,
    {
        position += 1;
    }
    position
}

/// The first position such that all from there up to `at` is whitespace.
pub fn before_space(chars: &[char], at: usize) -> (position: usize)
    requires
        at <= chars@.len(),
    ensures
        position == skip_space_back(chars@, at as int),
        position <= at,
{
    let mut position: usize = at;
    while position > 0 && is_whitespace(chars[position - 1])
        invariant
            position <= at <= chars@.len(),
            skip_space_back(chars@, position as int) == skip_space_back(chars@, at as int),
        decreases position,
    {
        position -= 1;
    }
    position
}

/// Where the text without its surrounding whitespace starts and ends.
pub fn trim_bounds(chars: &[char]) -> (bounds: (usize, usize))
    ensures
        bounds.0 <= bounds.1 <= chars@.len(),
        trimmed(chars@) == chars@.subrange(bounds.0 as int, bounds.1 as int),
        bounds.0 == skip_space(chars@, 0),
{
    let start: usize = after_space(chars, 0);
    let mut end: usize = chars.len();
    let ghost rest = trimmed_start(chars@);
    while end > start && is_whitespace(chars[end - 1])
        invariant
            start <= end <= chars@.len(),
            start == skip_space(chars@, 0),
            rest == chars@.skip(start as int),
            skip_space_back(rest, end - start) == skip_space_back(rest, rest.len() as int),
        decreases end,
    {
        assert(rest[end - start - 1] == chars@[end - 1]);
        end -= 1;
    }
    proof {
        if end > start {
            assert(rest[end - start - 1] == chars@[end - 1]);
        }
        assert(rest.take(end - start) == chars@.subrange(start as int, end as int));
    }
    (start, end)
}

/// The text without its surrounding whitespace.
pub fn trim(text: &str) -> (inner: String)
    ensures
        inner@ == trimmed(text@),
{
    let chars = chars_of(text);
    let (start, end) = trim_bounds(&chars);
    string_between(&chars, start, end)
}

/// The text without the whitespace at its end.
pub fn trim_end(text: &str) -> (inner: String)
    ensures
        inner@ == trimmed_end(text@),
{
    let chars = chars_of(text);
    let end: usize = before_space(&chars, chars.len());
    proof {
        assert(text@.take(end as int) == text@.subrange(0, end as int));
    }
    string_between(&chars, 0, end)
}

// Finding one text in another.

/// Whether `part` stands in `text` at position `at`.
pub open spec fn stands_at(text: Seq<char>, part: Seq<char>, at: int) -> bool {
    0 <= at && at + part.len() <= text.len() && text.subrange(at, at + part.len()) == part
}

/// Whether `part` stands anywhere in `text`.
pub open spec fn contains_text(text: Seq<char>, part: Seq<char>) -> bool {
    exists|at: int| stands_at(text, part, at)
}

/// The first position of `part` in `text` from `from` on, if there is one.
pub open spec fn first_at(text: Seq<char>, part: Seq<char>, from: int) -> Option<int>
    decreases text.len() + 1 - from,
{
    if from < 0 || from + part.len() > text.len() {
        None
    } else if stands_at(text, part, from) {
        Some(from)
    } else {
        first_at(text, part, from + 1)
    }
}

/// The last position of `part` in `text` up to `from`, if there is one.
pub open spec fn last_at(text: Seq<char>, part: Seq<char>, from: int) -> Option<int>
    decreases from + 1,
{
    if from < 0 {
        None
    } else if stands_at(text, part, from) {
        Some(from)
    } else {
        last_at(text, part, from - 1)
    }
}

pub proof fn lemma_first_at(text: Seq<char>, part: Seq<char>, from: int)
    requires
        0 <= from,
    ensures
        match first_at(text, part, from) {
            Some(at) => from <= at && stands_at(text, part, at) && forall|i: int|
                from <= i < at ==> !stands_at(text, part, i),
            None => forall|i: int| from <= i ==> !stands_at(text, part, i),
        },
    decreases text.len() + 1 - from,
{
    if from + part.len() <= text.len() && !stands_at(text, part, from) {
        lemma_first_at(text, part, from + 1);
    }
}

pub proof fn lemma_last_at(text: Seq<char>, part: Seq<char>, from: int)
    ensures
        match last_at(text, part, from) {
            Some(at) => at <= from && stands_at(text, part, at) && forall|i: int|
                at < i <= from ==> !stands_at(text, part, i),
            None => forall|i: int| i <= from ==> !stands_at(text, part, i),
        },
    decreases from + 1,
{
    if from >= 0 && !stands_at(text, part, from) {
        lemma_last_at(text, part, from - 1);
    }
}

/// Whether `part` stands in `chars` at `at`.
pub fn matches_at(chars: &[char], part: &[char], at: usize) -> (found: bool)
    ensures
        found == stands_at(chars@, part@, at as int),
{
    if at > chars.len() || part.len() > chars.len() - at {
        return false;
    }
    let mut index: usize = 0;
    while index < part.len()
        invariant
            index <= part@.len(),
            at + part@.len() <= chars.len(),
            forall|i: int| 0 <= i < index ==> chars@[at + i] == #[trigger] part@[i],
        decreases part@.len() - index,
    {
        if chars[at + index] != part[index] {
            proof {
                assert(chars@.subrange(at as int, at + part@.len())[index as int] == chars@[at
                    + index]);
            }
            return false;
        }
        index += 1;
    }
    proof {
        assert(chars@.subrange(at as int, at + part@.len()) == part@);
    }
    true
}

/// The first position of `part` in `chars` from `from` on.
pub fn find_from(chars: &[char], part: &[char], from: usize) -> (found: Option<usize>)
    ensures
        match found {
            Some(at) => first_at(chars@, part@, from as int) == Some(at as int),
            None => first_at(chars@, part@, from as int) is None,
        },
        found matches Some(at) ==> from <= at && at + part@.len() <= chars@.len() && stands_at(
            chars@,
            part@,
            at as int,
        ),
{
    let mut at: usize = from;
    while at <= chars.len() && part.len() <= chars.len() - at
        invariant
            from <= at,
            first_at(chars@, part@, at as int) == first_at(chars@, part@, from as int),
        decreases chars@.len() + 1 - at,
    {
        if matches_at(chars, part, at) {
            return Some(at);
        }
        if part.len() == chars.len() - at {
            proof {
                assert(first_at(chars@, part@, at + 1) is None);
            }
            return None;
        }
        at += 1;
    }
    None
}

/// Whether `part` stands anywhere in `text`.
pub fn text_contains(text: &str, part: &str) -> (found: bool)
    ensures
        found == contains_text(text@, part@),
{
    let chars = chars_of(text);
    let wanted = chars_of(part);
    let found = find_from(&chars, &wanted, 0);
    proof {
        lemma_first_at(text@, part@, 0);
    }
    found.is_some()
}

// Numbers.

/// The decimal digit of a number under ten.
pub open spec fn decimal_digit(digit: nat) -> char {
    (('0' as u32) + digit) as char
}

/// The decimal digits of a number, without leading zeros.
pub open spec fn decimal(value: nat) -> Seq<char>
    decreases value,
{
    if value < 10 {
        seq![decimal_digit(value)]
    } else {
        decimal(value / 10).push(decimal_digit(value % 10))
    }
}

fn digit_of(digit: u8) -> (character: char)
    requires
        digit < 10,
    ensures
        character == decimal_digit(digit as nat),
{
    match digit {
        0 => '0',
        1 => '1',
        2 => '2',
        3 => '3',
        4 => '4',
        5 => '5',
        6 => '6',
        7 => '7',
        8 => '8',
        _ => '9',
    }
}

/// Appends the decimal digits of `value`.
pub fn push_decimal(out: &mut String, value: u64)
    ensures
        final(out)@ == old(out)@ + decimal(value as nat),
    decreases value,
{
    if value >= 10 {
        push_decimal(out, value / 10);
    }
    out.push(digit_of((value % 10) as u8));
    proof {
        assert(out@ == old(out)@ + decimal(value as nat));
    }
}

// Lines and positions.

/// The position after the last line break before `at`, or the start.
pub open spec fn line_start(text: Seq<char>, at: int) -> int
    decreases at,
{
    if at <= 0 {
        0
    } else if text[at - 1] == '\n' {
        at
    } else {
        line_start(text, at - 1)
    }
}

/// The position of the first line break from `at` on, or the end.
pub open spec fn line_end(text: Seq<char>, at: int) -> int
    decreases text.len() - at,
{
    if at >= text.len() {
        text.len() as int
    } else if text[at] == '\n' {
        at
    } else {
        line_end(text, at + 1)
    }
}

pub proof fn lemma_line_bounds(text: Seq<char>, at: int)
    requires
        0 <= at <= text.len(),
    ensures
        0 <= line_start(text, at) <= at <= line_end(text, at) <= text.len(),
        forall|i: int| line_start(text, at) <= i < at ==> text[i] != '\n',
        forall|i: int| at <= i < line_end(text, at) ==> text[i] != '\n',
    decreases text.len(),
{
    lemma_line_start_bounds(text, at);
    lemma_line_end_bounds(text, at);
}

proof fn lemma_line_start_bounds(text: Seq<char>, at: int)
    requires
        0 <= at <= text.len(),
    ensures
        0 <= line_start(text, at) <= at,
        forall|i: int| line_start(text, at) <= i < at ==> text[i] != '\n',
    decreases at,
{
    if at > 0 && text[at - 1] != '\n' {
        lemma_line_start_bounds(text, at - 1);
    }
}

proof fn lemma_line_end_bounds(text: Seq<char>, at: int)
    requires
        0 <= at <= text.len(),
    ensures
        at <= line_end(text, at) <= text.len(),
        forall|i: int| at <= i < line_end(text, at) ==> text[i] != '\n',
    decreases text.len() - at,
{
    if at < text.len() && text[at] != '\n' {
        lemma_line_end_bounds(text, at + 1);
    }
}

/// The position after the last line break before `at`.
pub fn start_of_line(chars: &[char], at: usize) -> (start: usize)
    requires
        at <= chars@.len(),
    ensures
        start == line_start(chars@, at as int),
        start <= at,
{
    let mut start: usize = at;
    while start > 0 && chars[start - 1] != '\n'
        invariant
            start <= at <= chars@.len(),
            line_start(chars@, start as int) == line_start(chars@, at as int),
        decreases start,
    {
        start -= 1;
    }
    start
}

/// The position of the first line break from `at` on.
pub fn end_of_line(chars: &[char], at: usize) -> (end: usize)
    requires
        at <= chars@.len(),
    ensures
        end == line_end(chars@, at as int),
        at <= end <= chars@.len(),
{
    let mut end: usize = at;
    while end < chars.len() && chars[end] != '\n'
        invariant
            at <= end <= chars@.len(),
            line_end(chars@, end as int) == line_end(chars@, at as int),
        decreases chars@.len() - end,
    {
        end += 1;
    }
    end
}

/// How many times `character` stands in a row from `at` on.
pub open spec fn run_from(text: Seq<char>, character: char, at: int) -> int
    decreases text.len() - at,
{
    if 0 <= at < text.len() && text[at] == character {
        1 + run_from(text, character, at + 1)
    } else {
        0
    }
}

/// How many times `character` stands in a row up to `at`.
pub open spec fn run_before(text: Seq<char>, character: char, at: int) -> int
    decreases at,
{
    if 0 < at <= text.len() && text[at - 1] == character {
        1 + run_before(text, character, at - 1)
    } else {
        0
    }
}

pub proof fn lemma_run_from(text: Seq<char>, character: char, at: int)
    requires
        0 <= at <= text.len(),
    ensures
        0 <= run_from(text, character, at) <= text.len() - at,
        forall|i: int| at <= i < at + run_from(text, character, at) ==> text[i] == character,
        at + run_from(text, character, at) < text.len() ==> text[at + run_from(
            text,
            character,
            at,
        )] != character,
    decreases text.len() - at,
{
    if at < text.len() && text[at] == character {
        lemma_run_from(text, character, at + 1);
    }
}

pub proof fn lemma_run_before(text: Seq<char>, character: char, at: int)
    requires
        0 <= at <= text.len(),
    ensures
        0 <= run_before(text, character, at) <= at,
        forall|i: int| at - run_before(text, character, at) <= i < at ==> text[i] == character,
        at > run_before(text, character, at) ==> text[at - run_before(text, character, at) - 1]
            != character,
    decreases at,
{
    if at > 0 && text[at - 1] == character {
        lemma_run_before(text, character, at - 1);
    }
}

/// How many times `character` stands in a row from `at` on.
pub fn count_from(chars: &[char], character: char, at: usize) -> (count: usize)
    requires
        at <= chars@.len(),
    ensures
        count == run_from(chars@, character, at as int),
        at + count <= chars@.len(),
{
    let mut end: usize = at;
    while end < chars.len() && chars[end] == character
        invariant
            at <= end <= chars@.len(),
            end - at + run_from(chars@, character, end as int) == run_from(
                chars@,
                character,
                at as int,
            ),
        decreases chars@.len() - end,
    {
        end += 1;
    }
    end - at
}

/// How many times `character` stands in a row up to `at`.
pub fn count_before(chars: &[char], character: char, at: usize) -> (count: usize)
    requires
        at <= chars@.len(),
    ensures
        count == run_before(chars@, character, at as int),
        count <= at,
{
    let mut start: usize = at;
    while start > 0 && chars[start - 1] == character
        invariant
            start <= at <= chars@.len(),
            at - start + run_before(chars@, character, start as int) == run_before(
                chars@,
                character,
                at as int,
            ),
        decreases start,
    {
        start -= 1;
    }
    at - start
}

/// The longest prefix, in characters, that takes at most `bytes` bytes.
pub open spec fn char_floor(text: Seq<char>, bytes: int) -> int
    decreases text.len(),
{
    if text.len() == 0 {
        0
    } else if byte_len(text) <= bytes {
        text.len() as int
    } else {
        char_floor(text.drop_last(), bytes)
    }
}

pub proof fn lemma_char_floor(text: Seq<char>, bytes: int)
    requires
        0 <= bytes,
    ensures
        0 <= char_floor(text, bytes) <= text.len(),
        byte_len(text.take(char_floor(text, bytes))) <= bytes,
        forall|k: int|
            char_floor(text, bytes) < k <= text.len() ==> byte_len(#[trigger] text.take(k)) > bytes,
    decreases text.len(),
{
    if text.len() == 0 {
        assert(text.take(0) == Seq::<char>::empty());
    } else if byte_len(text) <= bytes {
        assert(text.take(text.len() as int) == text);
    } else {
        let shorter = text.drop_last();
        lemma_char_floor(shorter, bytes);
        assert forall|k: int| char_floor(text, bytes) < k <= text.len() implies byte_len(
            #[trigger] text.take(k),
        ) > bytes by {
            if k == text.len() {
                assert(text.take(k) == text);
            } else {
                assert(text.take(k) == shorter.take(k));
            }
        }
        assert(text.take(char_floor(text, bytes)) == shorter.take(char_floor(text, bytes)));
    }
}

/// As many characters as take the bytes before a position fit in those bytes.
pub proof fn lemma_floor_at(text: Seq<char>, position: int)
    requires
        0 <= position <= text.len(),
    ensures
        char_floor(text, byte_len(text.take(position)) as int) == position,
{
    let bytes = byte_len(text.take(position)) as int;
    lemma_char_floor(text, bytes);
    let found = char_floor(text, bytes);
    if found < position {
        assert(byte_len(text.take(position)) > bytes);
    } else if found > position {
        lemma_byte_len_monotone(text, position, found);
    }
}

/// How many characters of `text` fit in `bytes` bytes.
pub fn floor_char(text: &str, chars: &[char], bytes: usize) -> (count: usize)
    requires
        chars@ == text@,
    ensures
        count == char_floor(chars@, bytes as int),
        count <= chars@.len(),
{
    let mut count: usize = chars.len();
    let mut total: usize = text.as_bytes().len();
    proof {
        assert(chars@.take(count as int) == chars@);
    }
    while count > 0 && total > bytes
        invariant
            count <= chars@.len(),
            total == byte_len(chars@.take(count as int)),
            char_floor(chars@.take(count as int), bytes as int) == char_floor(
                chars@,
                bytes as int,
            ),
        decreases count,
    {
        let ghost prefix = chars@.take(count as int);
        proof {
            assert(prefix.drop_last() == chars@.take(count - 1));
            assert(prefix == prefix.drop_last().push(chars@[count - 1]));
            lemma_byte_len_push(prefix.drop_last(), chars@[count - 1]);
        }
        total -= width_of(chars[count - 1]);
        count -= 1;
    }
    proof {
        assert(chars@.take(count as int).len() == count);
    }
    count
}

/// The bytes that the first `count` characters take.
pub fn bytes_before(chars: &[char], count: usize) -> (bytes: usize)
    requires
        count <= chars@.len(),
    ensures
        bytes == byte_len(chars@.take(count as int)),
{
    let prefix = string_between(chars, 0, count);
    proof {
        assert(chars@.subrange(0, count as int) == chars@.take(count as int));
    }
    prefix.as_str().as_bytes().len()
}

// Splitting and joining.

/// The first position from `from` on that holds `separator`, or the end.
pub open spec fn separator_from(text: Seq<char>, separator: char, from: int) -> int
    decreases text.len() - from,
{
    if from >= text.len() {
        text.len() as int
    } else if text[from] == separator {
        from
    } else {
        separator_from(text, separator, from + 1)
    }
}

/// The parts of a text from `from` on, between separators.
pub open spec fn split_from(text: Seq<char>, separator: char, from: int) -> Seq<Seq<char>>
    decreases text.len() - from,
{
    let at = separator_from(text, separator, from);
    if from <= at < text.len() {
        seq![text.subrange(from, at)] + split_from(text, separator, at + 1)
    } else {
        seq![text.subrange(from, text.len() as int)]
    }
}

/// The parts of a text between separators; one more than it has separators.
pub open spec fn split_on(text: Seq<char>, separator: char) -> Seq<Seq<char>> {
    split_from(text, separator, 0)
}

/// The texts of a list.
pub open spec fn texts(list: Seq<String>) -> Seq<Seq<char>> {
    Seq::new(list.len(), |i: int| list[i]@)
}

pub proof fn lemma_texts_push(list: Seq<String>, text: String)
    ensures
        texts(list.push(text)) == texts(list).push(text@),
{
    assert(texts(list.push(text)) =~= texts(list).push(text@));
}

pub proof fn lemma_separator_from(text: Seq<char>, separator: char, from: int)
    requires
        0 <= from <= text.len(),
    ensures
        from <= separator_from(text, separator, from) <= text.len(),
        forall|i: int| from <= i < separator_from(text, separator, from) ==> text[i] != separator,
        separator_from(text, separator, from) < text.len() ==> text[separator_from(
            text,
            separator,
            from,
        )] == separator,
    decreases text.len() - from,
{
    if from < text.len() && text[from] != separator {
        lemma_separator_from(text, separator, from + 1);
    }
}

/// The parts of a text between separators.
pub fn split_text(text: &str, separator: char) -> (parts: Vec<String>)
    ensures
        texts(parts@) == split_on(text@, separator),
        parts@.len() >= 1,
{
    let chars = chars_of(text);
    let ghost whole = split_on(text@, separator);
    let mut parts: Vec<String> = Vec::new();
    let mut from: usize = 0;
    proof {
        assert(texts(parts@) + whole == whole);
    }
    loop
        invariant
            from <= chars@.len(),
            chars@ == text@,
            whole == split_on(text@, separator),
            whole == texts(parts@) + split_from(text@, separator, from as int),
        decreases chars@.len() - from,
    {
        let mut at: usize = from;
        while at < chars.len() && chars[at] != separator
            invariant
                from <= at <= chars@.len(),
                separator_from(chars@, separator, at as int) == separator_from(
                    chars@,
                    separator,
                    from as int,
                ),
            decreases chars@.len() - at,
        {
            at += 1;
        }
        let part = string_between(&chars, from, at);
        let ghost done = parts@;
        parts.push(part);
        proof {
            lemma_texts_push(done, part);
            lemma_separator_from(chars@, separator, from as int);
        }
        if at == chars.len() {
            proof {
                assert(texts(done) + seq![part@] =~= texts(parts@));
            }
            return parts;
        }
        proof {
            let rest = split_from(text@, separator, at + 1);
            assert(texts(done) + (seq![part@] + rest) =~= texts(parts@) + rest);
        }
        from = at + 1;
    }
}

/// A text without the separator is its only part.
pub proof fn lemma_split_whole(text: Seq<char>, separator: char)
    requires
        forall|i: int| 0 <= i < text.len() ==> text[i] != separator,
    ensures
        split_on(text, separator) == seq![text],
{
    lemma_separator_from(text, separator, 0);
    assert(text.subrange(0, text.len() as int) == text);
}

/// Whether `character` stands anywhere in the text.
pub fn has_char(text: &str, character: char) -> (has: bool)
    ensures
        has == exists|i: int| 0 <= i < text@.len() && text@[i] == character,
{
    let chars = chars_of(text);
    let mut index: usize = 0;
    while index < chars.len()
        invariant
            index <= chars@.len(),
            chars@ == text@,
            forall|i: int| 0 <= i < index ==> text@[i] != character,
        decreases chars@.len() - index,
    {
        if chars[index] == character {
            return true;
        }
        index += 1;
    }
    false
}

// Words.

/// The first whitespace from `at` on, or the end.
pub open spec fn word_end(text: Seq<char>, at: int) -> int
    decreases text.len() - at,
{
    if at >= text.len() {
        text.len() as int
    } else if is_space(text[at]) {
        at
    } else {
        word_end(text, at + 1)
    }
}

/// The words of a text from `at` on: the parts between whitespace.
pub open spec fn words_from(text: Seq<char>, at: int) -> Seq<Seq<char>>
    decreases text.len() - at,
{
    let start = skip_space(text, at);
    let end = word_end(text, start);
    if at <= start < end <= text.len() {
        seq![text.subrange(start, end)] + words_from(text, end)
    } else {
        seq![]
    }
}

/// The words of a text.
pub open spec fn words(text: Seq<char>) -> Seq<Seq<char>> {
    words_from(text, 0)
}

/// Texts one after the other with a separator between them.
pub open spec fn joined_texts(parts: Seq<Seq<char>>, separator: Seq<char>) -> Seq<char>
    decreases parts.len(),
{
    if parts.len() == 0 {
        seq![]
    } else if parts.len() == 1 {
        parts[0]
    } else {
        joined_texts(parts.drop_last(), separator) + separator + parts.last()
    }
}

/// The words of a text.
pub fn words_of(text: &str) -> (found: Vec<String>)
    ensures
        texts(found@) == words(text@),
{
    let chars = chars_of(text);
    let ghost whole = words(text@);
    let mut found: Vec<String> = Vec::new();
    let mut at: usize = 0;
    proof {
        assert(texts(found@) + whole == whole);
    }
    loop
        invariant
            at <= chars@.len(),
            chars@ == text@,
            whole == words(text@),
            whole == texts(found@) + words_from(text@, at as int),
        decreases chars@.len() - at,
    {
        let start: usize = after_space(&chars, at);
        if start == chars.len() {
            proof {
                assert(texts(found@) + Seq::<Seq<char>>::empty() == texts(found@));
            }
            return found;
        }
        proof {
            lemma_skip_space_bounds(chars@, at as int);
        }
        let mut end: usize = start;
        while end < chars.len() && !is_whitespace(chars[end])
            invariant
                start <= end <= chars@.len(),
                word_end(chars@, end as int) == word_end(chars@, start as int),
                start < chars@.len(),
                !is_space(chars@[start as int]),
            ensures
                start < end,
                end == word_end(chars@, start as int),
            decreases chars@.len() - end,
        {
            end += 1;
        }
        let word = string_between(&chars, start, end);
        let ghost done = found@;
        found.push(word);
        proof {
            lemma_texts_push(done, word);
            let rest = words_from(text@, end as int);
            assert(texts(done) + (seq![word@] + rest) =~= texts(found@) + rest);
        }
        at = end;
    }
}

/// The first `count` texts, one after the other with a separator between them.
pub fn join_texts(parts: &[String], count: usize, separator: &str) -> (whole: String)
    requires
        count <= parts@.len(),
    ensures
        whole@ == joined_texts(texts(parts@).take(count as int), separator@),
{
    let mut whole: String = String::new();
    let mut index: usize = 0;
    while index < count
        invariant
            index <= count <= parts@.len(),
            whole@ == joined_texts(texts(parts@).take(index as int), separator@),
        decreases count - index,
    {
        proof {
            let next = texts(parts@).take(index + 1);
            assert(next.drop_last() =~= texts(parts@).take(index as int));
            assert(next.last() == parts@[index as int]@);
            assert(index == 0 ==> Seq::<char>::empty() + parts@[0]@ =~= parts@[0]@);
        }
        if index > 0 {
            whole.append(separator);
        }
        whole.append(&parts[index]);
        index += 1;
    }
    whole
}

/// The texts of a list, in a list of their own.
pub fn copy_texts(list: &[String]) -> (copy: Vec<String>)
    ensures
        texts(copy@) == texts(list@),
{
    let mut copy: Vec<String> = Vec::new();
    let mut index: usize = 0;
    while index < list.len()
        invariant
            index <= list@.len(),
            copy@.len() == index,
            forall|i: int| 0 <= i < index ==> (#[trigger] copy@[i])@ == list@[i]@,
        decreases list@.len() - index,
    {
        copy.push(copy_text(&list[index]));
        index += 1;
    }
    proof {
        assert(texts(copy@) =~= texts(list@));
    }
    copy
}

/// Whether two texts differ at most in the case of ASCII letters.
pub open spec fn same_ascii_folded(left: Seq<char>, right: Seq<char>) -> bool {
    &&& left.len() == right.len()
    &&& forall|i: int|
        0 <= i < left.len() ==> ascii_lower(#[trigger] left[i]) == ascii_lower(right[i])
}

fn fold_ascii(character: char) -> (lower: char)
    ensures
        lower == ascii_lower(character),
{
    match character {
        'A' => 'a',
        'B' => 'b',
        'C' => 'c',
        'D' => 'd',
        'E' => 'e',
        'F' => 'f',
        'G' => 'g',
        'H' => 'h',
        'I' => 'i',
        'J' => 'j',
        'K' => 'k',
        'L' => 'l',
        'M' => 'm',
        'N' => 'n',
        'O' => 'o',
        'P' => 'p',
        'Q' => 'q',
        'R' => 'r',
        'S' => 's',
        'T' => 't',
        'U' => 'u',
        'V' => 'v',
        'W' => 'w',
        'X' => 'x',
        'Y' => 'y',
        'Z' => 'z',
        other => other,
    }
}

/// Whether two texts differ at most in the case of ASCII letters.
pub fn equal_ascii_folded(left: &str, right: &str) -> (equal: bool)
    ensures
        equal == same_ascii_folded(left@, right@),
{
    let one = chars_of(left);
    let two = chars_of(right);
    if one.len() != two.len() {
        return false;
    }
    let mut index: usize = 0;
    while index < one.len()
        invariant
            index <= one@.len(),
            one@.len() == two@.len(),
            one@ == left@,
            two@ == right@,
            forall|i: int|
                0 <= i < index ==> ascii_lower(#[trigger] one@[i]) == ascii_lower(two@[i]),
        decreases one@.len() - index,
    {
        if fold_ascii(one[index]) != fold_ascii(two[index]) {
            return false;
        }
        index += 1;
    }
    true
}

/// Whether one text stands before another: at the first character in which they
/// differ it has the smaller one, or it ends there.
pub open spec fn text_before(left: Seq<char>, right: Seq<char>) -> bool
    decreases left.len(),
{
    if right.len() == 0 {
        false
    } else if left.len() == 0 {
        true
    } else if left[0] == right[0] {
        text_before(left.drop_first(), right.drop_first())
    } else {
        left[0] < right[0]
    }
}

/// Of two different texts one stands before the other, and not the other way round.
pub proof fn lemma_text_order(left: Seq<char>, right: Seq<char>)
    ensures
        !(text_before(left, right) && text_before(right, left)),
        left != right ==> text_before(left, right) || text_before(right, left),
        left == right ==> !text_before(left, right),
    decreases left.len(),
{
    if left.len() > 0 && right.len() > 0 && left[0] == right[0] {
        lemma_text_order(left.drop_first(), right.drop_first());
        if left.drop_first() == right.drop_first() {
            assert(left =~= seq![left[0]] + left.drop_first());
            assert(right =~= seq![right[0]] + right.drop_first());
        }
    } else if left.len() == 0 && right.len() == 0 {
        assert(left =~= right);
    }
}

/// Standing before is passed on.
pub proof fn lemma_text_order_transitive(one: Seq<char>, two: Seq<char>, three: Seq<char>)
    requires
        text_before(one, two),
        text_before(two, three),
    ensures
        text_before(one, three),
    decreases one.len(),
{
    if one.len() > 0 && one[0] == two[0] && two[0] == three[0] {
        lemma_text_order_transitive(one.drop_first(), two.drop_first(), three.drop_first());
    }
}

/// Whether one text stands before another.
pub fn comes_before(left: &str, right: &str) -> (before: bool)
    ensures
        before == text_before(left@, right@),
{
    let one = chars_of(left);
    let two = chars_of(right);
    let mut index: usize = 0;
    proof {
        assert(one@.skip(0) == one@);
        assert(two@.skip(0) == two@);
    }
    while index < one.len() && index < two.len()
        invariant
            index <= one@.len(),
            index <= two@.len(),
            one@ == left@,
            two@ == right@,
            text_before(one@.skip(index as int), two@.skip(index as int)) == text_before(one@, two@),
        decreases one@.len() - index,
    {
        proof {
            assert(one@.skip(index as int).drop_first() == one@.skip(index + 1));
            assert(two@.skip(index as int).drop_first() == two@.skip(index + 1));
        }
        if one[index] != two[index] {
            return one[index] < two[index];
        }
        index += 1;
    }
    index < two.len()
}

} // verus!
