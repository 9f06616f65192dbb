//! How joining, splitting and comparing paths fit together.

use vstd::prelude::*;

use crate::paths::{
    components, components_upto, extension, file_name, is_letter_or_digit, is_right_in, joined,
    lower_char, path_starts_with, same_path, slug, stripped, title_slug, valid_note_path,
    valid_path,
};
use crate::text::{
    lemma_run_before, lemma_run_from, lemma_separator_from, lemma_split_whole, run_before,
    run_from, separator_from, split_from, split_on,
};

verus! {

/// What can be put behind a directory: it is not empty, does not start at the root
/// and does not start with a `.` of its own.
pub open spec fn goes_behind(path: Seq<char>) -> bool {
    path.len() > 0 && path[0] != '/' && split_on(path, '/')[0] != seq!['.']
}

/// Whether a text is one component that names something.
pub open spec fn one_name(name: Seq<char>) -> bool {
    &&& name.len() > 0
    &&& name != seq!['.']
    &&& name != seq!['.', '.']
    &&& forall|i: int| 0 <= i < name.len() ==> name[i] != '/'
}

proof fn lemma_separator_in_front(left: Seq<char>, right: Seq<char>, separator: char, from: int)
    requires
        0 <= from <= left.len(),
    ensures
        separator_from(left + seq![separator] + right, separator, from) == separator_from(
            left,
            separator,
            from,
        ),
    decreases left.len() - from,
{
    let whole = left + seq![separator] + right;
    if from < left.len() {
        assert(whole[from] == left[from]);
        lemma_separator_in_front(left, right, separator, from + 1);
    } else {
        assert(whole[from] == separator);
    }
}

proof fn lemma_separator_behind(head: Seq<char>, tail: Seq<char>, separator: char, from: int)
    requires
        0 <= from <= tail.len(),
    ensures
        separator_from(head + tail, separator, head.len() + from) == head.len() + separator_from(
            tail,
            separator,
            from,
        ),
    decreases tail.len() - from,
{
    if from < tail.len() {
        assert((head + tail)[head.len() + from] == tail[from]);
        lemma_separator_behind(head, tail, separator, from + 1);
    }
}

proof fn lemma_split_behind(head: Seq<char>, tail: Seq<char>, separator: char, from: int)
    requires
        0 <= from <= tail.len(),
    ensures
        split_from(head + tail, separator, head.len() + from) == split_from(tail, separator, from),
    decreases tail.len() - from,
{
    let whole = head + tail;
    lemma_separator_behind(head, tail, separator, from);
    lemma_separator_from(tail, separator, from);
    let at = separator_from(tail, separator, from);
    assert(whole.subrange(head.len() + from, head.len() + at) =~= tail.subrange(from, at));
    if at < tail.len() {
        lemma_split_behind(head, tail, separator, at + 1);
    } else {
        assert(whole.len() == head.len() + tail.len());
    }
}

proof fn lemma_split_in_front(left: Seq<char>, right: Seq<char>, separator: char, from: int)
    requires
        0 <= from <= left.len(),
    ensures
        split_from(left + seq![separator] + right, separator, from) == split_from(
            left,
            separator,
            from,
        ) + split_on(right, separator),
    decreases left.len() - from,
{
    let whole = left + seq![separator] + right;
    lemma_separator_in_front(left, right, separator, from);
    lemma_separator_from(left, separator, from);
    let at = separator_from(left, separator, from);
    assert(whole.subrange(from, at) =~= left.subrange(from, at));
    if at < left.len() {
        lemma_split_in_front(left, right, separator, at + 1);
        let rest = split_from(left, separator, at + 1);
        assert(seq![left.subrange(from, at)] + (rest + split_on(right, separator)) =~= (seq![
            left.subrange(from, at),
        ] + rest) + split_on(right, separator));
    } else {
        let head = left + seq![separator];
        assert(whole == head + right);
        lemma_split_behind(head, right, separator, 0);
    }
}

/// A separator parts a text where it stands: the parts of two texts with one
/// between them are those of the first and then those of the second.
pub proof fn law_a_separator_parts_a_text(left: Seq<char>, right: Seq<char>, separator: char)
    ensures
        split_on(left + seq![separator] + right, separator) == split_on(left, separator) + split_on(
            right,
            separator,
        ),
        split_on(left, separator).len() >= 1,
{
    lemma_split_in_front(left, right, separator, 0);
}

pub proof fn lemma_components_in_front(left: Seq<Seq<char>>, right: Seq<Seq<char>>, upto: int)
    requires
        0 <= upto <= left.len(),
    ensures
        components_upto(left + right, upto) == components_upto(left, upto),
    decreases upto,
{
    if upto > 0 {
        lemma_components_in_front(left, right, upto - 1);
        assert((left + right)[upto - 1] == left[upto - 1]);
    }
}

proof fn lemma_components_behind(left: Seq<Seq<char>>, right: Seq<Seq<char>>, upto: int)
    requires
        left.len() > 0,
        0 <= upto <= right.len(),
        right.len() > 0 ==> right[0] != seq!['.'],
    ensures
        components_upto(left + right, left.len() + upto) == components_upto(
            left,
            left.len() as int,
        ) + components_upto(right, upto),
    decreases upto,
{
    if upto == 0 {
        lemma_components_in_front(left, right, left.len() as int);
        assert(components_upto(left, left.len() as int) + Seq::<Seq<char>>::empty()
            =~= components_upto(left, left.len() as int));
    } else {
        lemma_components_behind(left, right, upto - 1);
        let segment = right[upto - 1];
        assert((left + right)[left.len() + upto - 1] == segment);
        let front = components_upto(left, left.len() as int);
        let before = components_upto(right, upto - 1);
        assert((front + before).push(segment) =~= front + before.push(segment));
    }
}

/// Joining puts the components of the second path behind those of the first.
pub proof fn law_joining_puts_components_behind(base: Seq<char>, path: Seq<char>)
    requires
        goes_behind(path),
    ensures
        components(joined(base, path)) == components(base) + components(path),
        joined(base, path).len() > 0,
{
    let parts = split_on(path, '/');
    let own = components_upto(parts, parts.len() as int);
    assert(components(path) == own);
    if base.len() == 0 {
        lemma_split_whole(base, '/');
        assert(split_on(base, '/') =~= seq![base]);
        reveal_with_fuel(components_upto, 2);
        assert(components(base) =~= seq![]);
        assert(components(base) + components(path) =~= components(path));
    } else {
        let stem = if base.last() == '/' {
            base.drop_last()
        } else {
            base
        };
        let whole = joined(base, path);
        assert(whole =~= stem + seq!['/'] + path);
        law_a_separator_parts_a_text(stem, path, '/');
        let front = split_on(stem, '/');
        lemma_components_behind(front, parts, parts.len() as int);
        let stem_parts = components_upto(front, front.len() as int);
        if base.last() == '/' {
            let none = Seq::<char>::empty();
            assert(base =~= stem + seq!['/'] + none);
            law_a_separator_parts_a_text(stem, none, '/');
            lemma_split_whole(none, '/');
            lemma_components_behind(front, seq![none], 1);
            reveal_with_fuel(components_upto, 2);
            assert(components_upto(seq![none], 1) =~= seq![]);
            assert(stem_parts + Seq::<Seq<char>>::empty() =~= stem_parts);
        }
        let base_parts = split_on(base, '/');
        assert(components_upto(base_parts, base_parts.len() as int) == stem_parts);
        assert(whole[0] == base[0]) by {
            if stem.len() > 0 {
                assert(whole[0] == stem[0]);
            }
        }
        if base[0] == '/' {
            assert(seq![seq!['/']] + (stem_parts + own) =~= (seq![seq!['/']] + stem_parts) + own);
        }
    }
}

/// One name is one component, and it can be put behind a directory.
pub proof fn law_one_name_is_one_component(name: Seq<char>)
    requires
        one_name(name),
    ensures
        components(name) == seq![name],
        goes_behind(name),
        file_name(name) == Some(name),
{
    lemma_split_whole(name, '/');
    let segments = split_on(name, '/');
    assert(segments =~= seq![name]);
    reveal_with_fuel(components_upto, 2);
    assert(components_upto(segments, 1) =~= seq![name]);
}

/// A name joined to a directory stands right in it, ends the path and lies under
/// no other directory of the same depth.
pub proof fn law_a_joined_name_stands_right_in_its_directory(
    directory: Seq<char>,
    name: Seq<char>,
    other: Seq<char>,
)
    requires
        one_name(name),
    ensures
        components(joined(directory, name)) == components(directory).push(name),
        file_name(joined(directory, name)) == Some(name),
        is_right_in(joined(directory, name), other) <==> same_path(directory, other),
        path_starts_with(joined(directory, name), directory),
{
    law_one_name_is_one_component(name);
    law_joining_puts_components_behind(directory, name);
    let parts = components(joined(directory, name));
    assert(components(directory) + seq![name] =~= components(directory).push(name));
    assert(parts.last() == name);
    assert(parts.drop_last() =~= components(directory));
    assert(parts.take(components(directory).len() as int) =~= components(directory));
    assert(name != seq!['/']) by {
        if name == seq!['/'] {
            assert(name[0] == '/');
        }
    }
}

/// Paths that are joined to one directory are the same only where they were.
pub proof fn law_joining_keeps_paths_apart(base: Seq<char>, one: Seq<char>, two: Seq<char>)
    requires
        goes_behind(one),
        goes_behind(two),
    ensures
        same_path(joined(base, one), joined(base, two)) <==> same_path(one, two),
{
    law_joining_puts_components_behind(base, one);
    law_joining_puts_components_behind(base, two);
    let front = components(base);
    let first = front + components(one);
    let second = front + components(two);
    assert(first.skip(front.len() as int) =~= components(one));
    assert(second.skip(front.len() as int) =~= components(two));
}

// Which paths are accepted.

proof fn lemma_components_are_segments(segments: Seq<Seq<char>>, upto: int, k: int)
    requires
        0 <= upto <= segments.len(),
        0 <= k < components_upto(segments, upto).len(),
    ensures
        exists|i: int|
            0 <= i < upto && #[trigger] segments[i] == components_upto(segments, upto)[k],
    decreases upto,
{
    if upto > 0 {
        let before = components_upto(segments, upto - 1);
        if k < before.len() {
            lemma_components_are_segments(segments, upto - 1, k);
            let i = choose|i: int| 0 <= i < upto - 1 && #[trigger] segments[i] == before[k];
            assert(segments[i] == components_upto(segments, upto)[k]);
        } else {
            assert(segments[upto - 1] == components_upto(segments, upto)[k]);
        }
    }
}

/// A valid path does not climb: none of its components is `..`, and put behind any
/// directory it stays in it.
pub proof fn law_a_valid_path_stays_within(base: Seq<char>, path: Seq<char>)
    requires
        valid_path(path),
    ensures
        goes_behind(path),
        !components(path).contains(seq!['.', '.']),
        path_starts_with(joined(base, path), base),
        components(joined(base, path)) == components(base) + components(path),
{
    let segments = split_on(path, '/');
    let parts = components(path);
    assert forall|k: int| 0 <= k < parts.len() implies parts[k] != seq!['.', '.'] by {
        lemma_components_are_segments(segments, segments.len() as int, k);
    }
    law_joining_puts_components_behind(base, path);
    assert((components(base) + components(path)).take(components(base).len() as int)
        =~= components(base));
}

/// An empty path, a path from the root and a path that climbs anywhere are refused.
pub proof fn law_a_path_that_could_leave_is_refused(
    path: Seq<char>,
    left: Seq<char>,
    right: Seq<char>,
)
    ensures
        valid_path(path) ==> path.len() > 0 && path[0] != '/',
        !valid_path(seq!['.', '.']),
        !valid_path(left + seq!['/', '.', '.']),
        !valid_path(seq!['.', '.', '/'] + right),
        !valid_path(left + seq!['/', '.', '.', '/'] + right),
{
    let up = seq!['.', '.'];
    lemma_split_whole(up, '/');
    assert(split_on(up, '/') =~= seq![up]);
    assert(split_on(up, '/')[0] == up);
    law_a_separator_parts_a_text(left, up, '/');
    assert(left + seq!['/'] + up =~= left + seq!['/', '.', '.']);
    let first = split_on(left, '/').len() as int;
    assert(split_on(left + seq!['/', '.', '.'], '/')[first] == up);
    law_a_separator_parts_a_text(up, right, '/');
    assert(up + seq!['/'] + right =~= seq!['.', '.', '/'] + right);
    assert(split_on(seq!['.', '.', '/'] + right, '/')[0] == up);
    law_a_separator_parts_a_text(left, up + seq!['/'] + right, '/');
    assert(left + seq!['/'] + (up + seq!['/'] + right) =~= left + seq!['/', '.', '.', '/'] + right);
    assert(split_on(left + seq!['/', '.', '.', '/'] + right, '/')[first] == up);
}

/// The extension of a name is what stands behind its last dot, and a name without a
/// dot or with one at its start alone has none.
pub proof fn law_an_extension_stands_behind_the_last_dot(stem: Seq<char>, ending: Seq<char>)
    requires
        forall|i: int| 0 <= i < ending.len() ==> #[trigger] ending[i] != '.',
    ensures
        stem.len() > 0 ==> extension(stem + seq!['.'] + ending) == Some(ending),
        extension(seq!['.'] + ending) is None,
        extension(ending) is None,
{
    lemma_split_whole(ending, '.');
    assert(split_on(ending, '.') =~= seq![ending]);
    law_a_separator_parts_a_text(stem, ending, '.');
    let parts = split_on(stem + seq!['.'] + ending, '.');
    assert(parts.last() == ending);
    if stem.len() > 0 && split_on(stem, '.').len() == 1 {
        lemma_separator_from(stem, '.', 0);
        let at = separator_from(stem, '.', 0);
        if at < stem.len() {
            let rest = stem.skip(at + 1);
            assert(stem =~= stem.take(at) + seq!['.'] + rest);
            law_a_separator_parts_a_text(stem.take(at), rest, '.');
            law_a_separator_parts_a_text(rest, rest, '.');
        }
        assert(split_on(stem, '.')[0] =~= stem);
        assert(parts[0] == stem);
    }
    let nothing = Seq::<char>::empty();
    lemma_split_whole(nothing, '.');
    assert(split_on(nothing, '.') =~= seq![nothing]);
    law_a_separator_parts_a_text(nothing, ending, '.');
    assert(nothing + seq!['.'] + ending =~= seq!['.'] + ending);
    assert(split_on(seq!['.'] + ending, '.') =~= seq![nothing, ending]);
}

proof fn lemma_name_behind_is_valid(directory: Seq<char>, name: Seq<char>)
    requires
        valid_path(directory),
        one_name(name),
    ensures
        valid_path(joined(directory, name)),
{
    let stem = if directory.last() == '/' {
        directory.drop_last()
    } else {
        directory
    };
    let whole = joined(directory, name);
    assert(whole =~= stem + seq!['/'] + name);
    law_a_separator_parts_a_text(stem, name, '/');
    lemma_split_whole(name, '/');
    assert(split_on(name, '/') =~= seq![name]);
    let segments = split_on(whole, '/');
    let own = split_on(directory, '/');
    if directory.last() == '/' {
        let nothing = Seq::<char>::empty();
        law_a_separator_parts_a_text(stem, nothing, '/');
        assert(stem + seq!['/'] + nothing =~= directory);
    }
    assert forall|i: int| 0 <= i < segments.len() implies #[trigger] segments[i] != seq![
        '.',
        '.',
    ] by {
        if i < split_on(stem, '/').len() {
            assert(segments[i] == split_on(stem, '/')[i]);
            assert(own[i] == split_on(stem, '/')[i]);
        } else {
            assert(segments[i] == name);
        }
    }
    assert(segments[0] == split_on(stem, '/')[0]);
    assert(own[0] == split_on(stem, '/')[0]);
    assert(whole[0] == directory[0]) by {
        if stem.len() == 0 {
            assert(directory.len() == 1 && directory[0] == '/');
        }
    }
}

/// A file in a valid directory is that of a note where its name ends in `.md` or in
/// `.snote`, and only there.
pub proof fn law_note_files_end_in_md_or_snote(
    directory: Seq<char>,
    stem: Seq<char>,
    ending: Seq<char>,
)
    requires
        valid_path(directory),
        stem.len() > 0,
        forall|i: int| 0 <= i < stem.len() ==> #[trigger] stem[i] != '/',
        forall|i: int| 0 <= i < ending.len() ==> #[trigger] ending[i] != '.' && ending[i] != '/',
        ending.len() > 0,
    ensures
        valid_note_path(joined(directory, stem + seq!['.'] + ending)) <==> ending == seq!['m', 'd']
            || ending == seq!['s', 'n', 'o', 't', 'e'],
{
    let name = stem + seq!['.'] + ending;
    assert(name.len() >= 3);
    assert forall|i: int| 0 <= i < name.len() implies name[i] != '/' by {
        if i < stem.len() {
            assert(name[i] == stem[i]);
        } else if i > stem.len() {
            assert(name[i] == ending[i - stem.len() - 1]);
        }
    }
    law_an_extension_stands_behind_the_last_dot(stem, ending);
    lemma_name_behind_is_valid(directory, name);
    law_a_joined_name_stands_right_in_its_directory(directory, name, directory);
    reveal_strlit("md");
    reveal_strlit("snote");
    assert("md"@ =~= seq!['m', 'd']);
    assert("snote"@ =~= seq!['s', 'n', 'o', 't', 'e']);
}

// File names out of titles.

/// Whether no character of a text is a letter or a digit.
pub open spec fn no_letters(text: Seq<char>) -> bool {
    forall|i: int| 0 <= i < text.len() ==> !is_letter_or_digit(#[trigger] text[i])
}

proof fn lemma_slug_skips(left: Seq<char>, gap: Seq<char>)
    requires
        no_letters(gap),
    ensures
        slug(left + gap) == slug(left),
    decreases gap.len(),
{
    if gap.len() == 0 {
        assert(left + gap =~= left);
    } else {
        let less = gap.drop_last();
        assert forall|i: int| 0 <= i < less.len() implies !is_letter_or_digit(
            #[trigger] less[i],
        ) by {
            assert(less[i] == gap[i]);
        }
        lemma_slug_skips(left, less);
        let whole = left + gap;
        assert(whole.drop_last() =~= left + less);
        assert(whole.last() == gap[gap.len() - 1]);
    }
}

proof fn lemma_slug_behind(left: Seq<char>, gap: Seq<char>, right: Seq<char>)
    requires
        no_letters(gap),
        gap.len() > 0,
        slug(left).len() > 0,
        right.len() > 0,
        is_letter_or_digit(right[0]),
        lower_char(right[0]).len() > 0,
    ensures
        slug(left + gap + right) == slug(left) + seq!['-'] + slug(right),
        slug(right).len() > 0,
    decreases right.len(),
{
    let whole = left + gap + right;
    let less = right.drop_last();
    let last = right.last();
    assert(whole.last() == last);
    assert(whole.drop_last() =~= left + gap + less);
    if right.len() == 1 {
        assert(left + gap + less =~= left + gap);
        lemma_slug_skips(left, gap);
        assert(whole[whole.len() - 2] == gap[gap.len() - 1]);
        assert(!is_letter_or_digit(gap[gap.len() - 1]));
        reveal_with_fuel(slug, 2);
        assert(slug(less) =~= seq![]);
        assert(slug(right) =~= lower_char(last));
    } else {
        assert(less[0] == right[0]);
        lemma_slug_behind(left, gap, less);
        assert(whole[whole.len() - 2] == right[right.len() - 2]);
        let head = slug(left) + seq!['-'];
        let before = slug(less);
        assert((head + before) + lower_char(last) =~= head + (before + lower_char(last)));
        assert((head + before) + seq!['-'] + lower_char(last) =~= head + (before + seq!['-']
            + lower_char(last)));
    }
}

/// What is neither a letter nor a digit leaves no more than one hyphen between what
/// stands on its two sides, and nothing at the end of a title.
pub proof fn law_one_hyphen_stands_between_words(left: Seq<char>, gap: Seq<char>, right: Seq<char>)
    requires
        no_letters(gap),
        gap.len() > 0,
    ensures
        slug(left + gap) == slug(left),
        slug(left).len() > 0 && right.len() > 0 && is_letter_or_digit(right[0]) && lower_char(
            right[0],
        ).len() > 0 ==> slug(left + gap + right) == slug(left) + seq!['-'] + slug(right),
        slug(gap) == Seq::<char>::empty(),
{
    lemma_slug_skips(left, gap);
    let nothing = Seq::<char>::empty();
    lemma_slug_skips(nothing, gap);
    assert(nothing + gap =~= gap);
    if slug(left).len() > 0 && right.len() > 0 && is_letter_or_digit(right[0]) && lower_char(
        right[0],
    ).len() > 0 {
        lemma_slug_behind(left, gap, right);
    }
}

/// The part of a file name that stands for a title is never empty and at most eighty
/// characters long; a title without letters and digits gives `untitled`.
pub proof fn law_a_title_gives_a_short_name(title: Seq<char>)
    ensures
        1 <= title_slug(title).len() <= 80,
        title_slug(title)[0] != '-',
        no_letters(title) ==> title_slug(title) == seq!['u', 'n', 't', 'i', 't', 'l', 'e', 'd'],
        title_slug(title).len() < 80 ==> title_slug(title).last() != '-',
{
    let whole = slug(title);
    let inner = stripped(whole, '-');
    reveal_strlit("untitled");
    assert("untitled"@ =~= seq!['u', 'n', 't', 'i', 't', 'l', 'e', 'd']);
    assert("untitled"@.last() == 'd');
    let lead = run_from(whole, '-', 0);
    let size = whole.len() as int;
    lemma_run_from(whole, '-', 0);
    lemma_run_before(whole, '-', size);
    if lead < size {
        let tail = run_before(whole, '-', size);
        if size - tail <= lead {
            assert(whole[lead] == '-');
        }
        assert(inner[0] == whole[lead]);
        assert(inner.last() == whole[size - tail - 1]);
        assert(inner.last() != '-');
    }
    if no_letters(title) {
        let nothing = Seq::<char>::empty();
        lemma_slug_skips(nothing, title);
        assert(nothing + title =~= title);
    }
}

} // verus!
