//! Names of note files and paths of notebooks.
//!
//! A path is a text with `/` between its segments. Two paths are the same when
//! they have the same components, where empty segments, and `.` except at the
//! very front, do not count.

use vstd::prelude::*;

use crate::error::{Error, Result};
use crate::ident::{lemma_hex_len, Uuid};
use crate::text::{
    ascii_lower, chars_of, copy_text, count_before, count_from, has_char, lemma_run_before,
    lemma_run_from, lemma_split_whole, lemma_texts_push, push_all, run_before, run_from, same_text,
    split_on, split_text, string_between, texts, trim, trimmed,
};

verus! {

/// Whether a character is a letter or a digit, as the standard library's
/// Unicode tables tell it.
pub uninterp spec fn is_letter_or_digit(character: char) -> bool;

/// The lowercase form of a character, as the standard library's Unicode tables
/// give it.
pub uninterp spec fn lower_char(character: char) -> Seq<char>;

/// Trusted: [`char::is_alphanumeric`] depends on the character alone. Of the
/// ASCII characters it accepts the letters and the digits.
#[verifier::external_body]
pub(crate) fn is_alphanumeric(character: char) -> (is: bool)
    ensures
        is == is_letter_or_digit(character),
        character <= '\u{7f}' ==> is == ('0' <= character <= '9' || 'A' <= character <= 'Z' || 'a'
            <= character <= 'z'),
{
    character.is_alphanumeric()
}

/// Trusted: [`char::to_lowercase`] depends on the character alone. An ASCII
/// letter from `A` to `Z` gives its lowercase letter, and any other ASCII
/// character itself.
#[verifier::external_body]
pub(crate) fn lowercase_of(character: char) -> (lower: Vec<char>)
    ensures
        lower@ == lower_char(character),
        character <= '\u{7f}' ==> lower@ == seq![ascii_lower(character)],
{
    character.to_lowercase().collect()
}

/// The words of a title in lower case with a hyphen between them, where a word
/// is a run of letters and digits.
pub open spec fn slug(title: Seq<char>) -> Seq<char>
    decreases title.len(),
{
    if title.len() == 0 {
        seq![]
    } else {
        let before = slug(title.drop_last());
        let last = title.last();
        if !is_letter_or_digit(last) {
            before
        } else if before.len() > 0 && title.len() > 1 && !is_letter_or_digit(
            title[title.len() - 2],
        ) {
            before + seq!['-'] + lower_char(last)
        } else {
            before + lower_char(last)
        }
    }
}

/// A text without a character at its two ends.
pub open spec fn stripped(text: Seq<char>, character: char) -> Seq<char> {
    let lead = run_from(text, character, 0);
    if lead >= text.len() {
        seq![]
    } else {
        text.subrange(lead, text.len() - run_before(text, character, text.len() as int))
    }
}

/// The part of a file name that stands for a title: at most eighty characters
/// of its slug, or `untitled`.
pub open spec fn title_slug(title: Seq<char>) -> Seq<char> {
    let inner = stripped(slug(title), '-');
    if inner.len() == 0 {
        "untitled"@
    } else if inner.len() > 80 {
        inner.take(80)
    } else {
        inner
    }
}

/// The part of a file name that stands for a title.
pub fn sanitize_title(title: &str) -> (name: String)
    ensures
        name@ == title_slug(title@),
        1 <= name@.len() <= 80,
{
    let chars = chars_of(title);
    let mut out: Vec<char> = Vec::new();
    let mut pending = false;
    let mut index: usize = 0;
    while index < chars.len()
        invariant
            index <= chars@.len(),
            out@ == slug(chars@.take(index as int)),
            pending == (index > 0 && !is_letter_or_digit(chars@[index - 1])),
        decreases chars@.len() - index,
    {
        let character = chars[index];
        proof {
            let next = chars@.take(index + 1);
            assert(next.drop_last() == chars@.take(index as int));
            assert(next.last() == character);
            if index > 0 {
                assert(next[next.len() - 2] == chars@[index - 1]);
            }
        }
        if is_alphanumeric(character) {
            if pending && out.len() > 0 {
                out.push('-');
            }
            let lower = lowercase_of(character);
            push_all(&mut out, &lower);
            pending = false;
        } else {
            pending = true;
        }
        index += 1;
    }
    proof {
        assert(chars@.take(index as int) == title@);
        reveal_strlit("untitled");
        lemma_run_from(out@, '-', 0);
        lemma_run_before(out@, '-', out@.len() as int);
    }
    let lead: usize = count_from(&out, '-', 0);
    if lead >= out.len() {
        return "untitled".to_owned();
    }
    let trail: usize = count_before(&out, '-', out.len());
    proof {
        assert(out@[lead as int] != '-');
        assert(lead < out@.len() - trail) by {
            if out@.len() - trail <= lead {
                assert(out@[lead as int] == '-');
            }
        }
    }
    let end: usize = out.len() - trail;
    let kept: usize = if end - lead > 80 {
        lead + 80
    } else {
        end
    };
    proof {
        assert(stripped(out@, '-').take(kept - lead) =~= out@.subrange(lead as int, kept as int));
        assert(stripped(out@, '-').take(end - lead) =~= stripped(out@, '-'));
    }
    string_between(&out, lead, kept)
}

/// The first eight digits of an identifier.
pub open spec fn short_id(id: Uuid) -> Seq<char> {
    id.spec_simple().take(8)
}

pub fn short_id_of(id: Uuid) -> (short: String)
    ensures
        short@ == short_id(id),
        short@.len() == 8,
{
    let digits = chars_of(&id.simple());
    proof {
        lemma_hex_len(id.value as nat, 32);
        assert(digits@.subrange(0, 8) == digits@.take(8));
    }
    string_between(&digits, 0, 8)
}

/// The file name of a note.
pub fn note_filename(title: &str, id: Uuid) -> (name: String)
    ensures
        name@ == title_slug(title@) + "--"@ + short_id(id) + ".md"@,
{
    let mut name = sanitize_title(title);
    name.append("--");
    name.append(&short_id_of(id));
    name.append(".md");
    name
}

/// The file name of an encrypted note. It says nothing of the note's title.
pub fn encrypted_note_filename(id: Uuid) -> (name: String)
    ensures
        name@ == "encrypted--"@ + short_id(id) + ".snote"@,
{
    let mut name: String = "encrypted--".to_owned();
    name.append(&short_id_of(id));
    name.append(".snote");
    name
}

// Paths.

/// Whether a path names something below the directory that it is relative to:
/// it is not empty or absolute, does not start with `.`, and has no `..`.
pub open spec fn valid_path(path: Seq<char>) -> bool {
    &&& path.len() > 0
    &&& path[0] != '/'
    &&& split_on(path, '/')[0] != seq!['.']
    &&& forall|i: int|
        0 <= i < split_on(path, '/').len() ==> #[trigger] split_on(path, '/')[i] != seq!['.', '.']
}

/// The components of the segments up to `upto`.
pub open spec fn components_upto(segments: Seq<Seq<char>>, upto: int) -> Seq<Seq<char>>
    decreases upto,
{
    if upto <= 0 {
        seq![]
    } else {
        let before = components_upto(segments, upto - 1);
        let segment = segments[upto - 1];
        if segment.len() == 0 || (segment == seq!['.'] && upto > 1) {
            before
        } else {
            before.push(segment)
        }
    }
}

/// The components of a path, with `/` in front where it is absolute.
pub open spec fn components(path: Seq<char>) -> Seq<Seq<char>> {
    let segments = split_on(path, '/');
    let parts = components_upto(segments, segments.len() as int);
    if path.len() > 0 && path[0] == '/' {
        seq![seq!['/']] + parts
    } else {
        parts
    }
}

/// Whether a component is the name of a file or a directory.
pub open spec fn is_name(component: Seq<char>) -> bool {
    component != seq!['/'] && component != seq!['.'] && component != seq!['.', '.']
}

/// The name that a path ends with.
pub open spec fn file_name(path: Seq<char>) -> Option<Seq<char>> {
    let parts = components(path);
    if parts.len() > 0 && is_name(parts.last()) {
        Some(parts.last())
    } else {
        None
    }
}

/// What stands behind the last dot of a name, unless the dot is its first character.
pub open spec fn extension(name: Seq<char>) -> Option<Seq<char>> {
    let parts = split_on(name, '.');
    if parts.len() < 2 || (parts.len() == 2 && parts[0].len() == 0) {
        None
    } else {
        Some(parts.last())
    }
}

/// An `InvalidPath` error with this text.
pub open spec fn is_invalid_path(error: Error, text: Seq<char>) -> bool {
    error matches Error::InvalidPath(message) && message@ == text
}

/// Checks the path of a notebook and gives it back.
pub fn validate_notebook_path(path: &str) -> (outcome: Result<String>)
    ensures
        match outcome {
            Ok(checked) => valid_path(path@) && checked@ == path@,
            Err(error) => !valid_path(path@) && is_invalid_path(error, path@),
        },
{
    if path.is_empty() || chars_of(path)[0] == '/' {
        return Err(Error::InvalidPath(path.to_owned()));
    }
    let segments = split_text(path, '/');
    proof {
        reveal_strlit(".");
        reveal_strlit("..");
        assert("."@ =~= seq!['.']);
        assert(".."@ =~= seq!['.', '.']);
        assert(texts(segments@)[0] == segments@[0]@);
    }
    if same_text(&segments[0], ".") {
        return Err(Error::InvalidPath(path.to_owned()));
    }
    let mut index: usize = 0;
    while index < segments.len()
        invariant
            index <= segments@.len(),
            texts(segments@) == split_on(path@, '/'),
            ".."@ == seq!['.', '.'],
            forall|i: int|
                0 <= i < index ==> #[trigger] split_on(path@, '/')[i] != seq!['.', '.'],
        decreases segments@.len() - index,
    {
        proof {
            assert(texts(segments@)[index as int] == segments@[index as int]@);
        }
        if same_text(&segments[index], "..") {
            return Err(Error::InvalidPath(path.to_owned()));
        }
        index += 1;
    }
    Ok(path.to_owned())
}

/// Whether a text can be the name of a notebook.
pub open spec fn valid_name(name: Seq<char>) -> bool {
    &&& name.len() > 0
    &&& name != seq!['.']
    &&& name != seq!['.', '.']
    &&& forall|i: int| 0 <= i < name.len() ==> name[i] != '/' && name[i] != '\\'
}

/// Checks the name of a notebook, one component and not a whole path, and gives
/// it back without the whitespace around it.
pub fn validate_notebook_name(name: &str) -> (outcome: Result<String>)
    ensures
        match outcome {
            Ok(checked) => valid_name(trimmed(name@)) && checked@ == trimmed(name@),
            Err(error) => !valid_name(trimmed(name@)) && is_invalid_path(error, name@),
        },
{
    let inner = trim(name);
    proof {
        reveal_strlit(".");
        reveal_strlit("..");
        assert("."@ =~= seq!['.']);
        assert(".."@ =~= seq!['.', '.']);
    }
    if inner.as_str().is_empty() || same_text(&inner, ".") || same_text(&inner, "..") || has_char(
        &inner,
        '/',
    ) || has_char(&inner, '\\') {
        return Err(Error::InvalidPath(name.to_owned()));
    }
    Ok(inner)
}

/// A valid name is a valid path with the name as its only component.
pub proof fn law_valid_name_is_one_component(name: Seq<char>)
    requires
        valid_name(name),
    ensures
        valid_path(name),
        components(name) == seq![name],
        file_name(name) == Some(name),
{
    lemma_split_whole(name, '/');
    let segments = split_on(name, '/');
    assert(segments =~= seq![name]);
    reveal_with_fuel(components_upto, 2);
    assert(components_upto(segments, 1) =~= seq![name]);
}

/// The components of a path.
pub fn components_of(path: &str) -> (parts: Vec<String>)
    ensures
        texts(parts@) == components(path@),
{
    let segments = split_text(path, '/');
    let ghost all = split_on(path@, '/');
    let mut parts: Vec<String> = Vec::new();
    let absolute = !path.is_empty() && chars_of(path)[0] == '/';
    proof {
        reveal_strlit(".");
        reveal_strlit("/");
        assert("."@ =~= seq!['.']);
        assert("/"@ =~= seq!['/']);
    }
    if absolute {
        let root: String = "/".to_owned();
        parts.push(root);
    }
    let ghost head = texts(parts@);
    let mut index: usize = 0;
    proof {
        assert(head + components_upto(all, 0) =~= texts(parts@));
        assert(absolute ==> head =~= seq![seq!['/']]);
        assert(!absolute ==> head =~= seq![]);
    }
    while index < segments.len()
        invariant
            index <= segments@.len(),
            texts(segments@) == all,
            "."@ == seq!['.'],
            texts(parts@) == head + components_upto(all, index as int),
        decreases segments@.len() - index,
    {
        let segment = copy_text(&segments[index]);
        proof {
            assert(all[index as int] == segment@);
        }
        let skipped = segment.as_str().is_empty() || (index > 0 && same_text(&segment, "."));
        if !skipped {
            let ghost done = parts@;
            parts.push(segment);
            proof {
                lemma_texts_push(done, segment);
                assert(head + components_upto(all, index as int).push(segment@) =~= texts(parts@));
            }
        }
        index += 1;
    }
    proof {
        assert(!absolute ==> texts(parts@) =~= components_upto(all, all.len() as int));
    }
    parts
}

fn names(component: &str) -> (is: bool)
    ensures
        is == is_name(component@),
{
    proof {
        reveal_strlit(".");
        reveal_strlit("..");
        reveal_strlit("/");
        assert("."@ =~= seq!['.']);
        assert(".."@ =~= seq!['.', '.']);
        assert("/"@ =~= seq!['/']);
    }
    !same_text(component, "/") && !same_text(component, ".") && !same_text(component, "..")
}

/// The name that a path ends with.
pub fn file_name_of(path: &str) -> (name: Option<String>)
    ensures
        match name {
            Some(name) => file_name(path@) == Some(name@),
            None => file_name(path@) is None,
        },
{
    let parts = components_of(path);
    if parts.len() == 0 {
        return None;
    }
    let last = copy_text(&parts[parts.len() - 1]);
    proof {
        assert(components(path@).last() == last@);
    }
    if names(&last) {
        Some(last)
    } else {
        None
    }
}

/// What stands behind the last dot of a name.
pub fn extension_of(name: &str) -> (found: Option<String>)
    ensures
        match found {
            Some(found) => extension(name@) == Some(found@),
            None => extension(name@) is None,
        },
{
    let parts = split_text(name, '.');
    proof {
        assert(texts(parts@)[0] == parts@[0]@);
    }
    if parts.len() < 2 || (parts.len() == 2 && parts[0].as_str().is_empty()) {
        return None;
    }
    let last = copy_text(&parts[parts.len() - 1]);
    proof {
        assert(texts(parts@).last() == last@);
    }
    Some(last)
}

/// Whether a path is that of a note file: valid, and named `.md` or `.snote`.
pub open spec fn valid_note_path(path: Seq<char>) -> bool {
    &&& valid_path(path)
    &&& file_name(path) matches Some(name) && (extension(name) == Some("md"@) || extension(name)
        == Some("snote"@))
}

/// Checks the path of a note file and gives it back.
pub fn ensure_relative_note_path(path: &str) -> (outcome: Result<String>)
    ensures
        match outcome {
            Ok(checked) => valid_note_path(path@) && checked@ == path@,
            Err(error) => !valid_note_path(path@) && is_invalid_path(error, path@),
        },
{
    let checked = match validate_notebook_path(path) {
        Ok(checked) => checked,
        Err(error) => {
            return Err(error);
        },
    };
    if let Some(name) = file_name_of(path) {
        if let Some(found) = extension_of(&name) {
            if same_text(&found, "md") || same_text(&found, "snote") {
                return Ok(checked);
            }
        }
    }
    Err(Error::InvalidPath(path.to_owned()))
}

/// Whether two paths have the same components.
pub open spec fn same_path(left: Seq<char>, right: Seq<char>) -> bool {
    components(left) == components(right)
}

/// Whether a path starts with the components of another.
pub open spec fn path_starts_with(path: Seq<char>, base: Seq<char>) -> bool {
    components(base).len() <= components(path).len() && components(path).take(
        components(base).len() as int,
    ) == components(base)
}

/// Whether a path names something right in a directory.
pub open spec fn is_right_in(path: Seq<char>, directory: Seq<char>) -> bool {
    let parts = components(path);
    parts.len() > 0 && parts.last() != seq!['/'] && parts.drop_last() == components(directory)
}

fn same_parts(left: &[String], right: &[String], count: usize) -> (same: bool)
    requires
        count <= left@.len(),
        count <= right@.len(),
    ensures
        same == (texts(left@).take(count as int) == texts(right@).take(count as int)),
{
    let mut index: usize = 0;
    while index < count
        invariant
            index <= count,
            count <= left@.len(),
            count <= right@.len(),
            forall|i: int| 0 <= i < index ==> texts(left@)[i] == texts(right@)[i],
        decreases count - index,
    {
        if !same_text(&left[index], &right[index]) {
            proof {
                assert(texts(left@).take(count as int)[index as int] == left@[index as int]@);
                assert(texts(right@).take(count as int)[index as int] == right@[index as int]@);
            }
            return false;
        }
        index += 1;
    }
    proof {
        assert(texts(left@).take(count as int) =~= texts(right@).take(count as int));
    }
    true
}

/// Whether two paths are the same.
pub fn paths_equal(left: &str, right: &str) -> (same: bool)
    ensures
        same == same_path(left@, right@),
{
    let one = components_of(left);
    let two = components_of(right);
    proof {
        assert(components(left@).take(one@.len() as int) == components(left@));
        assert(components(right@).take(two@.len() as int) == components(right@));
    }
    one.len() == two.len() && same_parts(&one, &two, one.len())
}

/// Whether a path starts with the components of another.
pub fn starts_with_path(path: &str, base: &str) -> (starts: bool)
    ensures
        starts == path_starts_with(path@, base@),
{
    let one = components_of(path);
    let two = components_of(base);
    proof {
        assert(components(base@).take(two@.len() as int) == components(base@));
    }
    two.len() <= one.len() && same_parts(&one, &two, two.len())
}

/// Whether a path names something right in a directory.
pub fn stands_right_in(path: &str, directory: &str) -> (stands: bool)
    ensures
        stands == is_right_in(path@, directory@),
{
    let one = components_of(path);
    let two = components_of(directory);
    if one.len() == 0 {
        return false;
    }
    proof {
        reveal_strlit("/");
        assert("/"@ =~= seq!['/']);
        assert(components(path@).last() == one@[one@.len() - 1]@);
        assert(components(directory@).take(two@.len() as int) == components(directory@));
        assert(components(path@).take(one@.len() - 1) == components(path@).drop_last());
    }
    !same_text(&one[one.len() - 1], "/") && one.len() - 1 == two.len() && same_parts(
        &one,
        &two,
        two.len(),
    )
}

/// A path put behind another.
pub open spec fn joined(base: Seq<char>, path: Seq<char>) -> Seq<char> {
    if base.len() == 0 || (path.len() > 0 && path[0] == '/') {
        path
    } else if base.last() == '/' {
        base + path
    } else {
        base + seq!['/'] + path
    }
}

/// Puts a path behind another. An absolute path stands for itself.
pub fn join_path(base: &str, path: &str) -> (whole: String)
    ensures
        whole@ == joined(base@, path@),
{
    let head = chars_of(base);
    let tail = chars_of(path);
    if head.len() == 0 || (tail.len() > 0 && tail[0] == '/') {
        return path.to_owned();
    }
    let mut whole: String = base.to_owned();
    if head[head.len() - 1] != '/' {
        whole.push('/');
    }
    whole.append(path);
    proof {
        assert(base@.push('/') + path@ =~= base@ + seq!['/'] + path@);
    }
    whole
}

} // verus!
