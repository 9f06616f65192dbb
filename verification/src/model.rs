//! Notes and what a list of notes shows of them.

use vstd::prelude::*;

use crate::error::{Error, Result};
use crate::ident::{hex_digit, hex_digits, lemma_hex_len, Uuid};
use crate::paths::{short_id, short_id_of};
use crate::text::{
    chars_of, copy_text, copy_texts, equal_ascii_folded, find_from, first_at, join_texts,
    joined_texts, lemma_first_at, lemma_texts_push, lowercase, matches_at, same_ascii_folded,
    same_text, stands_at, string_between, texts, to_lowercase, trim, trim_end, trimmed,
    trimmed_end, words, words_of,
};

verus! {

/// A moment: seconds since 1970, and nanoseconds since that second.
#[derive(Clone, Copy, Debug, PartialEq, Eq, Structural)]
pub struct Timestamp {
    pub seconds: i64,
    pub nanos: u32,
}

impl Timestamp {
    /// Whether this moment is earlier than another.
    pub open spec fn spec_before(self, other: Timestamp) -> bool {
        self.seconds < other.seconds || (self.seconds == other.seconds && self.nanos < other.nanos)
    }

    /// Whether this moment is earlier than another.
    pub fn before(&self, other: &Timestamp) -> (before: bool)
        ensures
            before == self.spec_before(*other),
    {
        self.seconds < other.seconds || (self.seconds == other.seconds && self.nanos < other.nanos)
    }

    /// The start of 1970.
    pub fn epoch() -> (moment: Timestamp)
        ensures
            moment == (Timestamp { seconds: 0, nanos: 0 }),
    {
        Timestamp { seconds: 0, nanos: 0 }
    }

    /// The present moment.
    pub fn now() -> (moment: Timestamp)
        ensures
            moment.nanos < 1_000_000_000,
    {
        let (seconds, nanos) = current_time();
        Timestamp { seconds, nanos }
    }
}

/// Trusted: `chrono::Utc::now`, read as seconds by `timestamp` and nanoseconds
/// by `timestamp_subsec_nanos`. The nanoseconds stay under one second; when it is,
/// nothing is claimed of. On a machine whose clock stands before 1970 it panics.
#[verifier::external_body]
pub(crate) fn current_time() -> (now: (i64, u32))
    ensures
        now.1 < 1_000_000_000,
{
    let now = chrono::Utc::now();
    (now.timestamp(), now.timestamp_subsec_nanos())
}

/// How a moment is written to the minute: year, month, day, hour and minute in UTC.
pub const MINUTE_PATTERN: &'static str = "%Y-%m-%d %H:%M UTC";

/// A moment as `chrono` writes it by a pattern, where `chrono` has it.
pub uninterp spec fn moment_text(seconds: i64, nanos: u32, pattern: Seq<char>) -> Option<
    Seq<char>,
>;

/// Trusted: `chrono::DateTime::from_timestamp`, which gives nothing for a moment
/// out of its range, and `format`. The text depends on the moment and the pattern
/// alone; what it is stays unsaid. A pattern that `chrono` does not know would make
/// it panic, so only the one above is handed over.
#[verifier::external_body]
pub(crate) fn format_moment(seconds: i64, nanos: u32, pattern: &str) -> (text: Option<String>)
    requires
        pattern@ == MINUTE_PATTERN@,
    ensures
        moment_text(seconds, nanos, pattern@) == (match text {
            Some(text) => Some(text@),
            None => None,
        }),
{
    chrono::DateTime::from_timestamp(seconds, nanos).map(
        |moment| moment.format(pattern).to_string(),
    )
}

/// Trusted: `zeroize` of a `String` overwrites its bytes and leaves it empty.
#[verifier::external_body]
pub(crate) fn wipe(text: &mut String)
    ensures
        final(text)@ == Seq::<char>::empty(),
{
    zeroize::Zeroize::zeroize(text)
}

/// The value of a field in the front matter.
#[derive(Debug, PartialEq, Eq)]
pub enum FieldValue {
    Null,
    Bool(bool),
    /// A number, as it is written.
    Number(String),
    Text(String),
    List(Vec<FieldValue>),
    Fields(Vec<(FieldValue, FieldValue)>),
    /// A value with a tag of its own.
    Tagged(String, Box<FieldValue>),
}

impl FieldValue {
    /// Whether a value is what is left of this one once its texts are overwritten:
    /// texts are empty, also those in lists and behind tags, and maps hold nothing.
    /// Null, truth values and numbers stay.
    pub open spec fn leaves(self, left: FieldValue) -> bool
        decreases self,
    {
        match (self, left) {
            (FieldValue::Text(_), FieldValue::Text(text)) => text@.len() == 0,
            (FieldValue::List(values), FieldValue::List(rest)) => {
                &&& rest@.len() == values@.len()
                &&& forall|i: int|
                    0 <= i < values@.len() ==> values@[i].leaves(#[trigger] rest@[i])
            },
            (FieldValue::Fields(_), FieldValue::Fields(rest)) => rest@.len() == 0,
            (FieldValue::Tagged(tag, value), FieldValue::Tagged(kept, rest)) => kept@ == tag@
                && value.leaves(*rest),
            (FieldValue::Null, FieldValue::Null) => true,
            (FieldValue::Bool(value), FieldValue::Bool(kept)) => kept == value,
            (FieldValue::Number(value), FieldValue::Number(kept)) => kept@ == value@,
            _ => false,
        }
    }

    /// Overwrites all texts of the value.
    pub fn clear(&mut self)
        ensures
            old(self).leaves(*final(self)),
        decreases *old(self),
    {
        match self {
            FieldValue::Text(text) => {
                wipe(text);
            },
            FieldValue::List(values) => {
                let ghost all = values@;
                let mut index: usize = 0;
                while index < values.len()
                    invariant
                        index <= values@.len(),
                        values@.len() == all.len(),
                        *old(self) matches FieldValue::List(before) && before@ == all,
                        forall|i: int| index <= i < all.len() ==> #[trigger] values@[i] == all[i],
                        forall|i: int| 0 <= i < index ==> all[i].leaves(#[trigger] values@[i]),
                    decreases values@.len() - index,
                {
                    values[index].clear();
                    index += 1;
                }
            },
            FieldValue::Fields(entries) => {
                let ghost all = entries@;
                while entries.len() > 0
                    invariant
                        entries@.len() <= all.len(),
                        *old(self) matches FieldValue::Fields(before) && before@ == all,
                        forall|i: int| 0 <= i < entries@.len() ==> #[trigger] entries@[i] == all[i],
                    decreases entries@.len(),
                {
                    if let Some((mut key, mut value)) = entries.pop() {
                        key.clear();
                        value.clear();
                    }
                }
            },
            FieldValue::Tagged(_, value) => {
                value.clear();
            },
            FieldValue::Null | FieldValue::Bool(_) | FieldValue::Number(_) => {},
        }
    }
}

/// What the front matter of a note holds.
#[derive(Debug, PartialEq, Eq)]
pub struct NoteMetadata {
    pub id: Uuid,
    pub title: String,
    pub created_at: Timestamp,
    pub updated_at: Timestamp,
    pub tags: Vec<String>,
    pub pinned: bool,
    /// A note can be pinned, a favourite, both or neither.
    pub favourite: bool,
    pub archived: bool,
    /// Fields that are not known here, each with its name.
    pub unknown: Vec<(String, FieldValue)>,
}

/// Whether two tags count as one: they differ at most in case.
pub open spec fn same_tag(left: Seq<char>, right: Seq<char>) -> bool {
    same_ascii_folded(left, right) || lowercase(left) == lowercase(right)
}

/// Whether no two tags of a list count as one.
pub open spec fn tags_distinct(tags: Seq<Seq<char>>) -> bool {
    forall|i: int, j: int|
        0 <= i < j < tags.len() ==> !same_tag(#[trigger] tags[i], #[trigger] tags[j])
}

/// The tags whose lowercase form is not that of `tag`.
pub open spec fn without_tag(tags: Seq<Seq<char>>, tag: Seq<char>) -> Seq<Seq<char>>
    decreases tags.len(),
{
    if tags.len() == 0 {
        seq![]
    } else {
        let before = without_tag(tags.drop_last(), tag);
        if lowercase(tags.last()) == lowercase(tag) {
            before
        } else {
            before.push(tags.last())
        }
    }
}

/// What is left keeps its order, and none of it has the lowercase form of the tag.
pub proof fn lemma_without_tag(tags: Seq<Seq<char>>, tag: Seq<char>)
    ensures
        without_tag(tags, tag).len() <= tags.len(),
        without_tag(tags, tag).len() == tags.len() ==> without_tag(tags, tag) == tags,
        forall|i: int|
            0 <= i < without_tag(tags, tag).len() ==> tags.contains(
                #[trigger] without_tag(tags, tag)[i],
            ) && lowercase(without_tag(tags, tag)[i]) != lowercase(tag),
        tags_distinct(tags) ==> tags_distinct(without_tag(tags, tag)),
    decreases tags.len(),
{
    if tags.len() > 0 {
        let shorter = tags.drop_last();
        lemma_without_tag(shorter, tag);
        let before = without_tag(shorter, tag);
        let all = without_tag(tags, tag);
        assert forall|i: int| 0 <= i < all.len() implies tags.contains(#[trigger] all[i])
            && lowercase(all[i]) != lowercase(tag) by {
            if i < before.len() {
                assert(all[i] == before[i]);
                let k = choose|k: int| 0 <= k < shorter.len() && shorter[k] == before[i];
                assert(tags[k] == before[i]);
            } else {
                assert(tags[tags.len() - 1] == all[i]);
            }
        }
        if tags_distinct(tags) {
            assert(tags_distinct(shorter)) by {
                assert forall|i: int, j: int| 0 <= i < j < shorter.len() implies !same_tag(
                    #[trigger] shorter[i],
                    #[trigger] shorter[j],
                ) by {
                    assert(!same_tag(tags[i], tags[j]));
                }
            }
            assert forall|i: int, j: int| 0 <= i < j < all.len() implies !same_tag(
                #[trigger] all[i],
                #[trigger] all[j],
            ) by {
                if j < before.len() {
                    assert(!same_tag(before[i], before[j]));
                } else {
                    let k = choose|k: int| 0 <= k < shorter.len() && shorter[k] == before[i];
                    assert(!same_tag(tags[k], tags[tags.len() - 1]));
                }
            }
        }
        if all.len() == tags.len() {
            assert(all =~= tags);
        }
    }
}

/// What comes of adding a tag to a note: it is added without the whitespace round
/// it, unless it is blank or counts as one that is there.
pub open spec fn tag_is_added(
    before: NoteMetadata,
    tag: Seq<char>,
    added: bool,
    after: NoteMetadata,
) -> bool {
    let tags = before.tag_texts();
    &&& added == (trimmed(tag).len() > 0 && forall|i: int|
        0 <= i < tags.len() ==> !same_tag(#[trigger] tags[i], trimmed(tag)))
    &&& after.tag_texts() == (if added {
        tags.push(trimmed(tag))
    } else {
        tags
    })
    &&& after.same_but_tags(before)
}

/// What comes of taking a tag of a note away, in whatever case it is.
pub open spec fn tag_is_removed(
    before: NoteMetadata,
    tag: Seq<char>,
    removed: bool,
    after: NoteMetadata,
) -> bool {
    let tags = before.tag_texts();
    &&& after.tag_texts() == without_tag(tags, trimmed(tag))
    &&& removed == (exists|i: int|
        0 <= i < tags.len() && lowercase(#[trigger] tags[i]) == lowercase(trimmed(tag)))
    &&& after.same_but_tags(before)
}

impl NoteMetadata {
    /// The tags as texts.
    pub open spec fn tag_texts(&self) -> Seq<Seq<char>> {
        texts(self.tags@)
    }

    /// Whether all but the tags is the same as in another.
    pub open spec fn same_but_tags(&self, other: NoteMetadata) -> bool {
        &&& self.id == other.id
        &&& self.title == other.title
        &&& self.created_at == other.created_at
        &&& self.updated_at == other.updated_at
        &&& self.pinned == other.pinned
        &&& self.favourite == other.favourite
        &&& self.archived == other.archived
        &&& self.unknown == other.unknown
    }

    /// What a new note with this identifier starts with at a moment.
    pub fn with(title: &str, id: Uuid, now: Timestamp) -> (metadata: NoteMetadata)
        ensures
            metadata.id == id,
            metadata.title@ == title@,
            metadata.created_at == now,
            metadata.updated_at == now,
            metadata.tag_texts().len() == 0,
            !metadata.pinned,
            !metadata.favourite,
            !metadata.archived,
            metadata.unknown@.len() == 0,
    {
        NoteMetadata {
            id,
            title: title.to_owned(),
            created_at: now,
            updated_at: now,
            tags: Vec::new(),
            pinned: false,
            favourite: false,
            archived: false,
            unknown: Vec::new(),
        }
    }

    /// What a new note starts with: a random identifier and the present moment.
    pub fn new(title: &str) -> (metadata: NoteMetadata)
        ensures
            metadata.title@ == title@,
            metadata.created_at == metadata.updated_at,
            metadata.tag_texts().len() == 0,
            !metadata.pinned,
            !metadata.favourite,
            !metadata.archived,
            metadata.unknown@.len() == 0,
    {
        NoteMetadata::with(title, Uuid::new_v4(), Timestamp::now())
    }

    /// Adds a tag, without the whitespace around it, unless it is empty or one
    /// of the tags counts as the same. The casing of a tag that is there stays.
    /// Tells whether the tag was added.
    pub fn add_tag(&mut self, tag: &str) -> (added: bool)
        ensures
            tag_is_added(*old(self), tag@, added, *final(self)),
            tags_distinct(old(self).tag_texts()) ==> tags_distinct(final(self).tag_texts()),
    {
        let inner = trim(tag);
        if inner.as_str().is_empty() {
            return false;
        }
        let ghost all = self.tag_texts();
        let lower = to_lowercase(&inner);
        let mut index: usize = 0;
        while index < self.tags.len()
            invariant
                index <= self.tags@.len(),
                *self == *old(self),
                all == self.tag_texts(),
                inner@ == trimmed(tag@),
                inner@.len() > 0,
                lower@ == lowercase(inner@),
                forall|i: int| 0 <= i < index ==> !same_tag(#[trigger] all[i], inner@),
            decreases self.tags@.len() - index,
        {
            proof {
                assert(all[index as int] == self.tags@[index as int]@);
            }
            if equal_ascii_folded(&self.tags[index], &inner) || same_text(
                &to_lowercase(&self.tags[index]),
                &lower,
            ) {
                return false;
            }
            index += 1;
        }
        let ghost before = self.tags@;
        self.tags.push(inner);
        proof {
            lemma_texts_push(before, inner);
        }
        true
    }

    /// Removes the tags whose lowercase form is that of `tag`, and tells
    /// whether there was one.
    pub fn remove_tag(&mut self, tag: &str) -> (removed: bool)
        ensures
            tag_is_removed(*old(self), tag@, removed, *final(self)),
            tags_distinct(old(self).tag_texts()) ==> tags_distinct(final(self).tag_texts()),
    {
        let inner = trim(tag);
        let lower = to_lowercase(&inner);
        let ghost all = self.tag_texts();
        let mut kept: Vec<String> = Vec::new();
        let mut removed = false;
        let mut index: usize = 0;
        proof {
            assert(texts(kept@) =~= without_tag(all.take(0), inner@));
        }
        while index < self.tags.len()
            invariant
                index <= self.tags@.len(),
                *self == *old(self),
                all == self.tag_texts(),
                inner@ == trimmed(tag@),
                lower@ == lowercase(inner@),
                texts(kept@) == without_tag(all.take(index as int), inner@),
                removed == exists|i: int|
                    0 <= i < index && lowercase(#[trigger] all[i]) == lowercase(inner@),
            decreases self.tags@.len() - index,
        {
            proof {
                let next = all.take(index + 1);
                assert(next.drop_last() =~= all.take(index as int));
                assert(next.last() == self.tags@[index as int]@);
                assert(all[index as int] == self.tags@[index as int]@);
            }
            if same_text(&to_lowercase(&self.tags[index]), &lower) {
                removed = true;
            } else {
                let ghost done = kept@;
                let tag_kept = copy_text(&self.tags[index]);
                kept.push(tag_kept);
                proof {
                    lemma_texts_push(done, tag_kept);
                }
            }
            index += 1;
        }
        self.tags = kept;
        proof {
            assert(all.take(index as int) == all);
            lemma_without_tag(all, inner@);
        }
        removed
    }

    /// Whether this is what is left of another once all that a locked note keeps
    /// secret is overwritten: the title, the tags and the texts of the fields that
    /// are not known here.
    pub open spec fn is_cleared(&self, before: NoteMetadata) -> bool {
        &&& self.title@.len() == 0
        &&& self.tags@.len() == before.tags@.len()
        &&& forall|i: int| 0 <= i < self.tags@.len() ==> (#[trigger] self.tags@[i])@.len() == 0
        &&& self.unknown@.len() == before.unknown@.len()
        &&& forall|i: int|
            0 <= i < self.unknown@.len() ==> (#[trigger] self.unknown@[i]).0 == before.unknown@[i].0
                && before.unknown@[i].1.leaves(self.unknown@[i].1)
        &&& self.id == before.id
        &&& self.created_at == before.created_at
        &&& self.updated_at == before.updated_at
        &&& self.pinned == before.pinned
        &&& self.favourite == before.favourite
        &&& self.archived == before.archived
    }

    /// Overwrites all that a locked note keeps secret.
    pub fn clear_sensitive(&mut self)
        ensures
            final(self).is_cleared(*old(self)),
    {
        wipe(&mut self.title);
        let mut index: usize = 0;
        while index < self.tags.len()
            invariant
                index <= self.tags@.len(),
                self.title@.len() == 0,
                self.tags@.len() == old(self).tags@.len(),
                self.unknown == old(self).unknown,
                self.id == old(self).id,
                self.created_at == old(self).created_at,
                self.updated_at == old(self).updated_at,
                self.pinned == old(self).pinned,
                self.favourite == old(self).favourite,
                self.archived == old(self).archived,
                forall|i: int| 0 <= i < index ==> (#[trigger] self.tags@[i])@.len() == 0,
            decreases self.tags@.len() - index,
        {
            wipe(&mut self.tags[index]);
            index += 1;
        }
        let mut index: usize = 0;
        while index < self.unknown.len()
            invariant
                index <= self.unknown@.len(),
                self.title@.len() == 0,
                self.tags@.len() == old(self).tags@.len(),
                self.unknown@.len() == old(self).unknown@.len(),
                self.id == old(self).id,
                self.created_at == old(self).created_at,
                self.updated_at == old(self).updated_at,
                self.pinned == old(self).pinned,
                self.favourite == old(self).favourite,
                self.archived == old(self).archived,
                forall|i: int| 0 <= i < self.tags@.len() ==> (#[trigger] self.tags@[i])@.len() == 0,
                forall|i: int|
                    0 <= i < index ==> (#[trigger] self.unknown@[i]).0 == old(self).unknown@[i].0
                        && old(self).unknown@[i].1.leaves(self.unknown@[i].1),
                forall|i: int|
                    index <= i < self.unknown@.len() ==> #[trigger] self.unknown@[i]
                        == old(self).unknown@[i],
            decreases self.unknown@.len() - index,
        {
            self.unknown[index].1.clear();
            index += 1;
        }
    }
}

/// A note.
#[derive(Debug, PartialEq, Eq)]
pub struct Note {
    pub metadata: NoteMetadata,
    pub body: String,
    /// Relative to the directory of the vault's notes.
    pub relative_path: String,
}

impl Note {
    /// A new note without a body.
    pub fn new(title: &str, relative_path: String) -> (note: Note)
        ensures
            note.metadata.title@ == title@,
            note.metadata.created_at == note.metadata.updated_at,
            note.metadata.tag_texts().len() == 0,
            !note.metadata.pinned,
            !note.metadata.favourite,
            !note.metadata.archived,
            note.metadata.unknown@.len() == 0,
            note.body@.len() == 0,
            note.relative_path == relative_path,
    {
        Note { metadata: NoteMetadata::new(title), body: String::new(), relative_path }
    }

    /// Whether this is what is left of another once all that a locked note keeps
    /// secret is overwritten.
    pub open spec fn is_cleared(&self, before: Note) -> bool {
        &&& self.metadata.is_cleared(before.metadata)
        &&& self.body@.len() == 0
        &&& self.relative_path == before.relative_path
    }

    /// Overwrites all that a locked note keeps secret. What is left is where
    /// the note is, when it was written and its marks.
    pub fn clear_sensitive(&mut self)
        ensures
            final(self).is_cleared(*old(self)),
    {
        self.metadata.clear_sensitive();
        wipe(&mut self.body);
    }
}

// Front matter.

/// The line that opens front matter.
pub open spec fn front_open() -> Seq<char> {
    seq!['-', '-', '-', '\n']
}

/// The line break and the line that close front matter.
pub open spec fn front_close() -> Seq<char> {
    seq!['\n', '-', '-', '-', '\n']
}

/// A file without the byte order mark that it may start with.
pub open spec fn without_mark(file: Seq<char>) -> Seq<char> {
    if file.len() > 0 && file[0] == '\u{feff}' {
        file.skip(1)
    } else {
        file
    }
}

/// The front matter and the body of a file, where the front matter is opened
/// and closed.
pub open spec fn front_parts(file: Seq<char>) -> Option<(Seq<char>, Seq<char>)> {
    let text = without_mark(file);
    if !stands_at(text, front_open(), 0) {
        None
    } else {
        let rest = text.skip(4);
        match first_at(rest, front_close(), 0) {
            Some(end) => Some((rest.take(end), rest.skip(end + 5))),
            None => None,
        }
    }
}

/// An `InvalidFrontMatter` error with this text.
pub open spec fn is_invalid_front(error: Error, text: Seq<char>) -> bool {
    error matches Error::InvalidFrontMatter(message) && message@ == text
}

fn opening() -> (chars: Vec<char>)
    ensures
        chars@ == front_open(),
{
    let mut chars: Vec<char> = Vec::new();
    chars.push('-');
    chars.push('-');
    chars.push('-');
    chars.push('\n');
    proof {
        assert(chars@ =~= front_open());
    }
    chars
}

fn closing() -> (chars: Vec<char>)
    ensures
        chars@ == front_close(),
{
    let mut chars: Vec<char> = Vec::new();
    chars.push('\n');
    chars.push('-');
    chars.push('-');
    chars.push('-');
    chars.push('\n');
    proof {
        assert(chars@ =~= front_close());
    }
    chars
}

/// Takes a file apart into the YAML text of its front matter and its body.
pub fn split_front_matter(file: &str) -> (outcome: Result<(String, String)>)
    ensures
        match outcome {
            Ok((yaml, body)) => front_parts(file@) == Some((yaml@, body@)),
            Err(error) => {
                &&& front_parts(file@) is None
                &&& is_invalid_front(
                    error,
                    if stands_at(without_mark(file@), front_open(), 0) {
                        "the closing YAML front-matter marker is missing"@
                    } else {
                        "the file must start with a YAML front-matter marker"@
                    },
                )
            },
        },
{
    let chars = chars_of(file);
    let start: usize = if chars.len() > 0 && chars[0] == '\u{feff}' {
        1
    } else {
        0
    };
    let text: &[char] = &chars[start..chars.len()];
    proof {
        assert(text@ =~= without_mark(file@));
    }
    if !matches_at(text, &opening(), 0) {
        return Err(
            Error::InvalidFrontMatter(
                "the file must start with a YAML front-matter marker".to_owned(),
            ),
        );
    }
    let rest: &[char] = &text[4..text.len()];
    proof {
        assert(rest@ =~= text@.skip(4));
    }
    match find_from(rest, &closing(), 0) {
        Some(end) => {
            let total: usize = rest.len();
            let yaml = string_between(rest, 0, end);
            let body = string_between(rest, end + 5, total);
            proof {
                assert(rest@.subrange(0, end as int) =~= rest@.take(end as int));
                assert(rest@.subrange(end + 5, total as int) =~= rest@.skip(end + 5));
            }
            Ok((yaml, body))
        },
        None => Err(
            Error::InvalidFrontMatter("the closing YAML front-matter marker is missing".to_owned()),
        ),
    }
}

/// YAML text without the marker lines that a writer may put round it, and
/// without the whitespace at its end.
pub open spec fn bare_yaml(yaml: Seq<char>) -> Seq<char> {
    let headless = if stands_at(yaml, front_open(), 0) {
        yaml.skip(4)
    } else {
        yaml
    };
    let tailless = if headless.len() >= 4 && headless.skip(headless.len() - 4) == seq![
        '.',
        '.',
        '.',
        '\n',
    ] {
        headless.take(headless.len() - 4)
    } else {
        headless
    };
    trimmed_end(tailless)
}

/// A file with this front matter and body.
pub open spec fn front_file(yaml: Seq<char>, body: Seq<char>) -> Seq<char> {
    front_open() + bare_yaml(yaml) + front_close() + body
}

/// Puts the YAML text of a note's front matter and its body together to a file.
pub fn join_front_matter(yaml: &str, body: &str) -> (file: String)
    ensures
        file@ == front_file(yaml@, body@),
{
    let chars = chars_of(yaml);
    let start: usize = if matches_at(&chars, &opening(), 0) {
        4
    } else {
        0
    };
    let total: usize = chars.len();
    let mut dots: Vec<char> = Vec::new();
    dots.push('.');
    dots.push('.');
    dots.push('.');
    dots.push('\n');
    proof {
        assert(dots@ =~= seq!['.', '.', '.', '\n']);
    }
    let end: usize = if total - start >= 4 && matches_at(&chars, &dots, total - 4) {
        total - 4
    } else {
        total
    };
    let inner = string_between(&chars, start, end);
    let bare = trim_end(&inner);
    proof {
        let headless = chars@.skip(start as int);
        assert(start == 0 ==> headless =~= chars@);
        if headless.len() >= 4 {
            assert(headless.skip(headless.len() - 4) =~= chars@.subrange(
                total - 4,
                total as int,
            ));
        }
        assert(end == total ==> inner@ =~= headless);
        assert(end < total ==> inner@ =~= headless.take(headless.len() - 4));
        assert(bare@ == bare_yaml(yaml@));
    }
    let mut file: String = "---\n".to_owned();
    file.append(&bare);
    file.append("\n---\n");
    file.append(body);
    proof {
        reveal_strlit("---\n");
        reveal_strlit("\n---\n");
        assert("---\n"@ =~= front_open());
        assert("\n---\n"@ =~= front_close());
    }
    file
}

/// Taking a file apart gives back the front matter and the body that it was put
/// together from, where no line of the front matter but the first is `---`.
pub proof fn law_front_matter_reads_back(yaml: Seq<char>, body: Seq<char>)
    requires
        first_at(bare_yaml(yaml) + front_close(), front_close(), 0) == Some(
            bare_yaml(yaml).len() as int,
        ),
    ensures
        front_parts(front_file(yaml, body)) == Some((bare_yaml(yaml), body)),
{
    lemma_parts_read_back(bare_yaml(yaml), body);
}

/// A part that closes a text closes it at the same place when more follows.
proof fn lemma_first_in_longer(text: Seq<char>, close: Seq<char>, more: Seq<char>)
    requires
        first_at(text + close, close, 0) == Some(text.len() as int),
    ensures
        first_at(text + close + more, close, 0) == Some(text.len() as int),
        (text + close + more).take(text.len() as int) == text,
        (text + close + more).skip((text.len() + close.len()) as int) == more,
{
    let whole = text + close + more;
    let at = text.len() as int;
    let len = close.len() as int;
    lemma_first_at(text + close, close, 0);
    lemma_first_at(whole, close, 0);
    assert(whole.subrange(at, at + len) =~= close);
    assert(stands_at(whole, close, at));
    assert forall|i: int| 0 <= i < at implies !stands_at(whole, close, i) by {
        assert(!stands_at(text + close, close, i));
        assert((text + close).subrange(i, i + len) =~= whole.subrange(i, i + len));
    }
    assert(whole.take(at) =~= text);
    assert(whole.skip(at + len) =~= more);
}

proof fn lemma_parts_read_back(bare: Seq<char>, body: Seq<char>)
    requires
        first_at(bare + front_close(), front_close(), 0) == Some(bare.len() as int),
    ensures
        front_parts(front_open() + bare + front_close() + body) == Some((bare, body)),
{
    let open = front_open();
    let close = front_close();
    let file = open + bare + close + body;
    let rest = bare + close + body;
    lemma_first_in_longer(bare, close, body);
    assert(file =~= open + rest);
    assert(file[0] == open[0]);
    assert(file.subrange(0, 4) =~= open);
    assert(file.skip(4) =~= rest);
}

// Summaries.

/// What a list of notes shows of a note.
#[derive(Debug, PartialEq, Eq)]
pub struct NoteSummary {
    pub id: Uuid,
    pub title: String,
    pub created_at: Timestamp,
    pub updated_at: Timestamp,
    pub relative_path: String,
    pub preview: String,
    /// For the search. Empty for a locked note.
    pub body: String,
    /// For the search. Empty for a locked note.
    pub tags: Vec<String>,
    pub encrypted: bool,
    pub pinned: bool,
    pub favourite: bool,
    pub archived: bool,
    /// Whether the note's plaintext is not known at present. Its protected
    /// fields are then placeholders.
    pub locked: bool,
}

/// The first twenty-four words of a body.
pub open spec fn preview_text(body: Seq<char>) -> Seq<char> {
    let all = words(body);
    joined_texts(
        all.take(
            if all.len() < 24 {
                all.len() as int
            } else {
                24
            },
        ),
        " "@,
    )
}

/// The title of a locked note: made from its identifier alone.
pub open spec fn locked_title(id: Uuid) -> Seq<char> {
    "Locked Note · "@ + locked_suffix(id)
}

/// The first eight digits of an identifier in upper case.
pub open spec fn locked_suffix(id: Uuid) -> Seq<char> {
    short_id(id).map_values(|digit: char| upper_digit(digit))
}

/// A hexadecimal digit in upper case.
pub open spec fn upper_digit(digit: char) -> char {
    if 'a' <= digit <= 'f' {
        ((digit as u32) - 32) as char
    } else {
        digit
    }
}

fn to_upper_digit(digit: char) -> (upper: char)
    ensures
        upper == upper_digit(digit),
{
    match digit {
        'a' => 'A',
        'b' => 'B',
        'c' => 'C',
        'd' => 'D',
        'e' => 'E',
        'f' => 'F',
        other => other,
    }
}

/// A short label for a locked note. It is made from the identifier, which the
/// name of the note's file shows anyway.
pub fn locked_note_suffix(id: Uuid) -> (suffix: String)
    ensures
        suffix@ == locked_suffix(id),
        suffix@.len() == 8,
{
    let digits = chars_of(&short_id_of(id));
    let mut suffix: String = String::new();
    let mut index: usize = 0;
    while index < digits.len()
        invariant
            index <= digits@.len(),
            suffix@ == digits@.take(index as int).map_values(|digit: char| upper_digit(digit)),
        decreases digits@.len() - index,
    {
        suffix.push(to_upper_digit(digits[index]));
        index += 1;
        proof {
            assert(suffix@ =~= digits@.take(index as int).map_values(
                |digit: char| upper_digit(digit),
            ));
        }
    }
    proof {
        assert(digits@.take(index as int) == digits@);
    }
    suffix
}

impl NoteSummary {
    /// Whether this is the summary of a note in the clear.
    pub open spec fn summarises(&self, note: Note) -> bool {
        &&& self.id == note.metadata.id
        &&& self.title@ == note.metadata.title@
        &&& self.created_at == note.metadata.created_at
        &&& self.updated_at == note.metadata.updated_at
        &&& self.relative_path@ == note.relative_path@
        &&& self.preview@ == preview_text(note.body@)
        &&& self.body@ == note.body@
        &&& texts(self.tags@) == note.metadata.tag_texts()
        &&& !self.encrypted
        &&& self.pinned == note.metadata.pinned
        &&& self.favourite == note.metadata.favourite
        &&& self.archived == note.metadata.archived
        &&& !self.locked
    }

    /// Whether this is the placeholder of a locked note: every protected field
    /// holds a fixed value, and the title comes from the identifier alone.
    pub open spec fn is_placeholder(&self, id: Uuid, relative_path: Seq<char>) -> bool {
        &&& self.id == id
        &&& self.title@ == locked_title(id)
        &&& self.created_at == (Timestamp { seconds: 0, nanos: 0 })
        &&& self.updated_at == (Timestamp { seconds: 0, nanos: 0 })
        &&& self.relative_path@ == relative_path
        &&& self.preview@ == "Encrypted — unlock to view"@
        &&& self.body@.len() == 0
        &&& self.tags@.len() == 0
        &&& self.encrypted
        &&& !self.pinned
        &&& !self.favourite
        &&& !self.archived
        &&& self.locked
    }

    /// Whether two summaries show the same.
    pub open spec fn same_as(&self, other: NoteSummary) -> bool {
        &&& self.id == other.id
        &&& self.title@ == other.title@
        &&& self.created_at == other.created_at
        &&& self.updated_at == other.updated_at
        &&& self.relative_path@ == other.relative_path@
        &&& self.preview@ == other.preview@
        &&& self.body@ == other.body@
        &&& texts(self.tags@) == texts(other.tags@)
        &&& self.encrypted == other.encrypted
        &&& self.pinned == other.pinned
        &&& self.favourite == other.favourite
        &&& self.archived == other.archived
        &&& self.locked == other.locked
    }

    /// This summary once more.
    pub fn copy(&self) -> (copy: NoteSummary)
        ensures
            copy.same_as(*self),
    {
        NoteSummary {
            id: self.id,
            title: copy_text(&self.title),
            created_at: self.created_at,
            updated_at: self.updated_at,
            relative_path: copy_text(&self.relative_path),
            preview: copy_text(&self.preview),
            body: copy_text(&self.body),
            tags: copy_texts(&self.tags),
            encrypted: self.encrypted,
            pinned: self.pinned,
            favourite: self.favourite,
            archived: self.archived,
            locked: self.locked,
        }
    }

    /// The summary of a note in the clear.
    pub fn from(note: &Note) -> (summary: NoteSummary)
        ensures
            summary.summarises(*note),
    {
        let all = words_of(&note.body);
        let count: usize = if all.len() < 24 {
            all.len()
        } else {
            24
        };
        let preview = join_texts(&all, count, " ");
        NoteSummary {
            id: note.metadata.id,
            title: copy_text(&note.metadata.title),
            created_at: note.metadata.created_at,
            updated_at: note.metadata.updated_at,
            relative_path: copy_text(&note.relative_path),
            preview,
            body: copy_text(&note.body),
            tags: copy_texts(&note.metadata.tags),
            encrypted: false,
            pinned: note.metadata.pinned,
            favourite: note.metadata.favourite,
            archived: note.metadata.archived,
            locked: false,
        }
    }

    /// The placeholder of a locked note.
    pub fn locked(id: Uuid, relative_path: String) -> (summary: NoteSummary)
        ensures
            summary.is_placeholder(id, relative_path@),
    {
        let mut title: String = "Locked Note · ".to_owned();
        title.append(&locked_note_suffix(id));
        NoteSummary {
            id,
            title,
            created_at: Timestamp::epoch(),
            updated_at: Timestamp::epoch(),
            relative_path,
            preview: "Encrypted — unlock to view".to_owned(),
            body: String::new(),
            tags: Vec::new(),
            encrypted: true,
            pinned: false,
            favourite: false,
            archived: false,
            locked: true,
        }
    }
}

/// Locked notes whose identifiers differ in their first eight digits have
/// different titles.
pub proof fn law_locked_titles_differ(left: Uuid, right: Uuid)
    requires
        short_id(left) != short_id(right),
    ensures
        locked_title(left) != locked_title(right),
{
    let one = short_id(left);
    let two = short_id(right);
    lemma_hex_len(left.value as nat, 32);
    lemma_hex_len(right.value as nat, 32);
    lemma_hex_digits(left.value as nat, 32);
    lemma_hex_digits(right.value as nat, 32);
    if locked_title(left) == locked_title(right) {
        let prefix = "Locked Note · "@;
        assert forall|i: int| 0 <= i < 8 implies one[i] == two[i] by {
            assert(locked_title(left)[prefix.len() + i] == locked_suffix(left)[i]);
            assert(locked_title(right)[prefix.len() + i] == locked_suffix(right)[i]);
            assert(one[i] == left.spec_simple()[i]);
            assert(two[i] == right.spec_simple()[i]);
        }
        assert(one =~= two);
    }
}

/// Every digit is one of `0` to `9` and `a` to `f`.
proof fn lemma_hex_digits(value: nat, count: nat)
    ensures
        forall|i: int|
            0 <= i < hex_digits(value, count).len() ==> ('0' <= #[trigger] hex_digits(
                value,
                count,
            )[i] <= '9' || 'a' <= hex_digits(value, count)[i] <= 'f'),
    decreases count,
{
    if count > 0 {
        lemma_hex_digits(value / 16, (count - 1) as nat);
        let before = hex_digits(value / 16, (count - 1) as nat);
        let digit = hex_digit(value % 16);
        let all = hex_digits(value, count);
        assert(all == before.push(digit));
        assert forall|i: int| 0 <= i < all.len() implies ('0' <= #[trigger] all[i] <= '9' || 'a'
            <= all[i] <= 'f') by {
            if i < before.len() {
                assert(all[i] == before[i]);
            }
        }
    }
}

} // verus!
