//! Checks on what was found on disk, and the text format that commits and
//! tags share.

use crate::header_map::{
    distinct_keys, header_entries, header_get, header_get_index, header_insert, header_len,
    insert_entry, key_index, keys_of, lemma_insert_entry, lemma_key_index,
    lemma_key_index_absent, lemma_key_index_at, new_header,
};
use crate::scan::{find_char, index_of, is_first_index, lemma_index_of, lemma_index_of_unique};
use crate::text::{chars_of, push_char, string_of, utf8_text};
use indexmap::IndexMap;
use vstd::prelude::*;
use vstd::string::*;
use vstd::utf8::*;

verus! {

/// Checks that a path which has to exist was found.
///
/// `exists` says whether it was; `message` is what to report if it was not.
pub fn path_should_exist(exists: bool, message: &str) -> (result: Result<(), String>)
    ensures
        exists ==> result is Ok,
        !exists ==> (result matches Err(text) && text@ == message@),
{
    if exists {
        Ok(())
    } else {
        Err(String::from_str(message))
    }
}

/// Checks that a path which must not exist was not found.
///
/// `exists` says whether it was; `message` is what to report if it was.
pub fn path_should_not_exist(exists: bool, message: &str) -> (result: Result<(), String>)
    ensures
        !exists ==> result is Ok,
        exists ==> (result matches Err(text) && text@ == message@),
{
    if exists {
        Err(String::from_str(message))
    } else {
        Ok(())
    }
}

/// Why a payload is no commit.
#[derive(Clone, Copy, Debug, PartialEq, Eq)]
pub enum CommitError {
    /// The object is not of type commit.
    NotACommit,
    /// The payload is not UTF-8 text.
    InvalidUtf8,
    /// A header line starts with a space, but no key precedes it whose value
    /// it could continue.
    OrphanContinuation,
    /// A header line holds no space, and so a key without a value.
    MissingValue,
}

impl CommitError {
    /// The text that reports this error.
    pub fn message(&self) -> (text: String)
        ensures
            text@ == match *self {
                CommitError::NotACommit => "Could not create commit object"@,
                CommitError::InvalidUtf8 => "Failed to parse object data"@,
                CommitError::OrphanContinuation =>
                    "Failed to parse object data, continuation line without a key"@,
                CommitError::MissingValue => "Failed to parse object data, key without a value"@,
            },
    {
        match self {
            CommitError::NotACommit => String::from_str("Could not create commit object"),
            CommitError::InvalidUtf8 => String::from_str("Failed to parse object data"),
            CommitError::OrphanContinuation => String::from_str(
                "Failed to parse object data, continuation line without a key",
            ),
            CommitError::MissingValue => String::from_str(
                "Failed to parse object data, key without a value",
            ),
        }
    }
}

/// `entries` after `line` was read as a continuation of the value of `key`:
/// the value grows by a line break and `line`. (A key without an entry gets
/// `line` as its value.)
pub open spec fn continue_value(
    entries: Seq<(Seq<char>, Seq<char>)>,
    key: Seq<char>,
    line: Seq<char>,
) -> Seq<(Seq<char>, Seq<char>)> {
    let at = key_index(entries, key);
    let value = if at < entries.len() {
        entries[at].1 + seq!['\n'] + line
    } else {
        line
    };
    insert_entry(entries, key, value)
}

/// What one line of a header does to the entries read so far and to the
/// current key. `line` is not empty.
///
/// A line that starts with a space continues the value of the current key,
/// without that one space. Any other line is a key, a space and a value; its
/// key becomes the current key.
pub open spec fn header_line(
    line: Seq<char>,
    entries: Seq<(Seq<char>, Seq<char>)>,
    current: Option<Seq<char>>,
) -> Result<(Seq<(Seq<char>, Seq<char>)>, Option<Seq<char>>), CommitError> {
    if line[0] == ' ' {
        match current {
            None => Err(CommitError::OrphanContinuation),
            Some(key) => Ok((continue_value(entries, key, line.skip(1)), current)),
        }
    } else {
        let space = index_of(line, ' ');
        if space >= line.len() {
            Err(CommitError::MissingValue)
        } else {
            let key = line.take(space);
            Ok((insert_entry(entries, key, line.skip(space + 1)), Some(key)))
        }
    }
}

/// The header and the message that `text` holds, given the entries and the
/// current key that the lines before `text` have left.
///
/// Lines end at a line break. The header runs up to the first empty line; the
/// message is all that follows that line, as it stands. A text without an
/// empty line is all header, and its message is empty.
pub open spec fn parse_header(
    text: Seq<char>,
    entries: Seq<(Seq<char>, Seq<char>)>,
    current: Option<Seq<char>>,
) -> Result<(Seq<(Seq<char>, Seq<char>)>, Seq<char>), CommitError>
    decreases text.len(),
    via parse_header_terminates
{
    let end = index_of(text, '\n');
    let rest = if end < text.len() {
        text.skip(end + 1)
    } else {
        Seq::empty()
    };
    if end == 0 {
        Ok((entries, rest))
    } else {
        match header_line(text.take(end), entries, current) {
            Err(error) => Err(error),
            Ok((entries, current)) => if end < text.len() {
                parse_header(rest, entries, current)
            } else {
                Ok((entries, rest))
            },
        }
    }
}

#[via_fn]
proof fn parse_header_terminates(
    text: Seq<char>,
    entries: Seq<(Seq<char>, Seq<char>)>,
    current: Option<Seq<char>>,
) {
    lemma_index_of(text, '\n');
}

/// The header and the message of a payload, or the reason why the payload is
/// no commit. The payload is read as UTF-8 text.
pub open spec fn deserialize_spec(data: Seq<u8>) -> Result<
    (Seq<(Seq<char>, Seq<char>)>, Seq<char>),
    CommitError,
> {
    if !valid_utf8(data) {
        Err(CommitError::InvalidUtf8)
    } else {
        parse_header(decode_utf8(data), Seq::empty(), None)
    }
}

/// A value as a header holds it: a space follows each of its line breaks, so
/// that each further line of the value reads as a continuation line.
pub open spec fn escape(value: Seq<char>) -> Seq<char>
    decreases value.len(),
{
    if value.len() == 0 {
        Seq::empty()
    } else if value.last() == '\n' {
        escape(value.drop_last()).push('\n').push(' ')
    } else {
        escape(value.drop_last()).push(value.last())
    }
}

/// The lines of one entry: its key, a space, its value, and a line break.
pub open spec fn render_entry(key: Seq<char>, value: Seq<char>) -> Seq<char> {
    key + seq![' '] + escape(value) + seq!['\n']
}

/// The lines of a header: those of its entries, in their order.
pub open spec fn render_header(entries: Seq<(Seq<char>, Seq<char>)>) -> Seq<char>
    decreases entries.len(),
{
    if entries.len() == 0 {
        Seq::empty()
    } else {
        render_header(entries.drop_last()) + render_entry(entries.last().0, entries.last().1)
    }
}

/// The text of a commit: the header, an empty line, and the message as it
/// stands.
pub open spec fn render(entries: Seq<(Seq<char>, Seq<char>)>, message: Seq<char>) -> Seq<char> {
    render_header(entries) + seq!['\n'] + message
}

/// The payload of a commit: its text in UTF-8.
pub open spec fn serialize_spec(entries: Seq<(Seq<char>, Seq<char>)>, message: Seq<char>) -> Seq<
    u8,
> {
    encode_utf8(render(entries, message))
}

/// The characters of a key, if there is one.
pub open spec fn key_text(key: Option<String>) -> Option<Seq<char>> {
    match key {
        Some(text) => Some(text@),
        None => None,
    }
}

/// Reads a header and a message from the payload of a commit or a tag.
///
/// The header keeps each key where it first occurred; a key that occurs again
/// takes the later value. A header that was read can be written and read
/// again.
pub fn deserialize_kv_with_message(data: &Vec<u8>) -> (result: Result<
    (IndexMap<String, String>, String),
    CommitError,
>)
    ensures
        match deserialize_spec(data@) {
            Ok((entries, text)) => result matches Ok((header, message)) && header_entries(header)
                == entries && message@ == text,
            Err(error) => result matches Err(e) && e == error,
        },
        result matches Ok((header, _)) ==> is_header(header_entries(header)),
{
    proof {
        lemma_deserialized_is_header(data@);
    }
    let text = match utf8_text(data.as_slice()) {
        Some(text) => text,
        None => {
            return Err(CommitError::InvalidUtf8);
        },
    };
    let chars = chars_of(text);
    let len: usize = chars.len();
    let mut header = new_header();
    let mut current: Option<String> = None;
    let mut pos: usize = 0;
    assert(chars@.subrange(0, len as int) =~= chars@);
    loop
        invariant
            pos <= len == chars@.len(),
            deserialize_spec(data@) matches Ok((entries, _)) ==> is_header(entries),
            deserialize_spec(data@) == parse_header(
                chars@.subrange(pos as int, len as int),
                header_entries(header),
                key_text(current),
            ),
        decreases len - pos,
    {
        let ghost left = chars@.subrange(pos as int, len as int);
        let end: usize = find_char(chars.as_slice(), pos, len, '\n');
        let ghost line = left.take(end - pos);
        assert(line =~= chars@.subrange(pos as int, end as int));
        if end == pos {
            let start: usize = if end < len {
                end + 1
            } else {
                len
            };
            let message = string_of(chars.as_slice(), start, len);
            proof {
                if end < len {
                    assert(left.skip(1) =~= chars@.subrange(start as int, len as int));
                } else {
                    assert(chars@.subrange(start as int, len as int) =~= Seq::<char>::empty());
                }
            }
            return Ok((header, message));
        }
        assert(line[0] == chars@[pos as int]);
        if chars[pos] == ' ' {
            let key = match &current {
                Some(key) => key,
                None => {
                    return Err(CommitError::OrphanContinuation);
                },
            };
            let more = string_of(chars.as_slice(), pos + 1, end);
            assert(more@ =~= line.skip(1));
            let value = match header_get(&header, key.as_str()) {
                Some(held) => {
                    let mut value = held.clone();
                    push_char(&mut value, '\n');
                    value.append(more.as_str());
                    assert(value@ =~= held@ + seq!['\n'] + more@);
                    value
                },
                None => more,
            };
            header_insert(&mut header, key.clone(), value);
        } else {
            let space: usize = find_char(chars.as_slice(), pos, end, ' ');
            if space >= end {
                return Err(CommitError::MissingValue);
            }
            let key = string_of(chars.as_slice(), pos, space);
            let value = string_of(chars.as_slice(), space + 1, end);
            assert(key@ =~= line.take(space - pos));
            assert(value@ =~= line.skip(space - pos + 1));
            header_insert(&mut header, key.clone(), value);
            current = Some(key);
        }
        if end >= len {
            return Ok((header, String::new()));
        }
        proof {
            assert(left.skip(end - pos + 1) =~= chars@.subrange(end + 1, len as int));
        }
        pos = end + 1;
    }
}

/// Appends `value` to `out` as a header holds it.
fn push_escaped(out: &mut String, value: &str)
    ensures
        final(out)@ == old(out)@ + escape(value@),
{
    let ghost before = out@;
    for c in it: value.chars()
        invariant
            it.seq() == value@,
            out@ == before + escape(it.seq().take(it.index() as int)),
    {
        let ghost seen = it.seq().take(it.index() as int);
        let ghost next = it.seq().take(it.index() + 1);
        assert(next.drop_last() =~= seen);
        assert(next.last() == c);
        push_char(out, c);
        if c == '\n' {
            push_char(out, ' ');
        }
        assert(out@ =~= before + escape(next));
    }
    assert(value@.take(value@.len() as int) =~= value@);
}

/// Writes a header and a message as the payload of a commit or a tag.
///
/// Each entry is written as its key, a space and its value, in the order of
/// the header; a value of several lines is written with a space at the start
/// of each further line. An empty line follows, and then the message as it
/// stands.
pub fn serialize_kv_with_message(header: &IndexMap<String, String>, message: &str) -> (data: Vec<
    u8,
>)
    ensures
        data@ == serialize_spec(header_entries(*header), message@),
{
    let ghost entries = header_entries(*header);
    let mut text = String::new();
    let count: usize = header_len(header);
    let mut i: usize = 0;
    assert(entries.take(0) =~= Seq::empty());
    while i < count
        invariant
            0 <= i <= count == entries.len(),
            entries == header_entries(*header),
            text@ == render_header(entries.take(i as int)),
        decreases count - i,
    {
        let ghost before = text@;
        if let Some((key, value)) = header_get_index(header, i) {
            text.append(key.as_str());
            push_char(&mut text, ' ');
            push_escaped(&mut text, value.as_str());
            push_char(&mut text, '\n');
            proof {
                let next = entries.take(i + 1);
                assert(next.drop_last() =~= entries.take(i as int));
                assert(next.last() == entries[i as int]);
                assert(text@ =~= before + render_entry(key@, value@));
            }
        }
        i += 1;
    }
    assert(entries.take(i as int) =~= entries);
    push_char(&mut text, '\n');
    text.append(message);
    assert(text@ =~= render(entries, message@));
    text.as_str().as_bytes_vec()
}

/// `key` can stand as the key of a header line: it is not empty and holds
/// neither a space nor a line break.
pub open spec fn is_key(key: Seq<char>) -> bool {
    &&& key.len() > 0
    &&& forall|i: int| 0 <= i < key.len() ==> key[i] != ' ' && key[i] != '\n'
}

/// `entries` can stand as a header: no key occurs twice, and each can stand
/// as the key of a header line.
pub open spec fn is_header(entries: Seq<(Seq<char>, Seq<char>)>) -> bool {
    &&& distinct_keys(entries)
    &&& forall|i: int| 0 <= i < entries.len() ==> is_key(#[trigger] entries[i].0)
}

/// `line` holds no line break.
pub open spec fn is_line(line: Seq<char>) -> bool {
    forall|i: int| 0 <= i < line.len() ==> line[i] != '\n'
}

/// What holds between the lines of a header: the entries read so far can
/// stand as a header, and the current key, if there is one, is the key of one
/// of them.
pub open spec fn is_reading(
    entries: Seq<(Seq<char>, Seq<char>)>,
    current: Option<Seq<char>>,
) -> bool {
    &&& is_header(entries)
    &&& current matches Some(key) ==> key_index(entries, key) < entries.len()
}

/// Giving a key that can stand in a header line a value leaves a header a
/// header.
proof fn lemma_insert_keeps_header(
    entries: Seq<(Seq<char>, Seq<char>)>,
    key: Seq<char>,
    value: Seq<char>,
)
    requires
        is_header(entries),
        is_key(key),
    ensures
        is_reading(insert_entry(entries, key, value), Some(key)),
{
    lemma_key_index(entries, key);
    lemma_insert_entry(entries, key, value);
    let at = key_index(entries, key);
    let after = insert_entry(entries, key, value);
    assert forall|i: int| 0 <= i < after.len() implies is_key(#[trigger] after[i].0) by {
        if i != at {
            assert(after[i] == entries[i]);
        }
    }
}

/// A line of a header leaves a header a header.
proof fn lemma_header_line_keeps_header(
    line: Seq<char>,
    entries: Seq<(Seq<char>, Seq<char>)>,
    current: Option<Seq<char>>,
)
    requires
        is_line(line),
        line.len() > 0,
        is_reading(entries, current),
    ensures
        header_line(line, entries, current) matches Ok((after, key)) ==> is_reading(after, key),
{
    if line[0] == ' ' {
        if let Some(key) = current {
            lemma_key_index(entries, key);
            let at = key_index(entries, key);
            assert(is_key(entries[at].0));
            lemma_insert_keeps_header(entries, key, entries[at].1 + seq!['\n'] + line.skip(1));
        }
    } else {
        lemma_index_of(line, ' ');
        let space = index_of(line, ' ');
        if space < line.len() {
            let key = line.take(space);
            assert(is_key(key)) by {
                assert(key.len() == space);
                assert forall|i: int| 0 <= i < key.len() implies key[i] != ' ' && key[i]
                    != '\n' by {
                    assert(key[i] == line[i]);
                }
            }
            lemma_insert_keeps_header(entries, key, line.skip(space + 1));
        }
    }
}

/// What is read can be written: the entries that a text is read as can stand
/// as a header.
pub proof fn lemma_parsed_is_header(
    text: Seq<char>,
    entries: Seq<(Seq<char>, Seq<char>)>,
    current: Option<Seq<char>>,
)
    requires
        is_reading(entries, current),
    ensures
        parse_header(text, entries, current) matches Ok((header, _)) ==> is_header(header),
    decreases text.len(),
{
    lemma_index_of(text, '\n');
    let end = index_of(text, '\n');
    if end > 0 {
        let line = text.take(end);
        assert(is_line(line)) by {
            assert forall|i: int| 0 <= i < line.len() implies line[i] != '\n' by {
                assert(line[i] == text[i]);
            }
        }
        lemma_header_line_keeps_header(line, entries, current);
        if let Ok((after, key)) = header_line(line, entries, current) {
            if end < text.len() {
                lemma_parsed_is_header(text.skip(end + 1), after, key);
            }
        }
    }
}

/// Escaping goes character by character.
proof fn lemma_escape_concat(a: Seq<char>, b: Seq<char>)
    ensures
        escape(a + b) == escape(a) + escape(b),
    decreases b.len(),
{
    if b.len() == 0 {
        assert(a + b =~= a);
        assert(escape(a) + escape(b) =~= escape(a));
    } else {
        lemma_escape_concat(a, b.drop_last());
        assert((a + b).drop_last() =~= a + b.drop_last());
        assert((a + b).last() == b.last());
        assert(escape(a + b) =~= escape(a) + escape(b));
    }
}

/// A value of one line is written as it stands.
proof fn lemma_escape_line(line: Seq<char>)
    requires
        is_line(line),
    ensures
        escape(line) == line,
    decreases line.len(),
{
    if line.len() > 0 {
        lemma_escape_line(line.drop_last());
        assert(escape(line) =~= line);
    }
}

/// A value of several lines is written as its first line, a line break, a
/// space, and the rest of the value as a header holds it.
proof fn lemma_escape_first_line(value: Seq<char>)
    requires
        index_of(value, '\n') < value.len(),
    ensures
        is_line(value.take(index_of(value, '\n'))),
        value == value.take(index_of(value, '\n')) + seq!['\n'] + value.skip(
            index_of(value, '\n') + 1,
        ),
        escape(value) == value.take(index_of(value, '\n')) + seq!['\n', ' '] + escape(
            value.skip(index_of(value, '\n') + 1),
        ),
{
    lemma_index_of(value, '\n');
    let end = index_of(value, '\n');
    let first = value.take(end);
    let more = value.skip(end + 1);
    let brk = seq!['\n'];
    assert(value =~= first + brk + more);
    lemma_escape_concat(first + brk, more);
    lemma_escape_concat(first, brk);
    lemma_escape_line(first);
    assert(brk.drop_last() =~= Seq::<char>::empty());
    assert(escape(brk.drop_last()) =~= Seq::<char>::empty());
    assert(escape(brk) =~= seq!['\n', ' ']);
    assert(first + seq!['\n', ' '] + escape(more) =~= first + escape(brk) + escape(more));
}

/// The lines of a header are those of its first entries followed by those of
/// the others.
proof fn lemma_render_header_concat(
    a: Seq<(Seq<char>, Seq<char>)>,
    b: Seq<(Seq<char>, Seq<char>)>,
)
    ensures
        render_header(a + b) == render_header(a) + render_header(b),
    decreases b.len(),
{
    if b.len() == 0 {
        assert(a + b =~= a);
        assert(render_header(a) + render_header(b) =~= render_header(a));
    } else {
        lemma_render_header_concat(a, b.drop_last());
        assert((a + b).drop_last() =~= a + b.drop_last());
        assert((a + b).last() == b.last());
        assert(render_header(a + b) =~= render_header(a) + render_header(b));
    }
}

/// Reading a text that starts with a whole line reads that line and goes on
/// with what follows its line break.
proof fn lemma_parse_line(
    line: Seq<char>,
    tail: Seq<char>,
    entries: Seq<(Seq<char>, Seq<char>)>,
    current: Option<Seq<char>>,
)
    requires
        is_line(line),
    ensures
        parse_header(line + seq!['\n'] + tail, entries, current) == (if line.len() == 0 {
            Ok::<(Seq<(Seq<char>, Seq<char>)>, Seq<char>), CommitError>((entries, tail))
        } else {
            match header_line(line, entries, current) {
                Err(error) => Err(error),
                Ok((entries, current)) => parse_header(tail, entries, current),
            }
        }),
{
    let text = line + seq!['\n'] + tail;
    assert(is_first_index(text, '\n', line.len() as int)) by {
        assert forall|i: int| 0 <= i < line.len() implies text[i] != '\n' by {
            assert(text[i] == line[i]);
        }
        assert(text[line.len() as int] == '\n');
    }
    lemma_index_of_unique(text, '\n', line.len() as int);
    assert(text.take(line.len() as int) =~= line);
    assert(text.skip(line.len() as int + 1) =~= tail);
}

/// Reading the further lines of a value, as a header holds them, appends the
/// value to what the current key has already.
proof fn lemma_parse_continuation(
    entries: Seq<(Seq<char>, Seq<char>)>,
    at: int,
    more: Seq<char>,
    tail: Seq<char>,
)
    requires
        0 <= at < entries.len(),
        key_index(entries, entries[at].0) == at,
    ensures
        parse_header(
            seq![' '] + escape(more) + seq!['\n'] + tail,
            entries,
            Some(entries[at].0),
        ) == parse_header(
            tail,
            entries.update(at, (entries[at].0, entries[at].1 + seq!['\n'] + more)),
            Some(entries[at].0),
        ),
    decreases more.len(),
{
    let key = entries[at].0;
    let held = entries[at].1;
    let text = seq![' '] + escape(more) + seq!['\n'] + tail;
    lemma_index_of(more, '\n');
    let end = index_of(more, '\n');
    if end >= more.len() {
        lemma_escape_line(more);
        let line = seq![' '] + more;
        assert(text =~= line + seq!['\n'] + tail);
        lemma_parse_line(line, tail, entries, Some(key));
        assert(line.skip(1) =~= more);
    } else {
        lemma_escape_first_line(more);
        let first = more.take(end);
        let rest = more.skip(end + 1);
        let line = seq![' '] + first;
        let next = seq![' '] + escape(rest) + seq!['\n'] + tail;
        assert(text =~= line + seq!['\n'] + next);
        lemma_parse_line(line, next, entries, Some(key));
        assert(line.skip(1) =~= first);
        let grown = entries.update(at, (key, held + seq!['\n'] + first));
        assert(keys_of(grown) =~= keys_of(entries));
        lemma_parse_continuation(grown, at, rest, tail);
        assert(held + seq!['\n'] + first + seq!['\n'] + rest =~= held + seq!['\n'] + more);
        assert(grown.update(at, (key, grown[at].1 + seq!['\n'] + rest)) =~= entries.update(
            at,
            (key, held + seq!['\n'] + more),
        ));
    }
}

/// Reading the lines of an entry whose key is new adds that entry at the end.
proof fn lemma_parse_entry(
    key: Seq<char>,
    value: Seq<char>,
    tail: Seq<char>,
    entries: Seq<(Seq<char>, Seq<char>)>,
    current: Option<Seq<char>>,
)
    requires
        is_key(key),
        forall|i: int| 0 <= i < entries.len() ==> (#[trigger] entries[i]).0 != key,
    ensures
        parse_header(render_entry(key, value) + tail, entries, current) == parse_header(
            tail,
            entries.push((key, value)),
            Some(key),
        ),
{
    let text = render_entry(key, value) + tail;
    lemma_key_index_absent(entries, key);
    lemma_index_of(value, '\n');
    let end = index_of(value, '\n');
    let first = value.take(end);
    let line = key + seq![' '] + first;
    assert(is_first_index(line, ' ', key.len() as int)) by {
        assert forall|i: int| 0 <= i < key.len() implies line[i] != ' ' by {
            assert(line[i] == key[i]);
        }
        assert(line[key.len() as int] == ' ');
    }
    lemma_index_of_unique(line, ' ', key.len() as int);
    assert(line[0] == key[0]);
    assert(line.take(key.len() as int) =~= key);
    assert(line.skip(key.len() as int + 1) =~= first);
    assert(is_line(line)) by {
        assert forall|i: int| 0 <= i < line.len() implies line[i] != '\n' by {
            if i < key.len() {
                assert(line[i] == key[i]);
            } else if i > key.len() {
                assert(line[i] == value[i - key.len() - 1]);
            }
        }
    }
    let with_first = entries.push((key, first));
    if end >= value.len() {
        assert(first =~= value);
        lemma_escape_line(value);
        assert(text =~= line + seq!['\n'] + tail);
        lemma_parse_line(line, tail, entries, current);
    } else {
        lemma_escape_first_line(value);
        let rest = value.skip(end + 1);
        let next = seq![' '] + escape(rest) + seq!['\n'] + tail;
        assert(text =~= line + seq!['\n'] + next);
        lemma_parse_line(line, next, entries, current);
        let at = entries.len() as int;
        assert(with_first[at] == (key, first));
        assert forall|i: int| 0 <= i < at implies (#[trigger] with_first[i]).0
            != with_first[at].0 by {
            assert(with_first[i] == entries[i]);
        }
        lemma_key_index_at(with_first, at);
        lemma_parse_continuation(with_first, at, rest, tail);
        assert(with_first.update(at, (key, first + seq!['\n'] + rest)) =~= entries.push(
            (key, value),
        ));
    }
}

/// Reading what is left of a written commit, after the entries before `done`
/// have been read, gives the whole header and the message.
proof fn lemma_parse_rendered(
    entries: Seq<(Seq<char>, Seq<char>)>,
    done: int,
    message: Seq<char>,
    current: Option<Seq<char>>,
)
    requires
        is_header(entries),
        0 <= done <= entries.len(),
    ensures
        parse_header(render(entries.skip(done), message), entries.take(done), current) == Ok::<
            (Seq<(Seq<char>, Seq<char>)>, Seq<char>),
            CommitError,
        >((entries, message)),
    decreases entries.len() - done,
{
    let left = entries.skip(done);
    let read = entries.take(done);
    if done == entries.len() {
        assert(left =~= Seq::empty());
        assert(read =~= entries);
        assert(render(left, message) =~= Seq::<char>::empty() + seq!['\n'] + message);
        lemma_parse_line(Seq::empty(), message, read, current);
    } else {
        let (key, value) = entries[done];
        let others = entries.skip(done + 1);
        let tail = render(others, message);
        assert(left =~= seq![entries[done]] + others);
        lemma_render_header_concat(seq![entries[done]], others);
        assert(seq![entries[done]].drop_last() =~= Seq::empty());
        assert(render_header(seq![entries[done]].drop_last()) =~= Seq::<char>::empty());
        assert(render_header(seq![entries[done]]) =~= render_entry(key, value));
        assert(render(left, message) =~= render_entry(key, value) + tail);
        assert(is_key(entries[done].0));
        assert forall|i: int| 0 <= i < read.len() implies (#[trigger] read[i]).0 != key by {
            assert(read[i] == entries[i]);
        }
        lemma_parse_entry(key, value, tail, read, current);
        assert(read.push((key, value)) =~= entries.take(done + 1));
        lemma_parse_rendered(entries, done + 1, message, Some(key));
    }
}

/// Reading undoes writing: the text of a header and a message reads back as
/// that header, entry by entry in the same order, and that message.
pub proof fn lemma_parse_of_render(entries: Seq<(Seq<char>, Seq<char>)>, message: Seq<char>)
    requires
        is_header(entries),
    ensures
        parse_header(render(entries, message), Seq::empty(), None) == Ok::<
            (Seq<(Seq<char>, Seq<char>)>, Seq<char>),
            CommitError,
        >((entries, message)),
{
    lemma_parse_rendered(entries, 0, message, None);
    assert(entries.skip(0) =~= entries);
    assert(entries.take(0) =~= Seq::empty());
}

/// The header of a payload that is a commit can be written again: no key
/// occurs twice in it, and each is a word without a space or a line break.
pub proof fn lemma_deserialized_is_header(data: Seq<u8>)
    ensures
        deserialize_spec(data) matches Ok((header, _)) ==> is_header(header),
{
    lemma_index_of(keys_of(Seq::<(Seq<char>, Seq<char>)>::empty()), Seq::<char>::empty());
    if valid_utf8(data) {
        lemma_parsed_is_header(decode_utf8(data), Seq::empty(), None);
    }
}

/// Deserializing undoes serializing: the payload written for a header and a
/// message reads back as that header, order and values, and that message.
pub proof fn lemma_deserialize_of_serialize(
    entries: Seq<(Seq<char>, Seq<char>)>,
    message: Seq<char>,
)
    requires
        is_header(entries),
    ensures
        deserialize_spec(serialize_spec(entries, message)) == Ok::<
            (Seq<(Seq<char>, Seq<char>)>, Seq<char>),
            CommitError,
        >((entries, message)),
{
    let text = render(entries, message);
    encode_utf8_valid_utf8(text);
    encode_utf8_decode_utf8(text);
    lemma_parse_of_render(entries, message);
}

} // verus!
