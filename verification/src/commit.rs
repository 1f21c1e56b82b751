//! Commits: a header of keys and values, and a message.

use crate::header_map::{header_entries, header_get_index, header_len, new_header};
use crate::object::{GitObject, GitObjectType};
use crate::text::push_char;
use crate::utilities::{
    deserialize_kv_with_message, deserialize_spec, is_header, lemma_deserialize_of_serialize,
    serialize_kv_with_message, serialize_spec, CommitError,
};
use indexmap::IndexMap;
use vstd::prelude::*;
use vstd::string::*;

verus! {

/// A commit, as read from the payload of an object of type commit.
#[derive(Debug)]
pub struct GitCommit {
    header: IndexMap<String, String>,
    message: String,
}

/// The header as it is shown: for each entry its key, a space, its value as it
/// stands, and a line break.
pub open spec fn shown_header(entries: Seq<(Seq<char>, Seq<char>)>) -> Seq<char>
    decreases entries.len(),
{
    if entries.len() == 0 {
        Seq::empty()
    } else {
        shown_header(entries.drop_last()) + entries.last().0 + seq![' '] + entries.last().1
            + seq!['\n']
    }
}

/// A commit as it is shown: the header, an empty line, and the message.
pub open spec fn shown(entries: Seq<(Seq<char>, Seq<char>)>, message: Seq<char>) -> Seq<char> {
    shown_header(entries) + seq!['\n'] + message
}

impl GitCommit {
    /// The invariant of a commit: its header can be written and read again,
    /// since no key occurs twice in it and each is a word without a space or a
    /// line break.
    #[verifier::type_invariant]
    spec fn well_formed(self) -> bool {
        is_header(header_entries(self.header))
    }

    /// The entries of the header, in their order.
    pub closed spec fn entries(self) -> Seq<(Seq<char>, Seq<char>)> {
        header_entries(self.header)
    }

    /// The message.
    pub closed spec fn message_text(self) -> Seq<char> {
        self.message@
    }

    /// A commit without header entries and with an empty message.
    pub fn new() -> (commit: GitCommit)
        ensures
            commit.entries() == Seq::<(Seq<char>, Seq<char>)>::empty(),
            commit.message_text() == Seq::<char>::empty(),
    {
        GitCommit { header: new_header(), message: String::new() }
    }

    /// Reads the commit that an object holds.
    ///
    /// An object of another type, or of none, is refused; the payload of a
    /// commit is read as a header and a message.
    pub fn from_git_object(git_object: GitObject) -> (result: Result<GitCommit, CommitError>)
        ensures
            match git_object.kind() {
                Some(GitObjectType::Commit) => match deserialize_spec(git_object.payload()) {
                    Ok((entries, text)) => result matches Ok(commit) && commit.entries() == entries
                        && commit.message_text() == text,
                    Err(error) => result matches Err(e) && e == error,
                },
                _ => result matches Err(e) && e == CommitError::NotACommit,
            },
    {
        let is_commit = match git_object.object_type() {
            Some(kind) => kind.is_commit(),
            None => false,
        };
        if !is_commit {
            return Err(CommitError::NotACommit);
        }
        let (header, message) = deserialize_kv_with_message(git_object.data())?;
        Ok(GitCommit { header, message })
    }

    /// Writes the commit as the payload of an object. The payload reads back
    /// as this commit.
    pub fn serialize(&self) -> (data: Vec<u8>)
        ensures
            data@ == serialize_spec(self.entries(), self.message_text()),
            deserialize_spec(data@) == Ok::<(Seq<(Seq<char>, Seq<char>)>, Seq<char>), CommitError>(
                (self.entries(), self.message_text()),
            ),
    {
        proof {
            use_type_invariant(self);
            lemma_deserialize_of_serialize(self.entries(), self.message_text());
        }
        serialize_kv_with_message(&self.header, self.message.as_str())
    }

    /// The header. No key occurs twice in it, and each is a word without a
    /// space or a line break.
    pub fn header(&self) -> (header: &IndexMap<String, String>)
        ensures
            header_entries(*header) == self.entries(),
            is_header(self.entries()),
    {
        proof {
            use_type_invariant(self);
        }
        &self.header
    }

    /// The message.
    pub fn message(&self) -> (message: &str)
        ensures
            message@ == self.message_text(),
    {
        self.message.as_str()
    }

    /// The commit as it is shown to a reader: each entry of the header on a
    /// line of its own, an empty line, and the message.
    pub fn to_string(&self) -> (text: String)
        ensures
            text@ == shown(self.entries(), self.message_text()),
    {
        let ghost entries = header_entries(self.header);
        let mut text = String::new();
        let count: usize = header_len(&self.header);
        let mut i: usize = 0;
        assert(entries.take(0) =~= Seq::empty());
        while i < count
            invariant
                0 <= i <= count == entries.len(),
                entries == header_entries(self.header),
                text@ == shown_header(entries.take(i as int)),
            decreases count - i,
        {
            let ghost before = text@;
            if let Some((key, value)) = header_get_index(&self.header, i) {
                text.append(key.as_str());
                push_char(&mut text, ' ');
                text.append(value.as_str());
                push_char(&mut text, '\n');
                proof {
                    let next = entries.take(i + 1);
                    assert(next.drop_last() =~= entries.take(i as int));
                    assert(next.last() == entries[i as int]);
                    assert(text@ =~= before + key@ + seq![' '] + value@ + seq!['\n']);
                }
            }
            i += 1;
        }
        assert(entries.take(i as int) =~= entries);
        push_char(&mut text, '\n');
        text.append(self.message.as_str());
        assert(text@ =~= shown(entries, self.message@));
        text
    }
}

} // verus!
