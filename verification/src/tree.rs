//! Trees: the directory listings of the store.
//!
//! The payload of a tree is a list of entries with nothing between them. An
//! entry is a mode, one space, a path, one NUL byte, and the twenty raw bytes
//! of an object id.

use crate::object::{GitObject, GitObjectType};
use crate::scan::{
    find_byte, index_of, is_first_index, lemma_index_of, lemma_index_of_unique, push_bytes,
};
use crate::text::{lemma_decoding_lacks_ascii, lemma_encoding_lacks_ascii, utf8_text};
use vstd::prelude::*;
use vstd::slice::*;
use vstd::string::*;
use vstd::utf8::*;

verus! {

/// Why a payload is no tree.
#[derive(Clone, Copy, Debug, PartialEq, Eq)]
pub enum TreeError {
    /// No space ends the mode of an entry.
    UnterminatedMode,
    /// The mode of an entry is not UTF-8.
    InvalidMode,
    /// No NUL byte ends the path of an entry.
    UnterminatedPath,
    /// The path of an entry is not UTF-8.
    InvalidPath,
    /// Fewer than twenty bytes follow the path of an entry.
    TruncatedId,
    /// The object is not of type tree.
    NotATree,
}

impl TreeError {
    /// The text that reports this error.
    pub fn message(&self) -> (text: String)
        ensures
            text@ == match *self {
                TreeError::NotATree => "Could not create tree object"@,
                _ => "Malformed tree"@,
            },
    {
        match self {
            TreeError::NotATree => String::from_str("Could not create tree object"),
            _ => String::from_str("Malformed tree"),
        }
    }
}

/// The bytes of one entry: the mode, a space, the path, a NUL byte, and the
/// id.
pub open spec fn entry_bytes(leaf: LeafModel) -> Seq<u8> {
    encode_utf8(leaf.mode) + seq![0x20u8] + encode_utf8(leaf.path) + seq![0x00u8] + leaf.id
}

/// The payload of a tree: the bytes of its entries in their order, with
/// nothing between them.
pub open spec fn tree_bytes(leaves: Seq<LeafModel>) -> Seq<u8>
    decreases leaves.len(),
{
    if leaves.len() == 0 {
        Seq::empty()
    } else {
        tree_bytes(leaves.drop_last()) + entry_bytes(leaves.last())
    }
}

/// `leaf` can stand in a tree: its id has twenty bytes, its mode holds no
/// space and its path no NUL character.
pub open spec fn is_entry(leaf: LeafModel) -> bool {
    &&& leaf.id.len() == 20
    &&& forall|i: int| 0 <= i < leaf.mode.len() ==> leaf.mode[i] != ' '
    &&& forall|i: int| 0 <= i < leaf.path.len() ==> leaf.path[i] != '\0'
}

/// One entry of a tree.
#[derive(Clone, Debug, PartialEq, Eq)]
pub struct GitLeaf {
    /// The file mode, in the digits that the tree holds.
    pub mode: String,
    /// The name of the file or directory.
    pub path: String,
    /// The id of the entry's object: its raw digest, not hexadecimal.
    pub sha: [u8; 20],
}

/// The mathematical content of a [`GitLeaf`].
pub struct LeafModel {
    pub mode: Seq<char>,
    pub path: Seq<char>,
    pub id: Seq<u8>,
}

impl View for GitLeaf {
    type V = LeafModel;

    open spec fn view(&self) -> LeafModel {
        LeafModel { mode: self.mode@, path: self.path@, id: self.sha@ }
    }
}

/// The entry at the front of `record` and the number of bytes it takes up, or
/// the reason why `record` starts with no entry.
pub open spec fn parse_leaf_spec(record: Seq<u8>) -> Result<(LeafModel, nat), TreeError> {
    let space = index_of(record, 0x20);
    let mode = record.take(space);
    let rest = record.skip(space + 1);
    let nul = index_of(rest, 0x00);
    let path = rest.take(nul);
    let tail = rest.skip(nul + 1);
    if space >= record.len() {
        Err(TreeError::UnterminatedMode)
    } else if !valid_utf8(mode) {
        Err(TreeError::InvalidMode)
    } else if nul >= rest.len() {
        Err(TreeError::UnterminatedPath)
    } else if !valid_utf8(path) {
        Err(TreeError::InvalidPath)
    } else if tail.len() < 20 {
        Err(TreeError::TruncatedId)
    } else {
        Ok(
            (
                LeafModel { mode: decode_utf8(mode), path: decode_utf8(path), id: tail.take(20) },
                (space + nul + 22) as nat,
            ),
        )
    }
}

/// The entries that `data` holds, in the order in which it holds them, or the
/// reason why `data` is no tree. Entries are read from the front until no
/// byte is left.
pub open spec fn parse_tree_spec(data: Seq<u8>) -> Result<Seq<LeafModel>, TreeError>
    decreases data.len(),
    via parse_tree_spec_terminates
{
    if data.len() == 0 {
        Ok(Seq::empty())
    } else {
        match parse_leaf_spec(data) {
            Err(error) => Err(error),
            Ok((leaf, taken)) => match parse_tree_spec(data.skip(taken as int)) {
                Err(error) => Err(error),
                Ok(leaves) => Ok(seq![leaf] + leaves),
            },
        }
    }
}

#[via_fn]
proof fn parse_tree_spec_terminates(data: Seq<u8>) {
    lemma_leaf_length(data);
}

/// An entry takes up at least twenty-two bytes, and no more than there are.
pub proof fn lemma_leaf_length(record: Seq<u8>)
    ensures
        parse_leaf_spec(record) matches Ok((_, taken)) ==> 22 <= taken <= record.len(),
{
    lemma_index_of(record, 0x20);
    let space = index_of(record, 0x20);
    lemma_index_of(record.skip(space + 1), 0x00);
}

/// An entry that was read can stand in a tree.
pub proof fn lemma_parsed_leaf_is_entry(record: Seq<u8>)
    ensures
        parse_leaf_spec(record) matches Ok((leaf, _)) ==> is_entry(leaf),
{
    if parse_leaf_spec(record) is Ok {
        lemma_index_of(record, 0x20);
        let space = index_of(record, 0x20);
        let mode = record.take(space);
        let rest = record.skip(space + 1);
        lemma_index_of(rest, 0x00);
        let nul = index_of(rest, 0x00);
        let path = rest.take(nul);
        assert forall|i: int| 0 <= i < mode.len() implies mode[i] != ' ' as u8 by {
            assert(mode[i] == record[i]);
        }
        assert forall|i: int| 0 <= i < path.len() implies path[i] != '\0' as u8 by {
            assert(path[i] == rest[i]);
        }
        lemma_decoding_lacks_ascii(mode, ' ');
        lemma_decoding_lacks_ascii(path, '\0');
    }
}

/// The entries of a tree, in the order of its payload.
#[derive(Debug, PartialEq, Eq)]
pub struct GitTree {
    records: Vec<GitLeaf>,
}

impl View for GitTree {
    type V = Seq<LeafModel>;

    closed spec fn view(&self) -> Seq<LeafModel> {
        self.records@.map_values(|leaf: GitLeaf| leaf@)
    }
}

/// Copies an id of twenty bytes.
fn copy_id(bytes: &[u8]) -> (id: [u8; 20])
    requires
        bytes@.len() == 20,
    ensures
        id@ == bytes@,
{
    let mut id: [u8; 20] = [0u8; 20];
    let mut i: usize = 0;
    while i < 20
        invariant
            0 <= i <= 20,
            bytes@.len() == 20,
            forall|j: int| 0 <= j < i ==> id@[j] == bytes@[j],
        decreases 20 - i,
    {
        id[i] = bytes[i];
        i += 1;
    }
    assert(id@ =~= bytes@);
    id
}

impl GitTree {
    /// The invariant of a tree: each of its entries can stand in a tree, and
    /// so the tree can be written and read again.
    #[verifier::type_invariant]
    spec fn well_formed(self) -> bool {
        forall|i: int| 0 <= i < self.records@.len() ==> is_entry(#[trigger] self.records@[i]@)
    }

    /// A tree without entries.
    pub fn new() -> (tree: GitTree)
        ensures
            tree@ == Seq::<LeafModel>::empty(),
    {
        let tree = GitTree { records: Vec::new() };
        assert(tree@ =~= Seq::<LeafModel>::empty());
        tree
    }

    /// The entries of the tree.
    pub fn records(&self) -> (records: &Vec<GitLeaf>)
        ensures
            records@.map_values(|leaf: GitLeaf| leaf@) == self@,
    {
        &self.records
    }

    /// Reads the tree that an object holds.
    ///
    /// An object of another type, or of none, is refused.
    pub fn from_git_object(git_object: &GitObject) -> (result: Result<GitTree, TreeError>)
        ensures
            match git_object.kind() {
                Some(GitObjectType::Tree) => match parse_tree_spec(git_object.payload()) {
                    Ok(leaves) => result matches Ok(tree) && tree@ == leaves,
                    Err(error) => result == Err::<GitTree, TreeError>(error),
                },
                _ => result == Err::<GitTree, TreeError>(TreeError::NotATree),
            },
    {
        let is_tree = match git_object.object_type() {
            Some(kind) => kind.is_tree(),
            None => false,
        };
        if is_tree {
            GitTree::parse(git_object.data())
        } else {
            Err(TreeError::NotATree)
        }
    }

    /// Writes the tree as the payload of an object: the inverse of
    /// [`GitTree::parse`]. The payload reads back as this tree.
    pub fn serialize(&self) -> (data: Vec<u8>)
        ensures
            data@ == tree_bytes(self@),
            parse_tree_spec(data@) == Ok::<Seq<LeafModel>, TreeError>(self@),
    {
        let ghost leaves = self@;
        proof {
            use_type_invariant(self);
            assert forall|i: int| 0 <= i < leaves.len() implies is_entry(#[trigger] leaves[i]) by {
                assert(leaves[i] == self.records@[i]@);
            }
            lemma_parse_of_tree_bytes(leaves);
        }
        let mut data: Vec<u8> = Vec::new();
        let mut i: usize = 0;
        assert(leaves.take(0) =~= Seq::empty());
        while i < self.records.len()
            invariant
                0 <= i <= self.records@.len(),
                leaves == self@,
                data@ == tree_bytes(leaves.take(i as int)),
            decreases self.records@.len() - i,
        {
            let leaf = &self.records[i];
            let ghost before = data@;
            push_bytes(&mut data, leaf.mode.as_str().as_bytes());
            data.push(0x20);
            push_bytes(&mut data, leaf.path.as_str().as_bytes());
            data.push(0x00);
            push_bytes(&mut data, leaf.sha.as_slice());
            proof {
                let next = leaves.take(i + 1);
                assert(next.drop_last() =~= leaves.take(i as int));
                assert(next.last() == leaf@);
                assert(data@ =~= before + entry_bytes(leaf@));
            }
            i += 1;
        }
        assert(leaves.take(i as int) =~= leaves);
        data
    }

    /// Reads the entry at the front of `record`.
    ///
    /// `record` is what is left of a payload from `offset` on. On success
    /// `offset` is moved past the entry; otherwise it is left as it was.
    pub fn parse_leaf(record: &[u8], offset: &mut usize) -> (result: Result<GitLeaf, TreeError>)
        requires
            *old(offset) + record@.len() <= usize::MAX,
        ensures
            match parse_leaf_spec(record@) {
                Ok((leaf, taken)) => result matches Ok(entry) && entry@ == leaf && *final(offset)
                    == *old(offset) + taken && 22 <= taken <= record@.len(),
                Err(error) => result == Err::<GitLeaf, TreeError>(error) && *final(offset) == *old(
                    offset,
                ),
            },
    {
        let space: usize = find_byte(record, 0, 0x20);
        assert(record@.skip(0) =~= record@);
        if space >= record.len() {
            return Err(TreeError::UnterminatedMode);
        }
        let mode_bytes = slice_subrange(record, 0, space);
        assert(mode_bytes@ =~= record@.take(space as int));
        let mode = match utf8_text(mode_bytes) {
            Some(text) => String::from_str(text),
            None => {
                return Err(TreeError::InvalidMode);
            },
        };
        let ghost rest = record@.skip(space + 1);
        let nul: usize = find_byte(record, space + 1, 0x00);
        if nul >= record.len() {
            return Err(TreeError::UnterminatedPath);
        }
        let path_bytes = slice_subrange(record, space + 1, nul);
        assert(path_bytes@ =~= rest.take(nul - space - 1));
        let path = match utf8_text(path_bytes) {
            Some(text) => String::from_str(text),
            None => {
                return Err(TreeError::InvalidPath);
            },
        };
        if record.len() - (nul + 1) < 20 {
            return Err(TreeError::TruncatedId);
        }
        let id_bytes = slice_subrange(record, nul + 1, nul + 21);
        assert(id_bytes@ =~= rest.skip(nul - space).take(20));
        let sha = copy_id(id_bytes);
        *offset = *offset + (nul + 21);
        Ok(GitLeaf { mode, path, sha })
    }

    /// Reads the payload of a tree.
    ///
    /// Returns the entries in the order in which `data` holds them; nothing is
    /// sorted and nothing dropped.
    pub fn parse(data: &Vec<u8>) -> (result: Result<GitTree, TreeError>)
        ensures
            match parse_tree_spec(data@) {
                Ok(leaves) => result matches Ok(tree) && tree@ == leaves,
                Err(error) => result == Err::<GitTree, TreeError>(error),
            },
    {
        let mut records: Vec<GitLeaf> = Vec::new();
        let mut offset: usize = 0;
        let ghost view_of = |leaf: GitLeaf| leaf@;
        assert(data@.skip(0) =~= data@);
        while offset < data.len()
            invariant
                0 <= offset <= data@.len(),
                view_of == (|leaf: GitLeaf| leaf@),
                forall|i: int| 0 <= i < records@.len() ==> is_entry(#[trigger] records@[i]@),
                parse_tree_spec(data@) == match parse_tree_spec(data@.skip(offset as int)) {
                    Ok(leaves) => Ok::<Seq<LeafModel>, TreeError>(
                        records@.map_values(view_of) + leaves,
                    ),
                    Err(error) => Err(error),
                },
            decreases data@.len() - offset,
        {
            let record = slice_subrange(data.as_slice(), offset, data.len());
            assert(record@ =~= data@.skip(offset as int));
            let ghost before = records@.map_values(view_of);
            let ghost start = offset;
            let leaf = match GitTree::parse_leaf(record, &mut offset) {
                Ok(leaf) => leaf,
                Err(error) => {
                    return Err(error);
                },
            };
            proof {
                lemma_parsed_leaf_is_entry(record@);
                let taken = offset - start;
                let tail = parse_tree_spec(record@.skip(taken as int));
                assert(record@.skip(taken as int) =~= data@.skip(offset as int));
                assert(records@.push(leaf).map_values(view_of) =~= before.push(leaf@));
                if tail is Ok {
                    assert(before + (seq![leaf@] + tail->Ok_0) =~= before.push(leaf@)
                        + tail->Ok_0);
                }
            }
            records.push(leaf);
        }
        let tree = GitTree { records };
        proof {
            assert(tree@ == records@.map_values(view_of));
            assert(tree@ + Seq::<LeafModel>::empty() =~= tree@);
        }
        Ok(tree)
    }
}

/// What reading makes of bytes that start like an entry: the entry, if
/// twenty bytes or more follow the NUL byte of its path, and else a truncated
/// id.
pub proof fn lemma_parse_leaf_of_bytes(mode: Seq<char>, path: Seq<char>, after: Seq<u8>)
    requires
        forall|i: int| 0 <= i < mode.len() ==> mode[i] != ' ',
        forall|i: int| 0 <= i < path.len() ==> path[i] != '\0',
    ensures
        parse_leaf_spec(
            encode_utf8(mode) + seq![0x20u8] + encode_utf8(path) + seq![0x00u8] + after,
        ) == (if after.len() < 20 {
            Err::<(LeafModel, nat), TreeError>(TreeError::TruncatedId)
        } else {
            Ok(
                (
                    LeafModel { mode, path, id: after.take(20) },
                    (encode_utf8(mode).len() + encode_utf8(path).len() + 22) as nat,
                ),
            )
        }),
{
    let m = encode_utf8(mode);
    let p = encode_utf8(path);
    let record = m + seq![0x20u8] + p + seq![0x00u8] + after;
    let rest = p + seq![0x00u8] + after;
    lemma_encoding_lacks_ascii(mode, ' ');
    lemma_encoding_lacks_ascii(path, '\0');
    encode_utf8_valid_utf8(mode);
    encode_utf8_valid_utf8(path);
    encode_utf8_decode_utf8(mode);
    encode_utf8_decode_utf8(path);
    assert(is_first_index(record, 0x20u8, m.len() as int)) by {
        assert forall|i: int| 0 <= i < m.len() implies record[i] != 0x20u8 by {
            assert(record[i] == m[i]);
        }
        assert(record[m.len() as int] == 0x20u8);
    }
    lemma_index_of_unique(record, 0x20u8, m.len() as int);
    assert(record.take(m.len() as int) =~= m);
    assert(record.skip(m.len() as int + 1) =~= rest);
    assert(is_first_index(rest, 0x00u8, p.len() as int)) by {
        assert forall|i: int| 0 <= i < p.len() implies rest[i] != 0x00u8 by {
            assert(rest[i] == p[i]);
        }
        assert(rest[p.len() as int] == 0x00u8);
    }
    lemma_index_of_unique(rest, 0x00u8, p.len() as int);
    assert(rest.take(p.len() as int) =~= p);
    assert(rest.skip(p.len() as int + 1) =~= after);
}

/// The payload of a tree is that of its first entries followed by that of the
/// others.
proof fn lemma_tree_bytes_concat(a: Seq<LeafModel>, b: Seq<LeafModel>)
    ensures
        tree_bytes(a + b) == tree_bytes(a) + tree_bytes(b),
    decreases b.len(),
{
    if b.len() == 0 {
        assert(a + b =~= a);
        assert(tree_bytes(a) + tree_bytes(b) =~= tree_bytes(a));
    } else {
        lemma_tree_bytes_concat(a, b.drop_last());
        assert((a + b).drop_last() =~= a + b.drop_last());
        assert((a + b).last() == b.last());
        assert(tree_bytes(a + b) =~= tree_bytes(a) + tree_bytes(b));
    }
}

/// Reading undoes writing: the payload written for a sequence of entries
/// reads back as those entries, in the same order.
pub proof fn lemma_parse_of_tree_bytes(leaves: Seq<LeafModel>)
    requires
        forall|i: int| 0 <= i < leaves.len() ==> is_entry(#[trigger] leaves[i]),
    ensures
        parse_tree_spec(tree_bytes(leaves)) == Ok::<Seq<LeafModel>, TreeError>(leaves),
    decreases leaves.len(),
{
    if leaves.len() == 0 {
        assert(leaves =~= Seq::empty());
    } else {
        let first = leaves[0];
        let others = leaves.skip(1);
        let data = tree_bytes(leaves);
        assert(leaves =~= seq![first] + others);
        lemma_tree_bytes_concat(seq![first], others);
        assert(seq![first].drop_last() =~= Seq::<LeafModel>::empty());
        assert(tree_bytes(seq![first].drop_last()) =~= Seq::<u8>::empty());
        assert(tree_bytes(seq![first]) =~= entry_bytes(first));
        assert(is_entry(leaves[0]));
        let after = first.id + tree_bytes(others);
        assert(data =~= encode_utf8(first.mode) + seq![0x20u8] + encode_utf8(first.path) + seq![
            0x00u8,
        ] + after);
        lemma_parse_leaf_of_bytes(first.mode, first.path, after);
        assert(after.take(20) =~= first.id);
        let taken = encode_utf8(first.mode).len() + encode_utf8(first.path).len() + 22;
        assert(data.skip(taken as int) =~= tree_bytes(others));
        assert forall|i: int| 0 <= i < others.len() implies is_entry(#[trigger] others[i]) by {
            assert(others[i] == leaves[i + 1]);
        }
        lemma_parse_of_tree_bytes(others);
        assert(seq![first] + others =~= leaves);
    }
}

} // verus!
