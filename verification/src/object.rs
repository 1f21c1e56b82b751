//! Objects and their envelope.
//!
//! The envelope of an object is the byte sequence `<type> <size>\0<payload>`:
//! the lowercase name of the object's type, one space, the payload's length in
//! decimal, one NUL byte, and the payload itself.

use crate::decimal::{
    decimal, decimal_text, is_digit, lemma_decimal_digits, lemma_parse_decimal_of_decimal,
    parse_decimal, parse_size, push_decimal, push_decimal_text,
};
use crate::digest::{sha1, sha1_digest};
use crate::hex::{hex, is_hex_digit, lemma_hex_shape, to_hex};
use crate::scan::{
    find_byte, index_of, is_first_index, lemma_index_of, lemma_index_of_unique, push_bytes,
};
use crate::text::{chars_of, string_of};
use crate::zlib::{deflate, error_text, inflate, zlib_deflate, zlib_inflate};
use vstd::prelude::*;
use vstd::slice::*;
use vstd::string::*;

verus! {

/// The kinds of object that can be stored.
#[derive(Clone, Copy, Debug, PartialEq, Eq, Structural)]
pub enum GitObjectType {
    Blob,
    Commit,
    Tag,
    Tree,
}

impl GitObjectType {
    /// Whether this is `Blob`.
    pub fn is_blob(&self) -> (b: bool)
        ensures
            b == (*self is Blob),
    {
        matches!(self, GitObjectType::Blob)
    }

    /// Whether this is `Commit`.
    pub fn is_commit(&self) -> (b: bool)
        ensures
            b == (*self is Commit),
    {
        matches!(self, GitObjectType::Commit)
    }

    /// Whether this is `Tag`.
    pub fn is_tag(&self) -> (b: bool)
        ensures
            b == (*self is Tag),
    {
        matches!(self, GitObjectType::Tag)
    }

    /// Whether this is `Tree`.
    pub fn is_tree(&self) -> (b: bool)
        ensures
            b == (*self is Tree),
    {
        matches!(self, GitObjectType::Tree)
    }
}

/// Why an object could not be decoded or encoded.
#[derive(Clone, Debug, PartialEq, Eq)]
pub enum ObjectError {
    /// The stored bytes are not a complete, intact zlib stream. `cause` is
    /// what the decoder says of them.
    Decompress { cause: String },
    /// No space ends the type name, or the name is none of the four known.
    /// `name` is what stands where the name was expected.
    UnknownType { name: Vec<u8> },
    /// No NUL byte ends the size, or the size is not a number that fits in
    /// `usize`.
    UnknownSize,
    /// The size in the envelope is not the length of the payload.
    SizeMismatch { declared: usize, actual: usize },
    /// The object to encode has no type yet.
    Untyped,
    /// The envelope could not be compressed. `cause` is what the encoder says
    /// of it.
    Compress { cause: String },
}

/// The mathematical content of an [`ObjectError`]: what went wrong, without
/// the words of a decoder or encoder.
pub enum ObjectFault {
    Decompress,
    UnknownType { name: Seq<u8> },
    UnknownSize,
    SizeMismatch { declared: nat, actual: nat },
    Untyped,
    Compress,
}

impl View for ObjectError {
    type V = ObjectFault;

    open spec fn view(&self) -> ObjectFault {
        match *self {
            ObjectError::Decompress { .. } => ObjectFault::Decompress,
            ObjectError::UnknownType { name } => ObjectFault::UnknownType { name: name@ },
            ObjectError::UnknownSize => ObjectFault::UnknownSize,
            ObjectError::SizeMismatch { declared, actual } => ObjectFault::SizeMismatch {
                declared: declared as nat,
                actual: actual as nat,
            },
            ObjectError::Untyped => ObjectFault::Untyped,
            ObjectError::Compress { .. } => ObjectFault::Compress,
        }
    }
}

/// The text that reports `error` for the object called `object`. A failure to
/// decompress or compress is reported with its cause, a size mismatch with
/// both lengths.
pub open spec fn message_text(error: ObjectError, object: Seq<char>) -> Seq<char> {
    match error {
        ObjectError::Decompress { cause } => "Malformed object "@ + object + ", "@ + cause@,
        ObjectError::UnknownType { .. } => "Unknown type in object "@ + object,
        ObjectError::UnknownSize => "Malformed object "@ + object + ", unknown size"@,
        ObjectError::SizeMismatch { declared, actual } => "Malformed object "@ + object
            + ", size doesn't match: declared "@ + decimal_text(declared as nat) + ", actual "@
            + decimal_text(actual as nat),
        ObjectError::Untyped => "Cannot write to object file, type unknown"@,
        ObjectError::Compress { cause } => "Cannot write to object file, "@ + cause@,
    }
}

impl ObjectError {
    /// The text that reports this error for the object called `object`: the
    /// name of its file, or its id.
    pub fn message(&self, object: &str) -> (text: String)
        ensures
            text@ == message_text(*self, object@),
    {
        match self {
            ObjectError::Decompress { cause } => {
                let mut text = String::from_str("Malformed object ");
                text.append(object);
                text.append(", ");
                text.append(cause.as_str());
                text
            },
            ObjectError::UnknownType { .. } => {
                let mut text = String::from_str("Unknown type in object ");
                text.append(object);
                text
            },
            ObjectError::UnknownSize => {
                let mut text = String::from_str("Malformed object ");
                text.append(object);
                text.append(", unknown size");
                text
            },
            ObjectError::SizeMismatch { declared, actual } => {
                let mut text = String::from_str("Malformed object ");
                text.append(object);
                text.append(", size doesn't match: declared ");
                push_decimal_text(&mut text, *declared);
                text.append(", actual ");
                push_decimal_text(&mut text, *actual);
                text
            },
            ObjectError::Untyped => String::from_str("Cannot write to object file, type unknown"),
            ObjectError::Compress { cause } => {
                let mut text = String::from_str("Cannot write to object file, ");
                text.append(cause.as_str());
                text
            },
        }
    }
}

/// The name of a type as the envelope spells it.
pub open spec fn kind_name(kind: GitObjectType) -> Seq<u8> {
    match kind {
        GitObjectType::Blob => seq![0x62u8, 0x6c, 0x6f, 0x62],
        GitObjectType::Commit => seq![0x63u8, 0x6f, 0x6d, 0x6d, 0x69, 0x74],
        GitObjectType::Tag => seq![0x74u8, 0x61, 0x67],
        GitObjectType::Tree => seq![0x74u8, 0x72, 0x65, 0x65],
    }
}

/// The type that a name denotes, if it is the name of one.
pub open spec fn kind_of_name(name: Seq<u8>) -> Option<GitObjectType> {
    if name == kind_name(GitObjectType::Blob) {
        Some(GitObjectType::Blob)
    } else if name == kind_name(GitObjectType::Commit) {
        Some(GitObjectType::Commit)
    } else if name == kind_name(GitObjectType::Tag) {
        Some(GitObjectType::Tag)
    } else if name == kind_name(GitObjectType::Tree) {
        Some(GitObjectType::Tree)
    } else {
        None
    }
}

/// The bytes of an envelope with the given type name, size and payload,
/// whatever they are: the name, a space, the size, a NUL byte, the payload.
pub open spec fn envelope_of(name: Seq<u8>, size: Seq<u8>, payload: Seq<u8>) -> Seq<u8> {
    name + seq![0x20u8] + size + seq![0x00u8] + payload
}

/// The envelope of an object of type `kind` with the given payload.
pub open spec fn envelope(kind: GitObjectType, payload: Seq<u8>) -> Seq<u8> {
    envelope_of(kind_name(kind), decimal(payload.len()), payload)
}

/// The id of an object: the SHA-1 digest of its envelope, in lowercase
/// hexadecimal.
pub open spec fn object_id(kind: GitObjectType, payload: Seq<u8>) -> Seq<char> {
    hex(sha1(envelope(kind, payload)))
}

/// `id` has the shape of an object id: forty lowercase hexadecimal digits.
pub open spec fn is_object_id(id: Seq<char>) -> bool {
    &&& id.len() == 40
    &&& forall|i: int| 0 <= i < id.len() ==> is_hex_digit(#[trigger] id[i])
}

/// What an envelope holds: the type and the payload, or the reason why the
/// bytes are no envelope.
///
/// The type name runs up to the first space and the size from there up to the
/// first NUL byte; all that follows is the payload, whose length the size must
/// equal.
pub open spec fn decode_envelope(raw: Seq<u8>) -> Result<(GitObjectType, Seq<u8>), ObjectFault> {
    let space = index_of(raw, 0x20);
    let name = raw.take(space);
    if space >= raw.len() {
        Err(ObjectFault::UnknownType { name })
    } else {
        match kind_of_name(name) {
            None => Err(ObjectFault::UnknownType { name }),
            Some(kind) => {
                let rest = raw.skip(space + 1);
                let nul = index_of(rest, 0x00);
                if nul >= rest.len() {
                    Err(ObjectFault::UnknownSize)
                } else {
                    match parse_decimal(rest.take(nul)) {
                        None => Err(ObjectFault::UnknownSize),
                        Some(size) => {
                            let payload = rest.skip(nul + 1);
                            if size > usize::MAX {
                                Err(ObjectFault::UnknownSize)
                            } else if size != payload.len() {
                                Err(
                                    ObjectFault::SizeMismatch {
                                        declared: size,
                                        actual: payload.len(),
                                    },
                                )
                            } else {
                                Ok((kind, payload))
                            }
                        },
                    }
                }
            },
        }
    }
}

/// `result` is the object, or the error, that `expected` describes.
pub open spec fn is_decoded(
    result: Result<GitObject, ObjectError>,
    expected: Result<(GitObjectType, Seq<u8>), ObjectFault>,
) -> bool {
    match expected {
        Ok((kind, payload)) => result matches Ok(object) && object.kind() == Some(kind)
            && object.payload() == payload,
        Err(fault) => result matches Err(error) && error@ == fault,
    }
}

/// What the content of an object file holds: the zlib stream is decompressed
/// and the result read as an envelope.
pub open spec fn read_stored(content: Seq<u8>) -> Result<(GitObjectType, Seq<u8>), ObjectFault> {
    match zlib_inflate(content) {
        None => Err(ObjectFault::Decompress),
        Some(raw) => decode_envelope(raw),
    }
}

/// An object: a payload and, once it is known, its type.
#[derive(Debug, PartialEq, Eq)]
pub struct GitObject {
    object_type: Option<GitObjectType>,
    size: usize,
    data: Vec<u8>,
}

/// Reads the name of a type.
pub fn parse_kind_name(name: &[u8]) -> (kind: Option<GitObjectType>)
    ensures
        kind == kind_of_name(name@),
{
    if name.len() == 4 && name[0] == 0x62 && name[1] == 0x6c && name[2] == 0x6f && name[3]
        == 0x62 {
        assert(name@ =~= kind_name(GitObjectType::Blob));
        Some(GitObjectType::Blob)
    } else if name.len() == 6 && name[0] == 0x63 && name[1] == 0x6f && name[2] == 0x6d
        && name[3] == 0x6d && name[4] == 0x69 && name[5] == 0x74 {
        assert(name@ =~= kind_name(GitObjectType::Commit));
        Some(GitObjectType::Commit)
    } else if name.len() == 3 && name[0] == 0x74 && name[1] == 0x61 && name[2] == 0x67 {
        assert(name@ =~= kind_name(GitObjectType::Tag));
        Some(GitObjectType::Tag)
    } else if name.len() == 4 && name[0] == 0x74 && name[1] == 0x72 && name[2] == 0x65
        && name[3] == 0x65 {
        assert(name@ =~= kind_name(GitObjectType::Tree));
        Some(GitObjectType::Tree)
    } else {
        None
    }
}

/// Appends the name of `kind` to `out`.
fn push_kind_name(out: &mut Vec<u8>, kind: GitObjectType)
    ensures
        final(out)@ == old(out)@ + kind_name(kind),
{
    match kind {
        GitObjectType::Blob => {
            out.push(0x62);
            out.push(0x6c);
            out.push(0x6f);
            out.push(0x62);
        },
        GitObjectType::Commit => {
            out.push(0x63);
            out.push(0x6f);
            out.push(0x6d);
            out.push(0x6d);
            out.push(0x69);
            out.push(0x74);
        },
        GitObjectType::Tag => {
            out.push(0x74);
            out.push(0x61);
            out.push(0x67);
        },
        GitObjectType::Tree => {
            out.push(0x74);
            out.push(0x72);
            out.push(0x65);
            out.push(0x65);
        },
    }
    assert(final(out)@ =~= old(out)@ + kind_name(kind));
}

impl GitObject {
    /// The invariant of an object: its size is the length of its payload.
    #[verifier::type_invariant]
    spec fn well_formed(self) -> bool {
        self.size == self.data@.len()
    }

    /// The type of the object, `None` while it has none.
    pub closed spec fn kind(self) -> Option<GitObjectType> {
        self.object_type
    }

    /// The payload of the object.
    pub closed spec fn payload(self) -> Seq<u8> {
        self.data@
    }

    /// An empty object that has no type yet.
    pub fn new() -> (object: GitObject)
        ensures
            object.kind() is None,
            object.payload() == Seq::<u8>::empty(),
    {
        GitObject { object_type: None, size: 0, data: Vec::new() }
    }

    /// An object of the given type that holds `data`.
    pub fn with_data(object_type: GitObjectType, data: Vec<u8>) -> (object: GitObject)
        ensures
            object.kind() == Some(object_type),
            object.payload() == data@,
    {
        let size: usize = data.len();
        GitObject { object_type: Some(object_type), size, data }
    }

    /// The type of the object.
    pub fn object_type(&self) -> (kind: Option<GitObjectType>)
        ensures
            kind == self.kind(),
    {
        self.object_type
    }

    /// The length of the payload.
    pub fn size(&self) -> (size: usize)
        ensures
            size == self.payload().len(),
    {
        proof {
            use_type_invariant(self);
        }
        self.size
    }

    /// The payload.
    pub fn data(&self) -> (data: &Vec<u8>)
        ensures
            data@ == self.payload(),
    {
        &self.data
    }

    /// Reads an envelope.
    ///
    /// Returns the object that `raw` is the envelope of, or the reason why it
    /// is none. Nothing is hashed or decompressed here.
    pub fn decode(raw: &[u8]) -> (result: Result<GitObject, ObjectError>)
        ensures
            is_decoded(result, decode_envelope(raw@)),
    {
        let space: usize = find_byte(raw, 0, 0x20);
        assert(raw@.skip(0) =~= raw@);
        let name = slice_subrange(raw, 0, space);
        assert(name@ =~= raw@.take(space as int));
        if space >= raw.len() {
            return Err(ObjectError::UnknownType { name: slice_to_vec(name) });
        }
        let kind = match parse_kind_name(name) {
            Some(kind) => kind,
            None => {
                return Err(ObjectError::UnknownType { name: slice_to_vec(name) });
            },
        };
        let ghost rest = raw@.skip(space + 1);
        let nul: usize = find_byte(raw, space + 1, 0x00);
        if nul >= raw.len() {
            return Err(ObjectError::UnknownSize);
        }
        let token = slice_subrange(raw, space + 1, nul);
        assert(token@ =~= rest.take(nul - space - 1));
        let size: usize = match parse_size(token) {
            Some(size) => size,
            None => {
                return Err(ObjectError::UnknownSize);
            },
        };
        let payload = slice_subrange(raw, nul + 1, raw.len());
        assert(payload@ =~= rest.skip(nul - space));
        if size != payload.len() {
            return Err(ObjectError::SizeMismatch { declared: size, actual: payload.len() });
        }
        Ok(GitObject { object_type: Some(kind), size, data: slice_to_vec(payload) })
    }

    /// Writes the envelope of the object.
    ///
    /// The size written is the length of the payload. An object without a type
    /// has no envelope.
    pub fn encode(&self) -> (result: Result<Vec<u8>, ObjectError>)
        ensures
            match self.kind() {
                Some(kind) => result matches Ok(raw) && raw@ == envelope(kind, self.payload()),
                None => result matches Err(error) && error@ == ObjectFault::Untyped,
            },
    {
        let kind = match self.object_type {
            Some(kind) => kind,
            None => {
                return Err(ObjectError::Untyped);
            },
        };
        let mut raw: Vec<u8> = Vec::new();
        push_kind_name(&mut raw, kind);
        raw.push(0x20);
        push_decimal(&mut raw, self.data.len());
        raw.push(0x00);
        push_bytes(&mut raw, self.data.as_slice());
        assert(raw@ =~= envelope(kind, self.payload()));
        Ok(raw)
    }

    /// Reads an object from the content of its file.
    ///
    /// `content` is the file as it is stored, before decompression. It is
    /// decompressed and the result read as an envelope. A failure to
    /// decompress is reported with the words of the decoder as its cause.
    pub fn from_file(content: &[u8]) -> (result: Result<GitObject, ObjectError>)
        ensures
            is_decoded(result, read_stored(content@)),
    {
        match inflate(content) {
            Ok(raw) => GitObject::decode(raw.as_slice()),
            Err(error) => Err(ObjectError::Decompress { cause: error_text(&error) }),
        }
    }

    /// Prepares the object for storage.
    ///
    /// Returns the id of the object together with the content of its file: the
    /// compressed envelope. An object without a type is refused before
    /// anything is hashed or compressed. What is returned reads back, with
    /// [`GitObject::from_file`], as this object.
    pub fn write_to_file(&self) -> (result: Result<StoredObject, ObjectError>)
        ensures
            match self.kind() {
                None => result matches Err(error) && error@ == ObjectFault::Untyped,
                Some(kind) => match zlib_deflate(envelope(kind, self.payload())) {
                    None => result matches Err(error) && error@ == ObjectFault::Compress,
                    Some(stream) => result matches Ok(stored) && stored.id() == object_id(
                        kind,
                        self.payload(),
                    ) && stored.content() == stream,
                },
            },
            result matches Ok(stored) ==> (is_object_id(stored.id()) && read_stored(
                stored.content(),
            ) == Ok::<(GitObjectType, Seq<u8>), ObjectFault>((self.kind()->0, self.payload()))),
    {
        let raw = self.encode()?;
        let digest = sha1_digest(raw.as_slice());
        proof {
            use_type_invariant(self);
            lemma_decode_of_envelope(self.kind()->0, self.payload());
        }
        match deflate(raw.as_slice()) {
            Ok(content) => Ok(StoredObject::new(&digest, content)),
            Err(error) => Err(ObjectError::Compress { cause: error_text(&error) }),
        }
    }
}

/// Where the object with the given id is stored below the root of the object
/// store: its directory and the name of its file. Text that has not the shape
/// of an object id names no object.
pub fn object_location(id: &str) -> (location: Option<(String, String)>)
    ensures
        match location {
            Some((directory, name)) => is_object_id(id@) && directory@ == id@.subrange(0, 2)
                && name@ == id@.subrange(2, 40),
            None => !is_object_id(id@),
        },
{
    let chars = chars_of(id);
    if chars.len() != 40 {
        return None;
    }
    let mut i: usize = 0;
    while i < 40
        invariant
            0 <= i <= 40 == chars@.len(),
            chars@ == id@,
            forall|j: int| 0 <= j < i ==> is_hex_digit(#[trigger] chars@[j]),
        decreases 40 - i,
    {
        let c = chars[i];
        let is_hex = ('0' <= c && c <= '9') || ('a' <= c && c <= 'f');
        if !is_hex {
            assert(!is_hex_digit(id@[i as int]));
            return None;
        }
        i += 1;
    }
    let directory = string_of(chars.as_slice(), 0, 2);
    let name = string_of(chars.as_slice(), 2, 40);
    Some((directory, name))
}

/// Renders a digest as an object id.
pub fn object_id_of(digest: &[u8; 20]) -> (id: String)
    ensures
        id@ == hex(digest@),
        is_object_id(id@),
{
    proof {
        lemma_hex_shape(digest@);
    }
    to_hex(digest.as_slice())
}

/// One thing to do when an object is stored. Names are relative to the root
/// of the object store.
#[derive(Debug, PartialEq, Eq)]
pub enum StoreStep {
    /// Create the directory of the object's file.
    CreateDir { name: String },
    /// Write the content of the object's file into its directory. A file that
    /// is there already holds the same object and is written over.
    WriteFile { directory: String, name: String },
}

/// The mathematical content of a [`StoreStep`].
pub enum StoreStepModel {
    CreateDir { name: Seq<char> },
    WriteFile { directory: Seq<char>, name: Seq<char> },
}

impl View for StoreStep {
    type V = StoreStepModel;

    open spec fn view(&self) -> StoreStepModel {
        match *self {
            StoreStep::CreateDir { name } => StoreStepModel::CreateDir { name: name@ },
            StoreStep::WriteFile { directory, name } => StoreStepModel::WriteFile {
                directory: directory@,
                name: name@,
            },
        }
    }
}

/// What has to be done, in this order, to store the object with the given id:
/// its file is named by the last thirty-eight digits of the id and lies in the
/// directory named by the first two, which is created if it does not exist
/// yet and left as it is if it does.
pub open spec fn store_plan(id: Seq<char>, directory_exists: bool) -> Seq<StoreStepModel> {
    let directory = id.subrange(0, 2);
    let write = StoreStepModel::WriteFile { directory, name: id.subrange(2, 40) };
    if directory_exists {
        seq![write]
    } else {
        seq![StoreStepModel::CreateDir { name: directory }, write]
    }
}

/// An object as it is stored: its id, and the content of the file that holds
/// it.
#[derive(Debug, PartialEq, Eq)]
pub struct StoredObject {
    id: String,
    content: Vec<u8>,
}

impl StoredObject {
    /// The invariant of a stored object: its id has the shape of one.
    #[verifier::type_invariant]
    spec fn well_formed(self) -> bool {
        is_object_id(self.id@)
    }

    /// The id of the object.
    pub closed spec fn id(self) -> Seq<char> {
        self.id@
    }

    /// The content of the object's file.
    pub closed spec fn content(self) -> Seq<u8> {
        self.content@
    }

    /// A stored object from the digest of its envelope and the content of its
    /// file. The id is the digest in lowercase hexadecimal.
    pub fn new(digest: &[u8; 20], content: Vec<u8>) -> (stored: StoredObject)
        ensures
            stored.id() == hex(digest@),
            stored.content() == content@,
            is_object_id(stored.id()),
    {
        StoredObject { id: object_id_of(digest), content }
    }

    /// The id of the object: forty lowercase hexadecimal digits.
    pub fn object_id(&self) -> (id: &str)
        ensures
            id@ == self.id(),
            is_object_id(id@),
    {
        proof {
            use_type_invariant(self);
        }
        self.id.as_str()
    }

    /// The content of the object's file: the compressed envelope.
    pub fn file_content(&self) -> (content: &Vec<u8>)
        ensures
            content@ == self.content(),
    {
        &self.content
    }

    /// The directory of the object's file below the root of the object store:
    /// the first two digits of the id.
    pub fn directory(&self) -> (name: &str)
        ensures
            name@ == self.id().subrange(0, 2),
    {
        proof {
            use_type_invariant(self);
        }
        self.id.as_str().substring_ascii(0, 2)
    }

    /// The name of the object's file in its directory: the last thirty-eight
    /// digits of the id.
    pub fn file_name(&self) -> (name: &str)
        ensures
            name@ == self.id().subrange(2, 40),
    {
        proof {
            use_type_invariant(self);
        }
        self.id.as_str().substring_ascii(2, 40)
    }

    /// Plans the storing of the object.
    ///
    /// `directory_exists` says whether the directory of the object's file
    /// exists below the root of the object store. Returns what has to be done,
    /// in order. A directory that exists is no obstacle: it is not created
    /// again.
    pub fn store_steps(&self, directory_exists: bool) -> (steps: Vec<StoreStep>)
        ensures
            steps@.map_values(|step: StoreStep| step@) == store_plan(self.id(), directory_exists),
    {
        let mut steps: Vec<StoreStep> = Vec::new();
        if !directory_exists {
            steps.push(StoreStep::CreateDir { name: String::from_str(self.directory()) });
        }
        steps.push(
            StoreStep::WriteFile {
                directory: String::from_str(self.directory()),
                name: String::from_str(self.file_name()),
            },
        );
        assert(steps@.map_values(|step: StoreStep| step@) =~= store_plan(
            self.id(),
            directory_exists,
        ));
        steps
    }
}

/// The names of the four types are distinct, and none holds a space.
pub proof fn lemma_kind_names(kind: GitObjectType)
    ensures
        kind_of_name(kind_name(kind)) == Some(kind),
        forall|i: int| 0 <= i < kind_name(kind).len() ==> kind_name(kind)[i] != 0x20,
{
    let blob = kind_name(GitObjectType::Blob);
    let commit = kind_name(GitObjectType::Commit);
    let tag = kind_name(GitObjectType::Tag);
    let tree = kind_name(GitObjectType::Tree);
    assert(blob.len() == 4 && commit.len() == 6 && tag.len() == 3 && tree.len() == 4);
    assert(blob[0] != tree[0]);
}

/// What decoding makes of the bytes of an envelope, whatever its parts: the
/// name decides the type, the size has to be a number, and the number has to
/// be the length of the payload.
pub proof fn lemma_decode_of_parts(name: Seq<u8>, size: Seq<u8>, payload: Seq<u8>)
    requires
        forall|i: int| 0 <= i < name.len() ==> name[i] != 0x20,
        forall|i: int| 0 <= i < size.len() ==> size[i] != 0x00,
    ensures
        decode_envelope(envelope_of(name, size, payload)) == (match kind_of_name(name) {
            None => Err::<(GitObjectType, Seq<u8>), ObjectFault>(
                ObjectFault::UnknownType { name },
            ),
            Some(kind) => match parse_decimal(size) {
                None => Err(ObjectFault::UnknownSize),
                Some(declared) => if declared > usize::MAX {
                    Err(ObjectFault::UnknownSize)
                } else if declared != payload.len() {
                    Err(ObjectFault::SizeMismatch { declared, actual: payload.len() })
                } else {
                    Ok((kind, payload))
                },
            },
        }),
{
    let raw = envelope_of(name, size, payload);
    let rest = size + seq![0x00u8] + payload;
    assert(is_first_index(raw, 0x20, name.len() as int)) by {
        assert forall|i: int| 0 <= i < name.len() implies raw[i] != 0x20 by {
            assert(raw[i] == name[i]);
        }
        assert(raw[name.len() as int] == 0x20);
    }
    lemma_index_of_unique(raw, 0x20, name.len() as int);
    assert(raw.take(name.len() as int) =~= name);
    assert(raw.skip(name.len() as int + 1) =~= rest);
    assert(is_first_index(rest, 0x00, size.len() as int)) by {
        assert forall|i: int| 0 <= i < size.len() implies rest[i] != 0x00 by {
            assert(rest[i] == size[i]);
        }
        assert(rest[size.len() as int] == 0x00);
    }
    lemma_index_of_unique(rest, 0x00, size.len() as int);
    assert(rest.take(size.len() as int) =~= size);
    assert(rest.skip(size.len() as int + 1) =~= payload);
}

/// Decoding undoes encoding: the envelope of an object reads back as that
/// object, type and payload.
pub proof fn lemma_decode_of_envelope(kind: GitObjectType, payload: Seq<u8>)
    requires
        payload.len() <= usize::MAX,
    ensures
        decode_envelope(envelope(kind, payload)) == Ok::<(GitObjectType, Seq<u8>), ObjectFault>(
            (kind, payload),
        ),
{
    let digits = decimal(payload.len());
    lemma_kind_names(kind);
    lemma_decimal_digits(payload.len());
    lemma_parse_decimal_of_decimal(payload.len());
    assert forall|i: int| 0 <= i < digits.len() implies digits[i] != 0x00 by {
        assert(is_digit(digits[i]));
    }
    lemma_decode_of_parts(kind_name(kind), digits, payload);
}

/// The declared size is enforced: an envelope whose size is not the length of
/// its payload is never decoded, and so its payload never cut short or filled
/// up. Where the type is known and the size is a number that fits in `usize`,
/// the error is a size mismatch that holds both lengths.
pub proof fn lemma_size_is_enforced(name: Seq<u8>, size: Seq<u8>, payload: Seq<u8>)
    requires
        forall|i: int| 0 <= i < name.len() ==> name[i] != 0x20,
        forall|i: int| 0 <= i < size.len() ==> size[i] != 0x00,
        parse_decimal(size) != Some(payload.len()),
    ensures
        decode_envelope(envelope_of(name, size, payload)) is Err,
        kind_of_name(name) is Some && parse_decimal(size) is Some && parse_decimal(size)->0
            <= usize::MAX ==> decode_envelope(envelope_of(name, size, payload)) == Err::<
            (GitObjectType, Seq<u8>),
            ObjectFault,
        >(
            ObjectFault::SizeMismatch {
                declared: parse_decimal(size)->0,
                actual: payload.len(),
            },
        ),
{
    lemma_decode_of_parts(name, size, payload);
}

/// What is decoded is what the bytes hold: the payload of a decoded object is
/// all that follows the first NUL byte after the first space, and the size
/// before that NUL byte is its length.
pub proof fn lemma_decoded_payload_is_whole(raw: Seq<u8>)
    ensures
        decode_envelope(raw) matches Ok((kind, payload)) ==> {
            let space = index_of(raw, 0x20);
            let rest = raw.skip(space + 1);
            let nul = index_of(rest, 0x00);
            &&& raw == envelope_of(kind_name(kind), rest.take(nul), payload)
            &&& parse_decimal(rest.take(nul)) == Some(payload.len())
        },
{
    if decode_envelope(raw) is Ok {
        let space = index_of(raw, 0x20);
        let rest = raw.skip(space + 1);
        let nul = index_of(rest, 0x00);
        lemma_index_of(raw, 0x20);
        lemma_index_of(rest, 0x00);
        assert(raw =~= raw.take(space) + seq![0x20u8] + rest.take(nul) + seq![0x00u8] + rest.skip(
            nul + 1,
        ));
    }
}

/// The id of an object depends on its type and its payload alone: objects
/// equal in both have the same id.
pub proof fn lemma_object_id_is_deterministic(
    kind_a: GitObjectType,
    payload_a: Seq<u8>,
    kind_b: GitObjectType,
    payload_b: Seq<u8>,
)
    requires
        kind_a == kind_b,
        payload_a == payload_b,
    ensures
        object_id(kind_a, payload_a) == object_id(kind_b, payload_b),
{
}

} // verus!
