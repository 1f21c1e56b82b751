use git_objects::commit::GitCommit;
use git_objects::object::{GitObject, GitObjectType};
use git_objects::utilities::{
    deserialize_kv_with_message, serialize_kv_with_message, CommitError,
};
use indexmap::IndexMap;

fn header_of(entries: &[(&str, &str)]) -> IndexMap<String, String> {
    let mut header = IndexMap::new();
    for (key, value) in entries {
        header.insert(key.to_string(), value.to_string());
    }
    header
}

fn entries_of(header: &IndexMap<String, String>) -> Vec<(String, String)> {
    header.iter().map(|(k, v)| (k.clone(), v.clone())).collect()
}

#[test]
fn header_round_trip_with_continuation_value() {
    let header = header_of(&[
        ("tree", "abc123"),
        ("author", "A <a@x> 0 +0000\ncontinued"),
    ]);
    let message = "Initial commit\n";
    let data = serialize_kv_with_message(&header, message);
    assert_eq!(
        data,
        b"tree abc123\nauthor A <a@x> 0 +0000\n continued\n\nInitial commit\n".to_vec()
    );
    let (parsed, parsed_message) = deserialize_kv_with_message(&data).unwrap();
    assert_eq!(entries_of(&parsed), entries_of(&header));
    assert_eq!(parsed_message, message);
}

#[test]
fn message_is_kept_verbatim() {
    let data = b"tree abc\n\n\nfirst\n\n  second \n".to_vec();
    let (header, message) = deserialize_kv_with_message(&data).unwrap();
    assert_eq!(entries_of(&header), vec![("tree".to_string(), "abc".to_string())]);
    assert_eq!(message, "\nfirst\n\n  second \n");
}

#[test]
fn header_without_empty_line_has_empty_message() {
    for data in [b"tree abc".to_vec(), b"tree abc\n".to_vec(), b"tree abc\n\n".to_vec()] {
        let (header, message) = deserialize_kv_with_message(&data).unwrap();
        assert_eq!(entries_of(&header), vec![("tree".to_string(), "abc".to_string())]);
        assert_eq!(message, "");
    }
}

#[test]
fn empty_payload_is_an_empty_commit() {
    let (header, message) = deserialize_kv_with_message(&Vec::new()).unwrap();
    assert!(header.is_empty());
    assert_eq!(message, "");
}

#[test]
fn repeated_key_keeps_first_place_and_last_value() {
    let data = b"parent one\nauthor me\nparent two\n more\n\n".to_vec();
    let (header, _) = deserialize_kv_with_message(&data).unwrap();
    assert_eq!(
        entries_of(&header),
        vec![
            ("parent".to_string(), "two\nmore".to_string()),
            ("author".to_string(), "me".to_string()),
        ]
    );
}

#[test]
fn continuation_strips_exactly_one_space() {
    let data = b"gpgsig begin\n  indented\n \n end\n\nmsg".to_vec();
    let (header, message) = deserialize_kv_with_message(&data).unwrap();
    assert_eq!(
        entries_of(&header),
        vec![("gpgsig".to_string(), "begin\n indented\n\nend".to_string())]
    );
    assert_eq!(message, "msg");
    assert_eq!(serialize_kv_with_message(&header, &message), data);
}

#[test]
fn value_may_be_empty_and_hold_spaces() {
    let data = b"key \nother a b  c\n\n".to_vec();
    let (header, _) = deserialize_kv_with_message(&data).unwrap();
    assert_eq!(
        entries_of(&header),
        vec![
            ("key".to_string(), "".to_string()),
            ("other".to_string(), "a b  c".to_string()),
        ]
    );
}

#[test]
fn invalid_utf8_is_rejected() {
    let data = vec![b't', b'r', b'e', b'e', b' ', 0xff, 0xfe, b'\n'];
    assert_eq!(deserialize_kv_with_message(&data).err(), Some(CommitError::InvalidUtf8));
}

#[test]
fn continuation_without_key_is_rejected() {
    let data = b" orphan\ntree abc\n\n".to_vec();
    assert_eq!(deserialize_kv_with_message(&data).err(), Some(CommitError::OrphanContinuation));
}

#[test]
fn header_line_without_space_is_rejected() {
    let data = b"tree abc\nnovalue\n\nmessage".to_vec();
    assert_eq!(deserialize_kv_with_message(&data).err(), Some(CommitError::MissingValue));
}

#[test]
fn non_ascii_text_round_trips() {
    let header = header_of(&[("author", "Zo\u{eb} \u{1f600}\n\u{4e2d}\u{6587}")]);
    let message = "caf\u{e9}\n";
    let data = serialize_kv_with_message(&header, message);
    let (parsed, parsed_message) = deserialize_kv_with_message(&data).unwrap();
    assert_eq!(entries_of(&parsed), entries_of(&header));
    assert_eq!(parsed_message, message);
}

#[test]
fn commit_from_object_and_back() {
    let payload = b"tree abc123\nauthor A <a@x> 0 +0000\n continued\n\nInitial commit\n".to_vec();
    let object = GitObject::with_data(GitObjectType::Commit, payload.clone());
    let commit = GitCommit::from_git_object(object).unwrap();
    assert_eq!(commit.header().get("tree").map(String::as_str), Some("abc123"));
    assert_eq!(
        commit.header().get("author").map(String::as_str),
        Some("A <a@x> 0 +0000\ncontinued")
    );
    assert_eq!(commit.message(), "Initial commit\n");
    assert_eq!(commit.serialize(), payload);
    assert_eq!(
        commit.to_string(),
        "tree abc123\nauthor A <a@x> 0 +0000\ncontinued\n\nInitial commit\n"
    );
}

#[test]
fn only_commits_are_read_as_commits() {
    let payload = b"tree abc123\n\nmessage".to_vec();
    for kind in [GitObjectType::Blob, GitObjectType::Tag, GitObjectType::Tree] {
        let object = GitObject::with_data(kind, payload.clone());
        assert_eq!(GitCommit::from_git_object(object).err(), Some(CommitError::NotACommit));
    }
    assert_eq!(GitCommit::from_git_object(GitObject::new()).err(), Some(CommitError::NotACommit));
}

#[test]
fn commit_errors_have_their_text() {
    assert_eq!(CommitError::NotACommit.message(), "Could not create commit object");
    assert_eq!(CommitError::InvalidUtf8.message(), "Failed to parse object data");
    assert_eq!(
        CommitError::OrphanContinuation.message(),
        "Failed to parse object data, continuation line without a key"
    );
    assert_eq!(
        CommitError::MissingValue.message(),
        "Failed to parse object data, key without a value"
    );
}

#[test]
fn value_with_many_lines_round_trips() {
    let values = ["", "\n", "\n\n", "a\n", "\na", " a", "a \n b\n\n  c\n", "\r\n x\r"];
    for value in values {
        for message in ["", "\n", "m", " leading\n\n trailing \n"] {
            let header = header_of(&[("first", value), ("second", "x"), ("third", value)]);
            let data = serialize_kv_with_message(&header, message);
            let (parsed, parsed_message) = deserialize_kv_with_message(&data).unwrap();
            assert_eq!(entries_of(&parsed), entries_of(&header), "value {:?}", value);
            assert_eq!(parsed_message, message);
        }
    }
}

#[test]
fn serialize_writes_each_entry_on_its_lines() {
    let header = header_of(&[("tree", "abc"), ("gpgsig", "one\n\ntwo\n"), ("empty", "")]);
    assert_eq!(
        serialize_kv_with_message(&header, "msg"),
        b"tree abc\ngpgsig one\n \n two\n \nempty \n\nmsg".to_vec()
    );
    assert_eq!(serialize_kv_with_message(&IndexMap::new(), ""), b"\n".to_vec());
}

#[test]
fn header_keeps_the_order_of_insertion() {
    let header = header_of(&[("z", "1"), ("a", "2"), ("m", "3"), ("z", "4")]);
    let data = serialize_kv_with_message(&header, "");
    assert_eq!(data, b"z 4\na 2\nm 3\n\n".to_vec());
    let (parsed, _) = deserialize_kv_with_message(&data).unwrap();
    let keys: Vec<&str> = parsed.keys().map(String::as_str).collect();
    assert_eq!(keys, vec!["z", "a", "m"]);
}

#[test]
fn new_commit_is_empty() {
    let commit = GitCommit::new();
    assert!(commit.header().is_empty());
    assert_eq!(commit.message(), "");
    assert_eq!(commit.serialize(), b"\n".to_vec());
}
