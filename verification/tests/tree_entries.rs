use git_objects::object::{GitObject, GitObjectType};
use git_objects::tree::{GitLeaf, GitTree, TreeError};

fn entry(mode: &str, path: &str, id: &[u8]) -> Vec<u8> {
    let mut data = Vec::new();
    data.extend_from_slice(mode.as_bytes());
    data.push(b' ');
    data.extend_from_slice(path.as_bytes());
    data.push(0);
    data.extend_from_slice(id);
    data
}

fn id_from(first: u8) -> [u8; 20] {
    let mut id = [0u8; 20];
    for (i, b) in id.iter_mut().enumerate() {
        *b = first.wrapping_add(i as u8);
    }
    id
}

#[test]
fn single_entry_parses_to_one_leaf() {
    let id = id_from(0xf0);
    let data = entry("100644", "file.txt", &id);
    let tree = GitTree::parse(&data).unwrap();
    assert_eq!(
        tree.records(),
        &vec![GitLeaf { mode: "100644".to_string(), path: "file.txt".to_string(), sha: id }]
    );
}

#[test]
fn short_id_is_rejected() {
    let id = id_from(1);
    let data = entry("100644", "file.txt", &id[..19]);
    assert_eq!(GitTree::parse(&data).err(), Some(TreeError::TruncatedId));
    let data = entry("100644", "file.txt", &[]);
    assert_eq!(GitTree::parse(&data).err(), Some(TreeError::TruncatedId));
}

#[test]
fn entries_keep_their_order() {
    let mut data = entry("40000", "src", &id_from(0x20));
    data.extend(entry("100644", "b.txt", &id_from(0)));
    data.extend(entry("100755", "a.sh", &id_from(0x20)));
    let tree = GitTree::parse(&data).unwrap();
    let paths: Vec<&str> = tree.records().iter().map(|leaf| leaf.path.as_str()).collect();
    assert_eq!(paths, vec!["src", "b.txt", "a.sh"]);
    assert_eq!(tree.records()[0].sha, id_from(0x20));
    assert_eq!(tree.records()[1].sha, id_from(0));
    assert_eq!(tree.records()[2].mode, "100755");
}

#[test]
fn id_may_hold_spaces_and_nul_bytes() {
    let mut id = [0x20u8; 20];
    id[3] = 0;
    let mut data = entry("100644", "a", &id);
    data.extend(entry("100644", "b", &id));
    let tree = GitTree::parse(&data).unwrap();
    assert_eq!(tree.records().len(), 2);
    assert_eq!(tree.records()[1].path, "b");
    assert_eq!(tree.records()[1].sha, id);
}

#[test]
fn empty_payload_is_an_empty_tree() {
    assert_eq!(GitTree::parse(&Vec::new()).unwrap(), GitTree::new());
    assert!(GitTree::new().records().is_empty());
}

#[test]
fn trailing_bytes_are_rejected() {
    let mut data = entry("100644", "file.txt", &id_from(7));
    data.extend_from_slice(b"junk");
    assert_eq!(GitTree::parse(&data).err(), Some(TreeError::UnterminatedMode));
}

#[test]
fn each_malformation_has_its_error() {
    let id = id_from(9);
    assert_eq!(GitTree::parse(&b"100644".to_vec()).err(), Some(TreeError::UnterminatedMode));
    let mut bad_mode = vec![0x31, 0xff, b' ', b'x', 0];
    bad_mode.extend_from_slice(&id);
    assert_eq!(GitTree::parse(&bad_mode).err(), Some(TreeError::InvalidMode));
    assert_eq!(
        GitTree::parse(&b"100644 file.txt".to_vec()).err(),
        Some(TreeError::UnterminatedPath)
    );
    let mut bad_path = b"100644 ".to_vec();
    bad_path.extend_from_slice(&[0xff, 0xfe, 0]);
    bad_path.extend_from_slice(&id);
    assert_eq!(GitTree::parse(&bad_path).err(), Some(TreeError::InvalidPath));
    for error in [
        TreeError::UnterminatedMode,
        TreeError::InvalidMode,
        TreeError::UnterminatedPath,
        TreeError::InvalidPath,
        TreeError::TruncatedId,
    ] {
        assert_eq!(error.message(), "Malformed tree");
    }
    assert_eq!(TreeError::NotATree.message(), "Could not create tree object");
}

#[test]
fn error_in_a_later_entry_fails_the_tree() {
    let mut data = entry("100644", "a", &id_from(1));
    data.extend(entry("100644", "b", &id_from(2)[..5]));
    assert_eq!(GitTree::parse(&data).err(), Some(TreeError::TruncatedId));
}

#[test]
fn mode_and_path_may_be_empty_or_not_ascii() {
    let mut data = entry("", "", &id_from(1));
    data.extend(entry("40000", "d\u{e9}j\u{e0} vu", &id_from(2)));
    let tree = GitTree::parse(&data).unwrap();
    assert_eq!(tree.records()[0].mode, "");
    assert_eq!(tree.records()[0].path, "");
    assert_eq!(tree.records()[1].path, "d\u{e9}j\u{e0} vu");
}

#[test]
fn serialize_is_the_inverse_of_parse() {
    let mut data = entry("40000", "src", &id_from(0x20));
    data.extend(entry("100644", "b \u{e9}.txt", &id_from(0)));
    data.extend(entry("100755", "a.sh", &id_from(0xf3)));
    let tree = GitTree::parse(&data).unwrap();
    assert_eq!(tree.serialize(), data);
    assert_eq!(GitTree::parse(&tree.serialize()).unwrap(), tree);
    assert_eq!(GitTree::new().serialize(), Vec::<u8>::new());
}

#[test]
fn tree_is_read_from_an_object_of_type_tree() {
    let data = entry("100644", "file.txt", &id_from(4));
    let object = GitObject::with_data(GitObjectType::Tree, data.clone());
    let tree = GitTree::from_git_object(&object).unwrap();
    assert_eq!(tree.records().len(), 1);
    assert_eq!(tree.records()[0].path, "file.txt");
    for kind in [GitObjectType::Blob, GitObjectType::Commit, GitObjectType::Tag] {
        let object = GitObject::with_data(kind, data.clone());
        assert_eq!(GitTree::from_git_object(&object).err(), Some(TreeError::NotATree));
    }
    assert_eq!(GitTree::from_git_object(&GitObject::new()).err(), Some(TreeError::NotATree));
}

#[test]
fn parse_leaf_moves_the_offset_past_the_entry() {
    let id = id_from(3);
    let mut data = entry("100644", "file.txt", &id);
    let first = data.len();
    data.extend(entry("40000", "dir", &id));
    let mut offset = 0usize;
    let leaf = GitTree::parse_leaf(&data[offset..], &mut offset).unwrap();
    assert_eq!(leaf.path, "file.txt");
    assert_eq!(offset, first);
    let leaf = GitTree::parse_leaf(&data[offset..], &mut offset).unwrap();
    assert_eq!(leaf.path, "dir");
    assert_eq!(offset, data.len());
    let mut unchanged = 5usize;
    assert_eq!(
        GitTree::parse_leaf(b"100644 x", &mut unchanged).err(),
        Some(TreeError::UnterminatedPath)
    );
    assert_eq!(unchanged, 5);
}
