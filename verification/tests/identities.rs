//! Generating identifiers from content.

use std::io::Read;

use hazy_ipa::generate::FileIdHasher;
use hazy_ipa::{Tree, ID};

const EMPTY_ID: &str = "v0:e3b0c44298fc1c149afbf4c8996fb92427ae41e4649b934ca495991b7852b855";

#[test]
fn can_generate_file_ids() {
    assert_eq!(EMPTY_ID, ID::generate_file_id(b"").as_str());
    assert_eq!(
        "v0:b94d27b9934d3e08a52e52d7da7dabfac484efe37a5380ee9088f7ace2efcde9",
        ID::generate_file_id(b"hello world").as_str(),
    );
}

fn id_from_reader<R: Read>(mut reader: R) -> ID {
    let mut hasher = FileIdHasher::new();
    let mut buf = [0u8; 4];
    loop {
        let n = reader.read(&mut buf).unwrap();
        if n == 0 {
            break;
        }
        hasher.update(&buf[..n]);
    }
    hasher.finish()
}

#[test]
fn can_generate_file_ids_from_reader() {
    assert_eq!(EMPTY_ID, id_from_reader(b"".as_slice()).as_str());
    assert_eq!(
        "v0:b94d27b9934d3e08a52e52d7da7dabfac484efe37a5380ee9088f7ace2efcde9",
        id_from_reader(b"hello world".as_slice()).as_str(),
    );
}

#[test]
fn can_generate_tree_ids() {
    let mut tree = Tree::new();
    assert_eq!(EMPTY_ID, ID::generate_tree_id(&tree).as_str());

    tree.add_file(b"test-file".to_vec(), ID::from(EMPTY_ID))
        .expect("Error adding file");
    tree.add_subdirectory(b"test-tree".to_vec(), ID::from(EMPTY_ID))
        .expect("Error adding tree");
    assert_eq!(
        "v0:c202acb72512cc6220a5ac76f3132e81e28d7097fa618c4615200d2d5c4a0a8d",
        ID::generate_tree_id(&tree).as_str(),
    );
}

#[test]
fn file_ids_are_deterministic() {
    let once = ID::generate_file_id(b"some file content");
    let twice = ID::generate_file_id(b"some file content");
    assert_eq!(once, twice);

    let streamed = id_from_reader(b"some file content".as_slice());
    assert_eq!(once, streamed);

    let mut chunked = FileIdHasher::new();
    chunked.update(b"some file");
    chunked.update(b" content");
    assert_eq!(once, chunked.finish());
}

#[test]
fn tree_ids_do_not_depend_on_insertion_order() {
    let mut forward = Tree::new();
    forward.add_file(b"alpha".to_vec(), ID::from("[a]")).unwrap();
    forward.add_subdirectory(b"beta".to_vec(), ID::from("[b]")).unwrap();

    let mut backward = Tree::new();
    backward.add_subdirectory(b"beta".to_vec(), ID::from("[b]")).unwrap();
    backward.add_file(b"alpha".to_vec(), ID::from("[a]")).unwrap();

    assert_eq!(
        ID::generate_tree_id(&forward),
        ID::generate_tree_id(&backward),
    );
}

#[test]
fn kind_discriminators_reach_the_tree_id() {
    let mut as_file = Tree::new();
    as_file.add_file(b"x".to_vec(), ID::from("[x]")).unwrap();
    let mut as_tree = Tree::new();
    as_tree.add_subdirectory(b"x".to_vec(), ID::from("[x]")).unwrap();
    assert_ne!(
        ID::generate_tree_id(&as_file),
        ID::generate_tree_id(&as_tree),
    );
}
