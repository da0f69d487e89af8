//! The tree and snapshot model and the direct snapshot builder.

use hazy_ipa::builders::{SnapshotBuilder, SnapshotBuilderError};
use hazy_ipa::{EntryKind, Tree, TreeEntry, TreeError, ID};

#[test]
fn entry_kinds_have_text_forms() {
    assert_eq!("file", EntryKind::File.as_str());
    assert_eq!("tree", EntryKind::Tree.as_str());
}

#[test]
fn tree_entries_carry_kind_and_id() {
    let file = TreeEntry::file(ID::from("[f]"));
    assert_eq!(EntryKind::File, file.kind);
    assert_eq!("[f]", file.id.as_str());
    let tree = TreeEntry::tree(ID::from("[t]"));
    assert_eq!(EntryKind::Tree, tree.kind);
    assert_eq!("[t]", tree.id.as_str());
}

#[test]
fn trees_reject_duplicate_names() {
    let mut tree = Tree::new();
    tree.add_file(b"name".to_vec(), ID::from("[1]")).unwrap();
    let error = tree.add_subdirectory(b"name".to_vec(), ID::from("[2]"));
    match error {
        Err(TreeError::DuplicateEntry { name }) => assert_eq!("name", name),
        other => panic!("expected a duplicate entry, got {:?}", other),
    }
}

#[test]
fn trees_keep_entries_sorted_by_name() {
    let mut tree = Tree::new();
    tree.add_file(b"zeta".to_vec(), ID::from("[z]")).unwrap();
    tree.add_file(b"alpha".to_vec(), ID::from("[a]")).unwrap();
    tree.add_file(b"mid".to_vec(), ID::from("[m]")).unwrap();
    let names: Vec<&[u8]> = tree.iter().iter().map(|(n, _)| n.as_slice()).collect();
    assert_eq!(vec![b"alpha".as_slice(), b"mid", b"zeta"], names);
}

fn single_entry_snapshot() -> Result<hazy_ipa::Snapshot, SnapshotBuilderError> {
    let mut builder = SnapshotBuilder::new();
    let mut root = Tree::new();
    root.add_file(b"f".to_vec(), ID::from("[f]")).unwrap();
    builder.add_tree(ID::from("[root]"), root).unwrap();
    builder.with_id(ID::from("[root]"))
}

#[test]
fn snapshot_builder_validates_closure() {
    let snapshot = single_entry_snapshot().unwrap();
    assert_eq!("[root]", snapshot.id().as_str());
    assert_eq!(1, snapshot.trees().len());
}

#[test]
fn snapshot_builder_rejects_duplicate_trees() {
    let mut builder = SnapshotBuilder::new();
    builder.add_tree(ID::from("[t]"), Tree::new()).unwrap();
    let error = builder.add_tree(ID::from("[t]"), Tree::new());
    assert!(matches!(
        error,
        Err(SnapshotBuilderError::DuplicateTree { .. })
    ));
}

#[test]
fn snapshot_builder_rejects_a_missing_root() {
    let builder = SnapshotBuilder::new();
    let error = builder.with_id(ID::from("[root]"));
    assert!(matches!(error, Err(SnapshotBuilderError::MissingTree { .. })));
}

#[test]
fn snapshot_builder_rejects_an_orphan_tree() {
    let mut builder = SnapshotBuilder::new();
    builder.add_tree(ID::from("[root]"), Tree::new()).unwrap();
    builder.add_tree(ID::from("[stray]"), Tree::new()).unwrap();
    let error = builder.with_id(ID::from("[root]"));
    assert!(matches!(error, Err(SnapshotBuilderError::InconsistentTrees)));
}

#[test]
fn snapshot_builder_rejects_a_dangling_reference() {
    let mut builder = SnapshotBuilder::new();
    let mut root = Tree::new();
    root.add_subdirectory(b"child".to_vec(), ID::from("[missing]"))
        .unwrap();
    builder.add_tree(ID::from("[root]"), root).unwrap();
    let error = builder.with_id(ID::from("[root]"));
    assert!(matches!(error, Err(SnapshotBuilderError::InconsistentTrees)));
}

#[test]
fn renders_non_text_names_escaped() {
    let mut builder = SnapshotBuilder::new();
    let mut root = Tree::new();
    root.add_file(vec![0xff, 0x41, 0x09], ID::from("[raw]")).unwrap();
    builder.add_tree(ID::from("[root]"), root).unwrap();
    let snapshot = builder.with_id(ID::from("[root]")).unwrap();
    assert_eq!(
        "root [root]\n\
         \n\
         tree [root]\n\
         \x20 \\xffA\\t file [raw]\n",
        snapshot.render().to_string(),
    );
}

#[test]
fn clones_preserve_content() {
    let snapshot = single_entry_snapshot().unwrap();
    let copy = snapshot.clone();
    assert_eq!(snapshot.render().to_string(), copy.render().to_string());

    let mut tree = Tree::new();
    tree.add_file(b"f".to_vec(), ID::from("[f]")).unwrap();
    let tree_copy = tree.clone();
    assert_eq!(
        ID::generate_tree_id(&tree),
        ID::generate_tree_id(&tree_copy),
    );
}
