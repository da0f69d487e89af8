//! Building snapshots from relative path listings.

use hazy_ipa::builders::{RelativePathBuilder, RelativePathBuilderError};
use hazy_ipa::ID;

#[test]
fn can_create_snapshot() {
    let mut builder = RelativePathBuilder::new();
    builder.add_file("a/b/c.py", ID::from("[c.py]")).unwrap();
    builder.add_file("a/b/d.py", ID::from("[d.py]")).unwrap();
    builder.set_tree_id("", ID::from("[root]"));
    builder.set_tree_id("a", ID::from("[a]"));
    builder.set_tree_id("a/b", ID::from("[b]"));
    let snapshot = builder.build().unwrap();
    assert_eq!(
        "root [root]\n\
         \n\
         tree [a]\n\
         \x20 b tree [b]\n\
         \n\
         tree [b]\n\
         \x20 c.py file [c.py]\n\
         \x20 d.py file [d.py]\n\
         \n\
         tree [root]\n\
         \x20 a tree [a]\n",
        snapshot.render().to_string(),
    );
}

#[test]
fn can_create_snapshot_with_generated_ids() {
    let mut builder = RelativePathBuilder::new();
    builder.add_file("a/b/c.py", ID::from("[c.py]")).unwrap();
    builder.add_file("a/b/d.py", ID::from("[d.py]")).unwrap();
    let snapshot = builder.build().unwrap();
    assert_eq!(
        "root v0:73aa6fd8fa53e97a7c539803402b1db8a62d7486d560832b01d7029a913cc23a\n\
         \n\
         tree v0:73aa6fd8fa53e97a7c539803402b1db8a62d7486d560832b01d7029a913cc23a\n\
         \x20 a tree v0:7a347439b65849a05f364842edad5ebf5aaaab212405e7e2cb13c36f6079f431\n\
         \n\
         tree v0:7a347439b65849a05f364842edad5ebf5aaaab212405e7e2cb13c36f6079f431\n\
         \x20 b tree v0:ea08917465f1557745c15000c34a9475ca724ec4c20d70266998d34f0fec6b54\n\
         \n\
         tree v0:ea08917465f1557745c15000c34a9475ca724ec4c20d70266998d34f0fec6b54\n\
         \x20 c.py file [c.py]\n\
         \x20 d.py file [d.py]\n",
        snapshot.render().to_string(),
    );
}

#[test]
fn can_create_snapshot_with_identical_directories() {
    // a/b and a/q hold the same contents, so they SHOULD share a tree
    // ID; assigning them different IDs is not an error, it only loses
    // the sharing of anything keyed by tree ID.
    let mut builder = RelativePathBuilder::new();
    builder.add_file("a/b/c.py", ID::from("[c.py]")).unwrap();
    builder.add_file("a/b/d.py", ID::from("[d.py]")).unwrap();
    builder.add_file("a/q/c.py", ID::from("[c.py]")).unwrap();
    builder.add_file("a/q/d.py", ID::from("[d.py]")).unwrap();
    builder.set_tree_id("", ID::from("[root]"));
    builder.set_tree_id("a", ID::from("[a]"));
    builder.set_tree_id("a/b", ID::from("[b]"));
    builder.set_tree_id("a/q", ID::from("[q]"));
    let snapshot = builder.build().unwrap();
    assert_eq!(
        "root [root]\n\
         \n\
         tree [a]\n\
         \x20 b tree [b]\n\
         \x20 q tree [q]\n\
         \n\
         tree [b]\n\
         \x20 c.py file [c.py]\n\
         \x20 d.py file [d.py]\n\
         \n\
         tree [q]\n\
         \x20 c.py file [c.py]\n\
         \x20 d.py file [d.py]\n\
         \n\
         tree [root]\n\
         \x20 a tree [a]\n",
        snapshot.render().to_string(),
    );
}

#[test]
fn can_create_snapshot_with_overlapping_generated_ids() {
    let mut builder = RelativePathBuilder::new();
    builder.add_file("a/b/c.py", ID::from("[c.py]")).unwrap();
    builder.add_file("a/b/d.py", ID::from("[d.py]")).unwrap();
    builder.add_file("a/q/c.py", ID::from("[c.py]")).unwrap();
    builder.add_file("a/q/d.py", ID::from("[d.py]")).unwrap();
    let snapshot = builder.build().unwrap();
    assert_eq!(
        "root v0:1c6dd3217c2aa889f8b6fd4fa6d087413cf041dd5777afb88acc78a0e07a012c\n\
         \n\
         tree v0:1c6dd3217c2aa889f8b6fd4fa6d087413cf041dd5777afb88acc78a0e07a012c\n\
         \x20 a tree v0:e64ae3fdb29b0f9c18a9338f38967e697e017085b3b38d549e82fda45ad83c5c\n\
         \n\
         tree v0:e64ae3fdb29b0f9c18a9338f38967e697e017085b3b38d549e82fda45ad83c5c\n\
         \x20 b tree v0:ea08917465f1557745c15000c34a9475ca724ec4c20d70266998d34f0fec6b54\n\
         \x20 q tree v0:ea08917465f1557745c15000c34a9475ca724ec4c20d70266998d34f0fec6b54\n\
         \n\
         tree v0:ea08917465f1557745c15000c34a9475ca724ec4c20d70266998d34f0fec6b54\n\
         \x20 c.py file [c.py]\n\
         \x20 d.py file [d.py]\n",
        snapshot.render().to_string(),
    );
}

#[test]
fn cannot_create_snapshot_with_inconsistent_file_and_tree() {
    let mut builder = RelativePathBuilder::new();
    builder.add_file("a/b/c", ID::from("[c]")).unwrap();
    let error = builder.add_directory("a/b/c");
    assert!(matches!(
        error,
        Err(RelativePathBuilderError::DuplicatePath { .. })
    ));
}

#[test]
fn cannot_create_snapshot_with_inconsistent_overlapping_ids() {
    // a/b and a/q hold different contents, so giving them the same
    // tree ID is a proper error.
    let mut builder = RelativePathBuilder::new();
    builder.add_file("a/b/c.py", ID::from("[c.py]")).unwrap();
    builder.add_file("a/b/d.py", ID::from("[d.py]")).unwrap();
    builder.add_file("a/q/c.py", ID::from("[c.py]")).unwrap();
    builder.set_tree_id("", ID::from("[root]"));
    builder.set_tree_id("a", ID::from("[a]"));
    builder.set_tree_id("a/b", ID::from("[OVERLAP]"));
    builder.set_tree_id("a/q", ID::from("[OVERLAP]"));
    let error = builder.build();
    assert!(matches!(
        error,
        Err(RelativePathBuilderError::InconsistentDirectories { .. })
    ));
}

#[test]
fn rejects_invalid_paths() {
    let mut builder = RelativePathBuilder::new();
    let empty = builder.add_file("", ID::from("[x]"));
    assert!(matches!(
        empty,
        Err(RelativePathBuilderError::InvalidPath { .. })
    ));
    let parent = builder.add_file("a/../b", ID::from("[x]"));
    assert!(matches!(
        parent,
        Err(RelativePathBuilderError::InvalidPath { .. })
    ));
    let dot = builder.add_directory("./a");
    assert!(matches!(
        dot,
        Err(RelativePathBuilderError::InvalidPath { .. })
    ));
}

#[test]
fn reports_the_conflicting_prefix() {
    let mut builder = RelativePathBuilder::new();
    builder.add_file("a/b", ID::from("[b]")).unwrap();
    let error = builder.add_file("a/b/c", ID::from("[c]"));
    match error {
        Err(RelativePathBuilderError::DuplicatePath { path }) => {
            assert_eq!("a/b", path);
        }
        other => panic!("expected a duplicate path, got {:?}", other),
    }
}

#[test]
fn reuses_an_existing_directory() {
    let mut builder = RelativePathBuilder::new();
    builder.add_directory("a/b").unwrap();
    builder.add_directory("a/b").unwrap();
    builder.add_file("a/b/c.py", ID::from("[c.py]")).unwrap();
    assert!(builder.build().is_ok());
}

#[test]
fn builds_an_empty_snapshot() {
    let builder = RelativePathBuilder::new();
    let snapshot = builder.build().unwrap();
    assert_eq!(
        "root v0:e3b0c44298fc1c149afbf4c8996fb92427ae41e4649b934ca495991b7852b855\n\
         \n\
         tree v0:e3b0c44298fc1c149afbf4c8996fb92427ae41e4649b934ca495991b7852b855\n",
        snapshot.render().to_string(),
    );
}

#[test]
fn repeated_and_trailing_slashes_carry_no_meaning() {
    let mut builder = RelativePathBuilder::new();
    builder.add_file("a//b.py", ID::from("[b.py]")).unwrap();
    builder.add_directory("a/c/").unwrap();
    builder.set_tree_id("", ID::from("[root]"));
    builder.set_tree_id("a", ID::from("[a]"));
    builder.set_tree_id("a/c", ID::from("[c]"));
    let snapshot = builder.build().unwrap();
    assert_eq!(
        "root [root]\n\
         \n\
         tree [a]\n\
         \x20 b.py file [b.py]\n\
         \x20 c tree [c]\n\
         \n\
         tree [c]\n\
         \n\
         tree [root]\n\
         \x20 a tree [a]\n",
        snapshot.render().to_string(),
    );
}
