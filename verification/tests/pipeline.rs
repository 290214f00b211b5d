use tust::apply::apply_changes;
use tust::diff::{compare_directories, Change};
use tust::tree::{bytes_eq, clone_bytes, join_path, FileEntry, FileTree};

fn tree(files: &[(&[u8], &[u8])]) -> FileTree {
    let mut t = FileTree::new();
    for (p, c) in files {
        assert!(!t.contains_path(&p.to_vec()));
        t.push_file(p.to_vec(), c.to_vec());
    }
    t
}

fn find<'a>(changes: &'a [Change], path: &[u8]) -> Option<&'a Change> {
    changes.iter().find(|c| c.path_ref().as_slice() == path)
}

#[test]
fn diff_identical_trees_is_empty() {
    let a = tree(&[(b"a.txt", b"hello"), (b"dir/b.txt", b"world")]);
    let b = tree(&[(b"a.txt", b"hello"), (b"dir/b.txt", b"world")]);
    let changes = compare_directories(&a, &b);
    assert!(changes.is_empty());
}

#[test]
fn diff_empty_trees_is_empty() {
    let a = FileTree::new();
    let b = FileTree::new();
    assert!(compare_directories(&a, &b).is_empty());
}

#[test]
fn diff_scenario_modify_delete_create() {
    let original = tree(&[(b"a.txt", b"hello"), (b"b.txt", b"world")]);
    let modified = tree(&[(b"a.txt", b"hello!"), (b"c.txt", b"new")]);
    let changes = compare_directories(&original, &modified);
    assert_eq!(changes.len(), 3);
    assert!(matches!(find(&changes, b"a.txt"), Some(Change::Modify(_))));
    assert!(matches!(find(&changes, b"b.txt"), Some(Change::Delete(_))));
    assert!(matches!(find(&changes, b"c.txt"), Some(Change::Create(_))));
}

#[test]
fn apply_round_trip_scenario() {
    let original = tree(&[(b"a.txt", b"hello"), (b"b.txt", b"world")]);
    let modified = tree(&[(b"a.txt", b"hello!"), (b"c.txt", b"new")]);
    let changes = compare_directories(&original, &modified);
    let result = apply_changes(&original, &modified, &changes);
    assert_eq!(
        result.lookup(&b"a.txt".to_vec()).map(|v| v.clone()),
        Some(b"hello!".to_vec())
    );
    assert_eq!(
        result.lookup(&b"c.txt".to_vec()).map(|v| v.clone()),
        Some(b"new".to_vec())
    );
    assert!(result.lookup(&b"b.txt".to_vec()).is_none());
    assert!(compare_directories(&result, &modified).is_empty());
}

#[test]
fn apply_empty_change_list_keeps_tree() {
    let original = tree(&[(b"a.txt", b"hello")]);
    let same = tree(&[(b"a.txt", b"hello")]);
    let changes = compare_directories(&original, &same);
    assert!(changes.is_empty());
    let result = apply_changes(&original, &same, &changes);
    assert!(compare_directories(&result, &original).is_empty());
}

#[test]
fn diff_create_only_yields_single_create() {
    let original = tree(&[(b"a.txt", b"hello")]);
    let modified = tree(&[(b"a.txt", b"hello"), (b"new.txt", b"fresh")]);
    let changes = compare_directories(&original, &modified);
    assert_eq!(changes.len(), 1);
    assert!(matches!(&changes[0], Change::Create(p) if p.as_slice() == b"new.txt"));
}

#[test]
fn diff_delete_only_yields_single_delete() {
    let original = tree(&[(b"a.txt", b"hello"), (b"old.txt", b"stale")]);
    let modified = tree(&[(b"a.txt", b"hello")]);
    let changes = compare_directories(&original, &modified);
    assert_eq!(changes.len(), 1);
    assert!(matches!(&changes[0], Change::Delete(p) if p.as_slice() == b"old.txt"));
}

#[test]
fn diff_content_change_same_size_yields_single_modify() {
    let original = tree(&[(b"a.txt", b"abc"), (b"b.txt", b"same")]);
    let modified = tree(&[(b"a.txt", b"abd"), (b"b.txt", b"same")]);
    let changes = compare_directories(&original, &modified);
    assert_eq!(changes.len(), 1);
    assert!(matches!(&changes[0], Change::Modify(p) if p.as_slice() == b"a.txt"));
}

#[test]
fn diff_size_change_yields_single_modify() {
    let original = tree(&[(b"a.txt", b"abc")]);
    let modified = tree(&[(b"a.txt", b"abcdef")]);
    let changes = compare_directories(&original, &modified);
    assert_eq!(changes.len(), 1);
    assert!(matches!(&changes[0], Change::Modify(p) if p.as_slice() == b"a.txt"));
}

#[test]
fn diff_zero_byte_files_are_unchanged() {
    let original = tree(&[(b"empty.txt", b"")]);
    let modified = tree(&[(b"empty.txt", b"")]);
    assert!(compare_directories(&original, &modified).is_empty());
}

#[test]
fn diff_unchanged_file_never_listed() {
    let original = tree(&[(b"same.txt", b"stable"), (b"a.txt", b"one")]);
    let modified = tree(&[(b"same.txt", b"stable"), (b"b.txt", b"two")]);
    let changes = compare_directories(&original, &modified);
    assert_eq!(changes.len(), 2);
    assert!(find(&changes, b"same.txt").is_none());
}

#[test]
fn apply_mixed_changes_matches_modified() {
    let original = tree(&[
        (b"keep.txt", b"kept"),
        (b"edit.txt", b"before"),
        (b"drop.txt", b"gone"),
    ]);
    let modified = tree(&[
        (b"keep.txt", b"kept"),
        (b"edit.txt", b"after, and longer"),
        (b"added/deep.txt", b"brand new"),
    ]);
    let changes = compare_directories(&original, &modified);
    assert_eq!(changes.len(), 3);
    let result = apply_changes(&original, &modified, &changes);
    assert!(compare_directories(&result, &modified).is_empty());
    assert_eq!(
        result.lookup(&b"keep.txt".to_vec()).map(|v| v.clone()),
        Some(b"kept".to_vec())
    );
}

#[test]
fn copy_tree_is_byte_identical() {
    let original = tree(&[(b"a.txt", b"hello"), (b"d/e.txt", b"deep")]);
    let copy = original.copy_tree();
    assert!(compare_directories(&original, &copy).is_empty());
    assert!(compare_directories(&copy, &original).is_empty());
}

#[test]
fn lookup_and_contains_path() {
    let t = tree(&[(b"a.txt", b"hello")]);
    assert!(t.contains_path(&b"a.txt".to_vec()));
    assert!(!t.contains_path(&b"missing".to_vec()));
    assert_eq!(
        t.lookup(&b"a.txt".to_vec()).map(|v| v.clone()),
        Some(b"hello".to_vec())
    );
    assert!(t.lookup(&b"missing".to_vec()).is_none());
}

#[test]
fn check_wf_spots_duplicate_paths() {
    let good = tree(&[(b"a.txt", b"x"), (b"b.txt", b"y")]);
    assert!(good.check_wf());
    let bad = FileTree {
        entries: vec![
            FileEntry {
                path: b"a.txt".to_vec(),
                content: b"x".to_vec(),
            },
            FileEntry {
                path: b"a.txt".to_vec(),
                content: b"y".to_vec(),
            },
        ],
    };
    assert!(!bad.check_wf());
}

#[test]
fn bytes_eq_compares_contents() {
    assert!(bytes_eq(&b"abc".to_vec(), &b"abc".to_vec()));
    assert!(!bytes_eq(&b"abc".to_vec(), &b"abd".to_vec()));
    assert!(!bytes_eq(&b"abc".to_vec(), &b"ab".to_vec()));
    assert!(bytes_eq(&Vec::new(), &Vec::new()));
    assert_eq!(clone_bytes(&b"abc".to_vec()), b"abc".to_vec());
}

#[test]
fn join_path_builds_relative_paths() {
    assert_eq!(
        join_path(&Vec::new(), &b"a.txt".to_vec()),
        b"a.txt".to_vec()
    );
    assert_eq!(
        join_path(&b"dir".to_vec(), &b"a.txt".to_vec()),
        b"dir/a.txt".to_vec()
    );
    assert_eq!(
        join_path(&b"dir/sub".to_vec(), &b"a.txt".to_vec()),
        b"dir/sub/a.txt".to_vec()
    );
}
