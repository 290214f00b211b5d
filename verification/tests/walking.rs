use tust::tree::{join_path, FileTree};
use tust::walk::{collect_files, DirChild, DirFile, DirNode};

fn file(name: &[u8], content: &[u8]) -> DirFile {
    DirFile {
        name: name.to_vec(),
        content: content.to_vec(),
    }
}

fn dir(name: &[u8], node: DirNode) -> DirChild {
    DirChild {
        name: name.to_vec(),
        node,
    }
}

fn leaf(files: Vec<DirFile>) -> DirNode {
    DirNode {
        files,
        dirs: Vec::new(),
    }
}

#[test]
fn collect_flattens_nested_directories() {
    let node = DirNode {
        files: vec![file(b"a.txt", b"hello")],
        dirs: vec![dir(
            b"sub",
            DirNode {
                files: vec![file(b"b.txt", b"deep")],
                dirs: vec![dir(b"deeper", leaf(vec![file(b"c.txt", b"deepest")]))],
            },
        )],
    };
    let mut t = FileTree::new();
    collect_files(&node, &Vec::new(), &mut t);
    assert_eq!(t.entries.len(), 3);
    assert_eq!(
        t.lookup(&b"a.txt".to_vec()).map(|v| v.clone()),
        Some(b"hello".to_vec())
    );
    assert_eq!(
        t.lookup(&b"sub/b.txt".to_vec()).map(|v| v.clone()),
        Some(b"deep".to_vec())
    );
    assert_eq!(
        t.lookup(&b"sub/deeper/c.txt".to_vec()).map(|v| v.clone()),
        Some(b"deepest".to_vec())
    );
}

#[test]
fn collect_under_a_prefix_prepends_it() {
    let node = leaf(vec![file(b"a.txt", b"hello")]);
    let mut t = FileTree::new();
    collect_files(&node, &b"root".to_vec(), &mut t);
    assert!(t.contains_path(&b"root/a.txt".to_vec()));
    assert!(!t.contains_path(&b"a.txt".to_vec()));
}

#[test]
fn collect_of_empty_directory_adds_nothing() {
    let node = DirNode {
        files: Vec::new(),
        dirs: vec![dir(b"empty", leaf(Vec::new()))],
    };
    let mut t = FileTree::new();
    collect_files(&node, &Vec::new(), &mut t);
    assert_eq!(t.entries.len(), 0);
}

#[test]
fn collect_keeps_entries_already_recorded() {
    let node = leaf(vec![file(b"a.txt", b"new"), file(b"b.txt", b"added")]);
    let mut t = FileTree::new();
    t.push_file(b"a.txt".to_vec(), b"old".to_vec());
    collect_files(&node, &Vec::new(), &mut t);
    assert_eq!(
        t.lookup(&b"a.txt".to_vec()).map(|v| v.clone()),
        Some(b"old".to_vec())
    );
    assert_eq!(
        t.lookup(&b"b.txt".to_vec()).map(|v| v.clone()),
        Some(b"added".to_vec())
    );
}

#[test]
fn join_path_matches_collected_layout() {
    let sub = join_path(&b"sub".to_vec(), &b"b.txt".to_vec());
    assert_eq!(sub, b"sub/b.txt".to_vec());
    let node = leaf(vec![file(b"b.txt", b"deep")]);
    let mut t = FileTree::new();
    collect_files(&node, &b"sub".to_vec(), &mut t);
    assert!(t.contains_path(&sub));
}
