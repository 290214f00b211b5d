use vstd::prelude::*;
use crate::tree::{clone_bytes, join_path, join_spec, FileTree};

verus! {

/// A regular file inside one directory: its own name and its byte content.
pub struct DirFile {
    pub name: Vec<u8>,
    pub content: Vec<u8>,
}

/// A subdirectory inside one directory: its own name and what it holds.
pub struct DirChild {
    pub name: Vec<u8>,
    pub node: DirNode,
}

/// A directory as found on disk: its regular files and its subdirectories.
pub struct DirNode {
    pub files: Vec<DirFile>,
    pub dirs: Vec<DirChild>,
}

/// Whether the directory `node`, seen under `prefix`, holds a regular file
/// whose relative path is `p` and whose content is `c`.
pub open spec fn node_has_file(node: DirNode, prefix: Seq<u8>, p: Seq<u8>, c: Seq<u8>) -> bool
    decreases node,
{
    (exists|i: int|
        0 <= i < node.files@.len() && join_spec(prefix, node.files@[i].name@) == p
            && node.files@[i].content@ == c) || dirs_have_file(
        node,
        node.dirs@.len() as int,
        prefix,
        p,
        c,
    )
}

/// Whether one of the first `n` subdirectories of `node` holds the file.
pub open spec fn dirs_have_file(node: DirNode, n: int, prefix: Seq<u8>, p: Seq<u8>, c: Seq<u8>) -> bool
    decreases node, n,
{
    if 0 < n <= node.dirs@.len() {
        dirs_have_file(node, n - 1, prefix, p, c) || node_has_file(
            node.dirs@[n - 1].node,
            join_spec(prefix, node.dirs@[n - 1].name@),
            p,
            c,
        )
    } else {
        false
    }
}

/// Whether the directory `node`, seen under `prefix`, holds a regular file
/// whose relative path is `p`.
pub open spec fn node_has(node: DirNode, prefix: Seq<u8>, p: Seq<u8>) -> bool {
    exists|c: Seq<u8>| node_has_file(node, prefix, p, c)
}

/// A file found in one of the first `n` subdirectories is found among the
/// first `n2` as well, for any larger `n2`.
proof fn lemma_dirs_have_file_mono(node: DirNode, n: int, n2: int, prefix: Seq<u8>, p: Seq<u8>, c: Seq<u8>)
    requires
        dirs_have_file(node, n, prefix, p, c),
        n <= n2 <= node.dirs@.len(),
    ensures
        dirs_have_file(node, n2, prefix, p, c),
    decreases n2 - n,
{
    if n < n2 {
        lemma_dirs_have_file_mono(node, n, n2 - 1, prefix, p, c);
    }
}

/// A file found among the first `n` subdirectories is found in one of them.
proof fn lemma_dirs_have_file_witness(node: DirNode, n: int, prefix: Seq<u8>, p: Seq<u8>, c: Seq<u8>)
    requires
        dirs_have_file(node, n, prefix, p, c),
        n <= node.dirs@.len(),
    ensures
        exists|d: int|
            0 <= d < n && node_has_file(
                node.dirs@[d].node,
                join_spec(prefix, node.dirs@[d].name@),
                p,
                c,
            ),
    decreases n,
{
    if 0 < n {
        if node_has_file(node.dirs@[n - 1].node, join_spec(prefix, node.dirs@[n - 1].name@), p, c) {
            assert(0 <= n - 1 < n);
        } else {
            lemma_dirs_have_file_witness(node, n - 1, prefix, p, c);
            let d = choose|d: int|
                0 <= d < n - 1 && node_has_file(
                    node.dirs@[d].node,
                    join_spec(prefix, node.dirs@[d].name@),
                    p,
                    c,
                );
            assert(0 <= d < n && node_has_file(
                node.dirs@[d].node,
                join_spec(prefix, node.dirs@[d].name@),
                p,
                c,
            ));
        }
    }
}

/// A file of the `d`-th subdirectory is found among the first `n`
/// subdirectories whenever `d < n`.
proof fn lemma_dirs_have_file_intro(node: DirNode, d: int, n: int, prefix: Seq<u8>, p: Seq<u8>, c: Seq<u8>)
    requires
        0 <= d < n <= node.dirs@.len(),
        node_has_file(node.dirs@[d].node, join_spec(prefix, node.dirs@[d].name@), p, c),
    ensures
        dirs_have_file(node, n, prefix, p, c),
{
    assert(dirs_have_file(node, d + 1, prefix, p, c));
    lemma_dirs_have_file_mono(node, d + 1, n, prefix, p, c);
}

/// Walk `node` recursively and record every regular file under its path
/// relative to the walk's starting root, skipping paths the accumulator
/// already holds: files already recorded keep their content, every file of
/// the walk ends up recorded, and nothing else is added. Which occurrence
/// wins when the same relative path occurs twice is unspecified, as is the
/// traversal order.
pub fn collect_files(node: &DirNode, prefix: &Vec<u8>, files: &mut FileTree)
    requires
        old(files).wf(),
    ensures
        final(files).wf(),
        forall|p: Seq<u8>| #[trigger] old(files)@.contains_key(p)
            ==> final(files)@.contains_key(p) && final(files)@[p] == old(files)@[p],
        forall|p: Seq<u8>| #[trigger] final(files)@.contains_key(p)
            ==> old(files)@.contains_key(p) || node_has(*node, prefix@, p),
        forall|p: Seq<u8>| #[trigger] node_has(*node, prefix@, p) ==> final(files)@.contains_key(p),
        forall|p: Seq<u8>| #[trigger] final(files)@.contains_key(p) && !old(files)@.contains_key(p)
            ==> node_has_file(*node, prefix@, p, final(files)@[p]),
    decreases *node,
{
    let ghost m0 = old(files)@;
    let nf = node.files.len();
    let mut i: usize = 0;
    while i < nf
        invariant
            nf == node.files@.len(),
            i <= nf,
            files.wf(),
            forall|p: Seq<u8>| #[trigger] m0.contains_key(p)
                ==> files@.contains_key(p) && files@[p] == m0[p],
            forall|p: Seq<u8>| #[trigger] files@.contains_key(p)
                ==> m0.contains_key(p) || node_has(*node, prefix@, p),
            forall|p: Seq<u8>| #[trigger] files@.contains_key(p) && !m0.contains_key(p)
                ==> node_has_file(*node, prefix@, p, files@[p]),
            forall|i2: int| 0 <= i2 < i
                ==> files@.contains_key(join_spec(prefix@, (#[trigger] node.files@[i2]).name@)),
        decreases nf - i,
    {
        let f = &node.files[i];
        let rel = join_path(prefix, &f.name);
        if !files.contains_path(&rel) {
            files.push_file(rel, clone_bytes(&f.content));
            proof {
                assert(node_has_file(*node, prefix@, join_spec(prefix@, f.name@), f.content@));
            }
        }
        i += 1;
    }

    let nd = node.dirs.len();
    let mut d: usize = 0;
    while d < nd
        invariant
            nd == node.dirs@.len(),
            nf == node.files@.len(),
            d <= nd,
            files.wf(),
            forall|p: Seq<u8>| #[trigger] m0.contains_key(p)
                ==> files@.contains_key(p) && files@[p] == m0[p],
            forall|p: Seq<u8>| #[trigger] files@.contains_key(p)
                ==> m0.contains_key(p) || node_has(*node, prefix@, p),
            forall|p: Seq<u8>| #[trigger] files@.contains_key(p) && !m0.contains_key(p)
                ==> node_has_file(*node, prefix@, p, files@[p]),
            forall|i2: int| 0 <= i2 < nf
                ==> files@.contains_key(join_spec(prefix@, (#[trigger] node.files@[i2]).name@)),
            forall|d2: int, p: Seq<u8>| 0 <= d2 < d && #[trigger] node_has(
                node.dirs@[d2].node,
                join_spec(prefix@, node.dirs@[d2].name@),
                p,
            ) ==> files@.contains_key(p),
        decreases nd - d,
    {
        let child = &node.dirs[d];
        let cp = join_path(prefix, &child.name);
        let ghost before = files@;
        collect_files(&child.node, &cp, files);
        proof {
            assert forall|p: Seq<u8>| #[trigger] files@.contains_key(p)
                implies m0.contains_key(p) || node_has(*node, prefix@, p) by {
                if !before.contains_key(p) {
                    let c = choose|c: Seq<u8>| node_has_file(child.node, cp@, p, c);
                    lemma_dirs_have_file_intro(*node, d as int, nd as int, prefix@, p, c);
                    assert(node_has_file(*node, prefix@, p, c));
                }
            }
            assert forall|p: Seq<u8>| #[trigger] files@.contains_key(p) && !m0.contains_key(p)
                implies node_has_file(*node, prefix@, p, files@[p]) by {
                if before.contains_key(p) {
                    assert(files@[p] == before[p]);
                } else {
                    assert(node_has_file(child.node, cp@, p, files@[p]));
                    lemma_dirs_have_file_intro(*node, d as int, nd as int, prefix@, p, files@[p]);
                }
            }
            assert forall|d2: int, p: Seq<u8>| 0 <= d2 < d + 1 && #[trigger] node_has(
                node.dirs@[d2].node,
                join_spec(prefix@, node.dirs@[d2].name@),
                p,
            ) implies files@.contains_key(p) by {
                if d2 < d {
                    assert(before.contains_key(p));
                }
            }
        }
        d += 1;
    }

    proof {
        assert forall|p: Seq<u8>| #[trigger] node_has(*node, prefix@, p)
            implies files@.contains_key(p) by {
            let c = choose|c: Seq<u8>| node_has_file(*node, prefix@, p, c);
            if exists|i2: int|
                0 <= i2 < node.files@.len() && join_spec(prefix@, node.files@[i2].name@) == p
                    && node.files@[i2].content@ == c {
                let i2 = choose|i2: int|
                    0 <= i2 < node.files@.len() && join_spec(prefix@, node.files@[i2].name@) == p
                        && node.files@[i2].content@ == c;
                assert(files@.contains_key(join_spec(prefix@, node.files@[i2].name@)));
            } else {
                lemma_dirs_have_file_witness(*node, nd as int, prefix@, p, c);
                let d2 = choose|d2: int|
                    0 <= d2 < nd && node_has_file(
                        node.dirs@[d2].node,
                        join_spec(prefix@, node.dirs@[d2].name@),
                        p,
                        c,
                    );
                assert(node_has(node.dirs@[d2].node, join_spec(prefix@, node.dirs@[d2].name@), p));
            }
        }
    }
}

} // verus!
