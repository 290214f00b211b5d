use vstd::prelude::*;
use crate::tree::{FileTree, has_path, bytes_eq, clone_bytes};

verus! {

/// How one relative path differs between an original and a modified tree.
pub enum Change {
    /// The path exists only in the modified tree.
    Create(Vec<u8>),
    /// The path exists in both trees with different byte content.
    Modify(Vec<u8>),
    /// The path exists only in the original tree.
    Delete(Vec<u8>),
}

impl Change {
    /// The relative path the change speaks of.
    pub open spec fn path(self) -> Seq<u8> {
        match self {
            Change::Create(p) => p@,
            Change::Modify(p) => p@,
            Change::Delete(p) => p@,
        }
    }

    /// The relative path the change speaks of.
    pub fn path_ref(&self) -> (r: &Vec<u8>)
        ensures
            r@ == self.path(),
    {
        match self {
            Change::Create(p) => p,
            Change::Modify(p) => p,
            Change::Delete(p) => p,
        }
    }
}

/// Whether `c` correctly describes how its path differs between the tree
/// maps `o` (original) and `m` (modified).
pub open spec fn change_valid(c: Change, o: Map<Seq<u8>, Seq<u8>>, m: Map<Seq<u8>, Seq<u8>>) -> bool {
    match c {
        Change::Create(p) => m.contains_key(p@) && !o.contains_key(p@),
        Change::Modify(p) => o.contains_key(p@) && m.contains_key(p@) && o[p@] != m[p@],
        Change::Delete(p) => o.contains_key(p@) && !m.contains_key(p@),
    }
}

/// Whether the trees `o` and `m` disagree at path `p`: present in one tree
/// only, or present in both with different contents.
pub open spec fn differs_at(o: Map<Seq<u8>, Seq<u8>>, m: Map<Seq<u8>, Seq<u8>>, p: Seq<u8>) -> bool {
    ||| o.contains_key(p) != m.contains_key(p)
    ||| (o.contains_key(p) && m.contains_key(p) && o[p] != m[p])
}

/// Whether some change of `cs` speaks of path `p`.
pub open spec fn covers(cs: Seq<Change>, p: Seq<u8>) -> bool {
    exists|i: int| 0 <= i < cs.len() && cs[i].path() == p
}

/// Pairwise distinctness of the paths of a change list.
pub open spec fn paths_distinct(cs: Seq<Change>) -> bool {
    forall|i: int, j: int| 0 <= i < j < cs.len() ==> cs[i].path() != cs[j].path()
}

/// Whether `cs` is a complete and correct description of the differences
/// between `o` and `m`: every listed change is real, every difference is
/// listed, and no path is listed twice.
pub open spec fn is_diff(cs: Seq<Change>, o: Map<Seq<u8>, Seq<u8>>, m: Map<Seq<u8>, Seq<u8>>) -> bool {
    &&& forall|i: int| 0 <= i < cs.len() ==> change_valid(#[trigger] cs[i], o, m)
    &&& forall|p: Seq<u8>| #[trigger] differs_at(o, m, p) ==> covers(cs, p)
    &&& paths_distinct(cs)
}

/// A correct change still marks a difference.
pub proof fn lemma_valid_change_differs(c: Change, o: Map<Seq<u8>, Seq<u8>>, m: Map<Seq<u8>, Seq<u8>>)
    requires
        change_valid(c, o, m),
    ensures
        differs_at(o, m, c.path()),
{
}

/// A change of `cs` survives appending another change.
pub proof fn lemma_covers_push(cs: Seq<Change>, c: Change, p: Seq<u8>)
    requires
        covers(cs, p),
    ensures
        covers(cs.push(c), p),
{
    let i = choose|i: int| 0 <= i < cs.len() && cs[i].path() == p;
    assert(cs.push(c)[i].path() == p);
}

/// Classify every relative path of the two trees: paths only in `modified`
/// become `Create`, paths only in `original` become `Delete`, and paths in
/// both whose sizes or byte contents differ become `Modify`. Unchanged
/// files are not reported, and no path is reported twice. The order of the
/// returned list is unspecified.
pub fn compare_directories(original: &FileTree, modified: &FileTree) -> (r: Vec<Change>)
    requires
        original.wf(),
        modified.wf(),
    ensures
        is_diff(r@, original@, modified@),
{
    let mut changes: Vec<Change> = Vec::new();
    let nm = modified.entries.len();
    let no = original.entries.len();

    // Files present only in the modified tree.
    let mut i: usize = 0;
    while i < nm
        invariant
            original.wf(),
            modified.wf(),
            nm == modified.entries@.len(),
            i <= nm,
            forall|k: int| 0 <= k < changes@.len() ==> change_valid(#[trigger] changes@[k], original@, modified@),
            forall|k: int| 0 <= k < changes@.len() ==> (#[trigger] changes@[k]) is Create,
            forall|k: int| 0 <= k < changes@.len() ==> exists|j: int| 0 <= j < i && (#[trigger] changes@[k]).path() == modified.entries@[j].path@,
            forall|j: int| 0 <= j < i && !original@.contains_key(#[trigger] modified.entries@[j].path@)
                ==> covers(changes@, modified.entries@[j].path@),
            paths_distinct(changes@),
        decreases nm - i,
    {
        let e = &modified.entries[i];
        if !original.contains_path(&e.path) {
            proof {
                modified.lemma_entry_view(i as int);
                if covers(changes@, e.path@) {
                    let k = choose|k: int| 0 <= k < changes@.len() && changes@[k].path() == e.path@;
                    let j = choose|j: int| 0 <= j < i && changes@[k].path() == modified.entries@[j].path@;
                    assert(modified.entries@[j].path@ != modified.entries@[i as int].path@);
                }
            }
            let ghost cs0 = changes@;
            changes.push(Change::Create(clone_bytes(&e.path)));
            proof {
                assert forall|j: int| 0 <= j <= i && !original@.contains_key(#[trigger] modified.entries@[j].path@)
                    implies covers(changes@, modified.entries@[j].path@) by {
                    if j < i {
                        lemma_covers_push(cs0, changes@.last(), modified.entries@[j].path@);
                    } else {
                        assert(changes@[cs0.len() as int].path() == modified.entries@[j].path@);
                    }
                }
            }
        }
        i += 1;
    }

    // Files present only in the original tree.
    let mut i: usize = 0;
    while i < no
        invariant
            original.wf(),
            modified.wf(),
            nm == modified.entries@.len(),
            no == original.entries@.len(),
            i <= no,
            forall|k: int| 0 <= k < changes@.len() ==> change_valid(#[trigger] changes@[k], original@, modified@),
            forall|k: int| 0 <= k < changes@.len() ==> ((#[trigger] changes@[k]) is Create || changes@[k] is Delete),
            forall|k: int| 0 <= k < changes@.len() && (#[trigger] changes@[k]) is Delete
                ==> exists|j: int| 0 <= j < i && changes@[k].path() == original.entries@[j].path@,
            forall|j: int| 0 <= j < nm && !original@.contains_key(#[trigger] modified.entries@[j].path@)
                ==> covers(changes@, modified.entries@[j].path@),
            forall|j: int| 0 <= j < i && !modified@.contains_key(#[trigger] original.entries@[j].path@)
                ==> covers(changes@, original.entries@[j].path@),
            paths_distinct(changes@),
        decreases no - i,
    {
        let e = &original.entries[i];
        if !modified.contains_path(&e.path) {
            proof {
                original.lemma_entry_view(i as int);
                assert forall|k: int| 0 <= k < changes@.len() implies (#[trigger] changes@[k]).path() != e.path@ by {
                    if changes@[k] is Create {
                        assert(change_valid(changes@[k], original@, modified@));
                    } else {
                        let j = choose|j: int| 0 <= j < i && changes@[k].path() == original.entries@[j].path@;
                        assert(original.entries@[j].path@ != original.entries@[i as int].path@);
                    }
                }
            }
            let ghost cs0 = changes@;
            changes.push(Change::Delete(clone_bytes(&e.path)));
            proof {
                assert forall|j: int| 0 <= j < nm && !original@.contains_key(#[trigger] modified.entries@[j].path@)
                    implies covers(changes@, modified.entries@[j].path@) by {
                    lemma_covers_push(cs0, changes@.last(), modified.entries@[j].path@);
                }
                assert forall|j: int| 0 <= j <= i && !modified@.contains_key(#[trigger] original.entries@[j].path@)
                    implies covers(changes@, original.entries@[j].path@) by {
                    if j < i {
                        lemma_covers_push(cs0, changes@.last(), original.entries@[j].path@);
                    } else {
                        assert(changes@[cs0.len() as int].path() == original.entries@[j].path@);
                    }
                }
            }
        }
        i += 1;
    }

    // Files present in both trees: compare sizes first, then byte contents.
    let mut i: usize = 0;
    while i < no
        invariant
            original.wf(),
            modified.wf(),
            nm == modified.entries@.len(),
            no == original.entries@.len(),
            i <= no,
            forall|k: int| 0 <= k < changes@.len() ==> change_valid(#[trigger] changes@[k], original@, modified@),
            forall|k: int| 0 <= k < changes@.len() && (#[trigger] changes@[k]) is Modify
                ==> exists|j: int| 0 <= j < i && changes@[k].path() == original.entries@[j].path@,
            forall|j: int| 0 <= j < nm && !original@.contains_key(#[trigger] modified.entries@[j].path@)
                ==> covers(changes@, modified.entries@[j].path@),
            forall|j: int| 0 <= j < no && !modified@.contains_key(#[trigger] original.entries@[j].path@)
                ==> covers(changes@, original.entries@[j].path@),
            forall|j: int| 0 <= j < i && modified@.contains_key(#[trigger] original.entries@[j].path@)
                && original@[original.entries@[j].path@] != modified@[original.entries@[j].path@]
                ==> covers(changes@, original.entries@[j].path@),
            paths_distinct(changes@),
        decreases no - i,
    {
        let e = &original.entries[i];
        let looked = modified.lookup(&e.path);
        match looked {
            Some(c) => {
                proof {
                    original.lemma_entry_view(i as int);
                }
                let differs = if e.content.len() != c.len() {
                    proof {
                        if e.content@ == c@ {
                            assert(e.content@.len() == c@.len());
                        }
                    }
                    true
                } else {
                    !bytes_eq(&e.content, c)
                };
                if differs {
                    proof {
                        assert forall|k: int| 0 <= k < changes@.len() implies (#[trigger] changes@[k]).path() != e.path@ by {
                            assert(change_valid(changes@[k], original@, modified@));
                            if changes@[k] is Modify {
                                let j = choose|j: int| 0 <= j < i && changes@[k].path() == original.entries@[j].path@;
                                assert(original.entries@[j].path@ != original.entries@[i as int].path@);
                            }
                        }
                    }
                    let ghost cs0 = changes@;
                    changes.push(Change::Modify(clone_bytes(&e.path)));
                    proof {
                        assert forall|j: int| 0 <= j < nm && !original@.contains_key(#[trigger] modified.entries@[j].path@)
                            implies covers(changes@, modified.entries@[j].path@) by {
                            lemma_covers_push(cs0, changes@.last(), modified.entries@[j].path@);
                        }
                        assert forall|j: int| 0 <= j < no && !modified@.contains_key(#[trigger] original.entries@[j].path@)
                            implies covers(changes@, original.entries@[j].path@) by {
                            lemma_covers_push(cs0, changes@.last(), original.entries@[j].path@);
                        }
                        assert forall|j: int| 0 <= j <= i && modified@.contains_key(#[trigger] original.entries@[j].path@)
                            && original@[original.entries@[j].path@] != modified@[original.entries@[j].path@]
                            implies covers(changes@, original.entries@[j].path@) by {
                            if j < i {
                                lemma_covers_push(cs0, changes@.last(), original.entries@[j].path@);
                            } else {
                                assert(changes@[cs0.len() as int].path() == original.entries@[j].path@);
                            }
                        }
                    }
                }
            }
            None => {
            }
        }
        i += 1;
    }

    proof {
        assert forall|p: Seq<u8>| #[trigger] differs_at(original@, modified@, p)
            implies covers(changes@, p) by {
            if modified@.contains_key(p) && !original@.contains_key(p) {
                let j = choose|j: int| 0 <= j < modified.entries@.len() && modified.entries@[j].path@ == p;
                assert(!original@.contains_key(modified.entries@[j].path@));
                assert(covers(changes@, modified.entries@[j].path@));
            } else if original@.contains_key(p) && !modified@.contains_key(p) {
                let j = choose|j: int| 0 <= j < original.entries@.len() && original.entries@[j].path@ == p;
                assert(!modified@.contains_key(original.entries@[j].path@));
                assert(covers(changes@, original.entries@[j].path@));
            } else {
                let j = choose|j: int| 0 <= j < original.entries@.len() && original.entries@[j].path@ == p;
                assert(modified@.contains_key(original.entries@[j].path@));
                assert(covers(changes@, original.entries@[j].path@));
            }
        }
    }
    changes
}

/// Comparing a tree with itself reports no changes.
pub proof fn lemma_diff_self_empty(cs: Seq<Change>, t: Map<Seq<u8>, Seq<u8>>)
    requires
        is_diff(cs, t, t),
    ensures
        cs.len() == 0,
{
    if cs.len() > 0 {
        assert(change_valid(cs[0], t, t));
        lemma_valid_change_differs(cs[0], t, t);
        assert(false);
    }
}

/// A path whose content is identical in both trees never appears in a
/// correct change list, whatever else the trees hold.
pub proof fn lemma_diff_unchanged_absent(cs: Seq<Change>, o: Map<Seq<u8>, Seq<u8>>, m: Map<Seq<u8>, Seq<u8>>, p: Seq<u8>)
    requires
        is_diff(cs, o, m),
        o.contains_key(p),
        m.contains_key(p),
        o[p] == m[p],
    ensures
        forall|i: int| 0 <= i < cs.len() ==> (#[trigger] cs[i]).path() != p,
{
    assert forall|i: int| 0 <= i < cs.len() implies (#[trigger] cs[i]).path() != p by {
        assert(change_valid(cs[i], o, m));
        lemma_valid_change_differs(cs[i], o, m);
    }
}

/// A file that exists only in the modified tree is reported as exactly one
/// `Create` of its path, with no other change beside it.
pub proof fn lemma_diff_single_create(cs: Seq<Change>, o: Map<Seq<u8>, Seq<u8>>, p: Seq<u8>, c: Seq<u8>)
    requires
        is_diff(cs, o, o.insert(p, c)),
        !o.contains_key(p),
    ensures
        cs.len() == 1,
        cs[0] is Create,
        cs[0].path() == p,
{
    let m = o.insert(p, c);
    assert forall|i: int| 0 <= i < cs.len() implies (#[trigger] cs[i]).path() == p by {
        assert(change_valid(cs[i], o, m));
        lemma_valid_change_differs(cs[i], o, m);
    }
    assert(differs_at(o, m, p));
    assert(covers(cs, p));
    if cs.len() >= 2 {
        assert(cs[0].path() != cs[1].path());
    }
    assert(cs.len() == 1);
    assert(change_valid(cs[0], o, m));
}

/// A file that exists only in the original tree is reported as exactly one
/// `Delete` of its path, with no other change beside it.
pub proof fn lemma_diff_single_delete(cs: Seq<Change>, o: Map<Seq<u8>, Seq<u8>>, p: Seq<u8>)
    requires
        is_diff(cs, o, o.remove(p)),
        o.contains_key(p),
    ensures
        cs.len() == 1,
        cs[0] is Delete,
        cs[0].path() == p,
{
    let m = o.remove(p);
    assert forall|i: int| 0 <= i < cs.len() implies (#[trigger] cs[i]).path() == p by {
        assert(change_valid(cs[i], o, m));
        lemma_valid_change_differs(cs[i], o, m);
    }
    assert(differs_at(o, m, p));
    assert(covers(cs, p));
    if cs.len() >= 2 {
        assert(cs[0].path() != cs[1].path());
    }
    assert(cs.len() == 1);
    assert(change_valid(cs[0], o, m));
}

/// A file whose content changed — with or without a size change — is
/// reported as exactly one `Modify` of its path, with no other change
/// beside it.
pub proof fn lemma_diff_single_modify(cs: Seq<Change>, o: Map<Seq<u8>, Seq<u8>>, p: Seq<u8>, c: Seq<u8>)
    requires
        is_diff(cs, o, o.insert(p, c)),
        o.contains_key(p),
        o[p] != c,
    ensures
        cs.len() == 1,
        cs[0] is Modify,
        cs[0].path() == p,
{
    let m = o.insert(p, c);
    assert forall|i: int| 0 <= i < cs.len() implies (#[trigger] cs[i]).path() == p by {
        assert(change_valid(cs[i], o, m));
        lemma_valid_change_differs(cs[i], o, m);
    }
    assert(differs_at(o, m, p));
    assert(covers(cs, p));
    if cs.len() >= 2 {
        assert(cs[0].path() != cs[1].path());
    }
    assert(cs.len() == 1);
    assert(change_valid(cs[0], o, m));
}

} // verus!
