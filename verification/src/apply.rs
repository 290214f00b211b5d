use vstd::prelude::*;
use vstd::pervasive::unreached;
use crate::tree::{FileTree, has_path, bytes_eq, clone_bytes};
use crate::diff::{Change, change_valid, differs_at, covers, paths_distinct, is_diff};

verus! {

/// Whether some change of `cs` deletes path `p`.
pub open spec fn delete_at(cs: Seq<Change>, p: Seq<u8>) -> bool {
    exists|i: int| 0 <= i < cs.len() && cs[i].path() == p && cs[i] is Delete
}

/// Whether some change of `cs` creates or rewrites path `p`.
pub open spec fn create_or_modify_at(cs: Seq<Change>, p: Seq<u8>) -> bool {
    exists|i: int| 0 <= i < cs.len() && cs[i].path() == p && !(cs[i] is Delete)
}

/// Whether `cs` can be replayed onto the tree map `o`, taking contents from
/// the tree map `m`: every change describes a real difference between the
/// two, and no path is changed twice.
pub open spec fn applicable(cs: Seq<Change>, o: Map<Seq<u8>, Seq<u8>>, m: Map<Seq<u8>, Seq<u8>>) -> bool {
    &&& forall|i: int| 0 <= i < cs.len() ==> change_valid(#[trigger] cs[i], o, m)
    &&& paths_distinct(cs)
}

/// The tree that replaying `cs` onto `o` produces: deleted paths disappear,
/// created and modified paths take their content from `m`, and every other
/// path keeps its content from `o`.
pub open spec fn apply_spec(o: Map<Seq<u8>, Seq<u8>>, m: Map<Seq<u8>, Seq<u8>>, cs: Seq<Change>) -> Map<Seq<u8>, Seq<u8>> {
    Map::new(
        |p: Seq<u8>|
            if delete_at(cs, p) {
                false
            } else if create_or_modify_at(cs, p) {
                true
            } else {
                o.contains_key(p)
            },
        |p: Seq<u8>|
            if create_or_modify_at(cs, p) {
                m[p]
            } else {
                o[p]
            },
    )
}

/// The change of `cs` that `r` refers to, if any: `r` points at a change
/// whose path is `path`.
fn find_change<'a>(changes: &'a Vec<Change>, path: &Vec<u8>) -> (r: Option<&'a Change>)
    ensures
        match r {
            Some(c) => (exists|k: int| 0 <= k < changes@.len() && changes@[k] == *c) && c.path() == path@,
            None => !covers(changes@, path@),
        },
{
    let mut k: usize = 0;
    while k < changes.len()
        invariant
            k <= changes@.len(),
            forall|j: int| 0 <= j < k ==> changes@[j].path() != path@,
        decreases changes@.len() - k,
    {
        let c = &changes[k];
        if bytes_eq(c.path_ref(), path) {
            proof {
                assert(changes@[k as int] == *c);
            }
            return Some(c);
        }
        k += 1;
    }
    None
}

/// Replay a change list onto `original`, taking file contents from
/// `modified`: the result drops every deleted path, carries the content of
/// `modified` at every created or modified path, and keeps the content of
/// `original` everywhere else. When the list is a complete diff of the two
/// trees, the result is byte-identical to `modified`.
pub fn apply_changes(original: &FileTree, modified: &FileTree, changes: &Vec<Change>) -> (r: FileTree)
    requires
        original.wf(),
        modified.wf(),
        applicable(changes@, original@, modified@),
    ensures
        r.wf(),
        r@ == apply_spec(original@, modified@, changes@),
        is_diff(changes@, original@, modified@) ==> r@ == modified@,
{
    let ghost o = original@;
    let ghost m = modified@;
    let ghost cs = changes@;
    let mut r = FileTree::new();
    let no = original.entries.len();

    // Keep, rewrite or drop the files of the original tree.
    let mut i: usize = 0;
    while i < no
        invariant
            original.wf(),
            modified.wf(),
            applicable(cs, o, m),
            o == original@,
            m == modified@,
            cs == changes@,
            no == original.entries@.len(),
            i <= no,
            r.wf(),
            forall|p: Seq<u8>| #[trigger] r@.contains_key(p) ==> exists|j: int| 0 <= j < i && original.entries@[j].path@ == p,
            forall|j: int| 0 <= j < i && delete_at(cs, #[trigger] original.entries@[j].path@)
                ==> !r@.contains_key(original.entries@[j].path@),
            forall|j: int| 0 <= j < i && create_or_modify_at(cs, #[trigger] original.entries@[j].path@)
                ==> r@.contains_key(original.entries@[j].path@)
                    && r@[original.entries@[j].path@] == m[original.entries@[j].path@],
            forall|j: int| 0 <= j < i && !covers(cs, #[trigger] original.entries@[j].path@)
                ==> r@.contains_key(original.entries@[j].path@)
                    && r@[original.entries@[j].path@] == o[original.entries@[j].path@],
        decreases no - i,
    {
        let e = &original.entries[i];
        proof {
            original.lemma_entry_view(i as int);
            if r@.contains_key(e.path@) {
                let j = choose|j: int| 0 <= j < i && original.entries@[j].path@ == e.path@;
                assert(original.entries@[j].path@ != original.entries@[i as int].path@);
            }
        }
        let found = find_change(changes, &e.path);
        match found {
            None => {
                proof {
                    if delete_at(cs, e.path@) {
                        let k = choose|k: int| 0 <= k < cs.len() && cs[k].path() == e.path@ && cs[k] is Delete;
                        assert(covers(cs, e.path@));
                    }
                    if create_or_modify_at(cs, e.path@) {
                        let k = choose|k: int| 0 <= k < cs.len() && cs[k].path() == e.path@ && !(cs[k] is Delete);
                        assert(covers(cs, e.path@));
                    }
                }
                r.push_file(clone_bytes(&e.path), clone_bytes(&e.content));
            }
            Some(c) => {
                let ghost kc = choose|k: int| 0 <= k < cs.len() && cs[k] == *c;
                proof {
                    assert(change_valid(cs[kc], o, m));
                }
                match c {
                    Change::Delete(_) => {
                        proof {
                            if create_or_modify_at(cs, e.path@) {
                                let k2 = choose|k2: int| 0 <= k2 < cs.len() && cs[k2].path() == e.path@ && !(cs[k2] is Delete);
                                if k2 < kc {
                                    assert(cs[k2].path() != cs[kc].path());
                                }
                                if kc < k2 {
                                    assert(cs[kc].path() != cs[k2].path());
                                }
                            }
                            assert(delete_at(cs, e.path@));
                        }
                    }
                    Change::Modify(_) => {
                        let mc = match modified.lookup(&e.path) {
                            Some(v) => v,
                            None => unreached(),
                        };
                        proof {
                            if delete_at(cs, e.path@) {
                                let k2 = choose|k2: int| 0 <= k2 < cs.len() && cs[k2].path() == e.path@ && (cs[k2] is Delete);
                                if k2 < kc {
                                    assert(cs[k2].path() != cs[kc].path());
                                }
                                if kc < k2 {
                                    assert(cs[kc].path() != cs[k2].path());
                                }
                            }
                            assert(create_or_modify_at(cs, e.path@));
                        }
                        r.push_file(clone_bytes(&e.path), clone_bytes(mc));
                    }
                    Change::Create(_) => {
                        proof {
                            assert(!o.contains_key(e.path@));
                            assert(false);
                        }
                    }
                }
            }
        }
        i += 1;
    }

    // Add the files that exist only in the modified tree.
    let nc = changes.len();
    let mut k: usize = 0;
    while k < nc
        invariant
            original.wf(),
            modified.wf(),
            applicable(cs, o, m),
            o == original@,
            m == modified@,
            cs == changes@,
            no == original.entries@.len(),
            nc == cs.len(),
            k <= nc,
            r.wf(),
            forall|p: Seq<u8>| #[trigger] r@.contains_key(p)
                ==> (exists|j: int| 0 <= j < no && original.entries@[j].path@ == p)
                    || (exists|k2: int| 0 <= k2 < k && cs[k2] is Create && cs[k2].path() == p),
            forall|j: int| 0 <= j < no && delete_at(cs, #[trigger] original.entries@[j].path@)
                ==> !r@.contains_key(original.entries@[j].path@),
            forall|j: int| 0 <= j < no && create_or_modify_at(cs, #[trigger] original.entries@[j].path@)
                ==> r@.contains_key(original.entries@[j].path@)
                    && r@[original.entries@[j].path@] == m[original.entries@[j].path@],
            forall|j: int| 0 <= j < no && !covers(cs, #[trigger] original.entries@[j].path@)
                ==> r@.contains_key(original.entries@[j].path@)
                    && r@[original.entries@[j].path@] == o[original.entries@[j].path@],
            forall|k2: int| 0 <= k2 < k && (#[trigger] cs[k2]) is Create
                ==> r@.contains_key(cs[k2].path()) && r@[cs[k2].path()] == m[cs[k2].path()],
        decreases nc - k,
    {
        let c = &changes[k];
        match c {
            Change::Create(p) => {
                proof {
                    assert(change_valid(cs[k as int], o, m));
                    assert(!o.contains_key(p@));
                    if r@.contains_key(p@) {
                        if exists|j: int| 0 <= j < no && original.entries@[j].path@ == p@ {
                            let j = choose|j: int| 0 <= j < no && original.entries@[j].path@ == p@;
                            original.lemma_entry_view(j);
                        } else {
                            let k2 = choose|k2: int| 0 <= k2 < k && cs[k2] is Create && cs[k2].path() == p@;
                            assert(cs[k2].path() != cs[k as int].path());
                        }
                    }
                }
                let mc = match modified.lookup(p) {
                    Some(v) => v,
                    None => unreached(),
                };
                let ghost r0 = r@;
                r.push_file(clone_bytes(p), clone_bytes(mc));
                proof {
                    assert forall|j: int| 0 <= j < no implies original.entries@[j].path@ != p@ by {
                        original.lemma_entry_view(j);
                    }
                }
            }
            Change::Modify(_) => {
            }
            Change::Delete(_) => {
            }
        }
        k += 1;
    }

    proof {
        let rv = r@;
        let av = apply_spec(o, m, cs);
        assert forall|p: Seq<u8>| rv.contains_key(p) <==> av.contains_key(p) by {
            if delete_at(cs, p) {
                let kd = choose|kd: int| 0 <= kd < cs.len() && cs[kd].path() == p && cs[kd] is Delete;
                if rv.contains_key(p) {
                    if exists|j: int| 0 <= j < no && original.entries@[j].path@ == p {
                        // handled by the delete clause of the loop invariant
                    } else {
                        let k2 = choose|k2: int| 0 <= k2 < nc && cs[k2] is Create && cs[k2].path() == p;
                        if k2 < kd {
                            assert(cs[k2].path() != cs[kd].path());
                        }
                        if kd < k2 {
                            assert(cs[kd].path() != cs[k2].path());
                        }
                    }
                }
            } else if create_or_modify_at(cs, p) {
                let kc = choose|kc: int| 0 <= kc < cs.len() && cs[kc].path() == p && !(cs[kc] is Delete);
                assert(change_valid(cs[kc], o, m));
                if cs[kc] is Create {
                    assert(rv.contains_key(p));
                } else {
                    assert(o.contains_key(p));
                    let j = choose|j: int| 0 <= j < original.entries@.len() && original.entries@[j].path@ == p;
                    assert(create_or_modify_at(cs, original.entries@[j].path@));
                    assert(rv.contains_key(p));
                }
            } else {
                if o.contains_key(p) {
                    let j = choose|j: int| 0 <= j < original.entries@.len() && original.entries@[j].path@ == p;
                    if covers(cs, p) {
                        let kx = choose|kx: int| 0 <= kx < cs.len() && cs[kx].path() == p;
                        if cs[kx] is Delete {
                            assert(delete_at(cs, p));
                        } else {
                            assert(create_or_modify_at(cs, p));
                        }
                    }
                    assert(!covers(cs, original.entries@[j].path@));
                    assert(rv.contains_key(p));
                } else {
                    if rv.contains_key(p) {
                        if exists|j: int| 0 <= j < no && original.entries@[j].path@ == p {
                            let j = choose|j: int| 0 <= j < no && original.entries@[j].path@ == p;
                            original.lemma_entry_view(j);
                        } else {
                            let k2 = choose|k2: int| 0 <= k2 < nc && cs[k2] is Create && cs[k2].path() == p;
                            assert(create_or_modify_at(cs, p));
                        }
                    }
                }
            }
        }
        assert forall|p: Seq<u8>| rv.contains_key(p) implies rv[p] == av[p] by {
            if create_or_modify_at(cs, p) {
                let kc = choose|kc: int| 0 <= kc < cs.len() && cs[kc].path() == p && !(cs[kc] is Delete);
                assert(change_valid(cs[kc], o, m));
                if cs[kc] is Create {
                    assert(rv[p] == m[p]);
                } else {
                    let j = choose|j: int| 0 <= j < original.entries@.len() && original.entries@[j].path@ == p;
                    assert(create_or_modify_at(cs, original.entries@[j].path@));
                    assert(rv[p] == m[p]);
                }
            } else {
                if covers(cs, p) {
                    let kx = choose|kx: int| 0 <= kx < cs.len() && cs[kx].path() == p;
                    assert(cs[kx] is Delete);
                    assert(delete_at(cs, p));
                    assert(!rv.contains_key(p));
                }
                if exists|j: int| 0 <= j < no && original.entries@[j].path@ == p {
                    let j = choose|j: int| 0 <= j < no && original.entries@[j].path@ == p;
                    original.lemma_entry_view(j);
                    assert(rv[p] == o[p]);
                } else {
                    let k2 = choose|k2: int| 0 <= k2 < nc && cs[k2] is Create && cs[k2].path() == p;
                    assert(create_or_modify_at(cs, p));
                    assert(false);
                }
            }
        }
        assert(rv =~= av);
        if is_diff(cs, o, m) {
            lemma_apply_round_trip(o, m, cs);
        }
    }
    r
}

/// Round trip: replaying a complete diff of `o` against `m` onto `o`
/// produces exactly `m`.
pub proof fn lemma_apply_round_trip(o: Map<Seq<u8>, Seq<u8>>, m: Map<Seq<u8>, Seq<u8>>, cs: Seq<Change>)
    requires
        is_diff(cs, o, m),
    ensures
        apply_spec(o, m, cs) == m,
{
    let av = apply_spec(o, m, cs);
    assert forall|p: Seq<u8>| av.contains_key(p) <==> m.contains_key(p) by {
        if delete_at(cs, p) {
            let kd = choose|kd: int| 0 <= kd < cs.len() && cs[kd].path() == p && cs[kd] is Delete;
            assert(change_valid(cs[kd], o, m));
            assert(!m.contains_key(p));
        } else if create_or_modify_at(cs, p) {
            let kc = choose|kc: int| 0 <= kc < cs.len() && cs[kc].path() == p && !(cs[kc] is Delete);
            assert(change_valid(cs[kc], o, m));
            assert(m.contains_key(p));
        } else {
            if differs_at(o, m, p) {
                assert(covers(cs, p));
                let kx = choose|kx: int| 0 <= kx < cs.len() && cs[kx].path() == p;
                if cs[kx] is Delete {
                    assert(delete_at(cs, p));
                } else {
                    assert(create_or_modify_at(cs, p));
                }
            }
            assert(o.contains_key(p) == m.contains_key(p));
        }
    }
    assert forall|p: Seq<u8>| av.contains_key(p) implies av[p] == m[p] by {
        if create_or_modify_at(cs, p) {
        } else {
            if differs_at(o, m, p) {
                assert(covers(cs, p));
                let kx = choose|kx: int| 0 <= kx < cs.len() && cs[kx].path() == p;
                if cs[kx] is Delete {
                    assert(delete_at(cs, p));
                    assert(!av.contains_key(p));
                } else {
                    assert(create_or_modify_at(cs, p));
                }
            }
            assert(o.contains_key(p) && m.contains_key(p) && o[p] == m[p]);
        }
    }
    assert(av =~= m);
}

} // verus!
