use vstd::prelude::*;

verus! {

/// One regular file of a tree: its path relative to the tree root
/// (POSIX-style bytes, `/` between segments) and its byte content.
pub struct FileEntry {
    pub path: Vec<u8>,
    pub content: Vec<u8>,
}

/// A snapshot of the regular files under one tree root.
///
/// A well-formed tree holds at most one entry per relative path; its view is
/// the map from each recorded path to the content stored for it.
pub struct FileTree {
    pub entries: Vec<FileEntry>,
}

/// Whether some entry of `entries` carries the relative path `p`.
pub open spec fn has_path(entries: Seq<FileEntry>, p: Seq<u8>) -> bool {
    exists|i: int| 0 <= i < entries.len() && entries[i].path@ == p
}

/// The content recorded for path `p`: the content of a witness entry, which
/// is unique whenever the paths of `entries` are pairwise distinct.
pub open spec fn content_at(entries: Seq<FileEntry>, p: Seq<u8>) -> Seq<u8> {
    let i = choose|i: int| 0 <= i < entries.len() && entries[i].path@ == p;
    entries[i].content@
}

/// Pairwise distinctness of the relative paths of `entries`.
pub open spec fn paths_unique(entries: Seq<FileEntry>) -> bool {
    forall|i: int, j: int|
        0 <= i < j < entries.len() ==> entries[i].path@ != entries[j].path@
}

impl View for FileTree {
    type V = Map<Seq<u8>, Seq<u8>>;

    open spec fn view(&self) -> Map<Seq<u8>, Seq<u8>> {
        Map::new(
            |p: Seq<u8>| has_path(self.entries@, p),
            |p: Seq<u8>| content_at(self.entries@, p),
        )
    }
}

/// With pairwise distinct paths, the entry at index `i` is the witness that
/// determines the content recorded for its path.
pub proof fn lemma_unique_content(entries: Seq<FileEntry>, i: int)
    requires
        paths_unique(entries),
        0 <= i < entries.len(),
    ensures
        has_path(entries, entries[i].path@),
        content_at(entries, entries[i].path@) == entries[i].content@,
{
    let p = entries[i].path@;
    assert(has_path(entries, p));
    let j = choose|j: int| 0 <= j < entries.len() && entries[j].path@ == p;
    if i < j {
        assert(entries[i].path@ != entries[j].path@);
    }
    if j < i {
        assert(entries[j].path@ != entries[i].path@);
    }
    assert(j == i);
}

impl FileTree {
    /// Each relative path occurs at most once.
    pub open spec fn wf(self) -> bool {
        paths_unique(self.entries@)
    }

    /// Each entry of a well-formed tree shows up in the view with its own
    /// content.
    pub proof fn lemma_entry_view(self, i: int)
        requires
            self.wf(),
            0 <= i < self.entries@.len(),
        ensures
            self@.contains_key(self.entries@[i].path@),
            self@[self.entries@[i].path@] == self.entries@[i].content@,
    {
        lemma_unique_content(self.entries@, i);
    }

    /// An empty tree.
    pub fn new() -> (r: FileTree)
        ensures
            r@ == Map::<Seq<u8>, Seq<u8>>::empty(),
            r.wf(),
            r.entries@.len() == 0,
    {
        let r = FileTree { entries: Vec::new() };
        proof {
            assert(r@ =~= Map::<Seq<u8>, Seq<u8>>::empty());
        }
        r
    }

    /// Position of the entry for `path`, if any.
    pub fn find_index(&self, path: &Vec<u8>) -> (r: Option<usize>)
        ensures
            match r {
                Some(j) => j < self.entries@.len() && self.entries@[j as int].path@ == path@,
                None => !has_path(self.entries@, path@),
            },
    {
        let mut i: usize = 0;
        while i < self.entries.len()
            invariant
                i <= self.entries@.len(),
                forall|j: int| 0 <= j < i ==> self.entries@[j].path@ != path@,
            decreases self.entries@.len() - i,
        {
            if bytes_eq(&self.entries[i].path, path) {
                return Some(i);
            }
            i += 1;
        }
        None
    }

    /// Whether the tree records a file under `path`.
    pub fn contains_path(&self, path: &Vec<u8>) -> (r: bool)
        ensures
            r == has_path(self.entries@, path@),
    {
        self.find_index(path).is_some()
    }

    /// Content stored for `path`, if the tree records it.
    pub fn lookup(&self, path: &Vec<u8>) -> (r: Option<&Vec<u8>>)
        requires
            self.wf(),
        ensures
            match r {
                Some(c) => self@.contains_key(path@) && c@ == self@[path@],
                None => !self@.contains_key(path@),
            },
    {
        match self.find_index(path) {
            Some(j) => {
                proof {
                    self.lemma_entry_view(j as int);
                }
                Some(&self.entries[j].content)
            }
            None => None,
        }
    }

    /// Record a file that the tree does not hold yet.
    pub fn push_file(&mut self, path: Vec<u8>, content: Vec<u8>)
        requires
            old(self).wf(),
            !old(self)@.contains_key(path@),
        ensures
            final(self).wf(),
            final(self)@ == old(self)@.insert(path@, content@),
            final(self).entries@.len() == old(self).entries@.len() + 1,
    {
        let ghost gpath = path@;
        let ghost gcontent = content@;
        let ghost olde = old(self).entries@;
        self.entries.push(FileEntry { path, content });
        proof {
            let newe = self.entries@;
            assert(newe == olde.push(FileEntry { path: self.entries@[olde.len() as int].path, content: self.entries@[olde.len() as int].content }));
            assert(newe.len() == olde.len() + 1);
            assert(newe[olde.len() as int].path@ == gpath);
            assert(newe[olde.len() as int].content@ == gcontent);
            assert(forall|i: int| 0 <= i < olde.len() ==> newe[i] == olde[i]);
            assert forall|i: int, j: int| 0 <= i < j < newe.len() implies newe[i].path@ != newe[j].path@ by {
                if j < olde.len() {
                    assert(olde[i].path@ != olde[j].path@);
                } else {
                    assert(newe[j].path@ == gpath);
                    if newe[i].path@ == gpath {
                        assert(has_path(olde, gpath));
                    }
                }
            }
            assert(self.wf());
            assert forall|p: Seq<u8>| self@.contains_key(p) <==> old(self)@.insert(gpath, gcontent).contains_key(p) by {
                if has_path(newe, p) {
                    let i = choose|i: int| 0 <= i < newe.len() && newe[i].path@ == p;
                    if i < olde.len() {
                        assert(has_path(olde, p));
                    } else {
                        assert(p == gpath);
                    }
                }
                if has_path(olde, p) {
                    let i = choose|i: int| 0 <= i < olde.len() && olde[i].path@ == p;
                    assert(newe[i].path@ == p);
                    assert(has_path(newe, p));
                }
                if p == gpath {
                    assert(newe[olde.len() as int].path@ == p);
                    assert(has_path(newe, p));
                }
            }
            assert forall|p: Seq<u8>| self@.contains_key(p) implies self@[p] == old(self)@.insert(gpath, gcontent)[p] by {
                if p == gpath {
                    lemma_unique_content(newe, olde.len() as int);
                } else {
                    let i = choose|i: int| 0 <= i < newe.len() && newe[i].path@ == p;
                    assert(i < olde.len());
                    lemma_unique_content(newe, i);
                    lemma_unique_content(olde, i);
                }
            }
            assert(self@ =~= old(self)@.insert(gpath, gcontent));
        }
    }

    /// Whether every relative path of the tree occurs at most once.
    pub fn check_wf(&self) -> (r: bool)
        ensures
            r == self.wf(),
    {
        let n = self.entries.len();
        let mut i: usize = 0;
        while i < n
            invariant
                n == self.entries@.len(),
                i <= n,
                forall|a: int, b: int|
                    0 <= a < b < n && a < i ==> self.entries@[a].path@ != self.entries@[b].path@,
            decreases n - i,
        {
            let mut j: usize = i + 1;
            while j < n
                invariant
                    n == self.entries@.len(),
                    i < j,
                    j <= n,
                    forall|b: int| i < b < j ==> self.entries@[i as int].path@ != self.entries@[b].path@,
                decreases n - j,
            {
                if bytes_eq(&self.entries[i].path, &self.entries[j].path) {
                    return false;
                }
                j += 1;
            }
            i += 1;
        }
        true
    }

    /// A byte-for-byte copy of the tree: same paths, same contents.
    pub fn copy_tree(&self) -> (r: FileTree)
        requires
            self.wf(),
        ensures
            r.wf(),
            r@ == self@,
    {
        let mut r = FileTree::new();
        let n = self.entries.len();
        let mut i: usize = 0;
        while i < n
            invariant
                self.wf(),
                n == self.entries@.len(),
                i <= n,
                r.wf(),
                forall|p: Seq<u8>| #[trigger] r@.contains_key(p) ==> exists|j: int| 0 <= j < i && self.entries@[j].path@ == p,
                forall|j: int| 0 <= j < i ==> r@.contains_key(#[trigger] self.entries@[j].path@)
                    && r@[self.entries@[j].path@] == self.entries@[j].content@,
            decreases n - i,
        {
            let e = &self.entries[i];
            proof {
                if r@.contains_key(e.path@) {
                    let j = choose|j: int| 0 <= j < i && self.entries@[j].path@ == e.path@;
                    assert(self.entries@[j].path@ != self.entries@[i as int].path@);
                }
            }
            r.push_file(clone_bytes(&e.path), clone_bytes(&e.content));
            i += 1;
        }
        proof {
            assert forall|p: Seq<u8>| r@.contains_key(p) <==> self@.contains_key(p) by {
                if has_path(self.entries@, p) {
                    let j = choose|j: int| 0 <= j < self.entries@.len() && self.entries@[j].path@ == p;
                    assert(r@.contains_key(self.entries@[j].path@));
                }
            }
            assert forall|p: Seq<u8>| r@.contains_key(p) implies r@[p] == self@[p] by {
                let j = choose|j: int| 0 <= j < self.entries@.len() && self.entries@[j].path@ == p;
                self.lemma_entry_view(j);
            }
            assert(r@ =~= self@);
        }
        r
    }
}

/// Byte-for-byte equality of two byte vectors.
pub fn bytes_eq(a: &Vec<u8>, b: &Vec<u8>) -> (r: bool)
    ensures
        r == (a@ == b@),
{
    if a.len() != b.len() {
        proof {
            if a@ == b@ {
                assert(a@.len() == b@.len());
            }
        }
        return false;
    }
    let mut i: usize = 0;
    while i < a.len()
        invariant
            a@.len() == b@.len(),
            i <= a@.len(),
            forall|j: int| 0 <= j < i ==> a@[j] == b@[j],
        decreases a@.len() - i,
    {
        if a[i] != b[i] {
            proof {
                if a@ == b@ {
                    assert(a@[i as int] == b@[i as int]);
                }
            }
            return false;
        }
        i += 1;
    }
    proof {
        assert(a@ =~= b@);
    }
    true
}

/// The relative path of an entry reached under `prefix`: the entry's own
/// name at the tree root, else the prefix, a `/`, and the name.
pub open spec fn join_spec(prefix: Seq<u8>, name: Seq<u8>) -> Seq<u8> {
    if prefix.len() == 0 {
        name
    } else {
        prefix + seq![47u8] + name
    }
}

/// Compose the relative path of an entry reached under `prefix`.
pub fn join_path(prefix: &Vec<u8>, name: &Vec<u8>) -> (r: Vec<u8>)
    ensures
        r@ == join_spec(prefix@, name@),
{
    if prefix.len() == 0 {
        return clone_bytes(name);
    }
    let mut r = clone_bytes(prefix);
    r.push(47u8);
    proof {
        assert(r@ =~= prefix@ + seq![47u8] + name@.subrange(0, 0));
    }
    let mut i: usize = 0;
    while i < name.len()
        invariant
            i <= name@.len(),
            r@ == prefix@ + seq![47u8] + name@.subrange(0, i as int),
        decreases name@.len() - i,
    {
        r.push(name[i]);
        proof {
            assert(r@ =~= prefix@ + seq![47u8] + name@.subrange(0, i as int + 1));
        }
        i += 1;
    }
    proof {
        assert(r@ =~= prefix@ + seq![47u8] + name@);
    }
    r
}

/// A copy of a byte vector.
pub fn clone_bytes(v: &Vec<u8>) -> (r: Vec<u8>)
    ensures
        r@ == v@,
{
    let mut r: Vec<u8> = Vec::new();
    let mut i: usize = 0;
    while i < v.len()
        invariant
            i <= v@.len(),
            r@ == v@.subrange(0, i as int),
        decreases v@.len() - i,
    {
        r.push(v[i]);
        proof {
            assert(r@ =~= v@.subrange(0, i as int + 1));
        }
        i += 1;
    }
    proof {
        assert(r@ =~= v@);
    }
    r
}

} // verus!
