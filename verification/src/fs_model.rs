//! In-memory filesystem model.
//!
//! The sync engines are verified against this model: a flat store of
//! sanitized component paths, each holding either a directory marker or a
//! file's bytes. The real filesystem is ambient state that an unverified
//! shell mirrors these operations onto; everything the engines decide is
//! decided here.
//!
//! Paths are root-relative component lists (see `crate::paths`); the root
//! itself is implicit and never stored. Operations check before they act:
//! an operation that returns an error leaves the tree unchanged.

use vstd::prelude::*;

use crate::bytes::{clone_bytes, clone_path, lemma_bytes_deep_view, lemma_deep_view_push, path_eq};
use crate::paths::is_prefix_of;

verus! {

/// What a path holds: a directory marker, or a file with its bytes.
pub enum FsEntry {
    Directory,
    File(Vec<u8>),
}

impl FsEntry {
    /// The file bytes; the empty sequence for a directory.
    pub open spec fn spec_content(self) -> Seq<u8> {
        match self {
            FsEntry::Directory => Seq::empty(),
            FsEntry::File(c) => c@,
        }
    }
}

/// One stored path with its entry.
struct FsNode {
    path: Vec<Vec<u8>>,
    entry: FsEntry,
}

/// The filesystem tree: a finite store of distinct, non-empty paths.
pub struct FsTree {
    nodes: Vec<FsNode>,
}

/// Error returned by a filesystem-model operation.
#[derive(Debug, Clone, Copy, PartialEq, Eq, Structural)]
pub enum FsError {
    /// Nothing exists at the path.
    NotFound,
    /// A directory stands where a file was expected.
    IsADirectory,
    /// A file stands where a directory was expected.
    NotADirectory,
}

impl FsTree {
    /// Paths are pairwise distinct and non-empty.
    pub closed spec fn wf(self) -> bool {
        &&& forall|i: int, j: int|
            0 <= i < j < self.nodes@.len() ==> (#[trigger] self.nodes@[i].path.deep_view())
                != (#[trigger] self.nodes@[j].path.deep_view())
        &&& forall|i: int|
            0 <= i < self.nodes@.len() ==> (#[trigger] self.nodes@[i].path.deep_view()).len() >= 1
    }

    /// True iff something (a file or a directory) exists at `p`.
    pub closed spec fn has(self, p: Seq<Seq<u8>>) -> bool {
        exists|i: int|
            0 <= i < self.nodes@.len() && (#[trigger] self.nodes@[i].path.deep_view()) == p
    }

    /// The entry stored at `p` (meaningful only when `has(p)`).
    pub closed spec fn entry_of(self, p: Seq<Seq<u8>>) -> FsEntry {
        let i = choose|i: int|
            0 <= i < self.nodes@.len() && (#[trigger] self.nodes@[i].path.deep_view()) == p;
        self.nodes@[i].entry
    }

    /// True iff a directory exists at `p`.
    pub open spec fn is_dir(self, p: Seq<Seq<u8>>) -> bool {
        self.has(p) && self.entry_of(p) is Directory
    }

    /// True iff a file exists at `p`.
    pub open spec fn is_file(self, p: Seq<Seq<u8>>) -> bool {
        self.has(p) && self.entry_of(p) is File
    }

    /// The bytes of the file at `p`; empty when `p` is not a file.
    pub open spec fn content_of(self, p: Seq<Seq<u8>>) -> Seq<u8> {
        if self.is_file(p) {
            self.entry_of(p).spec_content()
        } else {
            Seq::empty()
        }
    }

    /// Everything at `p` is exactly what the node at index `i` stores.
    proof fn lemma_node_at(self, i: int)
        requires
            self.wf(),
            0 <= i < self.nodes@.len(),
        ensures
            self.has(self.nodes@[i].path.deep_view()),
            self.entry_of(self.nodes@[i].path.deep_view()) == self.nodes@[i].entry,
    {
        let p = self.nodes@[i].path.deep_view();
        assert(self.has(p));
        let j = choose|j: int|
            0 <= j < self.nodes@.len() && (#[trigger] self.nodes@[j].path.deep_view()) == p;
        if i != j {
            if i < j {
                assert(self.nodes@[i].path.deep_view() != self.nodes@[j].path.deep_view());
            } else {
                assert(self.nodes@[j].path.deep_view() != self.nodes@[i].path.deep_view());
            }
        }
    }

    /// An empty tree.
    pub fn new() -> (r: FsTree)
        ensures
            r.wf(),
            forall|q: Seq<Seq<u8>>| !r.has(q),
    {
        FsTree { nodes: Vec::new() }
    }

    /// The index of the node at `p`, if any.
    fn find_index(&self, p: &Vec<Vec<u8>>) -> (r: Option<usize>)
        requires
            self.wf(),
        ensures
            match r {
                Some(i) => i < self.nodes@.len() && self.nodes@[i as int].path.deep_view()
                    == p.deep_view() && self.has(p.deep_view()) && self.entry_of(p.deep_view())
                    == self.nodes@[i as int].entry,
                None => !self.has(p.deep_view()),
            },
    {
        let mut i: usize = 0;
        while i < self.nodes.len()
            invariant
                self.wf(),
                i <= self.nodes@.len(),
                forall|j: int|
                    0 <= j < i ==> (#[trigger] self.nodes@[j].path.deep_view()) != p.deep_view(),
            decreases self.nodes@.len() - i,
        {
            if path_eq(&self.nodes[i].path, p) {
                proof {
                    self.lemma_node_at(i as int);
                }
                return Some(i);
            }
            i = i + 1;
        }
        None
    }

    /// True iff something exists at `p`.
    pub fn contains(&self, p: &Vec<Vec<u8>>) -> (r: bool)
        requires
            self.wf(),
        ensures
            r == self.has(p.deep_view()),
    {
        self.find_index(p).is_some()
    }

    /// The entry at `p`, if any.
    pub fn lookup(&self, p: &Vec<Vec<u8>>) -> (r: Option<&FsEntry>)
        requires
            self.wf(),
        ensures
            match r {
                Some(e) => self.has(p.deep_view()) && *e == self.entry_of(p.deep_view()),
                None => !self.has(p.deep_view()),
            },
    {
        match self.find_index(p) {
            Some(i) => Some(&self.nodes[i].entry),
            None => None,
        }
    }

    /// The bytes of the file at `p`; `None` if `p` is absent or a directory.
    pub fn read_file(&self, p: &Vec<Vec<u8>>) -> (r: Option<&Vec<u8>>)
        requires
            self.wf(),
        ensures
            match r {
                Some(c) => self.is_file(p.deep_view()) && c@ == self.content_of(p.deep_view()),
                None => !self.is_file(p.deep_view()),
            },
    {
        match self.find_index(p) {
            Some(i) => match &self.nodes[i].entry {
                FsEntry::File(c) => Some(c),
                FsEntry::Directory => None,
            },
            None => None,
        }
    }

    /// All stored paths, in store order, each exactly once.
    pub fn paths(&self) -> (r: Vec<Vec<Vec<u8>>>)
        requires
            self.wf(),
        ensures
            forall|k: int|
                0 <= k < r.deep_view().len() ==> self.has(#[trigger] r.deep_view()[k])
                    && r.deep_view()[k].len() >= 1,
            forall|q: Seq<Seq<u8>>|
                self.has(q) ==> exists|k: int| 0 <= k < r.deep_view().len() && r.deep_view()[k] == q,
            forall|k1: int, k2: int|
                0 <= k1 < k2 < r.deep_view().len() ==> (#[trigger] r.deep_view()[k1])
                    != (#[trigger] r.deep_view()[k2]),
    {
        let mut r: Vec<Vec<Vec<u8>>> = Vec::new();
        let mut i: usize = 0;
        while i < self.nodes.len()
            invariant
                self.wf(),
                i <= self.nodes@.len(),
                r.deep_view().len() == i,
                forall|k: int|
                    0 <= k < i ==> (#[trigger] r.deep_view()[k]) == self.nodes@[k].path.deep_view(),
            decreases self.nodes@.len() - i,
        {
            let ghost r0 = r;
            let p = clone_path(&self.nodes[i].path);
            let ghost p0 = p;
            r.push(p);
            proof {
                lemma_deep_view_push(r0, r, p0);
            }
            i = i + 1;
        }
        proof {
            assert forall|k: int| 0 <= k < r.deep_view().len() implies self.has(
                #[trigger] r.deep_view()[k],
            ) && r.deep_view()[k].len() >= 1 by {
                self.lemma_node_at(k);
            }
            assert forall|q: Seq<Seq<u8>>| self.has(q) implies exists|k: int|
                0 <= k < r.deep_view().len() && r.deep_view()[k] == q by {
                let i = choose|i: int|
                    0 <= i < self.nodes@.len() && (#[trigger] self.nodes@[i].path.deep_view()) == q;
                assert(r.deep_view()[i] == q);
            }
            assert forall|k1: int, k2: int|
                0 <= k1 < k2 < r.deep_view().len() implies (#[trigger] r.deep_view()[k1])
                != (#[trigger] r.deep_view()[k2]) by {
                assert(self.nodes@[k1].path.deep_view() != self.nodes@[k2].path.deep_view());
            }
        }
        r
    }

    /// Adds a node for a path that is not yet present.
    fn insert_node(&mut self, path: Vec<Vec<u8>>, entry: FsEntry)
        requires
            old(self).wf(),
            !old(self).has(path.deep_view()),
            path.deep_view().len() >= 1,
        ensures
            final(self).wf(),
            forall|q: Seq<Seq<u8>>|
                #[trigger] final(self).has(q) <==> (old(self).has(q) || q == path.deep_view()),
            forall|q: Seq<Seq<u8>>|
                old(self).has(q) ==> (#[trigger] final(self).entry_of(q)) == old(self).entry_of(q),
            final(self).entry_of(path.deep_view()) == entry,
    {
        let ghost np = path.deep_view();
        let ghost pre = *self;
        self.nodes.push(FsNode { path, entry });
        proof {
            let n = pre.nodes@.len() as int;
            assert(self.nodes@[n].path.deep_view() == np);
            assert(forall|i: int| 0 <= i < n ==> self.nodes@[i] == pre.nodes@[i]);
            assert forall|i: int, j: int|
                0 <= i < j < self.nodes@.len() implies (#[trigger] self.nodes@[i].path.deep_view())
                != (#[trigger] self.nodes@[j].path.deep_view()) by {
                if j == n {
                    assert(pre.nodes@[i].path.deep_view() != np) by {
                        assert(!pre.has(np));
                    }
                }
            }
            assert(self.wf());
            assert forall|q: Seq<Seq<u8>>| #[trigger]
                self.has(q) implies (pre.has(q) || q == np) by {
                let i = choose|i: int|
                    0 <= i < self.nodes@.len() && (#[trigger] self.nodes@[i].path.deep_view()) == q;
                if i < n {
                    assert(pre.nodes@[i].path.deep_view() == q);
                }
            }
            assert forall|q: Seq<Seq<u8>>| pre.has(q) implies #[trigger] self.has(q) by {
                let i = choose|i: int|
                    0 <= i < pre.nodes@.len() && (#[trigger] pre.nodes@[i].path.deep_view()) == q;
                assert(self.nodes@[i].path.deep_view() == q);
            }
            assert(self.has(np)) by {
                assert(self.nodes@[n].path.deep_view() == np);
            }
            assert forall|q: Seq<Seq<u8>>| pre.has(q) implies (#[trigger] self.entry_of(q))
                == pre.entry_of(q) by {
                let i = choose|i: int|
                    0 <= i < pre.nodes@.len() && (#[trigger] pre.nodes@[i].path.deep_view()) == q;
                pre.lemma_node_at(i);
                self.lemma_node_at(i);
            }
            self.lemma_node_at(n);
        }
    }

    /// Removes the node at index `i`.
    fn remove_at(&mut self, i: usize)
        requires
            old(self).wf(),
            i < old(self).nodes@.len(),
        ensures
            final(self).wf(),
            final(self).nodes@.len() == old(self).nodes@.len() - 1,
            forall|q: Seq<Seq<u8>>|
                #[trigger] final(self).has(q) <==> (old(self).has(q) && q != old(self).nodes@[i as int].path.deep_view()),
            forall|q: Seq<Seq<u8>>|
                final(self).has(q) ==> (#[trigger] final(self).entry_of(q)) == old(self).entry_of(q),
    {
        let ghost pre = *self;
        let ghost rp = pre.nodes@[i as int].path.deep_view();
        self.nodes.remove(i);
        proof {
            let n = self.nodes@.len() as int;
            assert(forall|k: int| 0 <= k < i ==> self.nodes@[k] == pre.nodes@[k]);
            assert(forall|k: int| i <= k < n ==> self.nodes@[k] == pre.nodes@[k + 1]);
            assert forall|a: int, b: int|
                0 <= a < b < n implies (#[trigger] self.nodes@[a].path.deep_view())
                != (#[trigger] self.nodes@[b].path.deep_view()) by {
                let a0 = if a < i { a } else { a + 1 };
                let b0 = if b < i { b } else { b + 1 };
                assert(pre.nodes@[a0].path.deep_view() != pre.nodes@[b0].path.deep_view());
            }
            assert(self.wf());
            assert forall|q: Seq<Seq<u8>>| #[trigger]
                self.has(q) implies (pre.has(q) && q != rp) by {
                let k = choose|k: int|
                    0 <= k < self.nodes@.len() && (#[trigger] self.nodes@[k].path.deep_view()) == q;
                let k0 = if k < i { k } else { k + 1 };
                assert(pre.nodes@[k0].path.deep_view() == q);
                assert(k0 != i);
                if k0 < i {
                    assert(pre.nodes@[k0].path.deep_view() != pre.nodes@[i as int].path.deep_view());
                } else {
                    assert(pre.nodes@[i as int].path.deep_view() != pre.nodes@[k0].path.deep_view());
                }
            }
            assert forall|q: Seq<Seq<u8>>| pre.has(q) && q != rp implies #[trigger] self.has(
                q,
            ) by {
                let k = choose|k: int|
                    0 <= k < pre.nodes@.len() && (#[trigger] pre.nodes@[k].path.deep_view()) == q;
                assert(k != i);
                if k < i {
                    assert(self.nodes@[k].path.deep_view() == q);
                } else {
                    assert(self.nodes@[k - 1].path.deep_view() == q);
                }
            }
            assert forall|q: Seq<Seq<u8>>| self.has(q) implies (#[trigger] self.entry_of(q))
                == pre.entry_of(q) by {
                let k = choose|k: int|
                    0 <= k < self.nodes@.len() && (#[trigger] self.nodes@[k].path.deep_view()) == q;
                let k0 = if k < i { k } else { k + 1 };
                assert(pre.nodes@[k0].path.deep_view() == q);
                self.lemma_node_at(k);
                pre.lemma_node_at(k0);
            }
        }
    }

    /// The index of some node whose path extends `p`, if any.
    fn find_with_prefix(&self, p: &Vec<Vec<u8>>) -> (r: Option<usize>)
        requires
            self.wf(),
        ensures
            match r {
                Some(i) => i < self.nodes@.len() && is_prefix_of(
                    p.deep_view(),
                    self.nodes@[i as int].path.deep_view(),
                ),
                None => forall|q: Seq<Seq<u8>>|
                    #[trigger] self.has(q) ==> !is_prefix_of(p.deep_view(), q),
            },
    {
        let mut i: usize = 0;
        while i < self.nodes.len()
            invariant
                self.wf(),
                i <= self.nodes@.len(),
                forall|j: int|
                    0 <= j < i ==> !is_prefix_of(
                        p.deep_view(),
                        #[trigger] self.nodes@[j].path.deep_view(),
                    ),
            decreases self.nodes@.len() - i,
        {
            if crate::paths::path_starts_with(&self.nodes[i].path, p) {
                return Some(i);
            }
            i = i + 1;
        }
        proof {
            assert forall|q: Seq<Seq<u8>>| #[trigger] self.has(q) implies !is_prefix_of(
                p.deep_view(),
                q,
            ) by {
                let j = choose|j: int|
                    0 <= j < self.nodes@.len() && (#[trigger] self.nodes@[j].path.deep_view()) == q;
            }
        }
        None
    }

    /// Removes whatever stands at `p` and everything under it. Total: an
    /// absent path is a no-op.
    pub fn remove_subtree(&mut self, p: &Vec<Vec<u8>>)
        requires
            old(self).wf(),
        ensures
            final(self).wf(),
            forall|q: Seq<Seq<u8>>|
                #[trigger] final(self).has(q) <==> (old(self).has(q) && !is_prefix_of(
                    p.deep_view(),
                    q,
                )),
            forall|q: Seq<Seq<u8>>|
                final(self).has(q) ==> (#[trigger] final(self).entry_of(q)) == old(self).entry_of(q),
    {
        let ghost pre = *self;
        loop
            invariant
                self.wf(),
                forall|q: Seq<Seq<u8>>|
                    #[trigger] self.has(q) ==> pre.has(q) && self.entry_of(q) == pre.entry_of(q),
                forall|q: Seq<Seq<u8>>|
                    pre.has(q) && !is_prefix_of(p.deep_view(), q) ==> #[trigger] self.has(q),
            ensures
                forall|q: Seq<Seq<u8>>|
                    #[trigger] self.has(q) <==> (pre.has(q) && !is_prefix_of(p.deep_view(), q)),
            decreases self.nodes@.len(),
        {
            match self.find_with_prefix(p) {
                Some(i) => {
                    proof {
                        self.lemma_node_at(i as int);
                    }
                    self.remove_at(i);
                },
                None => {
                    break;
                },
            }
        }
    }

    /// Creates a directory at every non-empty prefix of `p` (ancestors
    /// first). Fails, changing nothing, exactly when a file stands at one of
    /// those prefixes.
    pub fn create_dir_all(&mut self, p: &Vec<Vec<u8>>) -> (r: Result<(), FsError>)
        requires
            old(self).wf(),
        ensures
            final(self).wf(),
            match r {
                Ok(()) => {
                    &&& forall|j: int|
                        1 <= j <= p.deep_view().len() ==> !old(self).is_file(
                            #[trigger] p.deep_view().take(j),
                        )
                    &&& forall|q: Seq<Seq<u8>>|
                        #[trigger] final(self).has(q) <==> (old(self).has(q) || (q.len() >= 1
                            && is_prefix_of(q, p.deep_view())))
                    &&& forall|q: Seq<Seq<u8>>|
                        old(self).has(q) ==> (#[trigger] final(self).entry_of(q)) == old(self).entry_of(q)
                    &&& forall|q: Seq<Seq<u8>>|
                        final(self).has(q) && !old(self).has(q) ==> final(self).is_dir(q)
                },
                Err(e) => {
                    &&& e == FsError::NotADirectory
                    &&& *final(self) == *old(self)
                    &&& exists|j: int|
                        1 <= j <= p.deep_view().len() && old(self).is_file(
                            #[trigger] p.deep_view().take(j),
                        )
                },
            },
    {
        // Check phase: no prefix of p may be a file.
        let mut prefix: Vec<Vec<u8>> = Vec::new();
        let mut j: usize = 0;
        while j < p.len()
            invariant
                self.wf(),
                *self == *old(self),
                j <= p@.len(),
                prefix.deep_view() == p.deep_view().take(j as int),
                forall|k: int| 1 <= k <= j ==> !self.is_file(#[trigger] p.deep_view().take(k)),
            decreases p@.len() - j,
        {
            let ghost pre0 = prefix;
            let c = clone_bytes(&p[j]);
            let ghost c0 = c;
            prefix.push(c);
            proof {
                lemma_bytes_deep_view(c0);
                lemma_bytes_deep_view(p@[j as int]);
                lemma_deep_view_push(pre0, prefix, c0);
                assert(prefix.deep_view() =~= p.deep_view().take(j + 1));
            }
            match self.lookup(&prefix) {
                Some(e) => {
                    if matches!(e, FsEntry::File(_)) {
                        proof {
                            assert(self.is_file(p.deep_view().take(j + 1)));
                        }
                        return Err(FsError::NotADirectory);
                    }
                },
                None => {},
            }
            j = j + 1;
        }
        // Act phase: insert every absent prefix as a directory.
        let ghost pre = *self;
        let mut prefix: Vec<Vec<u8>> = Vec::new();
        let mut j: usize = 0;
        while j < p.len()
            invariant
                self.wf(),
                j <= p@.len(),
                prefix.deep_view() == p.deep_view().take(j as int),
                forall|q: Seq<Seq<u8>>|
                    #[trigger] self.has(q) <==> (pre.has(q) || (q.len() >= 1 && is_prefix_of(
                        q,
                        p.deep_view().take(j as int),
                    ))),
                forall|q: Seq<Seq<u8>>|
                    pre.has(q) ==> (#[trigger] self.entry_of(q)) == pre.entry_of(q),
                forall|q: Seq<Seq<u8>>| self.has(q) && !pre.has(q) ==> self.is_dir(q),
            decreases p@.len() - j,
        {
            let ghost pre0 = prefix;
            let ghost mid = *self;
            let c = clone_bytes(&p[j]);
            let ghost c0 = c;
            prefix.push(c);
            proof {
                lemma_bytes_deep_view(c0);
                lemma_bytes_deep_view(p@[j as int]);
                lemma_deep_view_push(pre0, prefix, c0);
                assert(prefix.deep_view() =~= p.deep_view().take(j + 1));
            }
            let ghost np = prefix.deep_view();
            if !self.contains(&prefix) {
                let node_path = clone_path(&prefix);
                self.insert_node(node_path, FsEntry::Directory);
                proof {
                    assert(forall|q: Seq<Seq<u8>>|
                        #[trigger] self.has(q) <==> (mid.has(q) || q == np));
                    assert(self.is_dir(np)) by {
                        assert(self.entry_of(np) == FsEntry::Directory);
                    }
                }
            } else {
                proof {
                    assert(forall|q: Seq<Seq<u8>>|
                        #[trigger] self.has(q) <==> (mid.has(q) || q == np));
                }
            }
            proof {
                let pj = p.deep_view().take(j as int);
                let pj1 = p.deep_view().take(j + 1);
                assert(np == pj1);
                assert forall|q: Seq<Seq<u8>>|
                    #[trigger] self.has(q) <==> (pre.has(q) || (q.len() >= 1 && is_prefix_of(
                        q,
                        pj1,
                    ))) by {
                    if self.has(q) {
                        if mid.has(q) {
                            if !pre.has(q) {
                                assert(q.len() >= 1 && is_prefix_of(q, pj));
                                assert(q =~= pj1.take(q.len() as int));
                                assert(is_prefix_of(q, pj1));
                            }
                        } else {
                            assert(q == np);
                            assert(q =~= pj1.take(q.len() as int));
                            assert(is_prefix_of(q, pj1));
                        }
                    }
                    if pre.has(q) {
                        assert(mid.has(q));
                        assert(self.has(q));
                    }
                    if q.len() >= 1 && is_prefix_of(q, pj1) {
                        if q.len() <= j {
                            assert(q =~= pj.take(q.len() as int));
                            assert(is_prefix_of(q, pj));
                            assert(mid.has(q));
                            assert(self.has(q));
                        } else {
                            assert(q =~= pj1);
                            assert(self.has(np));
                        }
                    }
                }
                assert forall|q: Seq<Seq<u8>>| pre.has(q) implies (#[trigger] self.entry_of(q))
                    == pre.entry_of(q) by {
                    assert(mid.has(q));
                    assert(mid.entry_of(q) == pre.entry_of(q));
                }
                assert forall|q: Seq<Seq<u8>>| self.has(q) && !pre.has(q) implies self.is_dir(
                    q,
                ) by {
                    if mid.has(q) {
                        assert(mid.is_dir(q));
                        assert(self.entry_of(q) == mid.entry_of(q));
                    } else {
                        assert(q == np);
                    }
                }
            }
            j = j + 1;
        }
        proof {
            assert(p.deep_view().take(p.deep_view().len() as int) =~= p.deep_view());
        }
        Ok(())
    }

    /// Creates or overwrites the file at `p` with `content`. Fails, changing
    /// nothing, exactly when `p` is empty (the root) or a directory stands
    /// at `p`.
    pub fn write_file(&mut self, p: &Vec<Vec<u8>>, content: Vec<u8>) -> (r: Result<(), FsError>)
        requires
            old(self).wf(),
        ensures
            final(self).wf(),
            match r {
                Ok(()) => {
                    &&& !old(self).is_dir(p.deep_view()) && p.deep_view().len() >= 1
                    &&& forall|q: Seq<Seq<u8>>|
                        #[trigger] final(self).has(q) <==> (old(self).has(q) || q == p.deep_view())
                    &&& forall|q: Seq<Seq<u8>>|
                        old(self).has(q) && q != p.deep_view()
                            ==> (#[trigger] final(self).entry_of(q)) == old(self).entry_of(q)
                    &&& final(self).is_file(p.deep_view())
                    &&& final(self).content_of(p.deep_view()) == content@
                },
                Err(e) => {
                    &&& e == FsError::IsADirectory
                    &&& (old(self).is_dir(p.deep_view()) || p.deep_view().len() == 0)
                    &&& *final(self) == *old(self)
                },
            },
    {
        if p.len() == 0 {
            return Err(FsError::IsADirectory);
        }
        let ghost pre = *self;
        match self.find_index(p) {
            Some(i) => {
                if matches!(&self.nodes[i].entry, FsEntry::Directory) {
                    return Err(FsError::IsADirectory);
                }
                self.remove_at(i);
            },
            None => {},
        }
        let ghost mid = *self;
        let node_path = clone_path(p);
        self.insert_node(node_path, FsEntry::File(content));
        proof {
            assert(self.is_file(p.deep_view())) by {
                assert(self.entry_of(p.deep_view()) == FsEntry::File(content));
            }
            assert(self.content_of(p.deep_view()) =~= content@);
        }
        Ok(())
    }

    /// Removes the file at `p`. Fails, changing nothing, when nothing is at
    /// `p` or a directory is.
    pub fn remove_file(&mut self, p: &Vec<Vec<u8>>) -> (r: Result<(), FsError>)
        requires
            old(self).wf(),
        ensures
            final(self).wf(),
            match r {
                Ok(()) => {
                    &&& old(self).is_file(p.deep_view())
                    &&& forall|q: Seq<Seq<u8>>|
                        #[trigger] final(self).has(q) <==> (old(self).has(q) && q != p.deep_view())
                    &&& forall|q: Seq<Seq<u8>>|
                        final(self).has(q) ==> (#[trigger] final(self).entry_of(q)) == old(self).entry_of(q)
                },
                Err(e) => {
                    &&& *final(self) == *old(self)
                    &&& (e == FsError::NotFound || e == FsError::IsADirectory)
                    &&& e == FsError::NotFound <==> !old(self).has(p.deep_view())
                    &&& e == FsError::IsADirectory <==> old(self).is_dir(p.deep_view())
                },
            },
    {
        match self.find_index(p) {
            Some(i) => {
                if matches!(&self.nodes[i].entry, FsEntry::Directory) {
                    return Err(FsError::IsADirectory);
                }
                self.remove_at(i);
                Ok(())
            },
            None => Err(FsError::NotFound),
        }
    }

    /// Removes the directory at `p` with everything under it. Fails,
    /// changing nothing, when nothing is at `p` or a file is.
    pub fn remove_dir_all(&mut self, p: &Vec<Vec<u8>>) -> (r: Result<(), FsError>)
        requires
            old(self).wf(),
        ensures
            final(self).wf(),
            match r {
                Ok(()) => {
                    &&& old(self).is_dir(p.deep_view())
                    &&& forall|q: Seq<Seq<u8>>|
                        #[trigger] final(self).has(q) <==> (old(self).has(q) && !is_prefix_of(
                            p.deep_view(),
                            q,
                        ))
                    &&& forall|q: Seq<Seq<u8>>|
                        final(self).has(q) ==> (#[trigger] final(self).entry_of(q)) == old(self).entry_of(q)
                },
                Err(e) => {
                    &&& *final(self) == *old(self)
                    &&& (e == FsError::NotFound || e == FsError::NotADirectory)
                    &&& e == FsError::NotFound <==> !old(self).has(p.deep_view())
                    &&& e == FsError::NotADirectory <==> old(self).is_file(p.deep_view())
                },
            },
    {
        match self.lookup(p) {
            Some(e) => {
                if matches!(e, FsEntry::File(_)) {
                    return Err(FsError::NotADirectory);
                }
                self.remove_subtree(p);
                Ok(())
            },
            None => Err(FsError::NotFound),
        }
    }
}

/// Copies the bytes of the file at `source` onto `target`, creating or
/// truncating it. Fails, changing nothing, when `source` is not a file or a
/// directory stands at `target`.
pub fn force_copy(fs: &mut FsTree, source: &Vec<Vec<u8>>, target: &Vec<Vec<u8>>) -> (r: Result<
    (),
    FsError,
>)
    requires
        old(fs).wf(),
    ensures
        final(fs).wf(),
        match r {
            Ok(()) => {
                &&& old(fs).is_file(source.deep_view())
                &&& !old(fs).is_dir(target.deep_view()) && target.deep_view().len() >= 1
                &&& forall|q: Seq<Seq<u8>>|
                    #[trigger] final(fs).has(q) <==> (old(fs).has(q) || q == target.deep_view())
                &&& forall|q: Seq<Seq<u8>>|
                    old(fs).has(q) && q != target.deep_view() ==> (#[trigger] final(fs).entry_of(
                        q,
                    )) == old(fs).entry_of(q)
                &&& final(fs).is_file(target.deep_view())
                &&& final(fs).content_of(target.deep_view()) == old(fs).content_of(
                    source.deep_view(),
                )
            },
            Err(e) => {
                &&& *final(fs) == *old(fs)
                &&& (e == FsError::NotFound || e == FsError::IsADirectory)
                &&& e == FsError::NotFound <==> !old(fs).is_file(source.deep_view())
                &&& e == FsError::IsADirectory <==> (old(fs).is_file(source.deep_view()) && (old(fs).is_dir(target.deep_view()) || target.deep_view().len() == 0))
            },
        },
{
    let content = match fs.read_file(source) {
        Some(c) => clone_bytes(c),
        None => {
            return Err(FsError::NotFound);
        },
    };
    match fs.write_file(target, content) {
        Ok(()) => Ok(()),
        Err(e) => Err(e),
    }
}

} // verus!
