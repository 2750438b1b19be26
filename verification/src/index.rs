//! Checksum index: the server's map from file path to the last-known strong
//! digest of that file's content.
//!
//! The index is an optimization, never a source of truth: a lookup by digest
//! only proposes a copy source, and the content sync engine re-verifies the
//! source's digest before using it. Entries are upserted when a copy or
//! upload completes and evicted when paths are deleted.

use vstd::prelude::*;

use crate::bytes::{bytes_eq, clone_path, path_eq};

verus! {

/// One recorded path with the digest last known for it.
struct IndexEntry {
    path: Vec<Vec<u8>>,
    digest: Vec<u8>,
}

/// Maps absolute (root-relative, sanitized) file paths to strong digests.
pub struct ChecksumIndex {
    entries: Vec<IndexEntry>,
}

impl ChecksumIndex {
    /// Paths are recorded at most once.
    pub closed spec fn wf(self) -> bool {
        forall|i: int, j: int|
            0 <= i < j < self.entries@.len() ==> (#[trigger] self.entries@[i].path.deep_view())
                != (#[trigger] self.entries@[j].path.deep_view())
    }

    /// True iff a digest is recorded for `p`.
    pub closed spec fn has_key(self, p: Seq<Seq<u8>>) -> bool {
        exists|i: int|
            0 <= i < self.entries@.len() && (#[trigger] self.entries@[i].path.deep_view()) == p
    }

    /// The digest recorded for `p` (meaningful only when `has_key(p)`).
    pub closed spec fn digest_of(self, p: Seq<Seq<u8>>) -> Seq<u8> {
        let i = choose|i: int|
            0 <= i < self.entries@.len() && (#[trigger] self.entries@[i].path.deep_view()) == p;
        self.entries@[i].digest@
    }

    /// The first recorded path whose digest equals `d`, in record order.
    pub closed spec fn find_spec(self, d: Seq<u8>) -> Option<Seq<Seq<u8>>> {
        Self::find_first(self.entries@, d)
    }

    spec fn find_first(s: Seq<IndexEntry>, d: Seq<u8>) -> Option<Seq<Seq<u8>>>
        decreases s.len(),
    {
        if s.len() == 0 {
            None
        } else if s[0].digest@ == d {
            Some(s[0].path.deep_view())
        } else {
            Self::find_first(s.drop_first(), d)
        }
    }

    /// What a found path means: it is recorded, with exactly that digest.
    proof fn lemma_find_first_some(s: Seq<IndexEntry>, d: Seq<u8>, p: Seq<Seq<u8>>)
        requires
            Self::find_first(s, d) == Some(p),
        ensures
            exists|i: int|
                0 <= i < s.len() && (#[trigger] s[i].path.deep_view()) == p && s[i].digest@ == d,
        decreases s.len(),
    {
        if s.len() > 0 {
            if s[0].digest@ == d {
                assert(s[0].path.deep_view() == p && s[0].digest@ == d);
            } else {
                Self::lemma_find_first_some(s.drop_first(), d, p);
                let i = choose|i: int|
                    0 <= i < s.drop_first().len() && (#[trigger] s.drop_first()[i].path.deep_view())
                        == p && s.drop_first()[i].digest@ == d;
                assert(s[i + 1].path.deep_view() == p && s[i + 1].digest@ == d);
            }
        }
    }

    /// What an empty lookup means: no recorded path has that digest.
    proof fn lemma_find_first_none(s: Seq<IndexEntry>, d: Seq<u8>)
        requires
            Self::find_first(s, d) is None,
        ensures
            forall|i: int| 0 <= i < s.len() ==> (#[trigger] s[i].digest@) != d,
        decreases s.len(),
    {
        if s.len() > 0 {
            Self::lemma_find_first_none(s.drop_first(), d);
            assert forall|i: int| 0 <= i < s.len() implies (#[trigger] s[i].digest@) != d by {
                if i > 0 {
                    assert(s.drop_first()[i - 1].digest@ != d);
                }
            }
        }
    }

    /// A found path is recorded with exactly the digest that was looked up.
    pub proof fn lemma_find_some(self, d: Seq<u8>, p: Seq<Seq<u8>>)
        requires
            self.wf(),
            self.find_spec(d) == Some(p),
        ensures
            self.has_key(p),
            self.digest_of(p) == d,
    {
        Self::lemma_find_first_some(self.entries@, d, p);
        let i = choose|i: int|
            0 <= i < self.entries@.len() && (#[trigger] self.entries@[i].path.deep_view()) == p
                && self.entries@[i].digest@ == d;
        self.lemma_entry_at(i);
    }

    /// An empty lookup means no recorded path carries that digest.
    pub proof fn lemma_find_none(self, d: Seq<u8>)
        requires
            self.wf(),
            self.find_spec(d) is None,
        ensures
            forall|q: Seq<Seq<u8>>| #[trigger] self.has_key(q) ==> self.digest_of(q) != d,
    {
        Self::lemma_find_first_none(self.entries@, d);
        assert forall|q: Seq<Seq<u8>>| #[trigger] self.has_key(q) implies self.digest_of(q)
            != d by {
            let i = choose|i: int|
                0 <= i < self.entries@.len() && (#[trigger] self.entries@[i].path.deep_view()) == q;
            self.lemma_entry_at(i);
        }
    }

    /// The record for the path at index `i` is exactly that entry.
    proof fn lemma_entry_at(self, i: int)
        requires
            self.wf(),
            0 <= i < self.entries@.len(),
        ensures
            self.has_key(self.entries@[i].path.deep_view()),
            self.digest_of(self.entries@[i].path.deep_view()) == self.entries@[i].digest@,
    {
        let p = self.entries@[i].path.deep_view();
        let j = choose|j: int|
            0 <= j < self.entries@.len() && (#[trigger] self.entries@[j].path.deep_view()) == p;
        if i != j {
            if i < j {
                assert(self.entries@[i].path.deep_view() != self.entries@[j].path.deep_view());
            } else {
                assert(self.entries@[j].path.deep_view() != self.entries@[i].path.deep_view());
            }
        }
    }

    /// An empty index.
    pub fn new() -> (r: ChecksumIndex)
        ensures
            r.wf(),
            forall|q: Seq<Seq<u8>>| !r.has_key(q),
    {
        ChecksumIndex { entries: Vec::new() }
    }

    /// The index of the record for `p`, if any.
    fn find_key_index(&self, p: &Vec<Vec<u8>>) -> (r: Option<usize>)
        requires
            self.wf(),
        ensures
            match r {
                Some(i) => i < self.entries@.len() && self.entries@[i as int].path.deep_view()
                    == p.deep_view(),
                None => !self.has_key(p.deep_view()),
            },
    {
        let mut i: usize = 0;
        while i < self.entries.len()
            invariant
                self.wf(),
                i <= self.entries@.len(),
                forall|j: int|
                    0 <= j < i ==> (#[trigger] self.entries@[j].path.deep_view()) != p.deep_view(),
            decreases self.entries@.len() - i,
        {
            if path_eq(&self.entries[i].path, p) {
                return Some(i);
            }
            i = i + 1;
        }
        None
    }

    /// Removes the record at index `i`.
    fn remove_at(&mut self, i: usize)
        requires
            old(self).wf(),
            i < old(self).entries@.len(),
        ensures
            final(self).wf(),
            final(self).entries@.len() == old(self).entries@.len() - 1,
            forall|q: Seq<Seq<u8>>|
                #[trigger] final(self).has_key(q) <==> (old(self).has_key(q) && q != old(self).entries@[i as int].path.deep_view()),
            forall|q: Seq<Seq<u8>>|
                final(self).has_key(q) ==> (#[trigger] final(self).digest_of(q)) == old(self).digest_of(q),
    {
        let ghost pre = *self;
        self.entries.remove(i);
        proof {
            let n = self.entries@.len() as int;
            assert(forall|k: int| 0 <= k < i ==> self.entries@[k] == pre.entries@[k]);
            assert(forall|k: int| i <= k < n ==> self.entries@[k] == pre.entries@[k + 1]);
            assert forall|a: int, b: int|
                0 <= a < b < n implies (#[trigger] self.entries@[a].path.deep_view())
                != (#[trigger] self.entries@[b].path.deep_view()) by {
                let a0 = if a < i { a } else { a + 1 };
                let b0 = if b < i { b } else { b + 1 };
                assert(pre.entries@[a0].path.deep_view() != pre.entries@[b0].path.deep_view());
            }
            assert(self.wf());
            assert forall|q: Seq<Seq<u8>>| #[trigger]
                self.has_key(q) implies (pre.has_key(q) && q != pre.entries@[i as int].path.deep_view()) by {
                let k = choose|k: int|
                    0 <= k < self.entries@.len() && (#[trigger] self.entries@[k].path.deep_view())
                        == q;
                let k0 = if k < i { k } else { k + 1 };
                assert(pre.entries@[k0].path.deep_view() == q);
                if k0 < i {
                    assert(pre.entries@[k0].path.deep_view() != pre.entries@[i as int].path.deep_view());
                } else {
                    assert(pre.entries@[i as int].path.deep_view() != pre.entries@[k0].path.deep_view());
                }
            }
            assert forall|q: Seq<Seq<u8>>|
                pre.has_key(q) && q != pre.entries@[i as int].path.deep_view() implies #[trigger] self.has_key(
                q,
            ) by {
                let k = choose|k: int|
                    0 <= k < pre.entries@.len() && (#[trigger] pre.entries@[k].path.deep_view())
                        == q;
                if k < i {
                    assert(self.entries@[k].path.deep_view() == q);
                } else {
                    assert(self.entries@[k - 1].path.deep_view() == q);
                }
            }
            assert forall|q: Seq<Seq<u8>>| self.has_key(q) implies (#[trigger] self.digest_of(q))
                == pre.digest_of(q) by {
                let k = choose|k: int|
                    0 <= k < self.entries@.len() && (#[trigger] self.entries@[k].path.deep_view())
                        == q;
                let k0 = if k < i { k } else { k + 1 };
                assert(pre.entries@[k0].path.deep_view() == q);
                self.lemma_entry_at(k);
                pre.lemma_entry_at(k0);
            }
        }
    }

    /// Records `digest` for `path`, overwriting any prior record.
    pub fn record(&mut self, path: Vec<Vec<u8>>, digest: Vec<u8>)
        requires
            old(self).wf(),
        ensures
            final(self).wf(),
            forall|q: Seq<Seq<u8>>|
                #[trigger] final(self).has_key(q) <==> (old(self).has_key(q) || q
                    == path.deep_view()),
            forall|q: Seq<Seq<u8>>|
                old(self).has_key(q) && q != path.deep_view() ==> (#[trigger] final(self).digest_of(q)) == old(self).digest_of(q),
            final(self).digest_of(path.deep_view()) == digest@,
    {
        let ghost goal = path.deep_view();
        match self.find_key_index(&path) {
            Some(i) => {
                self.remove_at(i);
            },
            None => {},
        }
        let ghost mid = *self;
        proof {
            assert(!mid.has_key(goal));
        }
        self.entries.push(IndexEntry { path, digest });
        proof {
            let n = mid.entries@.len() as int;
            assert(self.entries@[n].path.deep_view() == goal);
            assert(forall|k: int| 0 <= k < n ==> self.entries@[k] == mid.entries@[k]);
            assert forall|a: int, b: int|
                0 <= a < b < self.entries@.len() implies (#[trigger] self.entries@[a].path.deep_view())
                != (#[trigger] self.entries@[b].path.deep_view()) by {
                if b == n {
                    assert(mid.entries@[a].path.deep_view() != goal) by {
                        assert(!mid.has_key(goal));
                    }
                }
            }
            assert(self.wf());
            assert forall|q: Seq<Seq<u8>>| #[trigger]
                self.has_key(q) implies (mid.has_key(q) || q == goal) by {
                let k = choose|k: int|
                    0 <= k < self.entries@.len() && (#[trigger] self.entries@[k].path.deep_view())
                        == q;
                if k < n {
                    assert(mid.entries@[k].path.deep_view() == q);
                }
            }
            assert forall|q: Seq<Seq<u8>>| mid.has_key(q) implies #[trigger] self.has_key(q) by {
                let k = choose|k: int|
                    0 <= k < mid.entries@.len() && (#[trigger] mid.entries@[k].path.deep_view())
                        == q;
                assert(self.entries@[k].path.deep_view() == q);
            }
            assert(self.has_key(goal)) by {
                assert(self.entries@[n].path.deep_view() == goal);
            }
            assert forall|q: Seq<Seq<u8>>| mid.has_key(q) implies (#[trigger] self.digest_of(q))
                == mid.digest_of(q) by {
                let k = choose|k: int|
                    0 <= k < mid.entries@.len() && (#[trigger] mid.entries@[k].path.deep_view())
                        == q;
                mid.lemma_entry_at(k);
                self.lemma_entry_at(k);
            }
            self.lemma_entry_at(n);
        }
    }

    /// Drops any record for `path`; no effect if none exists.
    pub fn forget(&mut self, path: &Vec<Vec<u8>>)
        requires
            old(self).wf(),
        ensures
            final(self).wf(),
            forall|q: Seq<Seq<u8>>|
                #[trigger] final(self).has_key(q) <==> (old(self).has_key(q) && q
                    != path.deep_view()),
            forall|q: Seq<Seq<u8>>|
                final(self).has_key(q) ==> (#[trigger] final(self).digest_of(q)) == old(self).digest_of(q),
    {
        match self.find_key_index(path) {
            Some(i) => {
                self.remove_at(i);
            },
            None => {},
        }
    }

    /// The index of some record whose path extends `p`, if any.
    fn find_key_with_prefix(&self, p: &Vec<Vec<u8>>) -> (r: Option<usize>)
        requires
            self.wf(),
        ensures
            match r {
                Some(i) => i < self.entries@.len() && crate::paths::is_prefix_of(
                    p.deep_view(),
                    self.entries@[i as int].path.deep_view(),
                ),
                None => forall|q: Seq<Seq<u8>>|
                    #[trigger] self.has_key(q) ==> !crate::paths::is_prefix_of(p.deep_view(), q),
            },
    {
        let mut i: usize = 0;
        while i < self.entries.len()
            invariant
                self.wf(),
                i <= self.entries@.len(),
                forall|j: int|
                    0 <= j < i ==> !crate::paths::is_prefix_of(
                        p.deep_view(),
                        #[trigger] self.entries@[j].path.deep_view(),
                    ),
            decreases self.entries@.len() - i,
        {
            if crate::paths::path_starts_with(&self.entries[i].path, p) {
                return Some(i);
            }
            i = i + 1;
        }
        proof {
            assert forall|q: Seq<Seq<u8>>| #[trigger] self.has_key(q) implies
                !crate::paths::is_prefix_of(p.deep_view(), q) by {
                let j = choose|j: int|
                    0 <= j < self.entries@.len() && (#[trigger] self.entries@[j].path.deep_view())
                        == q;
            }
        }
        None
    }

    /// Drops every record whose path is `path` or lies under it.
    pub fn forget_subtree(&mut self, path: &Vec<Vec<u8>>)
        requires
            old(self).wf(),
        ensures
            final(self).wf(),
            forall|q: Seq<Seq<u8>>|
                #[trigger] final(self).has_key(q) <==> (old(self).has_key(q)
                    && !crate::paths::is_prefix_of(path.deep_view(), q)),
            forall|q: Seq<Seq<u8>>|
                final(self).has_key(q) ==> (#[trigger] final(self).digest_of(q)) == old(self).digest_of(q),
    {
        let ghost pre = *self;
        loop
            invariant
                self.wf(),
                forall|q: Seq<Seq<u8>>|
                    #[trigger] self.has_key(q) ==> pre.has_key(q) && self.digest_of(q)
                        == pre.digest_of(q),
                forall|q: Seq<Seq<u8>>|
                    pre.has_key(q) && !crate::paths::is_prefix_of(path.deep_view(), q)
                        ==> #[trigger] self.has_key(q),
            ensures
                forall|q: Seq<Seq<u8>>|
                    #[trigger] self.has_key(q) <==> (pre.has_key(q) && !crate::paths::is_prefix_of(
                        path.deep_view(),
                        q,
                    )),
            decreases self.entries@.len(),
        {
            match self.find_key_with_prefix(path) {
                Some(i) => {
                    proof {
                        self.lemma_entry_at(i as int);
                    }
                    self.remove_at(i);
                },
                None => {
                    break;
                },
            }
        }
    }

    /// All recorded paths, in record order.
    pub fn keys(&self) -> (r: Vec<Vec<Vec<u8>>>)
        requires
            self.wf(),
        ensures
            forall|k: int|
                0 <= k < r.deep_view().len() ==> self.has_key(#[trigger] r.deep_view()[k]),
            forall|q: Seq<Seq<u8>>|
                self.has_key(q) ==> exists|k: int|
                    0 <= k < r.deep_view().len() && r.deep_view()[k] == q,
    {
        let mut r: Vec<Vec<Vec<u8>>> = Vec::new();
        let mut i: usize = 0;
        while i < self.entries.len()
            invariant
                self.wf(),
                i <= self.entries@.len(),
                r.deep_view().len() == i,
                forall|k: int|
                    0 <= k < i ==> (#[trigger] r.deep_view()[k])
                        == self.entries@[k].path.deep_view(),
            decreases self.entries@.len() - i,
        {
            let ghost r0 = r;
            let p = clone_path(&self.entries[i].path);
            let ghost p0 = p;
            r.push(p);
            proof {
                crate::bytes::lemma_deep_view_push(r0, r, p0);
            }
            i = i + 1;
        }
        proof {
            assert forall|k: int| 0 <= k < r.deep_view().len() implies self.has_key(
                #[trigger] r.deep_view()[k],
            ) by {
                self.lemma_entry_at(k);
            }
            assert forall|q: Seq<Seq<u8>>| self.has_key(q) implies exists|k: int|
                0 <= k < r.deep_view().len() && r.deep_view()[k] == q by {
                let i = choose|i: int|
                    0 <= i < self.entries@.len() && (#[trigger] self.entries@[i].path.deep_view())
                        == q;
                assert(r.deep_view()[i] == q);
            }
        }
        r
    }

    /// The first recorded path whose digest equals `digest`, if any; ties
    /// are broken by record order, an implementation-defined choice that
    /// callers must not rely on.
    pub fn find_by_digest(&self, digest: &Vec<u8>) -> (r: Option<Vec<Vec<u8>>>)
        requires
            self.wf(),
        ensures
            match r {
                Some(p) => self.find_spec(digest@) == Some(p.deep_view()),
                None => self.find_spec(digest@) is None,
            },
    {
        let mut i: usize = 0;
        proof {
            assert(self.entries@.skip(0) =~= self.entries@);
        }
        while i < self.entries.len()
            invariant
                self.wf(),
                i <= self.entries@.len(),
                Self::find_first(self.entries@, digest@) == Self::find_first(
                    self.entries@.skip(i as int),
                    digest@,
                ),
            decreases self.entries@.len() - i,
        {
            proof {
                assert(self.entries@.skip(i as int).len() > 0);
                assert(self.entries@.skip(i as int)[0] == self.entries@[i as int]);
            }
            if bytes_eq(&self.entries[i].digest, digest) {
                return Some(clone_path(&self.entries[i].path));
            }
            proof {
                assert(self.entries@.skip(i as int).drop_first() =~= self.entries@.skip(i + 1));
            }
            i = i + 1;
        }
        proof {
            assert(self.entries@.skip(self.entries@.len() as int).len() == 0);
        }
        None
    }
}

/// After a path is forgotten, no digest lookup returns it: an index that
/// does not record `p` never proposes `p` as a copy source.
pub proof fn lemma_forgotten_path_never_found(idx: ChecksumIndex, p: Seq<Seq<u8>>, d: Seq<u8>)
    requires
        idx.wf(),
        !idx.has_key(p),
    ensures
        idx.find_spec(d) != Some(p),
{
    if idx.find_spec(d) == Some(p) {
        idx.lemma_find_some(d, p);
    }
}

} // verus!
