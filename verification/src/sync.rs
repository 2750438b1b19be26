//! Directory sync server: structural reconciliation, incremental diffs,
//! content-level checksum negotiation and block uploads, all decided over
//! the filesystem model.
//!
//! `MyDirSync` owns the checksum index and the root directory's location;
//! the filesystem tree is handed in by the caller, the way the real
//! filesystem is ambient state around the real server.

use vstd::prelude::*;

use crate::bytes::{clone_bytes, clone_path, lemma_bytes_deep_view, lemma_deep_view_push, path_eq};
use crate::chunker::{chunk_bytes, chunks_of, ChunkError};
use crate::fs_model::{force_copy, FsError, FsTree};
use crate::hashing::{strong_of, weak_of, Hasher};
use crate::index::ChecksumIndex;
use crate::metadata::{extract_metadata_from_map, MetadataError, RequestMetadata};
use crate::paths::{clean_path, clean_path_spec, is_prefix_of, PathError};

verus! {

/// One member of the client's declared tree: a relative path, and whether
/// it is a directory.
pub struct PathEntry {
    pub path: Vec<u8>,
    pub is_dir: bool,
}

/// Why a sync operation failed, by the error taxonomy: bad paths, bad
/// request metadata, filesystem conflicts, and a zero block size.
#[derive(Debug, PartialEq, Eq)]
pub enum SyncError {
    Path(PathError),
    Metadata(MetadataError),
    Fs(FsError),
    Chunk(ChunkError),
}

/// One block's wire-level checksum record.
#[derive(Debug)]
pub struct Checksum {
    pub strong: Vec<u8>,
    pub weak: u32,
}

/// The server's answer to a checksum query.
#[derive(Debug)]
pub struct ChecksumResponse {
    /// The sanitized root-relative path the query was about.
    pub path: Vec<Vec<u8>>,
    /// The client's digest, echoed back.
    pub checksum: Vec<u8>,
    /// Per-block checksums of the server's current content; empty when the
    /// file is already synchronized or was satisfied by a copy.
    pub checksums: Vec<Checksum>,
}

/// True iff every entry's path sanitizes.
pub open spec fn all_resolve(es: Seq<PathEntry>) -> bool {
    forall|k: int| 0 <= k < es.len() ==> (#[trigger] clean_path_spec(es[k].path@)) is Some
}

/// True iff some entry of the request resolves exactly to `q`.
pub open spec fn in_request(es: Seq<PathEntry>, q: Seq<Seq<u8>>) -> bool {
    exists|k: int| 0 <= k < es.len() && (#[trigger] clean_path_spec(es[k].path@)) == Some(q)
}

/// True iff the entry is a directory whose resolved path extends `q`.
pub open spec fn entry_covers(e: PathEntry, q: Seq<Seq<u8>>) -> bool {
    &&& e.is_dir
    &&& clean_path_spec(e.path@) matches Some(rp)
    &&& is_prefix_of(q, clean_path_spec(e.path@).unwrap())
}

/// True iff `q` is a non-empty prefix of some directory entry's resolved
/// path: exactly the paths the creation phase brings into being.
pub open spec fn dir_requested_prefix(es: Seq<PathEntry>, q: Seq<Seq<u8>>) -> bool {
    q.len() >= 1 && exists|k: int| 0 <= k < es.len() && #[trigger] entry_covers(es[k], q)
}

/// True iff `q` and every ancestor of `q` was declared by the request:
/// exactly the paths the deletion walk leaves standing.
pub open spec fn kept_path(es: Seq<PathEntry>, q: Seq<Seq<u8>>) -> bool {
    q.len() >= 1 && forall|j: int| 1 <= j <= q.len() ==> in_request(es, #[trigger] q.take(j))
}

/// True iff a file already stands where the request asks for a directory
/// (or an ancestor of one): exactly when the creation phase must fail.
pub open spec fn create_conflict(fs: FsTree, es: Seq<PathEntry>) -> bool {
    exists|q: Seq<Seq<u8>>| dir_requested_prefix(es, q) && #[trigger] fs.is_file(q)
}

/// What structural sync does to the tree: afterwards a path stands exactly
/// when it stood before or was created as a requested directory's prefix,
/// and it and all its ancestors were declared; surviving entries are
/// untouched, created ones are directories.
pub open spec fn sync_structure_post(pre: FsTree, post: FsTree, es: Seq<PathEntry>) -> bool {
    &&& forall|q: Seq<Seq<u8>>|
        #[trigger] post.has(q) <==> ((pre.has(q) || dir_requested_prefix(es, q)) && kept_path(
            es,
            q,
        ))
    &&& forall|q: Seq<Seq<u8>>|
        post.has(q) && pre.has(q) ==> (#[trigger] post.entry_of(q)) == pre.entry_of(q)
    &&& forall|q: Seq<Seq<u8>>| #[trigger] post.has(q) && !pre.has(q) ==> post.is_dir(q)
}

/// A path kept by the walk has all its non-empty prefixes kept too.
pub proof fn lemma_kept_prefix_closed(es: Seq<PathEntry>, p: Seq<Seq<u8>>, q: Seq<Seq<u8>>)
    requires
        kept_path(es, q),
        is_prefix_of(p, q),
        p.len() >= 1,
    ensures
        kept_path(es, p),
{
    assert forall|j: int| 1 <= j <= p.len() implies in_request(es, #[trigger] p.take(j)) by {
        assert(p.take(j) =~= q.take(j));
    }
}

/// The directory sync server: the checksum index and the configured root.
pub struct MyDirSync {
    path_to_checksum: ChecksumIndex,
    absolute_directory: Vec<u8>,
}

impl MyDirSync {
    /// The checksum index, for specification purposes.
    pub closed spec fn checksums(self) -> ChecksumIndex {
        self.path_to_checksum
    }

    /// The configured root directory's location, for specification purposes.
    pub closed spec fn spec_root(self) -> Seq<u8> {
        self.absolute_directory@
    }

    pub open spec fn wf(self) -> bool {
        self.checksums().wf()
    }

    /// A server rooted at `absolute_directory`, with an empty index.
    pub fn new(absolute_directory: Vec<u8>) -> (r: MyDirSync)
        ensures
            r.wf(),
            r.spec_root() == absolute_directory@,
            forall|q: Seq<Seq<u8>>| !r.checksums().has_key(q),
    {
        MyDirSync { path_to_checksum: ChecksumIndex::new(), absolute_directory }
    }

    /// The configured root directory's location.
    pub fn get_root_directory(&self) -> (r: &Vec<u8>)
        ensures
            r@ == self.spec_root(),
    {
        &self.absolute_directory
    }

    /// Records `checksum` as the digest of the file at `path`.
    pub fn update_checksum(&mut self, path: Vec<Vec<u8>>, checksum: Vec<u8>)
        requires
            old(self).wf(),
        ensures
            final(self).wf(),
            final(self).spec_root() == old(self).spec_root(),
            forall|q: Seq<Seq<u8>>|
                #[trigger] final(self).checksums().has_key(q) <==> (old(self).checksums().has_key(q) || q == path.deep_view()),
            forall|q: Seq<Seq<u8>>|
                old(self).checksums().has_key(q) && q != path.deep_view()
                    ==> (#[trigger] final(self).checksums().digest_of(q)) == old(self).checksums().digest_of(q),
            final(self).checksums().digest_of(path.deep_view()) == checksum@,
    {
        self.path_to_checksum.record(path, checksum);
    }

    /// Drops any recorded digest for `path`.
    pub fn delete_checksum(&mut self, path: &Vec<Vec<u8>>)
        requires
            old(self).wf(),
        ensures
            final(self).wf(),
            final(self).spec_root() == old(self).spec_root(),
            forall|q: Seq<Seq<u8>>|
                #[trigger] final(self).checksums().has_key(q) <==> (old(self).checksums().has_key(q) && q != path.deep_view()),
            forall|q: Seq<Seq<u8>>|
                final(self).checksums().has_key(q) ==> (#[trigger] final(self).checksums().digest_of(q)) == old(self).checksums().digest_of(q),
    {
        self.path_to_checksum.forget(path);
    }

    /// The first indexed path recorded with exactly this digest, if any.
    /// Ties break by record order; the index may be stale, so callers must
    /// re-verify the proposed path's content before relying on it.
    pub fn get_file_with_matching_checksum(&self, checksum: &Vec<u8>) -> (r: Option<Vec<Vec<u8>>>)
        requires
            self.wf(),
        ensures
            match r {
                Some(p) => self.checksums().find_spec(checksum@) == Some(p.deep_view()),
                None => self.checksums().find_spec(checksum@) is None,
            },
    {
        self.path_to_checksum.find_by_digest(checksum)
    }
}

impl Default for MyDirSync {
    /// A server with an empty index, rooted at the empty location.
    fn default() -> (r: MyDirSync)
        ensures
            r.wf(),
            r.spec_root() == Seq::<u8>::empty(),
            forall|q: Seq<Seq<u8>>| !r.checksums().has_key(q),
    {
        MyDirSync { path_to_checksum: ChecksumIndex::new(), absolute_directory: Vec::new() }
    }
}

/// True iff some resolved request path equals `q`; `resolved` must be the
/// entries' sanitized paths, in order.
spec fn aligned(es: Seq<PathEntry>, resolved: Seq<Seq<Seq<u8>>>) -> bool {
    &&& resolved.len() == es.len()
    &&& forall|k: int|
        0 <= k < es.len() ==> (#[trigger] clean_path_spec(es[k].path@)) == Some(resolved[k])
}

/// With aligned resolutions, membership in the request is membership in the
/// resolved list.
proof fn lemma_aligned_in_request(es: Seq<PathEntry>, resolved: Seq<Seq<Seq<u8>>>, q: Seq<Seq<u8>>)
    requires
        aligned(es, resolved),
    ensures
        in_request(es, q) <==> exists|m: int| 0 <= m < resolved.len() && resolved[m] == q,
{
    if in_request(es, q) {
        let k = choose|k: int|
            0 <= k < es.len() && (#[trigger] clean_path_spec(es[k].path@)) == Some(q);
        assert(resolved[k] == q);
    }
    if exists|m: int| 0 <= m < resolved.len() && resolved[m] == q {
        let m = choose|m: int| 0 <= m < resolved.len() && resolved[m] == q;
        assert(clean_path_spec(es[m].path@) == Some(q));
    }
}

/// True iff `p` is in the resolved list.
fn contains_resolved(resolved: &Vec<Vec<Vec<u8>>>, p: &Vec<Vec<u8>>) -> (r: bool)
    ensures
        r == exists|m: int|
            0 <= m < resolved.deep_view().len() && resolved.deep_view()[m] == p.deep_view(),
{
    let mut m: usize = 0;
    while m < resolved.len()
        invariant
            m <= resolved@.len(),
            forall|t: int| 0 <= t < m ==> (#[trigger] resolved.deep_view()[t]) != p.deep_view(),
        decreases resolved@.len() - m,
    {
        if path_eq(&resolved[m], p) {
            proof {
                assert(resolved.deep_view()[m as int] == p.deep_view());
            }
            return true;
        }
        m = m + 1;
    }
    false
}

/// True iff the deletion walk keeps `p`: `p` and each of its ancestors is
/// a resolved request path.
fn path_kept(p: &Vec<Vec<u8>>, elements: &Vec<PathEntry>, resolved: &Vec<Vec<Vec<u8>>>) -> (r:
    bool)
    requires
        aligned(elements@, resolved.deep_view()),
    ensures
        r == kept_path(elements@, p.deep_view()),
{
    if p.len() == 0 {
        return false;
    }
    let mut prefix: Vec<Vec<u8>> = Vec::new();
    let mut j: usize = 0;
    while j < p.len()
        invariant
            j <= p@.len(),
            p@.len() >= 1,
            aligned(elements@, resolved.deep_view()),
            prefix.deep_view() == p.deep_view().take(j as int),
            forall|t: int| 1 <= t <= j ==> in_request(elements@, #[trigger] p.deep_view().take(t)),
        decreases p@.len() - j,
    {
        let ghost pre0 = prefix;
        let c = clone_bytes(&p[j]);
        let ghost c0 = c;
        prefix.push(c);
        proof {
            lemma_bytes_deep_view(c0);
            lemma_bytes_deep_view(p@[j as int]);
            lemma_deep_view_push(pre0, prefix, c0);
            assert(prefix.deep_view() =~= p.deep_view().take(j + 1));
        }
        let found = contains_resolved(resolved, &prefix);
        proof {
            lemma_aligned_in_request(elements@, resolved.deep_view(), prefix.deep_view());
        }
        if !found {
            proof {
                assert(!in_request(elements@, p.deep_view().take(j + 1)));
            }
            return false;
        }
        j = j + 1;
    }
    proof {
        assert(kept_path(elements@, p.deep_view()));
    }
    true
}

impl MyDirSync {
    /// Reconciles the whole tree with the client's declared entry set:
    /// sanitizes every entry, creates every declared directory (ancestors
    /// included), then deletes everything under the root that the request
    /// did not declare.
    ///
    /// Index records are evicted along with the deletions: afterwards the
    /// index holds exactly its prior records whose paths the request kept.
    ///
    /// An unsanitizable path rejects the request before any change. A file
    /// standing where a directory is requested aborts the operation with
    /// the creations made so far standing (deletions not yet begun); the
    /// index is then untouched.
    pub fn sync_structure(&mut self, fs: &mut FsTree, elements: &Vec<PathEntry>) -> (r: Result<
        (),
        SyncError,
    >)
        requires
            old(self).wf(),
            old(fs).wf(),
        ensures
            final(self).wf(),
            final(fs).wf(),
            final(self).spec_root() == old(self).spec_root(),
            match r {
                Ok(()) => {
                    &&& all_resolve(elements@)
                    &&& !create_conflict(*old(fs), elements@)
                    &&& sync_structure_post(*old(fs), *final(fs), elements@)
                    &&& forall|k: Seq<Seq<u8>>|
                        #[trigger] final(self).checksums().has_key(k) <==> (old(self).checksums().has_key(k) && kept_path(elements@, k))
                    &&& forall|k: Seq<Seq<u8>>|
                        final(self).checksums().has_key(k) ==> (#[trigger] final(self).checksums().digest_of(k)) == old(self).checksums().digest_of(k)
                },
                Err(SyncError::Path(e)) => {
                    &&& e == PathError::Traversal
                    &&& !all_resolve(elements@)
                    &&& *final(fs) == *old(fs)
                    &&& *final(self) == *old(self)
                },
                Err(SyncError::Fs(e)) => {
                    &&& e == FsError::NotADirectory
                    &&& all_resolve(elements@)
                    &&& create_conflict(*old(fs), elements@)
                    &&& forall|q: Seq<Seq<u8>>|
                        #[trigger] final(fs).has(q) ==> (old(fs).has(q) || dir_requested_prefix(
                            elements@,
                            q,
                        ))
                    &&& forall|q: Seq<Seq<u8>>|
                        old(fs).has(q) ==> final(fs).has(q) && (#[trigger] final(fs).entry_of(q))
                            == old(fs).entry_of(q)
                    &&& forall|q: Seq<Seq<u8>>|
                        #[trigger] final(fs).has(q) && !old(fs).has(q) ==> final(fs).is_dir(q)
                    &&& *final(self) == *old(self)
                },
                _ => false,
            },
    {
        // Resolve every entry before touching anything.
        let mut resolved: Vec<Vec<Vec<u8>>> = Vec::new();
        let mut k: usize = 0;
        while k < elements.len()
            invariant
                k <= elements@.len(),
                *fs == *old(fs),
                fs.wf(),
                self.path_to_checksum.wf(),
                self.path_to_checksum == old(self).path_to_checksum,
                self.absolute_directory == old(self).absolute_directory,
                resolved.deep_view().len() == k,
                forall|t: int|
                    0 <= t < k ==> (#[trigger] clean_path_spec(elements@[t].path@)) == Some(
                        resolved.deep_view()[t],
                    ),
            decreases elements@.len() - k,
        {
            match clean_path(&elements[k].path) {
                Ok(cs) => {
                    let ghost r0 = resolved;
                    let ghost cs0 = cs;
                    resolved.push(cs);
                    proof {
                        lemma_deep_view_push(r0, resolved, cs0);
                    }
                },
                Err(e) => {
                    proof {
                        assert(clean_path_spec(elements@[k as int].path@) is None);
                        assert(!all_resolve(elements@));
                    }
                    return Err(SyncError::Path(e));
                },
            }
            k = k + 1;
        }
        proof {
            assert(all_resolve(elements@));
            assert(aligned(elements@, resolved.deep_view()));
        }

        // Creation phase: every directory entry, ancestors first.
        let ghost fs0 = *fs;
        let mut k: usize = 0;
        while k < elements.len()
            invariant
                fs.wf(),
                self.path_to_checksum.wf(),
                self.path_to_checksum == old(self).path_to_checksum,
                self.absolute_directory == old(self).absolute_directory,
                fs0 == *old(fs),
                k <= elements@.len(),
                aligned(elements@, resolved.deep_view()),
                resolved@.len() == elements@.len(),
                forall|q: Seq<Seq<u8>>|
                    #[trigger] fs.has(q) <==> (fs0.has(q) || (q.len() >= 1 && exists|m: int|
                        0 <= m < k && elements@[m].is_dir && is_prefix_of(
                            q,
                            #[trigger] resolved.deep_view()[m],
                        ))),
                forall|q: Seq<Seq<u8>>|
                    fs0.has(q) ==> fs.has(q) && (#[trigger] fs.entry_of(q)) == fs0.entry_of(q),
                forall|q: Seq<Seq<u8>>| #[trigger] fs.has(q) && !fs0.has(q) ==> fs.is_dir(q),
                forall|m: int, j: int|
                    0 <= m < k && elements@[m].is_dir && 1 <= j
                        <= (#[trigger] resolved.deep_view()[m]).len() ==> !fs0.is_file(
                        #[trigger] resolved.deep_view()[m].take(j),
                    ),
            decreases elements@.len() - k,
        {
            let ghost mid = *fs;
            if elements[k].is_dir {
                match fs.create_dir_all(&resolved[k]) {
                    Ok(()) => {
                        proof {
                            let rk = resolved.deep_view()[k as int];
                            // conflict-freedom for this entry, pushed back to fs0
                            assert forall|j: int| 1 <= j <= rk.len() implies !fs0.is_file(
                                #[trigger] rk.take(j),
                            ) by {
                                if fs0.is_file(rk.take(j)) {
                                    assert(mid.has(rk.take(j)));
                                    assert(mid.entry_of(rk.take(j)) == fs0.entry_of(rk.take(j)));
                                    assert(mid.is_file(rk.take(j)));
                                }
                            }
                            // has-iff maintenance
                            assert forall|q: Seq<Seq<u8>>|
                                #[trigger] fs.has(q) <==> (fs0.has(q) || (q.len() >= 1 && exists|m: int|
                                    0 <= m < k + 1 && elements@[m].is_dir && is_prefix_of(
                                        q,
                                        #[trigger] resolved.deep_view()[m],
                                    ))) by {
                                if fs.has(q) {
                                    if mid.has(q) {
                                        if !fs0.has(q) {
                                            let m = choose|m: int|
                                                0 <= m < k && elements@[m].is_dir && is_prefix_of(
                                                    q,
                                                    #[trigger] resolved.deep_view()[m],
                                                );
                                            assert(0 <= m < k + 1 && elements@[m].is_dir
                                                && is_prefix_of(q, resolved.deep_view()[m]));
                                        }
                                    } else {
                                        assert(q.len() >= 1 && is_prefix_of(q, rk));
                                        assert(0 <= k < k + 1 && elements@[k as int].is_dir
                                            && is_prefix_of(q, resolved.deep_view()[k as int]));
                                    }
                                }
                                if !fs.has(q) && q.len() >= 1 {
                                    if exists|m: int|
                                        0 <= m < k + 1 && elements@[m].is_dir && is_prefix_of(
                                            q,
                                            #[trigger] resolved.deep_view()[m],
                                        ) {
                                        let m = choose|m: int|
                                            0 <= m < k + 1 && elements@[m].is_dir && is_prefix_of(
                                                q,
                                                #[trigger] resolved.deep_view()[m],
                                            );
                                        if m < k {
                                            assert(mid.has(q));
                                            assert(fs.has(q));
                                        } else {
                                            assert(is_prefix_of(q, rk));
                                            assert(fs.has(q));
                                        }
                                    }
                                }
                            }
                            assert forall|q: Seq<Seq<u8>>| fs0.has(q) implies fs.has(q) && (
                            #[trigger] fs.entry_of(q)) == fs0.entry_of(q) by {
                                assert(mid.has(q));
                            }
                            assert forall|q: Seq<Seq<u8>>|
                                #[trigger] fs.has(q) && !fs0.has(q) implies fs.is_dir(q) by {
                                if mid.has(q) {
                                    assert(mid.is_dir(q));
                                    assert(fs.entry_of(q) == mid.entry_of(q));
                                }
                            }
                        }
                    },
                    Err(e) => {
                        proof {
                            let rk = resolved.deep_view()[k as int];
                            let j = choose|j: int|
                                1 <= j <= rk.len() && mid.is_file(#[trigger] rk.take(j));
                            // a file in the mid tree was already a file in fs0
                            assert(fs0.is_file(rk.take(j))) by {
                                if !fs0.has(rk.take(j)) {
                                    assert(mid.is_dir(rk.take(j)));
                                } else {
                                    assert(mid.entry_of(rk.take(j)) == fs0.entry_of(rk.take(j)));
                                }
                            }
                            assert(dir_requested_prefix(elements@, rk.take(j))) by {
                                assert(clean_path_spec(elements@[k as int].path@) == Some(rk));
                                assert(is_prefix_of(rk.take(j), rk)) by {
                                    assert(rk.take(j) =~= rk.take(rk.take(j).len() as int));
                                }
                                assert(entry_covers(elements@[k as int], rk.take(j)));
                            }
                            assert(create_conflict(fs0, elements@));
                            assert forall|q: Seq<Seq<u8>>| #[trigger] fs.has(q) implies (fs0.has(
                                q,
                            ) || dir_requested_prefix(elements@, q)) by {
                                if !fs0.has(q) {
                                    let m = choose|m: int|
                                        0 <= m < k && elements@[m].is_dir && is_prefix_of(
                                            q,
                                            #[trigger] resolved.deep_view()[m],
                                        );
                                    assert(clean_path_spec(elements@[m].path@) == Some(
                                        resolved.deep_view()[m],
                                    ));
                                    assert(entry_covers(elements@[m], q));
                                }
                            }
                        }
                        return Err(SyncError::Fs(e));
                    },
                }
            } else {
                proof {
                    assert forall|q: Seq<Seq<u8>>|
                        #[trigger] fs.has(q) <==> (fs0.has(q) || (q.len() >= 1 && exists|m: int|
                            0 <= m < k + 1 && elements@[m].is_dir && is_prefix_of(
                                q,
                                #[trigger] resolved.deep_view()[m],
                            ))) by {
                        if !fs.has(q) && q.len() >= 1 {
                            if exists|m: int|
                                0 <= m < k + 1 && elements@[m].is_dir && is_prefix_of(
                                    q,
                                    #[trigger] resolved.deep_view()[m],
                                ) {
                                let m = choose|m: int|
                                    0 <= m < k + 1 && elements@[m].is_dir && is_prefix_of(
                                        q,
                                        #[trigger] resolved.deep_view()[m],
                                    );
                                assert(m < k);
                                assert(fs.has(q));
                            }
                        }
                    }
                }
            }
            k = k + 1;
        }
        proof {
            // no conflict at all, since every directory entry went through
            assert(!create_conflict(fs0, elements@)) by {
                if create_conflict(fs0, elements@) {
                    let q = choose|q: Seq<Seq<u8>>|
                        dir_requested_prefix(elements@, q) && #[trigger] fs0.is_file(q);
                    let m = choose|m: int|
                        0 <= m < elements@.len() && #[trigger] entry_covers(elements@[m], q);
                    let rm = resolved.deep_view()[m];
                    assert(is_prefix_of(q, rm));
                    assert(q =~= rm.take(q.len() as int));
                    assert(!fs0.is_file(rm.take(q.len() as int)));
                }
            }
        }

        // Deletion walk: two-phase; collect all paths, then remove every
        // path (with its subtree) that the request did not declare.
        let ghost fs1 = *fs;
        let all = fs.paths();
        let mut t: usize = 0;
        while t < all.len()
            invariant
                fs.wf(),
                self.path_to_checksum == old(self).path_to_checksum,
                self.absolute_directory == old(self).absolute_directory,
                t <= all@.len(),
                aligned(elements@, resolved.deep_view()),
                forall|q: Seq<Seq<u8>>|
                    #[trigger] fs.has(q) ==> fs1.has(q) && fs.entry_of(q) == fs1.entry_of(q),
                forall|q: Seq<Seq<u8>>|
                    fs1.has(q) && kept_path(elements@, q) ==> #[trigger] fs.has(q),
                forall|m: int|
                    0 <= m < t && !kept_path(elements@, #[trigger] all.deep_view()[m]) ==> forall|
                        q: Seq<Seq<u8>>,
                    |
                        #[trigger] fs.has(q) ==> !is_prefix_of(all.deep_view()[m], q),
                forall|m: int|
                    0 <= m < all.deep_view().len() ==> fs1.has(#[trigger] all.deep_view()[m])
                        && all.deep_view()[m].len() >= 1,
                forall|q: Seq<Seq<u8>>|
                    fs1.has(q) ==> exists|m: int|
                        0 <= m < all.deep_view().len() && all.deep_view()[m] == q,
            decreases all@.len() - t,
        {
            let keep = path_kept(&all[t], elements, &resolved);
            if !keep {
                let ghost before = *fs;
                fs.remove_subtree(&all[t]);
                proof {
                    let rp = all@[t as int].deep_view();
                    assert(rp == all.deep_view()[t as int]);
                    assert forall|q: Seq<Seq<u8>>|
                        fs1.has(q) && kept_path(elements@, q) implies #[trigger] fs.has(q) by {
                        assert(before.has(q));
                        if is_prefix_of(rp, q) {
                            lemma_kept_prefix_closed(elements@, rp, q);
                            assert(kept_path(elements@, rp));
                        }
                    }
                    assert forall|m: int|
                        0 <= m < t + 1 && !kept_path(elements@, #[trigger] all.deep_view()[m]) implies forall|
                        q: Seq<Seq<u8>>,
                    |
                        #[trigger] fs.has(q) ==> !is_prefix_of(all.deep_view()[m], q) by {
                        if m < t {
                            assert forall|q: Seq<Seq<u8>>| #[trigger]
                                fs.has(q) implies !is_prefix_of(all.deep_view()[m], q) by {
                                assert(before.has(q));
                            }
                        }
                    }
                }
            }
            t = t + 1;
        }
        proof {
            assert forall|q: Seq<Seq<u8>>|
                #[trigger] fs.has(q) <==> (fs1.has(q) && kept_path(elements@, q)) by {
                if fs.has(q) {
                    assert(fs1.has(q));
                    if !kept_path(elements@, q) {
                        let m = choose|m: int|
                            0 <= m < all.deep_view().len() && all.deep_view()[m] == q;
                        assert(is_prefix_of(all.deep_view()[m], q)) by {
                            assert(q =~= q.take(q.len() as int));
                        }
                        assert(!fs.has(q));
                    }
                }
            }
            // final fs facts against fs0
            assert forall|q: Seq<Seq<u8>>|
                #[trigger] fs.has(q) <==> ((fs0.has(q) || dir_requested_prefix(elements@, q))
                    && kept_path(elements@, q)) by {
                if fs1.has(q) && !fs0.has(q) {
                    let m = choose|m: int|
                        0 <= m < elements@.len() && elements@[m].is_dir && is_prefix_of(
                            q,
                            #[trigger] resolved.deep_view()[m],
                        );
                    assert(clean_path_spec(elements@[m].path@) == Some(resolved.deep_view()[m]));
                    assert(entry_covers(elements@[m], q));
                    assert(dir_requested_prefix(elements@, q));
                }
                if !fs1.has(q) && dir_requested_prefix(elements@, q) {
                    let m = choose|m: int|
                        0 <= m < elements@.len() && #[trigger] entry_covers(elements@[m], q);
                    assert(resolved.deep_view()[m] == clean_path_spec(
                        elements@[m].path@,
                    ).unwrap());
                    assert(fs1.has(q));
                }
            }
        }

        // Index eviction: drop every record the walk did not keep.
        let ghost idx0 = self.path_to_checksum;
        let keys = self.path_to_checksum.keys();
        let mut t: usize = 0;
        while t < keys.len()
            invariant
                self.path_to_checksum.wf(),
                self.absolute_directory == old(self).absolute_directory,
                t <= keys@.len(),
                aligned(elements@, resolved.deep_view()),
                forall|k: Seq<Seq<u8>>|
                    #[trigger] self.path_to_checksum.has_key(k) ==> idx0.has_key(k)
                        && self.path_to_checksum.digest_of(k) == idx0.digest_of(k),
                forall|k: Seq<Seq<u8>>|
                    idx0.has_key(k) && kept_path(elements@, k)
                        ==> #[trigger] self.path_to_checksum.has_key(k),
                forall|m: int|
                    0 <= m < t && !kept_path(elements@, #[trigger] keys.deep_view()[m])
                        ==> !self.path_to_checksum.has_key(keys.deep_view()[m]),
                forall|m: int| 0 <= m < keys.deep_view().len() ==> idx0.has_key(#[trigger] keys.deep_view()[m]),
                forall|k: Seq<Seq<u8>>|
                    idx0.has_key(k) ==> exists|m: int|
                        0 <= m < keys.deep_view().len() && keys.deep_view()[m] == k,
            decreases keys@.len() - t,
        {
            let keep = path_kept(&keys[t], elements, &resolved);
            if !keep {
                self.path_to_checksum.forget(&keys[t]);
            }
            t = t + 1;
        }
        proof {
            assert forall|k: Seq<Seq<u8>>|
                #[trigger] self.path_to_checksum.has_key(k) <==> (idx0.has_key(k) && kept_path(
                    elements@,
                    k,
                )) by {
                if self.path_to_checksum.has_key(k) && !kept_path(elements@, k) {
                    let m = choose|m: int|
                        0 <= m < keys.deep_view().len() && keys.deep_view()[m] == k;
                    assert(!self.path_to_checksum.has_key(keys.deep_view()[m]));
                }
            }
        }
        Ok(())
    }
}

/// True iff the entry's resolved path is `q` or an ancestor of `q`: the
/// deletions that remove `q`.
pub open spec fn deleted_entry_covers(e: PathEntry, q: Seq<Seq<u8>>) -> bool {
    &&& clean_path_spec(e.path@) matches Some(rd)
    &&& is_prefix_of(clean_path_spec(e.path@).unwrap(), q)
}

/// True iff some entry of the deletion list covers `q`.
pub open spec fn deletion_covers(ds: Seq<PathEntry>, q: Seq<Seq<u8>>) -> bool {
    exists|k: int| 0 <= k < ds.len() && #[trigger] deleted_entry_covers(ds[k], q)
}

/// True iff some deletion entry before position `k` covers `q`.
pub open spec fn covered_before(ds: Seq<PathEntry>, k: int, q: Seq<Seq<u8>>) -> bool {
    exists|j: int| 0 <= j < k && #[trigger] deleted_entry_covers(ds[j], q)
}

/// True iff, when the deletion at position `k` runs (creations done,
/// earlier deletions applied), something of the wrong kind stands at its
/// path: a file where the entry says directory, or a directory where it
/// says file.
pub open spec fn deletion_mismatch_at(
    pre: FsTree,
    cs: Seq<PathEntry>,
    ds: Seq<PathEntry>,
    k: int,
) -> bool {
    &&& clean_path_spec(ds[k].path@) matches Some(rd)
    &&& !covered_before(ds, k, clean_path_spec(ds[k].path@).unwrap())
    &&& if ds[k].is_dir {
        pre.is_file(clean_path_spec(ds[k].path@).unwrap())
    } else {
        pre.is_dir(clean_path_spec(ds[k].path@).unwrap()) || (dir_requested_prefix(
            cs,
            clean_path_spec(ds[k].path@).unwrap(),
        ) && !pre.has(clean_path_spec(ds[k].path@).unwrap()))
    }
}

/// True iff some deletion of the change-set hits an entry of the wrong
/// kind.
pub open spec fn deletion_mismatch(pre: FsTree, cs: Seq<PathEntry>, ds: Seq<PathEntry>) -> bool {
    exists|k: int| 0 <= k < ds.len() && #[trigger] deletion_mismatch_at(pre, cs, ds, k)
}

/// What an incremental diff does to the tree: afterwards a path stands
/// exactly when it stood before or was created as a requested directory's
/// prefix, and no deletion covers it; surviving entries are untouched,
/// created ones are directories.
pub open spec fn diff_structure_post(
    pre: FsTree,
    post: FsTree,
    cs: Seq<PathEntry>,
    ds: Seq<PathEntry>,
) -> bool {
    &&& forall|q: Seq<Seq<u8>>|
        #[trigger] post.has(q) <==> ((pre.has(q) || dir_requested_prefix(cs, q))
            && !deletion_covers(ds, q))
    &&& forall|q: Seq<Seq<u8>>|
        post.has(q) && pre.has(q) ==> (#[trigger] post.entry_of(q)) == pre.entry_of(q)
    &&& forall|q: Seq<Seq<u8>>| #[trigger] post.has(q) && !pre.has(q) ==> post.is_dir(q)
}

impl MyDirSync {
    /// Applies an explicit change-set: creates every directory of `created`
    /// (ancestors included), then removes each entry of `deleted` with
    /// everything under it, evicting index records under each removed path.
    ///
    /// Deletion is tolerant of absence: a deleted path with nothing at it
    /// is a no-op (any stray descendants are still removed). A deletion
    /// whose kind disagrees with what stands there — a directory flag on a
    /// file, a file flag on a directory — aborts the batch; already-applied
    /// operations stand.
    pub fn diff_structure(
        &mut self,
        fs: &mut FsTree,
        created: &Vec<PathEntry>,
        deleted: &Vec<PathEntry>,
    ) -> (r: Result<(), SyncError>)
        requires
            old(self).wf(),
            old(fs).wf(),
        ensures
            final(self).wf(),
            final(fs).wf(),
            final(self).spec_root() == old(self).spec_root(),
            match r {
                Ok(()) => {
                    &&& all_resolve(created@) && all_resolve(deleted@)
                    &&& !create_conflict(*old(fs), created@)
                    &&& !deletion_mismatch(*old(fs), created@, deleted@)
                    &&& diff_structure_post(*old(fs), *final(fs), created@, deleted@)
                    &&& forall|q: Seq<Seq<u8>>|
                        #[trigger] final(self).checksums().has_key(q) <==> (old(self).checksums().has_key(q) && !deletion_covers(deleted@, q))
                    &&& forall|q: Seq<Seq<u8>>|
                        final(self).checksums().has_key(q) ==> (#[trigger] final(self).checksums().digest_of(q)) == old(self).checksums().digest_of(q)
                },
                Err(SyncError::Path(e)) => {
                    &&& e == PathError::Traversal
                    &&& !(all_resolve(created@) && all_resolve(deleted@))
                    &&& *final(fs) == *old(fs)
                    &&& *final(self) == *old(self)
                },
                Err(SyncError::Fs(e)) => {
                    &&& (e == FsError::NotADirectory || e == FsError::IsADirectory)
                    &&& all_resolve(created@) && all_resolve(deleted@)
                    &&& (create_conflict(*old(fs), created@) || deletion_mismatch(
                        *old(fs),
                        created@,
                        deleted@,
                    ))
                    &&& forall|q: Seq<Seq<u8>>|
                        #[trigger] final(fs).has(q) ==> (old(fs).has(q) || dir_requested_prefix(
                            created@,
                            q,
                        ))
                    &&& forall|q: Seq<Seq<u8>>|
                        final(fs).has(q) && old(fs).has(q) ==> (#[trigger] final(fs).entry_of(q))
                            == old(fs).entry_of(q)
                    &&& forall|q: Seq<Seq<u8>>|
                        #[trigger] final(fs).has(q) && !old(fs).has(q) ==> final(fs).is_dir(q)
                    &&& forall|q: Seq<Seq<u8>>|
                        old(fs).has(q) && !deletion_covers(deleted@, q)
                            ==> #[trigger] final(fs).has(q)
                    &&& forall|q: Seq<Seq<u8>>|
                        #[trigger] final(self).checksums().has_key(q) ==> old(self).checksums().has_key(q)
                    &&& forall|q: Seq<Seq<u8>>|
                        final(self).checksums().has_key(q) ==> (#[trigger] final(self).checksums().digest_of(q)) == old(self).checksums().digest_of(q)
                    &&& forall|q: Seq<Seq<u8>>|
                        old(self).checksums().has_key(q) && !deletion_covers(deleted@, q)
                            ==> #[trigger] final(self).checksums().has_key(q)
                },
                _ => false,
            },
    {
        // Resolve both lists before touching anything.
        let mut resolved_created: Vec<Vec<Vec<u8>>> = Vec::new();
        let mut k: usize = 0;
        while k < created.len()
            invariant
                k <= created@.len(),
                *fs == *old(fs),
                fs.wf(),
                self.path_to_checksum.wf(),
                self.path_to_checksum == old(self).path_to_checksum,
                self.absolute_directory == old(self).absolute_directory,
                resolved_created.deep_view().len() == k,
                forall|t: int|
                    0 <= t < k ==> (#[trigger] clean_path_spec(created@[t].path@)) == Some(
                        resolved_created.deep_view()[t],
                    ),
            decreases created@.len() - k,
        {
            match clean_path(&created[k].path) {
                Ok(cs) => {
                    let ghost r0 = resolved_created;
                    let ghost cs0 = cs;
                    resolved_created.push(cs);
                    proof {
                        lemma_deep_view_push(r0, resolved_created, cs0);
                    }
                },
                Err(e) => {
                    proof {
                        assert(!all_resolve(created@));
                    }
                    return Err(SyncError::Path(e));
                },
            }
            k = k + 1;
        }
        let mut resolved_deleted: Vec<Vec<Vec<u8>>> = Vec::new();
        let mut k: usize = 0;
        while k < deleted.len()
            invariant
                k <= deleted@.len(),
                *fs == *old(fs),
                fs.wf(),
                self.path_to_checksum.wf(),
                self.path_to_checksum == old(self).path_to_checksum,
                self.absolute_directory == old(self).absolute_directory,
                resolved_deleted.deep_view().len() == k,
                forall|t: int|
                    0 <= t < k ==> (#[trigger] clean_path_spec(deleted@[t].path@)) == Some(
                        resolved_deleted.deep_view()[t],
                    ),
            decreases deleted@.len() - k,
        {
            match clean_path(&deleted[k].path) {
                Ok(cs) => {
                    let ghost r0 = resolved_deleted;
                    let ghost cs0 = cs;
                    resolved_deleted.push(cs);
                    proof {
                        lemma_deep_view_push(r0, resolved_deleted, cs0);
                    }
                },
                Err(e) => {
                    proof {
                        assert(!all_resolve(deleted@));
                    }
                    return Err(SyncError::Path(e));
                },
            }
            k = k + 1;
        }
        proof {
            assert(all_resolve(created@));
            assert(all_resolve(deleted@));
            assert(aligned(created@, resolved_created.deep_view()));
            assert(aligned(deleted@, resolved_deleted.deep_view()));
        }

        // Creation phase, as in structural sync.
        let ghost fs0 = *fs;
        let mut k: usize = 0;
        while k < created.len()
            invariant
                fs.wf(),
                self.path_to_checksum.wf(),
                self.path_to_checksum == old(self).path_to_checksum,
                self.absolute_directory == old(self).absolute_directory,
                fs0 == *old(fs),
                k <= created@.len(),
                aligned(created@, resolved_created.deep_view()),
                aligned(deleted@, resolved_deleted.deep_view()),
                resolved_created@.len() == created@.len(),
                forall|q: Seq<Seq<u8>>|
                    #[trigger] fs.has(q) <==> (fs0.has(q) || (q.len() >= 1 && exists|m: int|
                        0 <= m < k && created@[m].is_dir && is_prefix_of(
                            q,
                            #[trigger] resolved_created.deep_view()[m],
                        ))),
                forall|q: Seq<Seq<u8>>|
                    fs0.has(q) ==> fs.has(q) && (#[trigger] fs.entry_of(q)) == fs0.entry_of(q),
                forall|q: Seq<Seq<u8>>| #[trigger] fs.has(q) && !fs0.has(q) ==> fs.is_dir(q),
                forall|m: int, j: int|
                    0 <= m < k && created@[m].is_dir && 1 <= j
                        <= (#[trigger] resolved_created.deep_view()[m]).len() ==> !fs0.is_file(
                        #[trigger] resolved_created.deep_view()[m].take(j),
                    ),
            decreases created@.len() - k,
        {
            let ghost mid = *fs;
            if created[k].is_dir {
                match fs.create_dir_all(&resolved_created[k]) {
                    Ok(()) => {
                        proof {
                            let rk = resolved_created.deep_view()[k as int];
                            assert forall|j: int| 1 <= j <= rk.len() implies !fs0.is_file(
                                #[trigger] rk.take(j),
                            ) by {
                                if fs0.is_file(rk.take(j)) {
                                    assert(mid.has(rk.take(j)));
                                    assert(mid.entry_of(rk.take(j)) == fs0.entry_of(rk.take(j)));
                                    assert(mid.is_file(rk.take(j)));
                                }
                            }
                            assert forall|q: Seq<Seq<u8>>|
                                #[trigger] fs.has(q) <==> (fs0.has(q) || (q.len() >= 1 && exists|m: int|
                                    0 <= m < k + 1 && created@[m].is_dir && is_prefix_of(
                                        q,
                                        #[trigger] resolved_created.deep_view()[m],
                                    ))) by {
                                if fs.has(q) {
                                    if mid.has(q) {
                                        if !fs0.has(q) {
                                            let m = choose|m: int|
                                                0 <= m < k && created@[m].is_dir && is_prefix_of(
                                                    q,
                                                    #[trigger] resolved_created.deep_view()[m],
                                                );
                                            assert(0 <= m < k + 1 && created@[m].is_dir
                                                && is_prefix_of(
                                                q,
                                                resolved_created.deep_view()[m],
                                            ));
                                        }
                                    } else {
                                        assert(q.len() >= 1 && is_prefix_of(q, rk));
                                        assert(0 <= k < k + 1 && created@[k as int].is_dir
                                            && is_prefix_of(
                                            q,
                                            resolved_created.deep_view()[k as int],
                                        ));
                                    }
                                }
                                if !fs.has(q) && q.len() >= 1 {
                                    if exists|m: int|
                                        0 <= m < k + 1 && created@[m].is_dir && is_prefix_of(
                                            q,
                                            #[trigger] resolved_created.deep_view()[m],
                                        ) {
                                        let m = choose|m: int|
                                            0 <= m < k + 1 && created@[m].is_dir && is_prefix_of(
                                                q,
                                                #[trigger] resolved_created.deep_view()[m],
                                            );
                                        if m < k {
                                            assert(mid.has(q));
                                            assert(fs.has(q));
                                        } else {
                                            assert(is_prefix_of(q, rk));
                                            assert(fs.has(q));
                                        }
                                    }
                                }
                            }
                            assert forall|q: Seq<Seq<u8>>| fs0.has(q) implies fs.has(q) && (
                            #[trigger] fs.entry_of(q)) == fs0.entry_of(q) by {
                                assert(mid.has(q));
                            }
                            assert forall|q: Seq<Seq<u8>>|
                                #[trigger] fs.has(q) && !fs0.has(q) implies fs.is_dir(q) by {
                                if mid.has(q) {
                                    assert(mid.is_dir(q));
                                    assert(fs.entry_of(q) == mid.entry_of(q));
                                }
                            }
                        }
                    },
                    Err(e) => {
                        proof {
                            let rk = resolved_created.deep_view()[k as int];
                            let j = choose|j: int|
                                1 <= j <= rk.len() && mid.is_file(#[trigger] rk.take(j));
                            assert(fs0.is_file(rk.take(j))) by {
                                if !fs0.has(rk.take(j)) {
                                    assert(mid.is_dir(rk.take(j)));
                                } else {
                                    assert(mid.entry_of(rk.take(j)) == fs0.entry_of(rk.take(j)));
                                }
                            }
                            assert(dir_requested_prefix(created@, rk.take(j))) by {
                                assert(clean_path_spec(created@[k as int].path@) == Some(rk));
                                assert(is_prefix_of(rk.take(j), rk)) by {
                                    assert(rk.take(j) =~= rk.take(rk.take(j).len() as int));
                                }
                                assert(entry_covers(created@[k as int], rk.take(j)));
                            }
                            assert(create_conflict(fs0, created@));
                            assert forall|q: Seq<Seq<u8>>| #[trigger] fs.has(q) implies (fs0.has(
                                q,
                            ) || dir_requested_prefix(created@, q)) by {
                                if !fs0.has(q) {
                                    let m = choose|m: int|
                                        0 <= m < k && created@[m].is_dir && is_prefix_of(
                                            q,
                                            #[trigger] resolved_created.deep_view()[m],
                                        );
                                    assert(clean_path_spec(created@[m].path@) == Some(
                                        resolved_created.deep_view()[m],
                                    ));
                                    assert(entry_covers(created@[m], q));
                                }
                            }
                            // nothing has been deleted yet
                            assert forall|q: Seq<Seq<u8>>| fs0.has(q) implies #[trigger] fs.has(
                                q,
                            ) by {
                                assert(fs.entry_of(q) == fs0.entry_of(q));
                            }
                        }
                        return Err(SyncError::Fs(e));
                    },
                }
            } else {
                proof {
                    assert forall|q: Seq<Seq<u8>>|
                        #[trigger] fs.has(q) <==> (fs0.has(q) || (q.len() >= 1 && exists|m: int|
                            0 <= m < k + 1 && created@[m].is_dir && is_prefix_of(
                                q,
                                #[trigger] resolved_created.deep_view()[m],
                            ))) by {
                        if !fs.has(q) && q.len() >= 1 {
                            if exists|m: int|
                                0 <= m < k + 1 && created@[m].is_dir && is_prefix_of(
                                    q,
                                    #[trigger] resolved_created.deep_view()[m],
                                ) {
                                let m = choose|m: int|
                                    0 <= m < k + 1 && created@[m].is_dir && is_prefix_of(
                                        q,
                                        #[trigger] resolved_created.deep_view()[m],
                                    );
                                assert(m < k);
                                assert(fs.has(q));
                            }
                        }
                    }
                }
            }
            k = k + 1;
        }
        proof {
            assert(!create_conflict(fs0, created@)) by {
                if create_conflict(fs0, created@) {
                    let q = choose|q: Seq<Seq<u8>>|
                        dir_requested_prefix(created@, q) && #[trigger] fs0.is_file(q);
                    let m = choose|m: int|
                        0 <= m < created@.len() && #[trigger] entry_covers(created@[m], q);
                    let rm = resolved_created.deep_view()[m];
                    assert(is_prefix_of(q, rm));
                    assert(q =~= rm.take(q.len() as int));
                    assert(!fs0.is_file(rm.take(q.len() as int)));
                }
            }
            assert forall|q: Seq<Seq<u8>>|
                #[trigger] fs.has(q) && !fs0.has(q) implies dir_requested_prefix(created@, q) by {
                let m = choose|m: int|
                    0 <= m < created@.len() && created@[m].is_dir && is_prefix_of(
                        q,
                        #[trigger] resolved_created.deep_view()[m],
                    );
                assert(clean_path_spec(created@[m].path@) == Some(resolved_created.deep_view()[m]));
                assert(entry_covers(created@[m], q));
            }
            assert forall|q: Seq<Seq<u8>>|
                !fs.has(q) && dir_requested_prefix(created@, q) implies false by {
                let m = choose|m: int|
                    0 <= m < created@.len() && #[trigger] entry_covers(created@[m], q);
                assert(resolved_created.deep_view()[m] == clean_path_spec(
                    created@[m].path@,
                ).unwrap());
                assert(fs.has(q));
            }
        }

        // Deletion phase: each entry, kind-checked, then removed with its
        // subtree; index records under it are evicted.
        let ghost fs1 = *fs;
        let ghost idx0 = self.path_to_checksum;
        let mut k: usize = 0;
        while k < deleted.len()
            invariant
                fs.wf(),
                self.path_to_checksum.wf(),
                self.absolute_directory == old(self).absolute_directory,
                fs0 == *old(fs),
                idx0 == old(self).path_to_checksum,
                k <= deleted@.len(),
                aligned(deleted@, resolved_deleted.deep_view()),
                aligned(created@, resolved_created.deep_view()),
                forall|q: Seq<Seq<u8>>|
                    #[trigger] fs.has(q) <==> (fs1.has(q) && !covered_before(deleted@, k as int, q)),
                forall|q: Seq<Seq<u8>>|
                    fs.has(q) ==> (#[trigger] fs.entry_of(q)) == fs1.entry_of(q),
                forall|q: Seq<Seq<u8>>|
                    #[trigger] self.path_to_checksum.has_key(q) <==> (idx0.has_key(q)
                        && !covered_before(deleted@, k as int, q)),
                forall|q: Seq<Seq<u8>>|
                    self.path_to_checksum.has_key(q) ==> (
                    #[trigger] self.path_to_checksum.digest_of(q)) == idx0.digest_of(q),
                forall|j: int| 0 <= j < k ==> !deletion_mismatch_at(fs0, created@, deleted@, j),
                // the creation phase's outcome, for kind decisions
                forall|q: Seq<Seq<u8>>|
                    #[trigger] fs1.has(q) <==> (fs0.has(q) || dir_requested_prefix(created@, q)),
                forall|q: Seq<Seq<u8>>|
                    fs1.has(q) && fs0.has(q) ==> (#[trigger] fs1.entry_of(q)) == fs0.entry_of(q),
                forall|q: Seq<Seq<u8>>| #[trigger] fs1.has(q) && !fs0.has(q) ==> fs1.is_dir(q),
            decreases deleted@.len() - k,
        {
            let ghost rd = resolved_deleted.deep_view()[k as int];
            let ghost midfs = *fs;
            // kind check against what currently stands there
            let entry_is_dir = deleted[k].is_dir;
            match fs.lookup(&resolved_deleted[k]) {
                Some(e) => {
                    let found_dir = matches!(e, crate::fs_model::FsEntry::Directory);
                    if entry_is_dir != found_dir {
                        proof {
                            assert(deletion_mismatch_at(fs0, created@, deleted@, k as int)) by {
                                assert(clean_path_spec(deleted@[k as int].path@) == Some(rd));
                                assert(!covered_before(deleted@, k as int, rd)) by {
                                    assert(midfs.has(rd));
                                }
                                if entry_is_dir {
                                    assert(midfs.is_file(rd));
                                    assert(fs1.is_file(rd));
                                    assert(fs0.is_file(rd)) by {
                                        if !fs0.has(rd) {
                                            assert(fs1.is_dir(rd));
                                        }
                                    }
                                } else {
                                    assert(midfs.is_dir(rd));
                                    assert(fs1.is_dir(rd));
                                    if fs0.has(rd) {
                                        assert(fs0.is_dir(rd));
                                    } else {
                                        assert(dir_requested_prefix(created@, rd));
                                    }
                                }
                            }
                            assert(deletion_mismatch(fs0, created@, deleted@));
                            // everything no deletion covers is still standing
                            assert forall|q: Seq<Seq<u8>>|
                                fs0.has(q) && !deletion_covers(deleted@, q) implies #[trigger] fs.has(
                                q,
                            ) by {
                                assert(fs1.has(q));
                                assert(!covered_before(deleted@, k as int, q)) by {
                                    if covered_before(deleted@, k as int, q) {
                                        let j = choose|j: int|
                                            0 <= j < k && #[trigger] deleted_entry_covers(
                                                deleted@[j],
                                                q,
                                            );
                                        assert(deletion_covers(deleted@, q));
                                    }
                                }
                            }
                            assert forall|q: Seq<Seq<u8>>|
                                idx0.has_key(q) && !deletion_covers(
                                    deleted@,
                                    q,
                                ) implies #[trigger] self.path_to_checksum.has_key(q) by {
                                assert(!covered_before(deleted@, k as int, q)) by {
                                    if covered_before(deleted@, k as int, q) {
                                        let j = choose|j: int|
                                            0 <= j < k && #[trigger] deleted_entry_covers(
                                                deleted@[j],
                                                q,
                                            );
                                        assert(deletion_covers(deleted@, q));
                                    }
                                }
                            }
                        }
                        return Err(
                            SyncError::Fs(
                                if entry_is_dir {
                                    FsError::NotADirectory
                                } else {
                                    FsError::IsADirectory
                                },
                            ),
                        );
                    }
                },
                None => {},
            }
            proof {
                assert(!deletion_mismatch_at(fs0, created@, deleted@, k as int)) by {
                    if !covered_before(deleted@, k as int, rd) {
                        if deleted@[k as int].is_dir {
                            if fs0.is_file(rd) {
                                assert(fs1.is_file(rd));
                                assert(midfs.has(rd));
                                assert(midfs.is_file(rd));
                            }
                        } else {
                            if fs0.is_dir(rd) || (dir_requested_prefix(created@, rd) && !fs0.has(
                                rd,
                            )) {
                                assert(fs1.is_dir(rd));
                                assert(midfs.has(rd));
                                assert(midfs.is_dir(rd));
                            }
                        }
                    }
                }
            }
            fs.remove_subtree(&resolved_deleted[k]);
            self.path_to_checksum.forget_subtree(&resolved_deleted[k]);
            proof {
                assert(deleted_entry_covers(deleted@[k as int], rd) == is_prefix_of(rd, rd));
                assert forall|q: Seq<Seq<u8>>|
                    #[trigger] fs.has(q) <==> (fs1.has(q) && !covered_before(
                        deleted@,
                        k + 1,
                        q,
                    )) by {
                    if fs.has(q) {
                        assert(midfs.has(q) && !is_prefix_of(rd, q));
                        if covered_before(deleted@, k + 1, q) {
                            let j = choose|j: int|
                                0 <= j < k + 1 && #[trigger] deleted_entry_covers(deleted@[j], q);
                            if j < k {
                                assert(covered_before(deleted@, k as int, q));
                            } else {
                                assert(is_prefix_of(rd, q));
                            }
                        }
                    } else {
                        if fs1.has(q) && !covered_before(deleted@, k + 1, q) {
                            assert(!covered_before(deleted@, k as int, q)) by {
                                if covered_before(deleted@, k as int, q) {
                                    let j = choose|j: int|
                                        0 <= j < k && #[trigger] deleted_entry_covers(
                                            deleted@[j],
                                            q,
                                        );
                                    assert(deleted_entry_covers(deleted@[j], q));
                                    assert(covered_before(deleted@, k + 1, q));
                                }
                            }
                            assert(midfs.has(q));
                            assert(!is_prefix_of(rd, q)) by {
                                if is_prefix_of(rd, q) {
                                    assert(clean_path_spec(deleted@[k as int].path@) == Some(rd));
                                    assert(deleted_entry_covers(deleted@[k as int], q));
                                    assert(covered_before(deleted@, k + 1, q));
                                }
                            }
                            assert(fs.has(q));
                        }
                    }
                }
                assert forall|q: Seq<Seq<u8>>|
                    #[trigger] self.path_to_checksum.has_key(q) <==> (idx0.has_key(q)
                        && !covered_before(deleted@, k + 1, q)) by {
                    if self.path_to_checksum.has_key(q) {
                        if covered_before(deleted@, k + 1, q) {
                            let j = choose|j: int|
                                0 <= j < k + 1 && #[trigger] deleted_entry_covers(deleted@[j], q);
                            if j < k {
                                assert(covered_before(deleted@, k as int, q));
                            } else {
                                assert(is_prefix_of(rd, q));
                            }
                        }
                    } else {
                        if idx0.has_key(q) && !covered_before(deleted@, k + 1, q) {
                            assert(!covered_before(deleted@, k as int, q)) by {
                                if covered_before(deleted@, k as int, q) {
                                    let j = choose|j: int|
                                        0 <= j < k && #[trigger] deleted_entry_covers(
                                            deleted@[j],
                                            q,
                                        );
                                    assert(covered_before(deleted@, k + 1, q));
                                }
                            }
                            assert(!is_prefix_of(rd, q)) by {
                                if is_prefix_of(rd, q) {
                                    assert(deleted_entry_covers(deleted@[k as int], q));
                                    assert(covered_before(deleted@, k + 1, q));
                                }
                            }
                        }
                    }
                }
            }
            k = k + 1;
        }
        proof {
            assert(!deletion_mismatch(fs0, created@, deleted@)) by {
                if deletion_mismatch(fs0, created@, deleted@) {
                    let j = choose|j: int|
                        0 <= j < deleted@.len() && #[trigger] deletion_mismatch_at(
                            fs0,
                            created@,
                            deleted@,
                            j,
                        );
                }
            }
            assert forall|q: Seq<Seq<u8>>|
                #[trigger] fs.has(q) <==> ((fs0.has(q) || dir_requested_prefix(created@, q))
                    && !deletion_covers(deleted@, q)) by {
                assert(covered_before(deleted@, deleted@.len() as int, q) == deletion_covers(
                    deleted@,
                    q,
                )) by {
                    if covered_before(deleted@, deleted@.len() as int, q) {
                        let j = choose|j: int|
                            0 <= j < deleted@.len() && #[trigger] deleted_entry_covers(
                                deleted@[j],
                                q,
                            );
                        assert(deletion_covers(deleted@, q));
                    }
                    if deletion_covers(deleted@, q) {
                        let j = choose|j: int|
                            0 <= j < deleted@.len() && #[trigger] deleted_entry_covers(
                                deleted@[j],
                                q,
                            );
                        assert(covered_before(deleted@, deleted@.len() as int, q));
                    }
                }
            }
            assert forall|q: Seq<Seq<u8>>|
                #[trigger] self.path_to_checksum.has_key(q) <==> (idx0.has_key(q)
                    && !deletion_covers(deleted@, q)) by {
                assert(covered_before(deleted@, deleted@.len() as int, q) == deletion_covers(
                    deleted@,
                    q,
                )) by {
                    if covered_before(deleted@, deleted@.len() as int, q) {
                        let j = choose|j: int|
                            0 <= j < deleted@.len() && #[trigger] deleted_entry_covers(
                                deleted@[j],
                                q,
                            );
                        assert(deletion_covers(deleted@, q));
                    }
                    if deletion_covers(deleted@, q) {
                        let j = choose|j: int|
                            0 <= j < deleted@.len() && #[trigger] deleted_entry_covers(
                                deleted@[j],
                                q,
                            );
                        assert(covered_before(deleted@, deleted@.len() as int, q));
                    }
                }
            }
        }
        Ok(())
    }
}

/// True iff nothing readable can stand at `rel`: the root itself, or a
/// directory.
pub open spec fn gc_blocked(fs: FsTree, rel: Seq<Seq<u8>>) -> bool {
    rel.len() == 0 || fs.is_dir(rel)
}

/// True iff the server's file at `rel` already carries the client's digest.
pub open spec fn gc_synced(fs: FsTree, rel: Seq<Seq<u8>>, digest: Seq<u8>) -> bool {
    fs.is_file(rel) && strong_of(fs.content_of(rel)) == digest
}

/// The copy source the shortcut may use: the indexed path for `digest`,
/// but only when a file still stands there whose content re-verifies to
/// `digest` at the moment of the check. A stale index entry yields nothing.
pub open spec fn gc_copy_source(fs: FsTree, idx: ChecksumIndex, digest: Seq<u8>) -> Option<
    Seq<Seq<u8>>,
> {
    match idx.find_spec(digest) {
        Some(src) => if fs.is_file(src) && strong_of(fs.content_of(src)) == digest {
            Some(src)
        } else {
            None
        },
        None => None,
    }
}

impl MyDirSync {
    /// Answers a checksum query for one file.
    ///
    /// If the server's copy already carries the client's digest, the file is
    /// synchronized and the answer carries no block checksums and changes
    /// nothing. Otherwise, if some indexed path's content re-verifies to the
    /// client's digest, its bytes are copied onto the target, the index is
    /// updated, and the answer again carries no block checksums. Otherwise
    /// the answer carries the weak and strong checksum of every block of the
    /// server's current content (none, if the file is absent), for the
    /// client to diff against.
    pub fn get_checksum(
        &mut self,
        fs: &mut FsTree,
        path: &Vec<u8>,
        block_size: usize,
        checksum: &Vec<u8>,
    ) -> (r: Result<ChecksumResponse, SyncError>)
        requires
            old(self).wf(),
            old(fs).wf(),
        ensures
            final(self).wf(),
            final(fs).wf(),
            final(self).spec_root() == old(self).spec_root(),
            ({
                let rel_opt = clean_path_spec(path@);
                match r {
                    Err(SyncError::Path(e)) => {
                        &&& e == PathError::Traversal
                        &&& rel_opt is None
                        &&& *final(fs) == *old(fs) && *final(self) == *old(self)
                    },
                    Err(SyncError::Fs(e)) => {
                        &&& e == FsError::IsADirectory
                        &&& rel_opt matches Some(rel)
                        &&& gc_blocked(*old(fs), rel_opt.unwrap())
                        &&& *final(fs) == *old(fs) && *final(self) == *old(self)
                    },
                    Err(SyncError::Chunk(e)) => {
                        &&& e == ChunkError::ZeroBlockSize && block_size == 0
                        &&& rel_opt is Some
                        &&& !gc_blocked(*old(fs), rel_opt.unwrap())
                        &&& !gc_synced(*old(fs), rel_opt.unwrap(), checksum@)
                        &&& gc_copy_source(*old(fs), old(self).checksums(), checksum@) is None
                        &&& *final(fs) == *old(fs) && *final(self) == *old(self)
                    },
                    Ok(resp) => {
                        &&& rel_opt is Some
                        &&& !gc_blocked(*old(fs), rel_opt.unwrap())
                        &&& resp.path.deep_view() == rel_opt.unwrap()
                        &&& resp.checksum@ == checksum@
                        &&& ({
                            let rel = rel_opt.unwrap();
                            if gc_synced(*old(fs), rel, checksum@) {
                                // already synchronized: nothing moved
                                &&& *final(fs) == *old(fs) && *final(self) == *old(self)
                                &&& resp.checksums@.len() == 0
                            } else if gc_copy_source(
                                *old(fs),
                                old(self).checksums(),
                                checksum@,
                            ) is Some {
                                // copy shortcut: target now holds the
                                // source's bytes, the index records the
                                // digest for the target
                                let src = gc_copy_source(
                                    *old(fs),
                                    old(self).checksums(),
                                    checksum@,
                                ).unwrap();
                                &&& resp.checksums@.len() == 0
                                &&& final(fs).is_file(rel)
                                &&& final(fs).content_of(rel) == old(fs).content_of(src)
                                &&& strong_of(final(fs).content_of(rel)) == checksum@
                                &&& forall|q: Seq<Seq<u8>>|
                                    #[trigger] final(fs).has(q) <==> (old(fs).has(q) || q == rel)
                                &&& forall|q: Seq<Seq<u8>>|
                                    old(fs).has(q) && q != rel ==> (#[trigger] final(fs).entry_of(
                                        q,
                                    )) == old(fs).entry_of(q)
                                &&& forall|q: Seq<Seq<u8>>|
                                    #[trigger] final(self).checksums().has_key(q) <==> (old(self).checksums().has_key(q) || q == rel)
                                &&& forall|q: Seq<Seq<u8>>|
                                    old(self).checksums().has_key(q) && q != rel ==> (
                                    #[trigger] final(self).checksums().digest_of(q)) == old(self).checksums().digest_of(q)
                                &&& final(self).checksums().digest_of(rel) == checksum@
                            } else {
                                // negotiation: per-block checksums of the
                                // server's current content, nothing moved
                                let blocks = chunks_of(
                                    old(fs).content_of(rel),
                                    block_size as int,
                                );
                                &&& block_size >= 1
                                &&& *final(fs) == *old(fs) && *final(self) == *old(self)
                                &&& resp.checksums@.len() == blocks.len()
                                &&& forall|i: int|
                                    0 <= i < blocks.len() ==> (#[trigger] resp.checksums@[i].strong@)
                                        == strong_of(blocks[i]) && resp.checksums@[i].weak
                                        == weak_of(blocks[i])
                            }
                        })
                    },
                    _ => false,
                }
            }),
    {
        let rel = match clean_path(path) {
            Ok(cs) => cs,
            Err(e) => {
                return Err(SyncError::Path(e));
            },
        };
        if rel.len() == 0 {
            return Err(SyncError::Fs(FsError::IsADirectory));
        }
        let hasher = Hasher {};

        // Step 1: the server's current digest, or absence, or unreadable.
        let mut synced = false;
        match fs.read_file(&rel) {
            Some(content) => {
                let d = hasher.compute_strong_byte_hash(content);
                if crate::bytes::bytes_eq(&d, checksum) {
                    synced = true;
                }
            },
            None => {
                if fs.contains(&rel) {
                    return Err(SyncError::Fs(FsError::IsADirectory));
                }
            },
        }

        // Step 2: already synchronized.
        if synced {
            let resp_path = clone_path(&rel);
            let cks = clone_bytes(checksum);
            return Ok(ChecksumResponse { path: resp_path, checksum: cks, checksums: Vec::new() });
        }

        // Step 3: copy shortcut, re-verified at the moment of the check.
        let mut copy_src: Option<Vec<Vec<u8>>> = None;
        match self.get_file_with_matching_checksum(checksum) {
            Some(src) => {
                match fs.read_file(&src) {
                    Some(content) => {
                        let d = hasher.compute_strong_byte_hash(content);
                        if crate::bytes::bytes_eq(&d, checksum) {
                            copy_src = Some(src);
                        }
                    },
                    None => {},
                }
            },
            None => {},
        }
        proof {
            if copy_src is Some {
                assert(gc_copy_source(*fs, self.checksums(), checksum@) == Some(
                    copy_src.unwrap().deep_view(),
                ));
            } else {
                assert(gc_copy_source(*fs, self.checksums(), checksum@) is None);
            }
        }
        match copy_src {
            Some(src) => {
                match force_copy(fs, &src, &rel) {
                    Ok(()) => {},
                    Err(_) => {
                        proof {
                            assert(false);
                        }
                        return Err(SyncError::Fs(FsError::NotFound));
                    },
                }
                let resp_path = clone_path(&rel);
                let cks = clone_bytes(checksum);
                self.update_checksum(clone_path(&rel), clone_bytes(checksum));
                return Ok(
                    ChecksumResponse { path: resp_path, checksum: cks, checksums: Vec::new() },
                );
            },
            None => {},
        }

        // Step 4: block-level checksums of the current content.
        let content: Vec<u8> = match fs.read_file(&rel) {
            Some(c) => clone_bytes(c),
            None => Vec::new(),
        };
        proof {
            assert(content@ == fs.content_of(rel.deep_view()));
        }
        let blocks = match chunk_bytes(&content, block_size) {
            Ok(b) => b,
            Err(e) => {
                return Err(SyncError::Chunk(e));
            },
        };
        let mut checksums: Vec<Checksum> = Vec::new();
        let ghost bspec = chunks_of(content@, block_size as int);
        let mut i: usize = 0;
        while i < blocks.len()
            invariant
                blocks.deep_view() == bspec,
                blocks@.len() == bspec.len(),
                i <= blocks@.len(),
                checksums@.len() == i,
                forall|t: int|
                    0 <= t < i ==> (#[trigger] checksums@[t].strong@) == strong_of(bspec[t])
                        && checksums@[t].weak == weak_of(bspec[t]),
            decreases blocks@.len() - i,
        {
            proof {
                lemma_bytes_deep_view(blocks@[i as int]);
            }
            let strong = hasher.compute_strong_byte_hash(&blocks[i]);
            let weak = hasher.compute_weak_byte_hash(&blocks[i]);
            checksums.push(Checksum { strong, weak });
            i = i + 1;
        }
        let resp_path = clone_path(&rel);
        let cks = clone_bytes(checksum);
        Ok(ChecksumResponse { path: resp_path, checksum: cks, checksums })
    }

    /// Applies one streamed upload: writes the concatenation of the blocks
    /// to the path named by the request metadata (creating its parent
    /// directories), records the new content's digest in the index, and
    /// answers with the number of bytes written.
    #[verifier::rlimit(50)]
    pub fn upload_blocks(
        &mut self,
        fs: &mut FsTree,
        metadata: &RequestMetadata,
        blocks: &Vec<Vec<u8>>,
    ) -> (r: Result<u64, SyncError>)
        requires
            old(self).wf(),
            old(fs).wf(),
        ensures
            final(self).wf(),
            final(fs).wf(),
            final(self).spec_root() == old(self).spec_root(),
            ({
                let rel_opt = clean_path_spec(crate::metadata::extract_path(*metadata));
                match r {
                    Err(SyncError::Metadata(e)) => {
                        &&& !crate::metadata::extract_ok(*metadata)
                        &&& crate::metadata::extract_error_matches(*metadata, e)
                        &&& *final(fs) == *old(fs) && *final(self) == *old(self)
                    },
                    Err(SyncError::Path(e)) => {
                        &&& e == PathError::Traversal
                        &&& crate::metadata::extract_ok(*metadata)
                        &&& rel_opt is None
                        &&& *final(fs) == *old(fs) && *final(self) == *old(self)
                    },
                    Err(SyncError::Fs(e)) => {
                        &&& crate::metadata::extract_ok(*metadata)
                        &&& rel_opt is Some
                        &&& *final(fs) == *old(fs) && *final(self) == *old(self)
                        &&& (e == FsError::IsADirectory || e == FsError::NotADirectory)
                        &&& e == FsError::IsADirectory <==> gc_blocked(*old(fs), rel_opt.unwrap())
                        &&& e == FsError::NotADirectory <==> (!gc_blocked(*old(fs), rel_opt.unwrap())
                            && exists|j: int|
                            1 <= j < rel_opt.unwrap().len() && old(fs).is_file(
                                #[trigger] rel_opt.unwrap().take(j),
                            ))
                    },
                    Ok(n) => {
                        let rel = rel_opt.unwrap();
                        let content = blocks.deep_view().flatten();
                        &&& crate::metadata::extract_ok(*metadata)
                        &&& rel_opt is Some
                        &&& !gc_blocked(*old(fs), rel)
                        &&& n == content.len()
                        &&& final(fs).is_file(rel)
                        &&& final(fs).content_of(rel) == content
                        &&& forall|q: Seq<Seq<u8>>|
                            #[trigger] final(fs).has(q) <==> (old(fs).has(q) || q == rel || (
                            q.len() >= 1 && is_prefix_of(q, rel.take(rel.len() - 1))))
                        &&& forall|q: Seq<Seq<u8>>|
                            old(fs).has(q) && q != rel ==> (#[trigger] final(fs).entry_of(q))
                                == old(fs).entry_of(q)
                        &&& forall|q: Seq<Seq<u8>>|
                            #[trigger] final(fs).has(q) && !old(fs).has(q) && q != rel ==> final(fs).is_dir(q)
                        &&& forall|q: Seq<Seq<u8>>|
                            #[trigger] final(self).checksums().has_key(q) <==> (old(self).checksums().has_key(q) || q == rel)
                        &&& forall|q: Seq<Seq<u8>>|
                            old(self).checksums().has_key(q) && q != rel ==> (#[trigger] final(self).checksums().digest_of(q)) == old(self).checksums().digest_of(q)
                        &&& final(self).checksums().digest_of(rel) == strong_of(content)
                    },
                    _ => false,
                }
            }),
    {
        let md = match extract_metadata_from_map(metadata) {
            Ok(md) => md,
            Err(e) => {
                return Err(SyncError::Metadata(e));
            },
        };
        let rel = match clean_path(&md.path) {
            Ok(cs) => cs,
            Err(e) => {
                return Err(SyncError::Path(e));
            },
        };
        if rel.len() == 0 {
            return Err(SyncError::Fs(FsError::IsADirectory));
        }
        match fs.lookup(&rel) {
            Some(e) => {
                if matches!(e, crate::fs_model::FsEntry::Directory) {
                    return Err(SyncError::Fs(FsError::IsADirectory));
                }
            },
            None => {},
        }

        // Create the parent directories.
        let mut parent: Vec<Vec<u8>> = Vec::new();
        let mut j: usize = 0;
        let parent_len = rel.len() - 1;
        while j < parent_len
            invariant
                j <= parent_len,
                parent_len == rel@.len() - 1,
                *fs == *old(fs),
                fs.wf(),
                self.path_to_checksum.wf(),
                self.path_to_checksum == old(self).path_to_checksum,
                self.absolute_directory == old(self).absolute_directory,
                parent.deep_view() == rel.deep_view().take(j as int),
            decreases parent_len - j,
        {
            let ghost p0 = parent;
            let c = clone_bytes(&rel[j]);
            let ghost c0 = c;
            parent.push(c);
            proof {
                lemma_bytes_deep_view(c0);
                lemma_bytes_deep_view(rel@[j as int]);
                lemma_deep_view_push(p0, parent, c0);
                assert(parent.deep_view() =~= rel.deep_view().take(j + 1));
            }
            j = j + 1;
        }
        let ghost relv = rel.deep_view();
        let ghost fs0 = *fs;
        match fs.create_dir_all(&parent) {
            Ok(()) => {},
            Err(e) => {
                proof {
                    let j = choose|j: int|
                        1 <= j <= parent.deep_view().len() && fs0.is_file(
                            #[trigger] parent.deep_view().take(j),
                        );
                    assert(parent.deep_view().take(j) =~= relv.take(j));
                    assert(fs0.is_file(relv.take(j)));
                    let rel_opt = clean_path_spec(crate::metadata::extract_path(*metadata));
                    assert(rel_opt == Some(relv));
                    assert(1 <= j < rel_opt.unwrap().len() && old(fs).is_file(
                        rel_opt.unwrap().take(j),
                    ));
                    assert(exists|j2: int|
                        1 <= j2 < rel_opt.unwrap().len() && old(fs).is_file(
                            #[trigger] rel_opt.unwrap().take(j2),
                        ));
                    assert(!gc_blocked(*old(fs), rel_opt.unwrap()));
                }
                return Err(SyncError::Fs(e));
            },
        }

        // Write the file and record its digest.
        let content = crate::chunker::concat_blocks(blocks);
        let ghost contentv = content@;
        let bytes_written = content.len() as u64;
        let hasher = Hasher {};
        let digest = hasher.compute_strong_byte_hash(&content);
        let ghost fs_created = *fs;
        match fs.write_file(&rel, content) {
            Ok(()) => {},
            Err(_) => {
                proof {
                    assert(fs_created.has(relv) == fs0.has(relv)) by {
                        assert(!is_prefix_of(relv, relv.take(relv.len() - 1)));
                    }
                    if fs_created.has(relv) {
                        assert(fs_created.entry_of(relv) == fs0.entry_of(relv));
                    }
                    assert(false);
                }
                return Err(SyncError::Fs(FsError::IsADirectory));
            },
        }
        self.update_checksum(clone_path(&rel), digest);
        proof {
            assert forall|q: Seq<Seq<u8>>|
                #[trigger] fs.has(q) <==> (fs0.has(q) || q == relv || (q.len() >= 1
                    && is_prefix_of(q, relv.take(relv.len() - 1)))) by {}
            assert forall|q: Seq<Seq<u8>>|
                fs0.has(q) && q != relv implies (#[trigger] fs.entry_of(q)) == fs0.entry_of(
                q,
            ) by {
                assert(fs_created.has(q));
                assert(fs_created.entry_of(q) == fs0.entry_of(q));
                assert(fs.entry_of(q) == fs_created.entry_of(q));
            }
            assert forall|q: Seq<Seq<u8>>|
                #[trigger] fs.has(q) && !fs0.has(q) && q != relv implies fs.is_dir(q) by {
                assert(fs_created.has(q));
                assert(fs_created.is_dir(q));
                assert(fs.entry_of(q) == fs_created.entry_of(q));
            }
            assert(fs.content_of(relv) == contentv);
        }
        Ok(bytes_written)
    }
}

/// Everything under a deleted path is gone after an applied change-set —
/// whatever the prior state was, with no assumption on the change-set.
pub proof fn lemma_diff_structure_removes_deleted(
    pre: FsTree,
    post: FsTree,
    created: Seq<PathEntry>,
    deleted: Seq<PathEntry>,
    b: int,
)
    requires
        diff_structure_post(pre, post, created, deleted),
        0 <= b < deleted.len(),
        clean_path_spec(deleted[b].path@) is Some,
    ensures
        forall|q: Seq<Seq<u8>>|
            is_prefix_of(clean_path_spec(deleted[b].path@).unwrap(), q) ==> !(#[trigger] post.has(
                q,
            )),
        !post.has(clean_path_spec(deleted[b].path@).unwrap()),
{
    let rb = clean_path_spec(deleted[b].path@).unwrap();
    assert forall|q: Seq<Seq<u8>>| is_prefix_of(rb, q) implies !(#[trigger] post.has(q)) by {
        assert(deleted_entry_covers(deleted[b], q));
        assert(deletion_covers(deleted, q));
    }
    assert(is_prefix_of(rb, rb)) by {
        assert(rb =~= rb.take(rb.len() as int));
    }
}

/// Each created directory exists after an applied change-set, provided no
/// deletion of the same change-set covers it and no file stood in its way.
pub proof fn lemma_diff_structure_creates_declared(
    pre: FsTree,
    post: FsTree,
    created: Seq<PathEntry>,
    deleted: Seq<PathEntry>,
    a: int,
)
    requires
        diff_structure_post(pre, post, created, deleted),
        !create_conflict(pre, created),
        0 <= a < created.len(),
        created[a].is_dir,
        clean_path_spec(created[a].path@) is Some,
        clean_path_spec(created[a].path@).unwrap().len() >= 1,
        !deletion_covers(deleted, clean_path_spec(created[a].path@).unwrap()),
    ensures
        post.is_dir(clean_path_spec(created[a].path@).unwrap()),
{
    let ra = clean_path_spec(created[a].path@).unwrap();
    assert(dir_requested_prefix(created, ra)) by {
        assert(is_prefix_of(ra, ra)) by {
            assert(ra =~= ra.take(ra.len() as int));
        }
        assert(entry_covers(created[a], ra));
    }
    assert(post.has(ra));
    if pre.has(ra) {
        assert(!pre.is_file(ra)) by {
            if pre.is_file(ra) {
                assert(create_conflict(pre, created));
            }
        }
        assert(post.entry_of(ra) == pre.entry_of(ra));
    }
}

/// Structural sync removes everything undeclared: no path the request did
/// not name survives under the root — whatever the prior state was, with
/// no assumption on the request.
pub proof fn lemma_sync_structure_removes_undeclared(
    pre: FsTree,
    post: FsTree,
    es: Seq<PathEntry>,
)
    requires
        sync_structure_post(pre, post, es),
    ensures
        forall|q: Seq<Seq<u8>>| q.len() >= 1 && !in_request(es, q) ==> !post.has(q),
{
    assert forall|q: Seq<Seq<u8>>| q.len() >= 1 && !in_request(es, q) implies !post.has(q) by {
        if post.has(q) {
            assert(kept_path(es, q));
            assert(in_request(es, q.take(q.len() as int)));
            assert(q.take(q.len() as int) =~= q);
        }
    }
}

/// Structural sync creates everything declared: every directory entry of
/// the request exists afterwards, provided the request declares every
/// ancestor of what it declares and no file stood in a declared
/// directory's way. Without the first proviso the deletion walk itself
/// removes a declared directory under an undeclared parent.
pub proof fn lemma_sync_structure_creates_declared(pre: FsTree, post: FsTree, es: Seq<PathEntry>)
    requires
        sync_structure_post(pre, post, es),
        !create_conflict(pre, es),
        // the request declares every ancestor of everything it declares
        forall|q: Seq<Seq<u8>>, j: int|
            in_request(es, q) && 1 <= j <= q.len() ==> in_request(es, #[trigger] q.take(j)),
    ensures
        forall|k: int|
            0 <= k < es.len() && es[k].is_dir && (#[trigger] clean_path_spec(es[k].path@)) is Some
                && clean_path_spec(es[k].path@).unwrap().len() >= 1 ==> post.is_dir(
                clean_path_spec(es[k].path@).unwrap(),
            ),
{
    assert forall|k: int|
        0 <= k < es.len() && es[k].is_dir && (#[trigger] clean_path_spec(es[k].path@)) is Some
            && clean_path_spec(es[k].path@).unwrap().len() >= 1 implies post.is_dir(
        clean_path_spec(es[k].path@).unwrap(),
    ) by {
        let rk = clean_path_spec(es[k].path@).unwrap();
        assert(dir_requested_prefix(es, rk)) by {
            assert(is_prefix_of(rk, rk)) by {
                assert(rk =~= rk.take(rk.len() as int));
            }
            assert(entry_covers(es[k], rk));
        }
        assert(kept_path(es, rk)) by {
            assert(in_request(es, rk));
            assert forall|j: int| 1 <= j <= rk.len() implies in_request(es, #[trigger] rk.take(j)) by {
            }
        }
        assert(post.has(rk));
        if pre.has(rk) {
            assert(!pre.is_file(rk)) by {
                if pre.is_file(rk) {
                    assert(create_conflict(pre, es));
                }
            }
            assert(post.entry_of(rk) == pre.entry_of(rk));
        }
    }
}

} // verus!
