//! Streaming transfer protocol: an ordered message sequence pushes a file's
//! name and then its content chunks from client to server.
//!
//! The first message must carry the name; every later one must carry a
//! chunk. Any other order is a protocol violation, rejected before any
//! write. The server appends chunks in arrival order, so the written file
//! is exactly the concatenation of the chunks.

use vstd::prelude::*;

use crate::bytes::{clone_bytes, clone_path, extend_bytes, lemma_bytes_deep_view,
    lemma_deep_view_push};
use crate::chunker::{chunk_bytes, chunks_of, lemma_chunks_concat};
use crate::fs_model::{FsEntry, FsError, FsTree};
use crate::paths::{clean_path, clean_path_spec, is_prefix_of, PathError, SEPARATOR};

verus! {

/// One message of a streamed upload.
pub enum UploadMessage {
    /// The target file's name; must come first, exactly once.
    Name(Vec<u8>),
    /// One chunk of the file's bytes, in order.
    Chunk(Vec<u8>),
}

/// A message sequence the server accepts: a name first, then only chunks.
pub open spec fn valid_upload(msgs: Seq<UploadMessage>) -> bool {
    &&& msgs.len() >= 1
    &&& msgs[0] is Name
    &&& forall|i: int| 1 <= i < msgs.len() ==> (#[trigger] msgs[i]) is Chunk
}

/// The name the sequence carries (meaningful when it starts with one).
pub open spec fn upload_name(msgs: Seq<UploadMessage>) -> Seq<u8> {
    msgs[0]->Name_0@
}

/// The concatenation of every chunk the sequence carries, in order.
pub open spec fn upload_content(msgs: Seq<UploadMessage>) -> Seq<u8>
    decreases msgs.len(),
{
    if msgs.len() == 0 {
        Seq::empty()
    } else {
        upload_content(msgs.drop_last()) + (if msgs.last() is Chunk {
            msgs.last()->Chunk_0@
        } else {
            Seq::empty()
        })
    }
}

/// A protocol violation: a message of the wrong kind for its position.
#[derive(Debug, Clone, Copy, PartialEq, Eq, Structural)]
pub enum ProtocolError {
    /// A chunk arrived before the name, or a second name arrived.
    WrongMessageType,
}

/// Why a streamed book operation failed.
#[derive(Debug, PartialEq, Eq)]
pub enum BookError {
    /// The message sequence broke the protocol.
    Protocol(ProtocolError),
    /// The named path escapes the server's directory.
    Path(PathError),
    /// The filesystem refused the operation.
    Fs(FsError),
}

/// The server side of one streamed upload, fed one message at a time.
pub struct UploadSession {
    name: Option<Vec<u8>>,
    data: Vec<u8>,
}

impl UploadSession {
    /// True once the name has arrived.
    pub closed spec fn started(self) -> bool {
        self.name is Some
    }

    /// The name received (meaningful once `started`).
    pub closed spec fn spec_name(self) -> Seq<u8> {
        self.name.unwrap()@
    }

    /// The bytes received so far.
    pub closed spec fn spec_data(self) -> Seq<u8> {
        self.data@
    }

    /// A fresh session: no name, no bytes.
    pub fn new() -> (r: UploadSession)
        ensures
            !r.started(),
            r.spec_data() == Seq::<u8>::empty(),
    {
        UploadSession { name: None, data: Vec::new() }
    }

    /// Feeds one message. A name is accepted only first; chunks only after
    /// it; anything else is rejected without changing the session.
    pub fn step(&mut self, msg: UploadMessage) -> (r: Result<(), ProtocolError>)
        ensures
            match r {
                Ok(()) => match msg {
                    UploadMessage::Name(n) => !old(self).started() && final(self).started()
                        && final(self).spec_name() == n@ && final(self).spec_data() == old(self).spec_data(),
                    UploadMessage::Chunk(c) => old(self).started() && final(self).started()
                        && final(self).spec_name() == old(self).spec_name() && final(self).spec_data() == old(self).spec_data() + c@,
                },
                Err(e) => {
                    &&& e == ProtocolError::WrongMessageType
                    &&& *final(self) == *old(self)
                    &&& ((msg is Name) <==> old(self).started())
                },
            },
    {
        match msg {
            UploadMessage::Name(n) => {
                if self.name.is_some() {
                    return Err(ProtocolError::WrongMessageType);
                }
                self.name = Some(n);
                Ok(())
            },
            UploadMessage::Chunk(c) => {
                if self.name.is_none() {
                    return Err(ProtocolError::WrongMessageType);
                }
                extend_bytes(&mut self.data, &c);
                Ok(())
            },
        }
    }
}

/// Serves streamed book uploads and listings out of one directory.
pub struct BookServer {
    directory: Vec<Vec<u8>>,
}

/// A directory rendered as one byte string, components joined by the
/// separator.
pub open spec fn join_path(p: Seq<Seq<u8>>) -> Seq<u8>
    decreases p.len(),
{
    if p.len() == 0 {
        Seq::empty()
    } else if p.len() == 1 {
        p[0]
    } else {
        join_path(p.drop_last()) + seq![SEPARATOR] + p.last()
    }
}

impl BookServer {
    /// The directory the server writes into, for specification purposes.
    pub closed spec fn spec_directory(self) -> Seq<Seq<u8>> {
        self.directory.deep_view()
    }

    /// A server writing into `directory` (already sanitized components).
    pub fn new(directory: Vec<Vec<u8>>) -> (r: BookServer)
        ensures
            r.spec_directory() == directory.deep_view(),
    {
        BookServer { directory }
    }

    /// The server's directory, rendered with separators.
    pub fn get_directory(&self) -> (r: Vec<u8>)
        ensures
            r@ == join_path(self.spec_directory()),
    {
        let mut r: Vec<u8> = Vec::new();
        let mut i: usize = 0;
        while i < self.directory.len()
            invariant
                i <= self.directory@.len(),
                r@ == join_path(self.spec_directory().take(i as int)),
            decreases self.directory@.len() - i,
        {
            if i > 0 {
                r.push(SEPARATOR);
            }
            extend_bytes(&mut r, &self.directory[i]);
            proof {
                let pre = self.spec_directory().take(i as int);
                let post = self.spec_directory().take(i + 1);
                assert(post.drop_last() =~= pre);
                assert(post.last() == self.spec_directory()[i as int]);
                lemma_bytes_deep_view(self.directory@[i as int]);
                if i == 0 {
                    assert(r@ =~= join_path(post));
                } else {
                    assert(r@ =~= join_path(pre) + seq![SEPARATOR] + post.last());
                }
            }
            i = i + 1;
        }
        proof {
            assert(self.spec_directory().take(self.spec_directory().len() as int)
                =~= self.spec_directory());
        }
        r
    }

    /// Receives one book as a streamed message sequence and writes it under
    /// the server's directory.
    ///
    /// The sequence must carry the name first and only chunks after it; the
    /// name is sanitized against the directory; the written file holds the
    /// concatenation of the chunks.
    pub fn add_book(&self, fs: &mut FsTree, messages: &Vec<UploadMessage>) -> (r: Result<
        (),
        BookError,
    >)
        requires
            old(fs).wf(),
        ensures
            final(fs).wf(),
            ({
                let name_rel = clean_path_spec(upload_name(messages@));
                match r {
                    Err(BookError::Protocol(e)) => {
                        &&& e == ProtocolError::WrongMessageType
                        &&& !valid_upload(messages@)
                        &&& *final(fs) == *old(fs)
                    },
                    Err(BookError::Path(e)) => {
                        &&& e == PathError::Traversal
                        &&& valid_upload(messages@)
                        &&& name_rel is None
                        &&& *final(fs) == *old(fs)
                    },
                    Err(BookError::Fs(e)) => {
                        &&& e == FsError::IsADirectory
                        &&& valid_upload(messages@)
                        &&& name_rel is Some
                        &&& ({
                            let target = self.spec_directory() + name_rel.unwrap();
                            target.len() == 0 || old(fs).is_dir(target)
                        })
                        &&& *final(fs) == *old(fs)
                    },
                    Ok(()) => {
                        let target = self.spec_directory() + name_rel.unwrap();
                        &&& valid_upload(messages@)
                        &&& name_rel is Some
                        &&& !(target.len() == 0 || old(fs).is_dir(target))
                        &&& final(fs).is_file(target)
                        &&& final(fs).content_of(target) == upload_content(messages@)
                        &&& forall|q: Seq<Seq<u8>>|
                            #[trigger] final(fs).has(q) <==> (old(fs).has(q) || q == target)
                        &&& forall|q: Seq<Seq<u8>>|
                            old(fs).has(q) && q != target ==> (#[trigger] final(fs).entry_of(q))
                                == old(fs).entry_of(q)
                    },
                }
            }),
    {
        let mut session = UploadSession::new();
        let mut i: usize = 0;
        while i < messages.len()
            invariant
                *fs == *old(fs),
                fs.wf(),
                i <= messages@.len(),
                i >= 1 ==> messages@[0] is Name && session.started() && session.spec_name()
                    == upload_name(messages@),
                i == 0 ==> !session.started(),
                forall|t: int| 1 <= t < i ==> (#[trigger] messages@[t]) is Chunk,
                session.spec_data() == upload_content(messages@.take(i as int)),
            decreases messages@.len() - i,
        {
            let msg = match &messages[i] {
                UploadMessage::Name(n) => UploadMessage::Name(clone_bytes(n)),
                UploadMessage::Chunk(c) => UploadMessage::Chunk(clone_bytes(c)),
            };
            proof {
                assert((msg is Name) == (messages@[i as int] is Name));
                assert(msg is Name ==> msg->Name_0@ == messages@[i as int]->Name_0@);
                assert(msg is Chunk ==> msg->Chunk_0@ == messages@[i as int]->Chunk_0@);
            }
            match session.step(msg) {
                Ok(()) => {},
                Err(e) => {
                    proof {
                        assert(!valid_upload(messages@)) by {
                            if i == 0 {
                                assert(messages@[0] is Chunk);
                            } else {
                                assert(messages@[i as int] is Name);
                            }
                        }
                    }
                    return Err(BookError::Protocol(e));
                },
            }
            proof {
                let pre = messages@.take(i as int);
                let post = messages@.take(i + 1);
                assert(post.drop_last() =~= pre);
                assert(post.last() == messages@[i as int]);
            }
            i = i + 1;
        }
        if i == 0 {
            proof {
                assert(!valid_upload(messages@));
            }
            return Err(BookError::Protocol(ProtocolError::WrongMessageType));
        }
        proof {
            assert(valid_upload(messages@));
            assert(messages@.take(messages@.len() as int) =~= messages@);
        }
        let name = match &session.name {
            Some(n) => clone_bytes(n),
            None => {
                proof {
                    assert(false);
                }
                return Err(BookError::Protocol(ProtocolError::WrongMessageType));
            },
        };
        let name_rel = match clean_path(&name) {
            Ok(cs) => cs,
            Err(e) => {
                return Err(BookError::Path(e));
            },
        };
        // target path: the server directory, then the sanitized name
        let mut target = clone_path(&self.directory);
        let mut j: usize = 0;
        while j < name_rel.len()
            invariant
                *fs == *old(fs),
                fs.wf(),
                j <= name_rel@.len(),
                target.deep_view() == self.spec_directory() + name_rel.deep_view().take(j as int),
            decreases name_rel@.len() - j,
        {
            let ghost t0 = target;
            let c = clone_bytes(&name_rel[j]);
            let ghost c0 = c;
            target.push(c);
            proof {
                lemma_bytes_deep_view(c0);
                lemma_bytes_deep_view(name_rel@[j as int]);
                lemma_deep_view_push(t0, target, c0);
                assert(target.deep_view() =~= self.spec_directory() + name_rel.deep_view().take(
                    j + 1,
                ));
            }
            j = j + 1;
        }
        proof {
            assert(name_rel.deep_view().take(name_rel.deep_view().len() as int)
                =~= name_rel.deep_view());
        }
        let data = session.data;
        match fs.write_file(&target, data) {
            Ok(()) => Ok(()),
            Err(e) => Err(BookError::Fs(e)),
        }
    }

    /// Deletes one book (or a whole directory of them) under the server's
    /// directory. A missing path is reported, not ignored.
    pub fn delete_book(&self, fs: &mut FsTree, path: &Vec<u8>) -> (r: Result<(), BookError>)
        requires
            old(fs).wf(),
        ensures
            final(fs).wf(),
            ({
                let rel = clean_path_spec(path@);
                match r {
                    Err(BookError::Path(e)) => {
                        &&& e == PathError::Traversal
                        &&& rel is None
                        &&& *final(fs) == *old(fs)
                    },
                    Err(BookError::Fs(e)) => {
                        &&& e == FsError::NotFound
                        &&& rel is Some
                        &&& !old(fs).has(self.spec_directory() + rel.unwrap())
                        &&& *final(fs) == *old(fs)
                    },
                    Ok(()) => {
                        let target = self.spec_directory() + rel.unwrap();
                        &&& rel is Some
                        &&& old(fs).has(target)
                        &&& !final(fs).has(target)
                        &&& (old(fs).is_file(target) ==> forall|q: Seq<Seq<u8>>|
                            #[trigger] final(fs).has(q) <==> (old(fs).has(q) && q != target))
                        &&& (old(fs).is_dir(target) ==> forall|q: Seq<Seq<u8>>|
                            #[trigger] final(fs).has(q) <==> (old(fs).has(q) && !is_prefix_of(
                                target,
                                q,
                            )))
                        &&& forall|q: Seq<Seq<u8>>|
                            final(fs).has(q) ==> (#[trigger] final(fs).entry_of(q)) == old(fs).entry_of(q)
                    },
                    _ => false,
                }
            }),
    {
        let rel = match clean_path(path) {
            Ok(cs) => cs,
            Err(e) => {
                return Err(BookError::Path(e));
            },
        };
        let mut target = clone_path(&self.directory);
        let mut j: usize = 0;
        while j < rel.len()
            invariant
                *fs == *old(fs),
                fs.wf(),
                j <= rel@.len(),
                target.deep_view() == self.spec_directory() + rel.deep_view().take(j as int),
            decreases rel@.len() - j,
        {
            let ghost t0 = target;
            let c = clone_bytes(&rel[j]);
            let ghost c0 = c;
            target.push(c);
            proof {
                lemma_bytes_deep_view(c0);
                lemma_bytes_deep_view(rel@[j as int]);
                lemma_deep_view_push(t0, target, c0);
                assert(target.deep_view() =~= self.spec_directory() + rel.deep_view().take(j + 1));
            }
            j = j + 1;
        }
        proof {
            assert(rel.deep_view().take(rel.deep_view().len() as int) =~= rel.deep_view());
        }
        let is_file = match fs.lookup(&target) {
            Some(e) => matches!(e, FsEntry::File(_)),
            None => {
                return Err(BookError::Fs(FsError::NotFound));
            },
        };
        let ghost tv = target.deep_view();
        if is_file {
            match fs.remove_file(&target) {
                Ok(()) => Ok(()),
                Err(_) => {
                    proof {
                        assert(false);
                    }
                    Err(BookError::Fs(FsError::NotFound))
                },
            }
        } else {
            match fs.remove_dir_all(&target) {
                Ok(()) => {
                    proof {
                        assert(is_prefix_of(tv, tv)) by {
                            assert(tv =~= tv.take(tv.len() as int));
                        }
                        assert(!fs.has(tv));
                    }
                    Ok(())
                },
                Err(_) => {
                    proof {
                        assert(false);
                    }
                    Err(BookError::Fs(FsError::NotFound))
                },
            }
        }
    }

    /// Lists the books: the name and size of every file lying directly in
    /// the server's directory, in store order.
    pub fn list_books(&self, fs: &FsTree) -> (r: Vec<(Vec<u8>, u64)>)
        requires
            fs.wf(),
        ensures
            forall|i: int|
                0 <= i < r@.len() ==> fs.is_file(
                    self.spec_directory().push(#[trigger] r@[i].0@),
                ) && r@[i].1 == fs.content_of(self.spec_directory().push(r@[i].0@)).len(),
            forall|name: Seq<u8>|
                fs.is_file(self.spec_directory().push(name)) ==> exists|i: int|
                    0 <= i < r@.len() && (#[trigger] r@[i].0@) == name,
            forall|i: int, j: int|
                0 <= i < j < r@.len() ==> (#[trigger] r@[i].0@) != (#[trigger] r@[j].0@),
    {
        let all = fs.paths();
        let mut r: Vec<(Vec<u8>, u64)> = Vec::new();
        let mut t: usize = 0;
        while t < all.len()
            invariant
                fs.wf(),
                t <= all@.len(),
                forall|m: int|
                    0 <= m < all.deep_view().len() ==> fs.has(#[trigger] all.deep_view()[m])
                        && all.deep_view()[m].len() >= 1,
                forall|q: Seq<Seq<u8>>|
                    fs.has(q) ==> exists|m: int|
                        0 <= m < all.deep_view().len() && all.deep_view()[m] == q,
                forall|m1: int, m2: int|
                    0 <= m1 < m2 < all.deep_view().len() ==> (#[trigger] all.deep_view()[m1])
                        != (#[trigger] all.deep_view()[m2]),
                forall|i: int|
                    0 <= i < r@.len() ==> fs.is_file(
                        self.spec_directory().push(#[trigger] r@[i].0@),
                    ) && r@[i].1 == fs.content_of(self.spec_directory().push(r@[i].0@)).len(),
                forall|name: Seq<u8>|
                    #![trigger self.spec_directory().push(name)]
                    (exists|m: int|
                        0 <= m < t && (#[trigger] all.deep_view()[m]) == self.spec_directory().push(
                            name,
                        ) && fs.is_file(all.deep_view()[m])) ==> exists|i: int|
                        0 <= i < r@.len() && (#[trigger] r@[i].0@) == name,
                forall|i: int|
                    #![trigger r@[i].0@]
                    0 <= i < r@.len() ==> exists|m: int|
                        0 <= m < t && (#[trigger] all.deep_view()[m]) == self.spec_directory().push(
                            r@[i].0@,
                        ),
                forall|i: int, j: int|
                    0 <= i < j < r@.len() ==> (#[trigger] r@[i].0@) != (#[trigger] r@[j].0@),
            decreases all@.len() - t,
        {
            let ghost r_top = r@;
            let p = &all[t];
            let ghost pv = all.deep_view()[t as int];
            let is_child = p.len() > self.directory.len() && p.len() - self.directory.len() == 1
                && crate::paths::path_starts_with(p, &self.directory);
            proof {
                if is_child {
                    assert(pv =~= self.spec_directory().push(pv[pv.len() - 1]));
                }
            }
            if is_child {
                match fs.read_file(p) {
                    Some(content) => {
                        let name = clone_bytes(&p[p.len() - 1]);
                        let size = content.len() as u64;
                        let ghost r0 = r@;
                        r.push((name, size));
                        proof {
                            lemma_bytes_deep_view(p@[p@.len() - 1]);
                            assert(r@[r@.len() - 1].0@ == pv[pv.len() - 1]);
                            assert(fs.is_file(self.spec_directory().push(r@[r@.len() - 1].0@)));
                            // the new entry's path is the one processed now
                            assert(all.deep_view()[t as int] == self.spec_directory().push(
                                r@[r@.len() - 1].0@,
                            ));
                            // and its name repeats no earlier one: an equal
                            // earlier name would mean an equal earlier path
                            assert forall|i: int|
                                0 <= i < r@.len() - 1 implies (#[trigger] r@[i].0@) != r@[r@.len()
                                - 1].0@ by {
                                if r@[i].0@ == r@[r@.len() - 1].0@ {
                                    let m = choose|m: int|
                                        0 <= m < t && (#[trigger] all.deep_view()[m])
                                            == self.spec_directory().push(r_top[i].0@);
                                    assert(all.deep_view()[m] == all.deep_view()[t as int]);
                                    assert(all.deep_view()[m] != all.deep_view()[t as int]);
                                }
                            }
                        }
                    },
                    None => {},
                }
            }
            proof {
                assert forall|name: Seq<u8>|
                    #![trigger self.spec_directory().push(name)]
                    (exists|m: int|
                        0 <= m < t + 1 && (#[trigger] all.deep_view()[m])
                            == self.spec_directory().push(name) && fs.is_file(
                            all.deep_view()[m],
                        )) implies exists|i: int|
                    0 <= i < r@.len() && (#[trigger] r@[i].0@) == name by {
                    let m = choose|m: int|
                        0 <= m < t + 1 && (#[trigger] all.deep_view()[m])
                            == self.spec_directory().push(name) && fs.is_file(all.deep_view()[m]);
                    if m == t {
                        assert(pv == self.spec_directory().push(name));
                        assert(pv.len() == self.spec_directory().len() + 1);
                        assert(pv[pv.len() - 1] == name);
                        assert(is_prefix_of(self.spec_directory(), pv)) by {
                            assert(self.spec_directory() =~= pv.take(
                                self.spec_directory().len() as int,
                            ));
                        }
                        assert(r@[r@.len() - 1].0@ == name);
                    } else {
                        assert(exists|m2: int|
                            0 <= m2 < t && (#[trigger] all.deep_view()[m2])
                                == self.spec_directory().push(name) && fs.is_file(
                                all.deep_view()[m2],
                            ));
                        let i = choose|i: int|
                            0 <= i < r_top.len() && (#[trigger] r_top[i].0@) == name;
                        assert(r@[i] == r_top[i]);
                        assert(r@[i].0@ == name);
                    }
                }
            }
            t = t + 1;
        }
        proof {
            assert forall|name: Seq<u8>|
                fs.is_file(self.spec_directory().push(name)) implies exists|i: int|
                0 <= i < r@.len() && (#[trigger] r@[i].0@) == name by {
                let q = self.spec_directory().push(name);
                let m = choose|m: int| 0 <= m < all.deep_view().len() && all.deep_view()[m] == q;
            }
        }
        r
    }
}

/// One message of the simpler transfer protocol: every message carries the
/// file's name and one chunk of its bytes.
#[derive(Debug)]
pub struct FileUploadRequest {
    pub file_name: Vec<u8>,
    pub chunk: Vec<u8>,
}

/// The server's answer to a finished transfer.
#[derive(Debug)]
pub struct UploadStatus {
    pub file_name: Vec<u8>,
    pub size: u64,
}

/// The concatenation of every chunk of the request sequence, in order.
pub open spec fn request_content(reqs: Seq<FileUploadRequest>) -> Seq<u8>
    decreases reqs.len(),
{
    if reqs.len() == 0 {
        Seq::empty()
    } else {
        request_content(reqs.drop_last()) + reqs.last().chunk@
    }
}

/// Accepts transfers named by the first message, stored under an
/// caller-supplied upload id.
pub struct MyFileTransfer {}

impl MyFileTransfer {
    /// The path a transfer is stored at: `uploads/<id>-<name>`.
    pub open spec fn spec_upload_target(upload_id: Seq<u8>, name: Seq<u8>) -> Seq<Seq<u8>> {
        seq![seq![117u8, 112, 108, 111, 97, 100, 115], upload_id + seq![45u8] + name]
    }

    /// Writes a streamed transfer to `uploads/<upload_id>-<name>`, where the
    /// name comes from the first message; the file holds the concatenation
    /// of all chunks. An empty stream writes nothing and reports size zero.
    /// The upload id is supplied by the caller (drawn at random outside);
    /// the contract holds whatever it is.
    pub fn upload(&self, fs: &mut FsTree, upload_id: &Vec<u8>, requests: &Vec<FileUploadRequest>)
        -> (r: Result<UploadStatus, FsError>)
        requires
            old(fs).wf(),
        ensures
            final(fs).wf(),
            ({
                let target = Self::spec_upload_target(upload_id@, requests@[0].file_name@);
                match r {
                    Ok(status) => {
                        if requests@.len() == 0 {
                            &&& *final(fs) == *old(fs)
                            &&& status.file_name@ == Seq::<u8>::empty()
                            &&& status.size == 0
                        } else {
                            &&& status.file_name@ == requests@[0].file_name@
                            &&& status.size == request_content(requests@).len()
                            &&& !old(fs).is_dir(target)
                            &&& final(fs).is_file(target)
                            &&& final(fs).content_of(target) == request_content(requests@)
                            &&& forall|q: Seq<Seq<u8>>|
                                #[trigger] final(fs).has(q) <==> (old(fs).has(q) || q == target)
                            &&& forall|q: Seq<Seq<u8>>|
                                old(fs).has(q) && q != target ==> (#[trigger] final(fs).entry_of(
                                    q,
                                )) == old(fs).entry_of(q)
                        }
                    },
                    Err(e) => {
                        &&& e == FsError::IsADirectory
                        &&& requests@.len() > 0
                        &&& old(fs).is_dir(target)
                        &&& *final(fs) == *old(fs)
                    },
                }
            }),
    {
        if requests.len() == 0 {
            return Ok(UploadStatus { file_name: Vec::new(), size: 0 });
        }
        let file_name = clone_bytes(&requests[0].file_name);
        // uploads/<id>-<name>
        let mut leaf = clone_bytes(upload_id);
        leaf.push(45);
        extend_bytes(&mut leaf, &file_name);
        let mut uploads_dir: Vec<u8> = Vec::new();
        uploads_dir.push(117);
        uploads_dir.push(112);
        uploads_dir.push(108);
        uploads_dir.push(111);
        uploads_dir.push(97);
        uploads_dir.push(100);
        uploads_dir.push(115);
        let mut target: Vec<Vec<u8>> = Vec::new();
        target.push(uploads_dir);
        target.push(leaf);
        proof {
            assert(target.deep_view() =~~= Self::spec_upload_target(
                upload_id@,
                requests@[0].file_name@,
            ));
        }
        // concatenate every chunk
        let mut content: Vec<u8> = Vec::new();
        let mut i: usize = 0;
        proof {
            assert(content@ =~= request_content(requests@.take(0)));
        }
        while i < requests.len()
            invariant
                *fs == *old(fs),
                fs.wf(),
                i <= requests@.len(),
                content@ == request_content(requests@.take(i as int)),
            decreases requests@.len() - i,
        {
            extend_bytes(&mut content, &requests[i].chunk);
            proof {
                let pre = requests@.take(i as int);
                let post = requests@.take(i + 1);
                assert(post.drop_last() =~= pre);
                assert(post.last() == requests@[i as int]);
            }
            i = i + 1;
        }
        proof {
            assert(requests@.take(requests@.len() as int) =~= requests@);
        }
        let size = content.len() as u64;
        match fs.write_file(&target, content) {
            Ok(()) => Ok(UploadStatus { file_name, size }),
            Err(e) => Err(e),
        }
    }
}

/// Builds streamed uploads on the client side.
pub struct BookClient {}

impl BookClient {
    /// Builds the message sequence that uploads `content` under `file`: the
    /// name first, then the content in chunks of up to a mebibyte. The
    /// sequence is valid, and the chunks reassemble exactly to `content`.
    pub fn add_book(&self, file: Vec<u8>, content: &Vec<u8>) -> (msgs: Vec<UploadMessage>)
        ensures
            valid_upload(msgs@),
            upload_name(msgs@) == file@,
            upload_content(msgs@) == content@,
            msgs@.len() == 1 + chunks_of(content@, 1048576).len(),
            forall|i: int|
                1 <= i < msgs@.len() ==> (#[trigger] msgs@[i])->Chunk_0@ == chunks_of(
                    content@,
                    1048576,
                )[i - 1],
    {
        let ghost filev = file@;
        let mut msgs: Vec<UploadMessage> = Vec::new();
        msgs.push(UploadMessage::Name(file));
        proof {
            assert(msgs@.drop_last() =~= Seq::<UploadMessage>::empty());
            assert(upload_content(Seq::<UploadMessage>::empty()) == Seq::<u8>::empty());
            assert(upload_content(msgs@) =~= Seq::<u8>::empty());
            assert(Seq::<Seq<u8>>::empty().flatten() == Seq::<u8>::empty());
            assert(chunks_of(content@, 1048576).take(0) =~= Seq::<Seq<u8>>::empty());
        }
        let blocks = match chunk_bytes(content, 1048576) {
            Ok(b) => b,
            Err(_) => {
                proof {
                    assert(false);
                }
                return msgs;
            },
        };
        let ghost bspec = chunks_of(content@, 1048576);
        let mut i: usize = 0;
        while i < blocks.len()
            invariant
                blocks.deep_view() == bspec,
                blocks@.len() == bspec.len(),
                i <= blocks@.len(),
                msgs@.len() == i + 1,
                msgs@[0] is Name && msgs@[0]->Name_0@ == filev,
                forall|t: int| 1 <= t < msgs@.len() ==> (#[trigger] msgs@[t]) is Chunk,
                forall|t: int|
                    1 <= t < msgs@.len() ==> (#[trigger] msgs@[t])->Chunk_0@ == bspec[t - 1],
                upload_content(msgs@) == bspec.take(i as int).flatten(),
            decreases blocks@.len() - i,
        {
            let ghost m0 = msgs@;
            let b = clone_bytes(&blocks[i]);
            msgs.push(UploadMessage::Chunk(b));
            proof {
                broadcast use Seq::lemma_flatten_push;

                lemma_bytes_deep_view(blocks@[i as int]);
                assert(msgs@.drop_last() =~= m0);
                assert(msgs@.last() is Chunk && msgs@.last()->Chunk_0@ == bspec[i as int]);
                assert(bspec.take(i + 1) =~= bspec.take(i as int).push(bspec[i as int]));
                assert(upload_content(msgs@) == bspec.take(i as int).flatten() + bspec[i as int]);
            }
            i = i + 1;
        }
        proof {
            assert(bspec.take(bspec.len() as int) =~= bspec);
            lemma_chunks_concat(content@, 1048576);
        }
        msgs
    }
}

} // verus!
