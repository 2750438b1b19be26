//! Hashing engine: a strong (cryptographic) digest and a weak (rolling)
//! checksum over byte buffers, and a whole-file digest over the filesystem
//! model.
//!
//! The two digests are computed by outside crates; the library names their
//! results (`strong_of`, `weak_of`) and reasons about them as pure functions
//! of the input bytes.

use vstd::prelude::*;

use crate::fs_model::{FsError, FsTree};
use sha2::Digest;

verus! {

/// The SHA-256 digest of a byte sequence. Named, not spelled out: the
/// algorithm's definition lives in the sha2 crate; all that the library
/// relies on is that it is a pure function of the bytes, 32 bytes long.
pub uninterp spec fn strong_of(bytes: Seq<u8>) -> Seq<u8>;

/// The Adler-32 checksum of a byte sequence: a pure function of the bytes.
pub uninterp spec fn weak_of(bytes: Seq<u8>) -> u32;

/// Relies on sha2's `Sha256` through `Digest::digest`: the digest is a pure
/// function of the input bytes and is exactly 32 bytes long.
#[verifier::external_body]
fn sha256_digest(bytes: &Vec<u8>) -> (r: Vec<u8>)
    ensures
        r@ == strong_of(bytes@),
        r@.len() == 32,
{
    sha2::Sha256::digest(bytes.as_slice()).to_vec()
}

/// Relies on adler32's `RollingAdler32::from_buffer` and `hash`: the
/// checksum is a pure function of the input bytes.
#[verifier::external_body]
fn adler32_hash(bytes: &Vec<u8>) -> (r: u32)
    ensures
        r == weak_of(bytes@),
{
    adler32::RollingAdler32::from_buffer(bytes.as_slice()).hash()
}

/// The whole-file digest of `path` in `fs`: `None` if no file is there.
pub open spec fn file_digest_spec(fs: FsTree, path: Seq<Seq<u8>>) -> Option<Seq<u8>> {
    if fs.is_file(path) {
        Some(strong_of(fs.content_of(path)))
    } else {
        None
    }
}

/// Computes the strong and weak digests used by the sync protocol.
pub struct Hasher {}

impl Hasher {
    /// The strong digest of a byte buffer: 32 bytes, a pure function of the
    /// input.
    pub fn compute_strong_byte_hash(&self, bytes: &Vec<u8>) -> (r: Vec<u8>)
        ensures
            r@ == strong_of(bytes@),
            r@.len() == 32,
    {
        sha256_digest(bytes)
    }

    /// The weak rolling checksum of a byte buffer: a pure function of the
    /// input, used only as a fast pre-filter before the strong digest.
    pub fn compute_weak_byte_hash(&self, bytes: &Vec<u8>) -> (r: u32)
        ensures
            r == weak_of(bytes@),
    {
        adler32_hash(bytes)
    }

    /// The whole-file digest of `path` in the filesystem model.
    ///
    /// `Ok(None)` when nothing exists at the path; `Err` when something is
    /// there but is not a readable file (a directory); otherwise the strong
    /// digest of the file's full content.
    pub fn compute_file_hash(&self, fs: &FsTree, path: &Vec<Vec<u8>>) -> (r: Result<
        Option<Vec<u8>>,
        FsError,
    >)
        requires
            fs.wf(),
        ensures
            (r matches Ok(d) && d is Some) <==> fs.is_file(path.deep_view()),
            (r matches Ok(d) && d is None) <==> !fs.has(path.deep_view()),
            r is Err <==> fs.is_dir(path.deep_view()),
            r matches Ok(Some(digest)) ==> Some(digest@) == file_digest_spec(
                *fs,
                path.deep_view(),
            ) && digest@.len() == 32,
    {
        match fs.read_file(path) {
            Some(content) => Ok(Some(sha256_digest(content))),
            None => {
                if fs.contains(path) {
                    Err(FsError::IsADirectory)
                } else {
                    Ok(None)
                }
            },
        }
    }
}

/// The whole-file digest is deterministic: as long as a file's content is
/// unchanged, repeated digests of it are equal, whatever else changed
/// around it.
pub proof fn lemma_whole_file_digest_deterministic(
    fs1: FsTree,
    fs2: FsTree,
    path: Seq<Seq<u8>>,
)
    requires
        fs1.is_file(path),
        fs2.is_file(path),
        fs1.content_of(path) == fs2.content_of(path),
    ensures
        file_digest_spec(fs1, path) == file_digest_spec(fs2, path),
        file_digest_spec(fs1, path) is Some,
{
}

} // verus!
