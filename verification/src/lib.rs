//! Content-addressable directory synchronization: structural reconciliation,
//! block-level checksum negotiation, and a streamed upload protocol, modeled
//! over an in-memory filesystem tree.
//!
//! Paths are sanitized component lists confined to a server root
//! ([`paths`]); the server's tree is the model in [`fs_model`]; content
//! equality is decided by the digests of [`hashing`] over the blocks of
//! [`chunker`]; [`index`] remembers each path's last-known digest to enable
//! copy-instead-of-transfer; [`sync`] holds the directory sync server, and
//! [`upload`] the streamed transfer protocol. The shell around the library
//! performs the real file and network I/O and mirrors the model's decisions.

mod bytes;
pub mod chunker;
pub mod config;
pub mod fs_model;
pub mod hashing;
pub mod index;
pub mod metadata;
pub mod paths;
pub mod sync;
pub mod upload;
