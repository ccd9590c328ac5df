//! A content-addressed snapshot backup engine.
//!
//! Byte streams and directory listings are chunked, hashed, encrypted
//! and written as Merkle trees of blobs held by a pluggable store
//! ([`backend`]); committed snapshots are projected back out as a
//! browsable, readable filesystem ([`vfs`], [`fuse`]).
//!
//! - [`models`]: the persisted data model and its ghost mirrors.
//! - [`codec`]: the binary framing of that model, with round-trip proofs.
//! - [`backend`]: the blob store contract and the in-memory store.
//! - [`crypto`]: the trusted hashing, AEAD and compression interface.
//! - [`tree`]: hash-tree write and read paths and the leaf iterator.
//! - [`family`]: directory listings and the snapshot roster as trees.
//! - [`fs`]: the streaming positional file reader.
//! - [`vfs`]: path listing over snapshots.
//! - [`fuse`]: the mount adapter core: inodes, handles and reads.
//! - [`cmd`]: the verified half of the spawned-process store.

pub mod backend;
pub mod cmd;
pub mod codec;
pub mod crypto;
pub mod family;
pub mod fs;
pub mod fuse;
pub mod models;
pub mod tree;
pub mod vfs;

pub use models::FileName;
