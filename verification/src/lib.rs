//! A chunked network-buffer allocator.
//!
//! An [`Arena`] carves equally sized chunk slots out of slabs of bytes and
//! hands them out through a stack of free [`ChunkToken`]s. A [`NetBuf`] strings
//! chunks together into a first-in, first-out byte queue that is filled with
//! `write` and drained into a [`NetWriter`] with `write_to`, keeping exact
//! account of short writes.
//!
//! The arena is an owned value: each operation that reaches into the pool
//! takes it by reference, and a slot goes back to the pool through an explicit
//! release. A chunk or a buffer that is dropped without one keeps its slots
//! occupied; the bytes stay with the arena either way.
//!
//! Every type has a mathematical view, and the contracts are stated over
//! these: [`ArenaView`] for the pool, [`ChunkView`] for a chunk,
//! [`NetBufView`] for a buffer. The module `laws` collects what follows for
//! rows of operations.

pub mod arena;
pub mod arena_proofs;
pub mod buf;
pub mod buf_proofs;
pub mod chunk;
pub mod laws;
pub mod writer;

pub use arena::{Arena, ArenaCtl, ArenaView, ChunkToken, Releasable};
pub use buf::{NetBuf, NetBufView};
pub use chunk::{Chunk, ChunkView};
pub use writer::{NetWriter, PartialResult};
