//! A persistent, on-device dynamic memory allocator built on boundary tags.
//!
//! The allocator manages variable-size byte ranges directly on a
//! block-addressable storage device, with no in-memory index: every piece of
//! allocator metadata is interleaved with the data it manages.  Each managed
//! range (a *chunk*) carries a fixed-width header at its start and a duplicate
//! boundary tag (a *footer*) at its end, which makes address-order neighbour
//! discovery possible without any auxiliary structure.  Free chunks are
//! additionally threaded into a doubly linked free list through offset fields
//! stored in their headers.
//!
//! The crate also provides the plain block-buffer types used when payloads are
//! split into equal-size blocks before being handed to an external codec.

pub mod blocks;
pub mod buffers;
pub mod chunk;
pub mod device;
pub mod heap;
pub mod layout;
