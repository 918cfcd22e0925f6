//! Byte layout of the chunk boundary tags.
//!
//! Every chunk is described by a fixed-width *header* written at its start and
//! a duplicate *footer* (the boundary tag) written immediately after its
//! payload.  All integers are little-endian `u64`; the allocation flag is a
//! single byte, `1` for allocated and `0` for free.
//!
//! Centralising the encode/decode here keeps all byte-level reasoning in one
//! reviewable place; the offset arithmetic lives with [`crate::chunk::Chunk`].

use vstd::prelude::*;

verus! {

use vstd::bytes::lemma_auto_spec_u64_to_from_le_bytes;
use vstd::bytes::spec_u64_from_le_bytes;
use vstd::bytes::spec_u64_to_le_bytes;
use vstd::bytes::u64_from_le_bytes;
use vstd::bytes::u64_to_le_bytes;
use vstd::slice::slice_index_get;
use vstd::slice::slice_subrange;

/// Size in bytes of an encoded header: `data_size`, `allocated`, `prev_free`,
/// `next_free`.
pub const CHUNK_HEADER_SIZE: u64 = 25;

/// Size in bytes of an encoded footer: `data_size`, `allocated`.
pub const CHUNK_FOOTER_SIZE: u64 = 9;

/// Total boundary-tag overhead of one chunk: header plus footer.
pub const CHUNK_OVERHEAD: u64 = 34;

/// The metadata written at the start of a chunk.  `prev_free` and `next_free`
/// are device offsets of the chunk's free-list neighbours; `0` is the
/// sentinel "no link".  They are meaningful only while the chunk is free and
/// are stale once it is allocated.
#[derive(Clone, Copy, Debug, PartialEq, Eq, Structural)]
pub struct ChunkHeader {
    pub data_size: u64,
    pub allocated: bool,
    pub prev_free: u64,
    pub next_free: u64,
}

/// The duplicate boundary tag written immediately after a chunk's payload,
/// enabling backward address-order traversal without an index.
#[derive(Clone, Copy, Debug, PartialEq, Eq, Structural)]
pub struct ChunkFooter {
    pub data_size: u64,
    pub allocated: bool,
}

/// The byte that encodes an allocation flag.
pub open spec fn spec_alloc_byte(allocated: bool) -> u8 {
    if allocated {
        1
    } else {
        0
    }
}

/// The 25 bytes that encode a header.
pub open spec fn spec_header_bytes(h: ChunkHeader) -> Seq<u8> {
    spec_u64_to_le_bytes(h.data_size) + seq![spec_alloc_byte(h.allocated)]
        + spec_u64_to_le_bytes(h.prev_free) + spec_u64_to_le_bytes(h.next_free)
}

/// The 9 bytes that encode a footer.
pub open spec fn spec_footer_bytes(f: ChunkFooter) -> Seq<u8> {
    spec_u64_to_le_bytes(f.data_size) + seq![spec_alloc_byte(f.allocated)]
}

/// The header that 25 bytes decode to.
pub open spec fn spec_decode_header(s: Seq<u8>) -> ChunkHeader {
    ChunkHeader {
        data_size: spec_u64_from_le_bytes(s.subrange(0, 8)),
        allocated: s[8] == 1,
        prev_free: spec_u64_from_le_bytes(s.subrange(9, 17)),
        next_free: spec_u64_from_le_bytes(s.subrange(17, 25)),
    }
}

/// The footer that 9 bytes decode to.
pub open spec fn spec_decode_footer(s: Seq<u8>) -> ChunkFooter {
    ChunkFooter {
        data_size: spec_u64_from_le_bytes(s.subrange(0, 8)),
        allocated: s[8] == 1,
    }
}

/// Encoding a header and decoding the bytes again reproduces every field.
pub proof fn lemma_header_round_trip(h: ChunkHeader)
    ensures
        spec_header_bytes(h).len() == CHUNK_HEADER_SIZE,
        spec_decode_header(spec_header_bytes(h)) == h,
{
    lemma_auto_spec_u64_to_from_le_bytes();
    let s = spec_header_bytes(h);
    assert(s.subrange(0, 8) =~= spec_u64_to_le_bytes(h.data_size));
    assert(s[8] == spec_alloc_byte(h.allocated));
    assert(s.subrange(9, 17) =~= spec_u64_to_le_bytes(h.prev_free));
    assert(s.subrange(17, 25) =~= spec_u64_to_le_bytes(h.next_free));
}

/// Encoding a footer and decoding the bytes again reproduces every field.
pub proof fn lemma_footer_round_trip(f: ChunkFooter)
    ensures
        spec_footer_bytes(f).len() == CHUNK_FOOTER_SIZE,
        spec_decode_footer(spec_footer_bytes(f)) == f,
{
    lemma_auto_spec_u64_to_from_le_bytes();
    let s = spec_footer_bytes(f);
    assert(s.subrange(0, 8) =~= spec_u64_to_le_bytes(f.data_size));
    assert(s[8] == spec_alloc_byte(f.allocated));
}

impl ChunkHeader {
    /// Serialises the header into its 25-byte on-device form.
    pub fn dump(&self) -> (out: Vec<u8>)
        ensures
            out@ == spec_header_bytes(*self),
            out@.len() == CHUNK_HEADER_SIZE,
    {
        let mut out = u64_to_le_bytes(self.data_size);
        out.push(if self.allocated {
            1u8
        } else {
            0u8
        });
        let mut prev = u64_to_le_bytes(self.prev_free);
        out.append(&mut prev);
        let mut next = u64_to_le_bytes(self.next_free);
        out.append(&mut next);
        proof {
            assert(out@ =~= spec_header_bytes(*self));
            lemma_header_round_trip(*self);
        }
        out
    }

    /// Deserialises a header from its 25-byte on-device form.
    pub fn load(bytes: &[u8]) -> (h: ChunkHeader)
        requires
            bytes@.len() == CHUNK_HEADER_SIZE,
        ensures
            h == spec_decode_header(bytes@),
    {
        let data_size = u64_from_le_bytes(slice_subrange(bytes, 0, 8));
        let allocated = *slice_index_get(bytes, 8) == 1;
        let prev_free = u64_from_le_bytes(slice_subrange(bytes, 9, 17));
        let next_free = u64_from_le_bytes(slice_subrange(bytes, 17, 25));
        ChunkHeader { data_size, allocated, prev_free, next_free }
    }
}

impl ChunkFooter {
    /// Serialises the footer into its 9-byte on-device form.
    pub fn dump(&self) -> (out: Vec<u8>)
        ensures
            out@ == spec_footer_bytes(*self),
            out@.len() == CHUNK_FOOTER_SIZE,
    {
        let mut out = u64_to_le_bytes(self.data_size);
        out.push(if self.allocated {
            1u8
        } else {
            0u8
        });
        proof {
            assert(out@ =~= spec_footer_bytes(*self));
            lemma_footer_round_trip(*self);
        }
        out
    }

    /// Deserialises a footer from its 9-byte on-device form.
    pub fn load(bytes: &[u8]) -> (f: ChunkFooter)
        requires
            bytes@.len() == CHUNK_FOOTER_SIZE,
        ensures
            f == spec_decode_footer(bytes@),
    {
        let data_size = u64_from_le_bytes(slice_subrange(bytes, 0, 8));
        let allocated = *slice_index_get(bytes, 8) == 1;
        ChunkFooter { data_size, allocated }
    }
}

} // verus!
