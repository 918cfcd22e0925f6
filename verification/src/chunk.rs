//! The chunk codec: boundary tags at device offsets, physical-neighbour
//! discovery, and free-list editing.
//!
//! A [`Chunk`] is an ephemeral in-memory projection of the metadata stored at
//! a device offset.  It is created by decoding bytes read from the device and
//! discarded once a logical step completes; the device is the only persistent
//! store.  All offset arithmetic is centralised here, stated over the spec
//! model of the device contents.

use vstd::prelude::*;

verus! {

use crate::device::DeviceError;
use crate::device::StorageDevice;
use crate::layout::CHUNK_FOOTER_SIZE;
use crate::layout::CHUNK_HEADER_SIZE;
use crate::layout::CHUNK_OVERHEAD;
use crate::layout::ChunkFooter;
use crate::layout::ChunkHeader;
use crate::layout::lemma_header_round_trip;
use crate::layout::spec_decode_footer;
use crate::layout::spec_decode_header;
use crate::layout::spec_footer_bytes;
use crate::layout::spec_header_bytes;

/// A contiguous byte range managed by the allocator, described by the header
/// stored at `offset`.  The offset is the chunk's sole identity.
#[derive(Clone, Copy, Debug, PartialEq, Eq, Structural)]
pub struct Chunk {
    pub offset: u64,
    pub header: ChunkHeader,
}

/// The device offset at which a chunk's footer begins: right after the
/// payload.
pub open spec fn spec_footer_offset(c: Chunk) -> int {
    c.offset + CHUNK_HEADER_SIZE + c.header.data_size
}

/// The device offset one past a chunk's last byte: where its address-order
/// successor would begin.
pub open spec fn spec_chunk_end(c: Chunk) -> int {
    c.offset + CHUNK_OVERHEAD + c.header.data_size
}

/// The chunk's byte range lies inside the accessible region of a device with
/// the given lower bound and size.
pub open spec fn chunk_in_range(c: Chunk, lower: u64, len: int) -> bool {
    &&& lower <= c.offset
    &&& spec_chunk_end(c) <= len
}

/// The footer a chunk's header calls for.
pub open spec fn spec_footer_of(c: Chunk) -> ChunkFooter {
    ChunkFooter { data_size: c.header.data_size, allocated: c.header.allocated }
}

/// Both boundary tags of `c` stand, correctly encoded, at their device
/// offsets in `contents`.
pub open spec fn stored_at(contents: Seq<u8>, c: Chunk) -> bool {
    &&& spec_chunk_end(c) <= contents.len()
    &&& contents.subrange(c.offset as int, c.offset + CHUNK_HEADER_SIZE) == spec_header_bytes(
        c.header,
    )
    &&& contents.subrange(spec_footer_offset(c), spec_chunk_end(c)) == spec_footer_bytes(
        spec_footer_of(c),
    )
}

/// The chunk whose header bytes stand at `offset` in `contents`.
pub open spec fn spec_decode_chunk(contents: Seq<u8>, offset: u64) -> Chunk {
    Chunk {
        offset,
        header: spec_decode_header(
            contents.subrange(offset as int, offset + CHUNK_HEADER_SIZE),
        ),
    }
}

/// Byte position `i` lies in one of the two boundary-tag ranges of `c`.
pub open spec fn in_tag_range(c: Chunk, i: int) -> bool {
    ||| c.offset <= i < c.offset + CHUNK_HEADER_SIZE
    ||| spec_footer_offset(c) <= i < spec_chunk_end(c)
}

/// A chunk stored on a device decodes back to exactly the same value: dumping
/// and loading at the same offset reproduces `data_size`, `allocated`,
/// `prev_free` and `next_free`.
pub proof fn lemma_stored_chunk_decodes(contents: Seq<u8>, c: Chunk)
    requires
        stored_at(contents, c),
    ensures
        spec_decode_chunk(contents, c.offset) == c,
{
    lemma_header_round_trip(c.header);
}

/// The two chunks' byte spans do not overlap.
pub open spec fn spans_disjoint(a: Chunk, b: Chunk) -> bool {
    spec_chunk_end(a) <= b.offset || spec_chunk_end(b) <= a.offset
}

/// The chunk whose header stands at `offset` in `contents`, with its forward
/// free-list link replaced: the value a splice writes back for the previous
/// list neighbour.
pub open spec fn spec_with_next_link(contents: Seq<u8>, offset: u64, next: u64) -> Chunk {
    Chunk {
        offset,
        header: ChunkHeader {
            next_free: next,
            ..spec_decode_chunk(contents, offset).header
        },
    }
}

/// The chunk whose header stands at `offset` in `contents`, with its backward
/// free-list link replaced: the value a splice writes back for the next list
/// neighbour.
pub open spec fn spec_with_prev_link(contents: Seq<u8>, offset: u64, prev: u64) -> Chunk {
    Chunk {
        offset,
        header: ChunkHeader {
            prev_free: prev,
            ..spec_decode_chunk(contents, offset).header
        },
    }
}

/// A stored chunk stays stored across an update that only touches the tag
/// ranges of a chunk whose span does not overlap its own.
pub proof fn lemma_stored_at_untouched(pre: Seq<u8>, post: Seq<u8>, kept: Chunk, written: Chunk)
    requires
        stored_at(pre, kept),
        post.len() == pre.len(),
        forall|i: int| 0 <= i < pre.len() && !in_tag_range(written, i) ==> post[i] == pre[i],
        spans_disjoint(kept, written),
    ensures
        stored_at(post, kept),
{
    assert(post.subrange(kept.offset as int, kept.offset + CHUNK_HEADER_SIZE)
        =~= spec_header_bytes(kept.header));
    assert(post.subrange(spec_footer_offset(kept), spec_chunk_end(kept)) =~= spec_footer_bytes(
        spec_footer_of(kept),
    ));
}

impl Chunk {
    /// Builds an in-memory chunk value; nothing is read or written.
    pub fn new(offset: u64, data_size: u64, allocated: bool, prev_free: u64, next_free: u64) -> (c: Chunk)
        ensures
            c == (Chunk {
                offset,
                header: ChunkHeader { data_size, allocated, prev_free, next_free },
            }),
    {
        Chunk { offset, header: ChunkHeader { data_size, allocated, prev_free, next_free } }
    }

    /// Whether the chunk is in use by a caller (`true`) or available for
    /// allocation (`false`).
    pub fn allocated(&self) -> (r: bool)
        ensures
            r == self.header.allocated,
    {
        self.header.allocated
    }

    /// The device offset of the chunk's header: its identity.
    pub fn offset(&self) -> (r: u64)
        ensures
            r == self.offset,
    {
        self.offset
    }

    /// The device offset of the chunk's payload, right after the header.
    pub fn data_offset(&self) -> (r: u64)
        requires
            self.offset + CHUNK_HEADER_SIZE <= u64::MAX,
        ensures
            r == self.offset + CHUNK_HEADER_SIZE,
    {
        self.offset + CHUNK_HEADER_SIZE
    }

    /// The length in bytes of the chunk's payload, excluding both tags.
    pub fn data_size(&self) -> (r: u64)
        ensures
            r == self.header.data_size,
    {
        self.header.data_size
    }

    /// The offset of the free-list predecessor, `0` for "no link".
    pub fn prev_free(&self) -> (r: u64)
        ensures
            r == self.header.prev_free,
    {
        self.header.prev_free
    }

    /// The offset of the free-list successor, `0` for "no link".
    pub fn next_free(&self) -> (r: u64)
        ensures
            r == self.header.next_free,
    {
        self.header.next_free
    }

    /// Reads and decodes the header at `offset`.  Fails with `InvalidOffset`
    /// when the header range lies outside the accessible range, when the read
    /// is short, or when the decoded `data_size` would let the chunk run past
    /// the end of the device.
    pub fn load_from_device<D: StorageDevice>(device: &D, offset: u64) -> (r: Result<Chunk, DeviceError>)
        requires
            device.inv(),
        ensures
            match r {
                Ok(c) => {
                    &&& c == spec_decode_chunk(device.contents(), offset)
                    &&& c.offset == offset
                    &&& chunk_in_range(c, device.lower(), device.contents().len() as int)
                },
                Err(_) => true,
            },
            offset < device.lower() || offset + CHUNK_HEADER_SIZE > device.contents().len()
                ==> r is Err,
            spec_chunk_end(spec_decode_chunk(device.contents(), offset)) > device.contents().len()
                ==> r is Err,
    {
        let (lower, size) = device.access_range();
        if offset < lower {
            return Err(DeviceError::InvalidOffset);
        }
        if offset > size || size - offset < CHUNK_HEADER_SIZE {
            return Err(DeviceError::InvalidOffset);
        }
        let mut buf: Vec<u8> = vec![0u8; CHUNK_HEADER_SIZE as usize];
        let n = match device.read_at(offset, &mut buf) {
            Ok(n) => n,
            Err(e) => { return Err(e) },
        };
        if n < CHUNK_HEADER_SIZE as usize {
            return Err(DeviceError::InvalidOffset);
        }
        let header = ChunkHeader::load(buf.as_slice());
        if size - offset < CHUNK_OVERHEAD || header.data_size > size - offset - CHUNK_OVERHEAD {
            return Err(DeviceError::InvalidOffset);
        }
        proof {
            assert(buf@ =~= device.contents().subrange(
                offset as int,
                offset + CHUNK_HEADER_SIZE,
            ));
        }
        Ok(Chunk { offset, header })
    }

    /// Writes the chunk's header at `offset` and its footer right after the
    /// payload.  On success both tags stand on the device and every byte
    /// outside the two tag ranges is unchanged.  Fails with `InvalidOffset`,
    /// writing nothing, when the chunk's range does not fit the accessible
    /// range.
    pub fn dump_to_device<D: StorageDevice>(&self, device: &mut D) -> (r: Result<(), DeviceError>)
        requires
            old(device).inv(),
        ensures
            final(device).inv(),
            final(device).lower() == old(device).lower(),
            final(device).contents().len() == old(device).contents().len(),
            !chunk_in_range(*self, old(device).lower(), old(device).contents().len() as int)
                ==> r is Err && final(device).contents() == old(device).contents(),
            match r {
                Ok(()) => {
                    &&& chunk_in_range(
                        *self,
                        old(device).lower(),
                        old(device).contents().len() as int,
                    )
                    &&& stored_at(final(device).contents(), *self)
                    &&& forall|i: int|
                        0 <= i < old(device).contents().len() && !in_tag_range(*self, i)
                            ==> final(device).contents()[i] == old(device).contents()[i]
                },
                Err(_) => true,
            },
    {
        let (lower, size) = device.access_range();
        if self.offset < lower || self.offset > size || size - self.offset < CHUNK_OVERHEAD
            || self.header.data_size > size - self.offset - CHUNK_OVERHEAD {
            return Err(DeviceError::InvalidOffset);
        }
        let hbytes = self.header.dump();
        match device.write_at(self.offset, hbytes.as_slice()) {
            Ok(_) => {},
            Err(e) => { return Err(e) },
        }
        let footer = ChunkFooter {
            data_size: self.header.data_size,
            allocated: self.header.allocated,
        };
        let fbytes = footer.dump();
        let foff = self.offset + CHUNK_HEADER_SIZE + self.header.data_size;
        match device.write_at(foff, fbytes.as_slice()) {
            Ok(_) => {},
            Err(e) => { return Err(e) },
        }
        proof {
            assert(device.contents().subrange(
                self.offset as int,
                self.offset + CHUNK_HEADER_SIZE,
            ) =~= spec_header_bytes(self.header));
            assert(device.contents().subrange(spec_footer_offset(*self), spec_chunk_end(*self))
                =~= spec_footer_bytes(spec_footer_of(*self)));
        }
        Ok(())
    }

    /// Loads the chunk whose header begins right after this chunk's footer:
    /// the unconditional address-order successor, free or not.  At the end of
    /// the device there is no successor and the load fails with
    /// `InvalidOffset`.
    pub fn next_physical<D: StorageDevice>(&self, device: &D) -> (r: Result<Chunk, DeviceError>)
        requires
            device.inv(),
        ensures
            match r {
                Ok(c) => {
                    &&& chunk_in_range(*self, device.lower(), device.contents().len() as int)
                    &&& c.offset == spec_chunk_end(*self)
                    &&& c == spec_decode_chunk(device.contents(), c.offset)
                    &&& chunk_in_range(c, device.lower(), device.contents().len() as int)
                },
                Err(_) => true,
            },
    {
        let (lower, size) = device.access_range();
        if self.offset < lower || self.offset > size || size - self.offset < CHUNK_OVERHEAD
            || self.header.data_size > size - self.offset - CHUNK_OVERHEAD {
            return Err(DeviceError::InvalidOffset);
        }
        let next_offset = self.offset + CHUNK_OVERHEAD + self.header.data_size;
        Self::load_from_device(device, next_offset)
    }

    /// Reads the footer that ends right before this chunk's header, computes
    /// the address-order predecessor's offset from its `data_size`, and loads
    /// that chunk, free or not.  Returns `None` when there is no room for any
    /// chunk below this one: this chunk is the first on the device.  No
    /// sentinel footer exists before the first chunk, so the case is detected
    /// from the accessible range's lower bound.
    pub fn prev_physical<D: StorageDevice>(&self, device: &D) -> (r: Result<Option<Chunk>, DeviceError>)
        requires
            device.inv(),
        ensures
            match r {
                Ok(opt) => match opt {
                    None => self.offset < device.lower() + CHUNK_OVERHEAD,
                    Some(p) => {
                        let f = spec_decode_footer(
                            device.contents().subrange(
                                self.offset - CHUNK_FOOTER_SIZE,
                                self.offset as int,
                            ),
                        );
                        &&& device.lower() + CHUNK_OVERHEAD <= self.offset
                        &&& self.offset <= device.contents().len()
                        &&& f.data_size <= self.offset - device.lower() - CHUNK_OVERHEAD
                        &&& p.offset == self.offset - CHUNK_OVERHEAD - f.data_size
                        &&& p == spec_decode_chunk(device.contents(), p.offset)
                        &&& chunk_in_range(p, device.lower(), device.contents().len() as int)
                    },
                },
                Err(_) => true,
            },
    {
        let (lower, size) = device.access_range();
        if self.offset < lower {
            return Err(DeviceError::InvalidOffset);
        }
        if self.offset - lower < CHUNK_OVERHEAD {
            return Ok(None);
        }
        if self.offset > size {
            return Err(DeviceError::InvalidOffset);
        }
        let footer_offset = self.offset - CHUNK_FOOTER_SIZE;
        let mut buf: Vec<u8> = vec![0u8; CHUNK_FOOTER_SIZE as usize];
        let n = match device.read_at(footer_offset, &mut buf) {
            Ok(n) => n,
            Err(e) => { return Err(e) },
        };
        if n < CHUNK_FOOTER_SIZE as usize {
            return Err(DeviceError::InvalidOffset);
        }
        let footer = ChunkFooter::load(buf.as_slice());
        if footer.data_size > self.offset - lower - CHUNK_OVERHEAD {
            return Err(DeviceError::InvalidOffset);
        }
        let prev_offset = self.offset - CHUNK_OVERHEAD - footer.data_size;
        proof {
            assert(buf@ =~= device.contents().subrange(
                self.offset - CHUNK_FOOTER_SIZE,
                self.offset as int,
            ));
        }
        match Self::load_from_device(device, prev_offset) {
            Ok(p) => Ok(Some(p)),
            Err(e) => Err(e),
        }
    }

    /// Discovers the coalescing candidates around this chunk: the
    /// address-order predecessor and successor, each reported only when it is
    /// free.  A chunk that ends exactly at the device's end has no successor.
    pub fn unallocated_neighbours<D: StorageDevice>(&self, device: &D) -> (r: Result<(Option<Chunk>, Option<Chunk>), DeviceError>)
        requires
            device.inv(),
        ensures
            match r {
                Ok((p, n)) => {
                    &&& match p {
                        Some(c) => {
                            &&& !c.header.allocated
                            &&& c == spec_decode_chunk(device.contents(), c.offset)
                            &&& chunk_in_range(c, device.lower(), device.contents().len() as int)
                            &&& c.offset < self.offset
                        },
                        // no free predecessor is reported only when this is
                        // the first chunk or the chunk the boundary tag below
                        // announces is allocated
                        None => self.offset < device.lower() + CHUNK_OVERHEAD
                            || spec_decode_chunk(
                            device.contents(),
                            (self.offset - CHUNK_OVERHEAD - spec_decode_footer(
                                device.contents().subrange(
                                    self.offset - CHUNK_FOOTER_SIZE,
                                    self.offset as int,
                                ),
                            ).data_size) as u64,
                        ).header.allocated,
                    }
                    &&& match n {
                        Some(c) => {
                            &&& !c.header.allocated
                            &&& c.offset == spec_chunk_end(*self)
                            &&& c == spec_decode_chunk(device.contents(), c.offset)
                            &&& chunk_in_range(c, device.lower(), device.contents().len() as int)
                        },
                        // no free successor is reported only at the device
                        // end or when the address-order successor is
                        // allocated
                        None => spec_chunk_end(*self) == device.contents().len()
                            || spec_decode_chunk(
                            device.contents(),
                            spec_chunk_end(*self) as u64,
                        ).header.allocated,
                    }
                },
                Err(_) => true,
            },
    {
        let (lower, size) = device.access_range();
        if self.offset < lower || self.offset > size || size - self.offset < CHUNK_OVERHEAD
            || self.header.data_size > size - self.offset - CHUNK_OVERHEAD {
            return Err(DeviceError::InvalidOffset);
        }
        let prev = match self.prev_physical(device) {
            Ok(p) => p,
            Err(e) => { return Err(e) },
        };
        let prev_candidate = match prev {
            Some(c) => if c.allocated() {
                None
            } else {
                Some(c)
            },
            None => None,
        };
        let end = self.offset + CHUNK_OVERHEAD + self.header.data_size;
        let next_candidate = if end == size {
            None
        } else {
            let c = match self.next_physical(device) {
                Ok(c) => c,
                Err(e) => { return Err(e) },
            };
            if c.allocated() {
                None
            } else {
                Some(c)
            }
        };
        Ok((prev_candidate, next_candidate))
    }

    /// Splices this chunk out of the doubly linked free list by rewriting its
    /// neighbours' opposite pointers (skipping the load when a pointer is the
    /// `0` sentinel), marks the chunk allocated, and persists every modified
    /// chunk — up to three writes, both neighbours read before anything is
    /// written and this chunk's own tags written last.  The chunk's link
    /// fields are left as they were: they are stale once it is allocated.
    ///
    /// On success the splice is visible in the contract: each nonzero
    /// neighbour now stores its opposite pointer rerouted past this chunk,
    /// provided its span does not overlap the ranges written later, and every
    /// byte outside the three rewritten chunks' tag ranges is unchanged.
    pub fn remove_from_freelist<D: StorageDevice>(&mut self, device: &mut D) -> (r: Result<(), DeviceError>)
        requires
            old(device).inv(),
        ensures
            final(device).inv(),
            final(device).lower() == old(device).lower(),
            final(device).contents().len() == old(device).contents().len(),
            final(self).offset == old(self).offset,
            final(self).header.data_size == old(self).header.data_size,
            final(self).header.prev_free == old(self).header.prev_free,
            final(self).header.next_free == old(self).header.next_free,
            match r {
                Ok(()) => {
                    let pre = old(device).contents();
                    let post = final(device).contents();
                    let bypass_prev = spec_with_next_link(
                        pre,
                        old(self).header.prev_free,
                        old(self).header.next_free,
                    );
                    let bypass_next = spec_with_prev_link(
                        pre,
                        old(self).header.next_free,
                        old(self).header.prev_free,
                    );
                    &&& final(self).header.allocated
                    &&& stored_at(post, *final(self))
                    &&& chunk_in_range(
                        *final(self),
                        old(device).lower(),
                        old(device).contents().len() as int,
                    )
                    // the previous neighbour's forward pointer bypasses this
                    // chunk
                    &&& (old(self).header.prev_free != 0 && spans_disjoint(
                        bypass_prev,
                        *old(self),
                    ) && (old(self).header.next_free == 0 || spans_disjoint(
                        bypass_prev,
                        bypass_next,
                    )) ==> stored_at(post, bypass_prev))
                    // the next neighbour's backward pointer bypasses this
                    // chunk
                    &&& (old(self).header.next_free != 0 && spans_disjoint(
                        bypass_next,
                        *old(self),
                    ) ==> stored_at(post, bypass_next))
                    // nothing outside the three rewritten chunks' tags moved
                    &&& forall|i: int|
                        0 <= i < pre.len() && !in_tag_range(*old(self), i) && !(old(
                            self,
                        ).header.prev_free != 0 && in_tag_range(bypass_prev, i)) && !(old(
                            self,
                        ).header.next_free != 0 && in_tag_range(bypass_next, i)) ==> post[i]
                            == pre[i]
                },
                Err(_) => true,
            },
    {
        let prev = if self.header.prev_free != 0 {
            match Self::load_from_device(device, self.header.prev_free) {
                Ok(c) => Some(c),
                Err(e) => { return Err(e) },
            }
        } else {
            None
        };
        let next = if self.header.next_free != 0 {
            match Self::load_from_device(device, self.header.next_free) {
                Ok(c) => Some(c),
                Err(e) => { return Err(e) },
            }
        } else {
            None
        };
        let ghost c0 = device.contents();
        let ghost bypass_prev = spec_with_next_link(
            c0,
            self.header.prev_free,
            self.header.next_free,
        );
        let ghost bypass_next = spec_with_prev_link(
            c0,
            self.header.next_free,
            self.header.prev_free,
        );
        if let Some(mut p) = prev {
            p.header.next_free = self.header.next_free;
            proof {
                assert(p == bypass_prev);
            }
            match p.dump_to_device(device) {
                Ok(()) => {},
                Err(e) => { return Err(e) },
            }
        }
        let ghost c1 = device.contents();
        if let Some(mut n) = next {
            n.header.prev_free = self.header.prev_free;
            proof {
                assert(n == bypass_next);
            }
            match n.dump_to_device(device) {
                Ok(()) => {},
                Err(e) => { return Err(e) },
            }
        }
        let ghost c2 = device.contents();
        self.header.allocated = true;
        match self.dump_to_device(device) {
            Ok(()) => {},
            Err(e) => { return Err(e) },
        }
        proof {
            let post = device.contents();
            if self.header.prev_free != 0 && spans_disjoint(bypass_prev, *self) && (
            self.header.next_free == 0 || spans_disjoint(bypass_prev, bypass_next)) {
                if self.header.next_free != 0 {
                    lemma_stored_at_untouched(c1, c2, bypass_prev, bypass_next);
                }
                lemma_stored_at_untouched(c2, post, bypass_prev, *self);
            }
            if self.header.next_free != 0 && spans_disjoint(bypass_next, *self) {
                lemma_stored_at_untouched(c2, post, bypass_next, *self);
            }
            assert forall|i: int|
                0 <= i < c0.len() && !in_tag_range(*old(self), i) && !(old(
                    self,
                ).header.prev_free != 0 && in_tag_range(bypass_prev, i)) && !(old(
                    self,
                ).header.next_free != 0 && in_tag_range(bypass_next, i)) implies post[i]
                == c0[i] by {
                assert(c1[i] == c0[i]);
                assert(c2[i] == c1[i]);
                assert(!in_tag_range(*self, i));
                assert(post[i] == c2[i]);
            }
        }
        Ok(())
    }

    /// Merges `second`, which must immediately follow `first` in address
    /// order, into `first`: removes `second` from the free list, grows
    /// `first`'s payload by `second`'s payload plus the reclaimed boundary-tag
    /// overhead, and persists the merged chunk's header and relocated footer.
    /// The merged chunk spans exactly the two original chunks, so its
    /// physical neighbours are the pair's outward neighbours; its free-list
    /// links are `first`'s, rerouted around `second` where a link pointed at
    /// it.
    pub fn coalesce_two<D: StorageDevice>(first: Chunk, second: Chunk, device: &mut D) -> (r: Result<Chunk, CoalesceError>)
        requires
            old(device).inv(),
        ensures
            final(device).inv(),
            final(device).lower() == old(device).lower(),
            final(device).contents().len() == old(device).contents().len(),
            first.header.allocated || second.header.allocated <==> r == Err::<Chunk, CoalesceError>(
                CoalesceError::Allocated,
            ),
            r == Err::<Chunk, CoalesceError>(CoalesceError::Allocated)
                ==> final(device).contents() == old(device).contents(),
            r == Err::<Chunk, CoalesceError>(CoalesceError::NotAdjacent) ==> !first.header.allocated
                && !second.header.allocated && spec_chunk_end(first) != second.offset
                && final(device).contents() == old(device).contents(),
            (!first.header.allocated && !second.header.allocated && chunk_in_range(
                first,
                old(device).lower(),
                old(device).contents().len() as int,
            ) && chunk_in_range(second, old(device).lower(), old(device).contents().len() as int)
                && spec_chunk_end(first) != second.offset) ==> r == Err::<Chunk, CoalesceError>(
                CoalesceError::NotAdjacent,
            ) && final(device).contents() == old(device).contents(),
            match r {
                Ok(m) => {
                    &&& !first.header.allocated
                    &&& !second.header.allocated
                    &&& spec_chunk_end(first) == second.offset
                    &&& m.offset == first.offset
                    &&& !m.header.allocated
                    &&& m.header.data_size == first.header.data_size + CHUNK_OVERHEAD
                        + second.header.data_size
                    &&& m.header.prev_free == (if second.header.next_free == first.offset {
                        second.header.prev_free
                    } else {
                        first.header.prev_free
                    })
                    &&& m.header.next_free == (if second.header.prev_free == first.offset {
                        second.header.next_free
                    } else {
                        first.header.next_free
                    })
                    &&& spec_chunk_end(m) == spec_chunk_end(second)
                    &&& stored_at(final(device).contents(), m)
                    // the splice is visible: each of the removed chunk's
                    // nonzero list neighbours now stores its opposite pointer
                    // rerouted past it — in particular, when the pair were
                    // list neighbours too, the outward neighbour's back
                    // pointer now points at the merged chunk — provided its
                    // span does not overlap what is written later
                    &&& {
                        let pre = old(device).contents();
                        let post = final(device).contents();
                        let bypass_prev = spec_with_next_link(
                            pre,
                            second.header.prev_free,
                            second.header.next_free,
                        );
                        let bypass_next = spec_with_prev_link(
                            pre,
                            second.header.next_free,
                            second.header.prev_free,
                        );
                        &&& (second.header.prev_free != 0 && spans_disjoint(bypass_prev, m) && (
                        second.header.next_free == 0 || spans_disjoint(bypass_prev, bypass_next))
                            ==> stored_at(post, bypass_prev))
                        &&& (second.header.next_free != 0 && spans_disjoint(bypass_next, m)
                            ==> stored_at(post, bypass_next))
                        // nothing outside the merged region and the two
                        // rewritten neighbours' tags moved
                        &&& forall|i: int|
                            0 <= i < pre.len() && !(m.offset <= i < spec_chunk_end(m)) && !(
                            second.header.prev_free != 0 && in_tag_range(bypass_prev, i)) && !(
                            second.header.next_free != 0 && in_tag_range(bypass_next, i))
                                ==> post[i] == pre[i]
                    }
                },
                Err(_) => true,
            },
    {
        if first.header.allocated || second.header.allocated {
            return Err(CoalesceError::Allocated);
        }
        let (lower, size) = device.access_range();
        if first.offset < lower || first.offset > size || size - first.offset < CHUNK_OVERHEAD
            || first.header.data_size > size - first.offset - CHUNK_OVERHEAD {
            return Err(CoalesceError::Device(DeviceError::InvalidOffset));
        }
        if second.offset < lower || second.offset > size || size - second.offset < CHUNK_OVERHEAD
            || second.header.data_size > size - second.offset - CHUNK_OVERHEAD {
            return Err(CoalesceError::Device(DeviceError::InvalidOffset));
        }
        if second.offset < first.offset || second.offset - first.offset < CHUNK_OVERHEAD
            || first.header.data_size != second.offset - first.offset - CHUNK_OVERHEAD {
            return Err(CoalesceError::NotAdjacent);
        }
        let ghost pre = device.contents();
        let ghost bypass_prev = spec_with_next_link(
            pre,
            second.header.prev_free,
            second.header.next_free,
        );
        let ghost bypass_next = spec_with_prev_link(
            pre,
            second.header.next_free,
            second.header.prev_free,
        );
        let mut removed = second;
        match removed.remove_from_freelist(device) {
            Ok(()) => {},
            Err(e) => { return Err(CoalesceError::Device(e)) },
        }
        let ghost mid = device.contents();
        // keep first's links, but where one of them pointed at the removed
        // chunk, follow the splice around it
        let merged_prev = if second.header.next_free == first.offset {
            second.header.prev_free
        } else {
            first.header.prev_free
        };
        let merged_next = if second.header.prev_free == first.offset {
            second.header.next_free
        } else {
            first.header.next_free
        };
        let merged = Chunk {
            offset: first.offset,
            header: ChunkHeader {
                data_size: first.header.data_size + CHUNK_OVERHEAD + second.header.data_size,
                allocated: false,
                prev_free: merged_prev,
                next_free: merged_next,
            },
        };
        match merged.dump_to_device(device) {
            Ok(()) => {},
            Err(e) => { return Err(CoalesceError::Device(e)) },
        }
        proof {
            let post = device.contents();
            if second.header.prev_free != 0 && spans_disjoint(bypass_prev, merged) && (
            second.header.next_free == 0 || spans_disjoint(bypass_prev, bypass_next)) {
                assert(spans_disjoint(bypass_prev, second));
                assert(stored_at(mid, bypass_prev));
                lemma_stored_at_untouched(mid, post, bypass_prev, merged);
            }
            if second.header.next_free != 0 && spans_disjoint(bypass_next, merged) {
                assert(spans_disjoint(bypass_next, second));
                assert(stored_at(mid, bypass_next));
                lemma_stored_at_untouched(mid, post, bypass_next, merged);
            }
            assert forall|i: int|
                0 <= i < pre.len() && !(merged.offset <= i < spec_chunk_end(merged)) && !(
                second.header.prev_free != 0 && in_tag_range(bypass_prev, i)) && !(
                second.header.next_free != 0 && in_tag_range(bypass_next, i)) implies post[i]
                == pre[i] by {
                assert(!in_tag_range(second, i));
                assert(mid[i] == pre[i]);
                assert(!in_tag_range(merged, i));
                assert(post[i] == mid[i]);
            }
        }
        Ok(merged)
    }

    /// Merges three chunks that are physically adjacent in the order given,
    /// by coalescing twice.  The first merge can rewrite the third chunk's
    /// header while splicing the free list, so the third chunk is re-read
    /// before the second merge and checked against the value given: a third
    /// chunk whose stored size or allocation no longer matches is rejected as
    /// `NotAdjacent`.
    pub fn coalesce_three<D: StorageDevice>(first: Chunk, second: Chunk, third: Chunk, device: &mut D) -> (r: Result<Chunk, CoalesceError>)
        requires
            old(device).inv(),
        ensures
            final(device).inv(),
            final(device).lower() == old(device).lower(),
            final(device).contents().len() == old(device).contents().len(),
            match r {
                Ok(m) => {
                    &&& !first.header.allocated
                    &&& !second.header.allocated
                    &&& !third.header.allocated
                    &&& spec_chunk_end(first) == second.offset
                    &&& spec_chunk_end(second) == third.offset
                    &&& m.offset == first.offset
                    &&& !m.header.allocated
                    &&& m.header.data_size == first.header.data_size + CHUNK_OVERHEAD
                        + second.header.data_size + CHUNK_OVERHEAD + third.header.data_size
                    &&& spec_chunk_end(m) == spec_chunk_end(third)
                    &&& stored_at(final(device).contents(), m)
                },
                Err(_) => true,
            },
    {
        if third.header.allocated {
            return Err(CoalesceError::Allocated);
        }
        let merged = match Self::coalesce_two(first, second, device) {
            Ok(m) => m,
            Err(e) => { return Err(e) },
        };
        let third_now = match Self::load_from_device(device, third.offset) {
            Ok(c) => c,
            Err(e) => { return Err(CoalesceError::Device(e)) },
        };
        if third_now.header.data_size != third.header.data_size || third_now.header.allocated {
            return Err(CoalesceError::NotAdjacent);
        }
        Self::coalesce_two(merged, third_now, device)
    }

    /// Views this chunk as the head of a free-list traversal.
    pub fn as_freelist(&self) -> (r: FreeList)
        ensures
            r.head == *self,
    {
        FreeList::new(*self)
    }
}

/// An error from a coalescing step: one of the chunks is allocated, the two
/// are not physically adjacent, or the device failed underneath.
#[derive(Clone, Copy, Debug, PartialEq, Eq, Structural)]
pub enum CoalesceError {
    Allocated,
    NotAdjacent,
    Device(DeviceError),
}

/// A lazy, restartable, bidirectional traversal of the free list, stepping
/// through the `next_free`/`prev_free` links stored in chunk headers.  A link
/// equal to `0` ends the traversal.  No cycle detection is performed here;
/// the heap bounds its own scans instead.
#[derive(Clone, Copy, Debug)]
pub struct FreeList {
    pub head: Chunk,
}

impl FreeList {
    /// Starts a traversal at `chunk`.
    pub fn new(chunk: Chunk) -> (r: FreeList)
        ensures
            r.head == chunk,
    {
        FreeList { head: chunk }
    }

    /// The chunk this traversal currently stands on.
    pub fn head(&self) -> (r: &Chunk)
        ensures
            *r == self.head,
    {
        &self.head
    }

    /// Steps forward along `next_free`.  Returns `None` at the list end; a
    /// chunk that fails to load ends the traversal with that error surfaced
    /// once.
    pub fn next<D: StorageDevice>(&self, device: &D) -> (r: Option<Result<FreeList, DeviceError>>)
        requires
            device.inv(),
        ensures
            r is None <==> self.head.header.next_free == 0,
            match r {
                Some(Ok(fl)) => {
                    &&& fl.head == spec_decode_chunk(
                        device.contents(),
                        self.head.header.next_free,
                    )
                    &&& chunk_in_range(fl.head, device.lower(), device.contents().len() as int)
                },
                _ => true,
            },
    {
        if self.head.header.next_free == 0 {
            None
        } else {
            match Chunk::load_from_device(device, self.head.header.next_free) {
                Ok(c) => Some(Ok(FreeList::new(c))),
                Err(e) => Some(Err(e)),
            }
        }
    }

    /// Steps backward along `prev_free`, symmetrically to [`Self::next`].
    pub fn next_back<D: StorageDevice>(&self, device: &D) -> (r: Option<Result<FreeList, DeviceError>>)
        requires
            device.inv(),
        ensures
            r is None <==> self.head.header.prev_free == 0,
            match r {
                Some(Ok(fl)) => {
                    &&& fl.head == spec_decode_chunk(
                        device.contents(),
                        self.head.header.prev_free,
                    )
                    &&& chunk_in_range(fl.head, device.lower(), device.contents().len() as int)
                },
                _ => true,
            },
    {
        if self.head.header.prev_free == 0 {
            None
        } else {
            match Chunk::load_from_device(device, self.head.header.prev_free) {
                Ok(c) => Some(Ok(FreeList::new(c))),
                Err(e) => Some(Err(e)),
            }
        }
    }
}

/// `offs` lists, in order, the offsets of a consistent doubly linked free
/// list as stored in `contents`: every entry decodes to a free, in-range
/// chunk whose `prev_free` points at the previous entry (`0` at the front)
/// and whose `next_free` points at the next entry (`0` at the back).
pub open spec fn is_free_chain(contents: Seq<u8>, lower: u64, offs: Seq<u64>) -> bool {
    forall|i: int|
        0 <= i < offs.len() ==> {
            let c = spec_decode_chunk(contents, #[trigger] offs[i]);
            &&& offs[i] != 0
            &&& chunk_in_range(c, lower, contents.len() as int)
            &&& !c.header.allocated
            &&& c.header.prev_free == (if i == 0 {
                0
            } else {
                offs[i - 1]
            })
            &&& c.header.next_free == (if i == offs.len() - 1 {
                0
            } else {
                offs[i + 1]
            })
        }
}

/// The offsets visited by following `next_free` links from `off`, for at
/// most `fuel` steps, stopping at the `0` sentinel.
pub open spec fn fwd_walk(contents: Seq<u8>, off: u64, fuel: nat) -> Seq<u64>
    decreases fuel,
{
    if off == 0 || fuel == 0 {
        Seq::empty()
    } else {
        seq![off] + fwd_walk(
            contents,
            spec_decode_chunk(contents, off).header.next_free,
            (fuel - 1) as nat,
        )
    }
}

/// The offsets visited by following `prev_free` links from `off`, for at
/// most `fuel` steps, stopping at the `0` sentinel.
pub open spec fn bwd_walk(contents: Seq<u8>, off: u64, fuel: nat) -> Seq<u64>
    decreases fuel,
{
    if off == 0 || fuel == 0 {
        Seq::empty()
    } else {
        seq![off] + bwd_walk(
            contents,
            spec_decode_chunk(contents, off).header.prev_free,
            (fuel - 1) as nat,
        )
    }
}

/// Forward traversal from position `i` of a chain visits exactly the
/// remaining entries.
proof fn lemma_fwd_walk_from(contents: Seq<u8>, lower: u64, offs: Seq<u64>, i: int)
    requires
        is_free_chain(contents, lower, offs),
        0 <= i < offs.len(),
    ensures
        fwd_walk(contents, offs[i], (offs.len() - i) as nat) == offs.subrange(i, offs.len() as int),
    decreases offs.len() - i,
{
    let tail = fwd_walk(
        contents,
        spec_decode_chunk(contents, offs[i]).header.next_free,
        (offs.len() - i - 1) as nat,
    );
    if i == offs.len() - 1 {
        assert(spec_decode_chunk(contents, offs[i]).header.next_free == 0);
        assert(fwd_walk(contents, offs[i], (offs.len() - i) as nat) =~= offs.subrange(
            i,
            offs.len() as int,
        ));
    } else {
        lemma_fwd_walk_from(contents, lower, offs, i + 1);
        assert(spec_decode_chunk(contents, offs[i]).header.next_free == offs[i + 1]);
        assert(fwd_walk(contents, offs[i], (offs.len() - i) as nat) =~= offs.subrange(
            i,
            offs.len() as int,
        ));
    }
}

/// Backward traversal from position `i` of a chain visits exactly the
/// entries up to it, last first.
#[verifier::rlimit(50)]
proof fn lemma_bwd_walk_from(contents: Seq<u8>, lower: u64, offs: Seq<u64>, i: int)
    requires
        is_free_chain(contents, lower, offs),
        0 <= i < offs.len(),
    ensures
        bwd_walk(contents, offs[i], (i + 1) as nat) == offs.subrange(0, i + 1).reverse(),
    decreases i,
{
    if i == 0 {
        assert(spec_decode_chunk(contents, offs[0]).header.prev_free == 0);
        assert(bwd_walk(contents, 0, 0) == Seq::<u64>::empty());
        assert(bwd_walk(contents, offs[0], 1) == seq![offs[0]] + bwd_walk(contents, 0, 0));
        assert(bwd_walk(contents, offs[0], 1) =~= offs.subrange(0, 1).reverse());
    } else {
        lemma_bwd_walk_from(contents, lower, offs, i - 1);
        assert(spec_decode_chunk(contents, offs[i]).header.prev_free == offs[i - 1]);
        assert(bwd_walk(contents, offs[i], (i + 1) as nat) =~= offs.subrange(0, i + 1).reverse());
    }
}

/// List symmetry: on a consistent doubly linked free list, following
/// `next_free` from the head to the end visits the list's offsets in order,
/// and following `prev_free` from that end visits the same offsets in
/// reverse order.  The fuel equals the list's length: both walks terminate
/// exactly at the `0` sentinel.
pub proof fn lemma_chain_walk_symmetry(contents: Seq<u8>, lower: u64, offs: Seq<u64>)
    requires
        is_free_chain(contents, lower, offs),
        0 < offs.len(),
    ensures
        fwd_walk(contents, offs[0], offs.len() as nat) == offs,
        bwd_walk(contents, offs[offs.len() - 1], offs.len() as nat) == offs.reverse(),
{
    lemma_fwd_walk_from(contents, lower, offs, 0);
    assert(offs.subrange(0, offs.len() as int) =~= offs);
    lemma_bwd_walk_from(contents, lower, offs, offs.len() - 1);
}

/// A cursor over the free list that yields each visited chunk, starting with
/// the chunk it was created on.  A decode failure is surfaced once and ends
/// the iteration.
#[derive(Clone, Copy, Debug)]
pub struct FreeListIterator {
    pub current: FreeList,
    pub failed: bool,
    pub first: bool,
}

impl FreeListIterator {
    /// Starts an iteration that will yield `list`'s head first.
    pub fn new(list: FreeList) -> (r: FreeListIterator)
        ensures
            r.current == list,
            !r.failed,
            r.first,
    {
        FreeListIterator { current: list, failed: false, first: true }
    }

    /// Yields the next chunk in forward (`next_free`) order.
    pub fn next<D: StorageDevice>(&mut self, device: &D) -> (r: Option<Result<Chunk, DeviceError>>)
        requires
            device.inv(),
        ensures
            old(self).failed ==> r is None && *final(self) == *old(self),
            !old(self).failed && old(self).first ==> r == Some(
                Result::<Chunk, DeviceError>::Ok(old(self).current.head),
            ) && !final(self).first && final(self).current == old(self).current,
            !old(self).failed && !old(self).first && old(self).current.head.header.next_free == 0
                ==> r is None,
            // while the link is nonzero the iterator advances: it yields the
            // decode of the chunk the link points at, or surfaces the load
            // failure, never silently stopping
            !old(self).failed && !old(self).first && old(self).current.head.header.next_free != 0
                ==> match r {
                    Some(Ok(c)) => c == spec_decode_chunk(
                        device.contents(),
                        old(self).current.head.header.next_free,
                    ),
                    Some(Err(_)) => true,
                    None => false,
                },
            match r {
                Some(Ok(c)) => !final(self).failed && final(self).current.head == c,
                Some(Err(_)) => final(self).failed,
                None => true,
            },
    {
        if self.failed {
            None
        } else if self.first {
            self.first = false;
            Some(Ok(self.current.head))
        } else {
            match self.current.next(device) {
                Some(Ok(fl)) => {
                    self.current = fl;
                    Some(Ok(self.current.head))
                },
                Some(Err(e)) => {
                    self.failed = true;
                    Some(Err(e))
                },
                None => None,
            }
        }
    }

    /// Yields the next chunk in backward (`prev_free`) order.
    pub fn next_back<D: StorageDevice>(&mut self, device: &D) -> (r: Option<Result<Chunk, DeviceError>>)
        requires
            device.inv(),
        ensures
            old(self).failed ==> r is None && *final(self) == *old(self),
            !old(self).failed && old(self).first ==> r == Some(
                Result::<Chunk, DeviceError>::Ok(old(self).current.head),
            ) && !final(self).first && final(self).current == old(self).current,
            !old(self).failed && !old(self).first && old(self).current.head.header.prev_free == 0
                ==> r is None,
            // while the link is nonzero the iterator advances: it yields the
            // decode of the chunk the link points at, or surfaces the load
            // failure, never silently stopping
            !old(self).failed && !old(self).first && old(self).current.head.header.prev_free != 0
                ==> match r {
                    Some(Ok(c)) => c == spec_decode_chunk(
                        device.contents(),
                        old(self).current.head.header.prev_free,
                    ),
                    Some(Err(_)) => true,
                    None => false,
                },
            match r {
                Some(Ok(c)) => !final(self).failed && final(self).current.head == c,
                Some(Err(_)) => final(self).failed,
                None => true,
            },
    {
        if self.failed {
            None
        } else if self.first {
            self.first = false;
            Some(Ok(self.current.head))
        } else {
            match self.current.next_back(device) {
                Some(Ok(fl)) => {
                    self.current = fl;
                    Some(Ok(self.current.head))
                },
                Some(Err(e)) => {
                    self.failed = true;
                    Some(Err(e))
                },
                None => None,
            }
        }
    }
}

/// A cursor over chunks adjacent in address order, used to discover
/// coalescing candidates.  It is allocation-state aware: iteration stops the
/// moment an allocated chunk (or the device boundary) is reached, since
/// allocated regions are never coalesce candidates.
#[derive(Clone, Copy, Debug)]
pub struct FreeNeighbourIterator {
    pub current: Chunk,
    pub failed: bool,
}

impl FreeNeighbourIterator {
    /// Starts address-order iteration from `chunk`, which is not itself
    /// yielded.
    pub fn new(chunk: Chunk) -> (r: FreeNeighbourIterator)
        ensures
            r.current == chunk,
            !r.failed,
    {
        FreeNeighbourIterator { current: chunk, failed: false }
    }

    /// Yields the next free chunk in ascending address order, or `None` at
    /// the first allocated chunk or device boundary.
    pub fn next<D: StorageDevice>(&mut self, device: &D) -> (r: Option<Result<Chunk, DeviceError>>)
        requires
            device.inv(),
        ensures
            old(self).failed ==> r is None && *final(self) == *old(self),
            match r {
                Some(Ok(c)) => {
                    &&& !c.header.allocated
                    &&& c.offset == spec_chunk_end(old(self).current)
                    &&& c == spec_decode_chunk(device.contents(), c.offset)
                    &&& final(self).current == c
                },
                Some(Err(_)) => final(self).failed,
                // iteration ends only after a failure, at the device end, or
                // at an allocated successor
                None => old(self).failed || spec_chunk_end(old(self).current)
                    == device.contents().len() || spec_decode_chunk(
                    device.contents(),
                    spec_chunk_end(old(self).current) as u64,
                ).header.allocated,
            },
    {
        if self.failed {
            return None;
        }
        let (_, size) = device.access_range();
        let c = self.current;
        if c.offset <= size && size - c.offset >= CHUNK_OVERHEAD && c.header.data_size
            <= size - c.offset - CHUNK_OVERHEAD {
            let end = c.offset + CHUNK_OVERHEAD + c.header.data_size;
            if end == size {
                return None;
            }
        }
        match self.current.next_physical(device) {
            Ok(c) => {
                if c.allocated() {
                    None
                } else {
                    self.current = c;
                    Some(Ok(c))
                }
            },
            Err(e) => {
                self.failed = true;
                Some(Err(e))
            },
        }
    }

    /// Yields the next free chunk in descending address order, or `None` at
    /// the first allocated chunk or the start of the accessible range.
    pub fn next_back<D: StorageDevice>(&mut self, device: &D) -> (r: Option<Result<Chunk, DeviceError>>)
        requires
            device.inv(),
        ensures
            old(self).failed ==> r is None && *final(self) == *old(self),
            match r {
                Some(Ok(c)) => {
                    &&& !c.header.allocated
                    &&& device.lower() + CHUNK_OVERHEAD <= old(self).current.offset
                    // the yielded chunk is the one the boundary tag right
                    // below announces
                    &&& c.offset == old(self).current.offset - CHUNK_OVERHEAD - spec_decode_footer(
                        device.contents().subrange(
                            old(self).current.offset - CHUNK_FOOTER_SIZE,
                            old(self).current.offset as int,
                        ),
                    ).data_size
                    &&& c == spec_decode_chunk(device.contents(), c.offset)
                    &&& final(self).current == c
                },
                Some(Err(_)) => final(self).failed,
                // iteration ends only after a failure, below the first
                // possible chunk, or at an allocated predecessor
                None => old(self).failed || old(self).current.offset < device.lower()
                    + CHUNK_OVERHEAD || spec_decode_chunk(
                    device.contents(),
                    (old(self).current.offset - CHUNK_OVERHEAD - spec_decode_footer(
                        device.contents().subrange(
                            old(self).current.offset - CHUNK_FOOTER_SIZE,
                            old(self).current.offset as int,
                        ),
                    ).data_size) as u64,
                ).header.allocated,
            },
    {
        if self.failed {
            return None;
        }
        match self.current.prev_physical(device) {
            Ok(Some(c)) => {
                if c.allocated() {
                    None
                } else {
                    self.current = c;
                    Some(Ok(c))
                }
            },
            Ok(None) => None,
            Err(e) => {
                self.failed = true;
                Some(Err(e))
            },
        }
    }
}

} // verus!
