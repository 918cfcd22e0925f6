//! The allocator proper: first-fit allocation with chunk splitting, and
//! freeing with mandatory boundary coalescing.
//!
//! A [`Heap`] owns exclusive access to a storage device and one chunk offset
//! acting as the free-list root.  Every operation is a bounded, synchronous
//! sequence of device reads and writes; nothing is retried and no failure is
//! swallowed.  Operations are not atomic across writes: a device failure in
//! the middle of an operation leaves the device as far as the operation got,
//! and the contracts below promise nothing about the contents in that case
//! beyond the device's size and accessible range.

use vstd::prelude::*;

verus! {

use crate::chunk::Chunk;
use crate::chunk::chunk_in_range;
use crate::chunk::is_free_chain;
use crate::chunk::in_tag_range;
use crate::chunk::lemma_stored_at_untouched;
use crate::chunk::lemma_stored_chunk_decodes;
use crate::chunk::spans_disjoint;
use crate::chunk::spec_chunk_end;
use crate::chunk::spec_decode_chunk;
use crate::chunk::spec_with_next_link;
use crate::chunk::spec_with_prev_link;
use crate::chunk::stored_at;
use crate::device::DeviceError;
use crate::device::StorageDevice;
use crate::layout::CHUNK_FOOTER_SIZE;
use crate::layout::CHUNK_HEADER_SIZE;
use crate::layout::CHUNK_OVERHEAD;
use crate::layout::lemma_header_round_trip;
use crate::layout::spec_decode_footer;

/// An error from a heap operation.  Device failures are wrapped unchanged;
/// `NotEnoughSpace` is the logical failure of an allocation no free chunk can
/// satisfy; `DoubleFree` rejects freeing a chunk that is not allocated;
/// `Corrupt` reports metadata that contradicts itself: a free-list pointer
/// that fails to decode, an allocated chunk threaded on the free list, a
/// boundary tag that disagrees with the header it duplicates, or a scan
/// longer than any well-formed list can be.
#[derive(Clone, Copy, Debug, PartialEq, Eq, Structural)]
pub enum HeapError {
    DeviceError(DeviceError),
    NotEnoughSpace,
    DoubleFree,
    Corrupt,
}

/// The free-list scan stands at position `j` of the chain `offs`: `current`
/// is the offset it will visit next (`0` past the end), and every chunk
/// already visited was too small for the request.
#[verifier::opaque]
spec fn scan_position(contents: Seq<u8>, offs: Seq<u64>, j: int, current: u64, size: u64) -> bool {
    &&& 0 <= j <= offs.len()
    &&& current == (if j < offs.len() {
        offs[j]
    } else {
        0u64
    })
    &&& forall|i: int|
        0 <= i < j ==> (#[trigger] spec_decode_chunk(contents, offs[i])).header.data_size < size
}

/// The scan is at the front of every chain that starts at `current`.
proof fn lemma_scan_init(contents: Seq<u8>, lower: u64, current: u64, size: u64)
    ensures
        forall|offs: Seq<u64>|
            #[trigger] is_free_chain(contents, lower, offs) && 0 < offs.len() && offs[0]
                == current ==> exists|j: int| scan_position(contents, offs, j, current, size),
{
    reveal(scan_position);
    assert forall|offs: Seq<u64>|
        #[trigger] is_free_chain(contents, lower, offs) && 0 < offs.len() && offs[0]
            == current implies exists|j: int|
        scan_position(contents, offs, j, current, size) by {
        assert(scan_position(contents, offs, 0, current, size));
    }
}

/// Visiting one more chunk that was too small moves the scan one position
/// forward on every chain.
#[verifier::rlimit(100)]
proof fn lemma_scan_step(
    contents: Seq<u8>,
    lower: u64,
    oroot: u64,
    visited: u64,
    next: u64,
    size: u64,
)
    requires
        forall|offs: Seq<u64>|
            #[trigger] is_free_chain(contents, lower, offs) && 0 < offs.len() && offs[0]
                == oroot ==> exists|j: int| scan_position(contents, offs, j, visited, size),
        visited != 0,
        spec_decode_chunk(contents, visited).header.data_size < size,
        next == spec_decode_chunk(contents, visited).header.next_free,
    ensures
        forall|offs: Seq<u64>|
            #[trigger] is_free_chain(contents, lower, offs) && 0 < offs.len() && offs[0]
                == oroot ==> exists|j: int| scan_position(contents, offs, j, next, size),
{
    reveal(scan_position);
    assert forall|offs: Seq<u64>|
        #[trigger] is_free_chain(contents, lower, offs) && 0 < offs.len() && offs[0]
            == oroot implies exists|j: int|
        scan_position(contents, offs, j, next, size) by {
        let j = choose|j: int| scan_position(contents, offs, j, visited, size);
        assert(j < offs.len() && visited == offs[j]);
        assert(spec_decode_chunk(contents, offs[j]).header.next_free == (if j == offs.len() - 1 {
            0u64
        } else {
            offs[j + 1]
        }));
        assert(scan_position(contents, offs, j + 1, next, size));
    }
}

/// A scan standing on a chunk has, on every chain, visited exactly the
/// entries before that chunk, and found each of them too small.
proof fn lemma_scan_found(contents: Seq<u8>, lower: u64, oroot: u64, current: u64, size: u64)
    requires
        forall|offs: Seq<u64>|
            #[trigger] is_free_chain(contents, lower, offs) && 0 < offs.len() && offs[0]
                == oroot ==> exists|j: int| scan_position(contents, offs, j, current, size),
        current != 0,
    ensures
        forall|offs: Seq<u64>|
            #[trigger] is_free_chain(contents, lower, offs) && 0 < offs.len() && offs[0]
                == oroot ==> exists|j: int|
                0 <= j < offs.len() && offs[j] == current && forall|i: int|
                    0 <= i < j ==> (#[trigger] spec_decode_chunk(
                        contents,
                        offs[i],
                    )).header.data_size < size,
{
    reveal(scan_position);
    assert forall|offs: Seq<u64>|
        #[trigger] is_free_chain(contents, lower, offs) && 0 < offs.len() && offs[0]
            == oroot implies exists|j: int|
        0 <= j < offs.len() && offs[j] == current && forall|i: int|
            0 <= i < j ==> (#[trigger] spec_decode_chunk(contents, offs[i])).header.data_size
                < size by {
        let j = choose|j: int| scan_position(contents, offs, j, current, size);
        assert(j < offs.len() && offs[j] == current && forall|i: int|
            0 <= i < j ==> (#[trigger] spec_decode_chunk(contents, offs[i])).header.data_size
                < size);
    }
}

/// A scan that ran off the `0` sentinel has visited every chunk of every
/// chain, and found each of them too small.
proof fn lemma_scan_done(contents: Seq<u8>, lower: u64, oroot: u64, size: u64)
    requires
        forall|offs: Seq<u64>|
            #[trigger] is_free_chain(contents, lower, offs) && 0 < offs.len() && offs[0]
                == oroot ==> exists|j: int| scan_position(contents, offs, j, 0u64, size),
    ensures
        forall|offs: Seq<u64>|
            #[trigger] is_free_chain(contents, lower, offs) && 0 < offs.len() && offs[0]
                == oroot ==> forall|i: int|
                0 <= i < offs.len() ==> (#[trigger] spec_decode_chunk(
                    contents,
                    offs[i],
                )).header.data_size < size,
{
    reveal(scan_position);
    assert forall|offs: Seq<u64>|
        #[trigger] is_free_chain(contents, lower, offs) && 0 < offs.len() && offs[0]
            == oroot implies forall|i: int|
        0 <= i < offs.len() ==> (#[trigger] spec_decode_chunk(contents, offs[i])).header.data_size
            < size by {
        let j = choose|j: int| scan_position(contents, offs, j, 0u64, size);
        assert(j == offs.len());
    }
}

/// Everything a successful allocation promises, relating the device
/// contents and free-list root before (`pre`, `root_pre`) and after (`post`,
/// `root_post`) to the requested `size` and the returned `data_offset`.
pub open spec fn allocate_post(
    pre: Seq<u8>,
    lower: u64,
    root_pre: u64,
    post: Seq<u8>,
    root_post: u64,
    size: u64,
    data_offset: u64,
) -> bool {
    let found = spec_decode_chunk(pre, (data_offset - CHUNK_HEADER_SIZE) as u64);
    let placed = spec_decode_chunk(post, (data_offset - CHUNK_HEADER_SIZE) as u64);
    &&& post.len() == pre.len()
    // a free chunk big enough stood at that offset
    &&& CHUNK_HEADER_SIZE <= data_offset
    &&& chunk_in_range(found, lower, pre.len() as int)
    &&& !found.header.allocated
    &&& size <= found.header.data_size
    // an allocated chunk of at least the requested size is durably stored
    // there now
    &&& stored_at(post, placed)
    &&& placed.header.allocated
    &&& size <= placed.header.data_size
    // the whole chunk is taken when the remainder cannot host a free chunk
    // of its own; otherwise exactly `size` is carved and the residual
    // inherits the found chunk's links
    &&& (found.header.data_size < size + CHUNK_OVERHEAD ==> placed.header.data_size
        == found.header.data_size)
    &&& (size + CHUNK_OVERHEAD <= found.header.data_size ==> {
        let residual = spec_decode_chunk(post, (data_offset + size + CHUNK_FOOTER_SIZE) as u64);
        &&& placed.header.data_size == size
        &&& stored_at(post, residual)
        &&& !residual.header.allocated
        &&& residual.header.data_size == found.header.data_size - size - CHUNK_OVERHEAD
        &&& residual.header.prev_free == found.header.prev_free
        &&& residual.header.next_free == found.header.next_free
    })
    // first fit: on every consistent chain starting at the root, the chunk
    // taken is the first whose payload holds the request
    &&& forall|offs: Seq<u64>|
        #[trigger] is_free_chain(pre, lower, offs) && 0 < offs.len() && offs[0] == root_pre
            ==> exists|j: int|
            0 <= j < offs.len() && offs[j] == data_offset - CHUNK_HEADER_SIZE && forall|i: int|
                0 <= i < j ==> (#[trigger] spec_decode_chunk(pre, offs[i])).header.data_size
                    < size
    // the splice is visible: each nonzero list neighbour of the found chunk
    // now stores its opposite pointer redirected — to the residual when the
    // chunk was split, past the chunk when it was taken whole — provided its
    // span does not overlap what is written later
    &&& {
        let forward_target = if size + CHUNK_OVERHEAD <= found.header.data_size {
            (data_offset + size + CHUNK_FOOTER_SIZE) as u64
        } else {
            found.header.next_free
        };
        let backward_target = if size + CHUNK_OVERHEAD <= found.header.data_size {
            (data_offset + size + CHUNK_FOOTER_SIZE) as u64
        } else {
            found.header.prev_free
        };
        let moved_prev = spec_with_next_link(pre, found.header.prev_free, forward_target);
        let moved_next = spec_with_prev_link(pre, found.header.next_free, backward_target);
        &&& (found.header.prev_free != 0 && spans_disjoint(moved_prev, found) && (
        found.header.next_free == 0 || spans_disjoint(moved_prev, moved_next)) ==> stored_at(
            post,
            moved_prev,
        ))
        &&& (found.header.next_free != 0 && spans_disjoint(moved_next, found) ==> stored_at(
            post,
            moved_next,
        ))
        // bytes outside the found chunk's region and its two list
        // neighbours' tags are unchanged: allocated payloads elsewhere are
        // intact
        &&& forall|i: int|
            0 <= i < pre.len() && !(found.offset <= i < spec_chunk_end(found)) && !(
            found.header.prev_free != 0 && in_tag_range(moved_prev, i)) && !(
            found.header.next_free != 0 && in_tag_range(moved_next, i)) ==> post[i] == pre[i]
    }
    // the root follows the found chunk out of the list: to its residual when
    // it was split, past it otherwise
    &&& (root_pre != data_offset - CHUNK_HEADER_SIZE ==> root_post == root_pre)
    &&& (root_pre == data_offset - CHUNK_HEADER_SIZE && found.header.data_size < size
        + CHUNK_OVERHEAD ==> root_post == found.header.next_free)
    &&& (root_pre == data_offset - CHUNK_HEADER_SIZE && size + CHUNK_OVERHEAD
        <= found.header.data_size ==> root_post == data_offset + size + CHUNK_FOOTER_SIZE)
}

/// Everything a successful free promises, relating the device contents and
/// free-list root before (`pre`, `root_pre`) and after (`post`, `root_post`)
/// to the freed payload `offset`.
pub open spec fn free_post(
    pre: Seq<u8>,
    lower: u64,
    post: Seq<u8>,
    root_post: u64,
    offset: u64,
) -> bool {
    let freed = spec_decode_chunk(pre, (offset - CHUNK_HEADER_SIZE) as u64);
    let merged = spec_decode_chunk(post, root_post);
    &&& post.len() == pre.len()
    // only an allocated chunk can be freed
    &&& CHUNK_HEADER_SIZE <= offset
    &&& freed.header.allocated
    &&& chunk_in_range(freed, lower, pre.len() as int)
    // a free chunk containing the freed one's span is durably stored at the
    // new free-list root, pushed at the front
    &&& stored_at(post, merged)
    &&& !merged.header.allocated
    &&& merged.header.prev_free == 0
    &&& merged.offset <= offset - CHUNK_HEADER_SIZE
    &&& spec_chunk_end(freed) <= spec_chunk_end(merged)
    &&& freed.header.data_size <= merged.header.data_size
    // the merged chunk ends where the freed chunk ended, or, when a free
    // successor stood right after it, where that successor ended
    &&& (spec_chunk_end(freed) == pre.len() || spec_decode_chunk(
        pre,
        spec_chunk_end(freed) as u64,
    ).header.allocated ==> spec_chunk_end(merged) == spec_chunk_end(freed))
    &&& (spec_chunk_end(freed) < pre.len() && !spec_decode_chunk(
        pre,
        spec_chunk_end(freed) as u64,
    ).header.allocated ==> spec_chunk_end(merged) == spec_chunk_end(
        spec_decode_chunk(pre, spec_chunk_end(freed) as u64),
    ))
    // push-front: when the merged chunk has a forward link, the chunk it
    // points at — the former list head — has its back pointer rewritten to
    // the merged chunk, provided its header lies outside the merged chunk's
    // range
    &&& (merged.header.next_free != 0 && (merged.header.next_free + CHUNK_HEADER_SIZE
        <= merged.offset || spec_chunk_end(merged) <= merged.header.next_free)
        ==> spec_decode_chunk(post, merged.header.next_free).header.prev_free == merged.offset)
    // the merged chunk begins at the freed chunk, unless a free predecessor
    // announced by the boundary tag right below it was absorbed
    &&& (offset - CHUNK_HEADER_SIZE < lower + CHUNK_OVERHEAD ==> merged.offset == offset
        - CHUNK_HEADER_SIZE)
    &&& {
        let below = spec_decode_footer(
            pre.subrange(
                offset - CHUNK_HEADER_SIZE - CHUNK_FOOTER_SIZE,
                (offset - CHUNK_HEADER_SIZE) as int,
            ),
        );
        merged.offset == offset - CHUNK_HEADER_SIZE || merged.offset == offset
            - CHUNK_HEADER_SIZE - CHUNK_OVERHEAD - below.data_size
    }
}

/// The allocator: a device under single-writer discipline and the offset of
/// the free-list root chunk (`0` for an empty free list).
pub struct Heap<D: StorageDevice> {
    device: D,
    root: u64,
}

impl<D: StorageDevice> Heap<D> {
    /// The heap's view of its device's bytes.
    pub closed spec fn contents(&self) -> Seq<u8> {
        self.device.contents()
    }

    /// The first offset at which a chunk may begin on the heap's device.
    pub closed spec fn lower(&self) -> u64 {
        self.device.lower()
    }

    /// The offset of the free-list root chunk, `0` when the list is empty.
    pub closed spec fn spec_root(&self) -> u64 {
        self.root
    }

    /// The heap is backed by a well-formed device.
    pub closed spec fn wf(&self) -> bool {
        self.device.inv()
    }

    /// Takes ownership of `device`, whose free-list root chunk begins at
    /// `root`.  The device is assumed to already contain at least one
    /// well-formed chunk; establishing the first chunk is a bootstrap concern
    /// outside the allocator.
    pub fn new(device: D, root: u64) -> (h: Heap<D>)
        requires
            device.inv(),
        ensures
            h.wf(),
            h.contents() == device.contents(),
            h.lower() == device.lower(),
            h.spec_root() == root,
    {
        Heap { device, root }
    }

    /// The current free-list root offset.
    pub fn root(&self) -> (r: u64)
        ensures
            r == self.spec_root(),
    {
        self.root
    }

    /// Read access to the underlying device.
    pub fn device(&self) -> (r: &D)
        requires
            self.wf(),
        ensures
            r.inv(),
            r.contents() == self.contents(),
            r.lower() == self.lower(),
    {
        &self.device
    }

    /// Splices `c` out of the doubly linked free list by rewriting its two
    /// list neighbours' opposite pointers, skipping the `0` sentinel, without
    /// touching `c`'s own tags.  Moves the root past `c` when the root
    /// pointed at it.  Both neighbours are read before either is written.
    fn splice_out(&mut self, c: &Chunk) -> (r: Result<(), HeapError>)
        requires
            old(self).wf(),
        ensures
            final(self).wf(),
            final(self).lower() == old(self).lower(),
            final(self).contents().len() == old(self).contents().len(),
            r != Err::<(), HeapError>(HeapError::DoubleFree),
    {
        let prev = if c.prev_free() != 0 {
            match Chunk::load_from_device(&self.device, c.prev_free()) {
                Ok(p) => Some(p),
                Err(e) => { return Err(HeapError::DeviceError(e)) },
            }
        } else {
            None
        };
        let next = if c.next_free() != 0 {
            match Chunk::load_from_device(&self.device, c.next_free()) {
                Ok(n) => Some(n),
                Err(e) => { return Err(HeapError::DeviceError(e)) },
            }
        } else {
            None
        };
        if let Some(mut p) = prev {
            p.header.next_free = c.next_free();
            match p.dump_to_device(&mut self.device) {
                Ok(()) => {},
                Err(e) => { return Err(HeapError::DeviceError(e)) },
            }
        }
        if let Some(mut n) = next {
            n.header.prev_free = c.prev_free();
            match n.dump_to_device(&mut self.device) {
                Ok(()) => {},
                Err(e) => { return Err(HeapError::DeviceError(e)) },
            }
        }
        if self.root == c.offset() {
            self.root = c.next_free();
        }
        Ok(())
    }

    /// Allocates `size` bytes: scans the free list from the root for the
    /// first chunk whose payload can hold `size` (first-fit, ties broken by
    /// list order), removes it from the list — splitting off a residual free
    /// chunk when the remainder can still host one — and returns the offset
    /// of the allocated payload.
    ///
    /// When no free chunk is large enough the result is `NotEnoughSpace` and
    /// the device is byte-for-byte unchanged.  A scan longer than any
    /// well-formed free list, a list pointer that fails to decode, or an
    /// allocated chunk threaded on the list is reported as `Corrupt`.
    #[verifier::rlimit(80)]
    pub fn allocate(&mut self, size: u64) -> (r: Result<u64, HeapError>)
        requires
            old(self).wf(),
        ensures
            final(self).wf(),
            final(self).lower() == old(self).lower(),
            final(self).contents().len() == old(self).contents().len(),
            r == Err::<u64, HeapError>(HeapError::NotEnoughSpace) ==> final(self).contents()
                == old(self).contents() && final(self).spec_root() == old(self).spec_root(),
            // corruption is detected before anything is written
            r == Err::<u64, HeapError>(HeapError::Corrupt) ==> final(self).contents() == old(
                self,
            ).contents() && final(self).spec_root() == old(self).spec_root(),
            // exhaustion is honest: when the scan reports that no chunk was
            // large enough, every chunk of the free list (any consistent
            // chain starting at the root) really has a smaller payload
            r == Err::<u64, HeapError>(HeapError::NotEnoughSpace) ==> forall|offs: Seq<u64>|
                #[trigger] is_free_chain(old(self).contents(), old(self).lower(), offs)
                    && 0 < offs.len() && offs[0] == old(self).spec_root() ==> forall|i: int|
                    0 <= i < offs.len() ==> (#[trigger] spec_decode_chunk(
                        old(self).contents(),
                        offs[i],
                    )).header.data_size < size,
            match r {
                Ok(data_offset) => allocate_post(
                    old(self).contents(),
                    old(self).lower(),
                    old(self).spec_root(),
                    final(self).contents(),
                    final(self).spec_root(),
                    size,
                    data_offset,
                ),
                Err(_) => true,
            },
    {
        let (_, device_size) = self.device.access_range();
        let mut fuel: u64 = device_size / CHUNK_OVERHEAD + 1;
        let mut current = self.root;
        let ghost ocont = self.contents();
        let ghost olower = self.lower();
        let ghost oroot = self.spec_root();
        proof {
            lemma_scan_init(ocont, olower, oroot, size);
        }
        while current != 0
            invariant
                *self == *old(self),
                self.wf(),
                ocont == old(self).contents(),
                olower == old(self).lower(),
                oroot == old(self).spec_root(),
                forall|offs: Seq<u64>|
                    #[trigger] is_free_chain(ocont, olower, offs) && 0 < offs.len() && offs[0]
                        == oroot ==> exists|j: int| scan_position(ocont, offs, j, current, size),
            decreases fuel,
        {
            if fuel == 0 {
                // longer than any well-formed free list: a cycle
                return Err(HeapError::Corrupt);
            }
            fuel = fuel - 1;
            let ghost visited = current;
            let c = match Chunk::load_from_device(&self.device, current) {
                Ok(c) => c,
                Err(DeviceError::InvalidOffset) => { return Err(HeapError::Corrupt) },
                Err(e) => { return Err(HeapError::DeviceError(e)) },
            };
            if c.allocated() {
                // an allocated chunk has no business on the free list
                return Err(HeapError::Corrupt);
            }
            if c.data_size() >= size {
                proof {
                    lemma_scan_found(ocont, olower, oroot, current, size);
                }
                return self.commit_allocation(c, size);
            }
            current = c.next_free();
            proof {
                lemma_scan_step(ocont, olower, oroot, visited, current, size);
            }
        }
        proof {
            lemma_scan_done(ocont, olower, oroot, size);
        }
        Err(HeapError::NotEnoughSpace)
    }

    /// Removes the found chunk from the free list and persists the allocated
    /// chunk (and the residual free chunk when the found chunk is split).
    fn commit_allocation(&mut self, c: Chunk, size: u64) -> (r: Result<u64, HeapError>)
        requires
            old(self).wf(),
            c == spec_decode_chunk(old(self).contents(), c.offset),
            chunk_in_range(c, old(self).lower(), old(self).contents().len() as int),
            !c.header.allocated,
            size <= c.header.data_size,
        ensures
            final(self).wf(),
            final(self).lower() == old(self).lower(),
            final(self).contents().len() == old(self).contents().len(),
            match r {
                Ok(data_offset) => {
                    let placed = spec_decode_chunk(
                        final(self).contents(),
                        (data_offset - CHUNK_HEADER_SIZE) as u64,
                    );
                    &&& data_offset == c.offset + CHUNK_HEADER_SIZE
                    &&& stored_at(final(self).contents(), placed)
                    &&& placed.header.allocated
                    &&& size <= placed.header.data_size
                    &&& (c.header.data_size < size + CHUNK_OVERHEAD ==> placed.header.data_size
                        == c.header.data_size)
                    &&& (size + CHUNK_OVERHEAD <= c.header.data_size ==> {
                        let residual = spec_decode_chunk(
                            final(self).contents(),
                            (data_offset + size + CHUNK_FOOTER_SIZE) as u64,
                        );
                        &&& placed.header.data_size == size
                        &&& stored_at(final(self).contents(), residual)
                        &&& !residual.header.allocated
                        &&& residual.header.data_size == c.header.data_size - size
                            - CHUNK_OVERHEAD
                        &&& residual.header.prev_free == c.header.prev_free
                        &&& residual.header.next_free == c.header.next_free
                    })
                    &&& {
                        let pre = old(self).contents();
                        let post = final(self).contents();
                        let forward_target = if size + CHUNK_OVERHEAD <= c.header.data_size {
                            (data_offset + size + CHUNK_FOOTER_SIZE) as u64
                        } else {
                            c.header.next_free
                        };
                        let backward_target = if size + CHUNK_OVERHEAD <= c.header.data_size {
                            (data_offset + size + CHUNK_FOOTER_SIZE) as u64
                        } else {
                            c.header.prev_free
                        };
                        let moved_prev = spec_with_next_link(
                            pre,
                            c.header.prev_free,
                            forward_target,
                        );
                        let moved_next = spec_with_prev_link(
                            pre,
                            c.header.next_free,
                            backward_target,
                        );
                        &&& (c.header.prev_free != 0 && spans_disjoint(moved_prev, c) && (
                        c.header.next_free == 0 || spans_disjoint(moved_prev, moved_next))
                            ==> stored_at(post, moved_prev))
                        &&& (c.header.next_free != 0 && spans_disjoint(moved_next, c)
                            ==> stored_at(post, moved_next))
                        &&& forall|i: int|
                            0 <= i < pre.len() && !(c.offset <= i < spec_chunk_end(c)) && !(
                            c.header.prev_free != 0 && in_tag_range(moved_prev, i)) && !(
                            c.header.next_free != 0 && in_tag_range(moved_next, i)) ==> post[i]
                                == pre[i]
                    }
                    &&& (old(self).spec_root() != c.offset
                        ==> final(self).spec_root() == old(self).spec_root())
                    &&& (old(self).spec_root() == c.offset && c.header.data_size < size
                        + CHUNK_OVERHEAD ==> final(self).spec_root() == c.header.next_free)
                    &&& (old(self).spec_root() == c.offset && size + CHUNK_OVERHEAD
                        <= c.header.data_size ==> final(self).spec_root() == data_offset + size
                        + CHUNK_FOOTER_SIZE)
                },
                Err(_) => true,
            },
            r != Err::<u64, HeapError>(HeapError::NotEnoughSpace),
            r == Err::<u64, HeapError>(HeapError::Corrupt) ==> final(self).contents() == old(
                self,
            ).contents() && final(self).spec_root() == old(self).spec_root(),
    {
        proof {
            self.device.lemma_inv();
        }
        let remainder = c.data_size() - size;
        if remainder < CHUNK_OVERHEAD {
            // exact fit, or a remainder too small to host a standalone free
            // chunk: the whole region is allocated and the excess becomes
            // internal padding
            let mut chosen = c;
            match chosen.remove_from_freelist(&mut self.device) {
                Ok(()) => {},
                Err(e) => { return Err(HeapError::DeviceError(e)) },
            }
            if self.root == c.offset() {
                self.root = c.next_free();
            }
            proof {
                lemma_stored_chunk_decodes(self.device.contents(), chosen);
                let pre = old(self).contents();
                let post = self.device.contents();
                let moved_prev = spec_with_next_link(pre, c.header.prev_free, c.header.next_free);
                let moved_next = spec_with_prev_link(pre, c.header.next_free, c.header.prev_free);
                assert forall|i: int|
                    0 <= i < pre.len() && !(c.offset <= i < spec_chunk_end(c)) && !(
                    c.header.prev_free != 0 && in_tag_range(moved_prev, i)) && !(
                    c.header.next_free != 0 && in_tag_range(moved_next, i)) implies post[i]
                    == pre[i] by {
                    assert(!in_tag_range(c, i));
                }
            }
            Ok(c.offset() + CHUNK_HEADER_SIZE)
        } else {
            // split: carve an allocated chunk of exactly `size` at the front;
            // the remainder becomes a residual free chunk that replaces the
            // found chunk in the list, inheriting its links
            let residual_offset = c.offset() + CHUNK_OVERHEAD + size;
            let residual = Chunk::new(
                residual_offset,
                remainder - CHUNK_OVERHEAD,
                false,
                c.prev_free(),
                c.next_free(),
            );
            // both list neighbours are read before anything is written
            let prev = if c.prev_free() != 0 {
                match Chunk::load_from_device(&self.device, c.prev_free()) {
                    Ok(p) => Some(p),
                    Err(DeviceError::InvalidOffset) => { return Err(HeapError::Corrupt) },
                    Err(e) => { return Err(HeapError::DeviceError(e)) },
                }
            } else {
                None
            };
            let next = if c.next_free() != 0 {
                match Chunk::load_from_device(&self.device, c.next_free()) {
                    Ok(n) => Some(n),
                    Err(DeviceError::InvalidOffset) => { return Err(HeapError::Corrupt) },
                    Err(e) => { return Err(HeapError::DeviceError(e)) },
                }
            } else {
                None
            };
            let ghost c0 = self.device.contents();
            let ghost moved_prev = spec_with_next_link(c0, c.header.prev_free, residual_offset);
            let ghost moved_next = spec_with_prev_link(c0, c.header.next_free, residual_offset);
            if let Some(mut p) = prev {
                p.header.next_free = residual_offset;
                proof {
                    assert(p == moved_prev);
                }
                match p.dump_to_device(&mut self.device) {
                    Ok(()) => {},
                    Err(e) => { return Err(HeapError::DeviceError(e)) },
                }
            }
            let ghost c1 = self.device.contents();
            if let Some(mut n) = next {
                n.header.prev_free = residual_offset;
                proof {
                    assert(n == moved_next);
                }
                match n.dump_to_device(&mut self.device) {
                    Ok(()) => {},
                    Err(e) => { return Err(HeapError::DeviceError(e)) },
                }
            }
            let ghost c2 = self.device.contents();
            match residual.dump_to_device(&mut self.device) {
                Ok(()) => {},
                Err(e) => { return Err(HeapError::DeviceError(e)) },
            }
            let ghost mid = self.device.contents();
            let placed = Chunk::new(c.offset(), size, true, c.prev_free(), c.next_free());
            match placed.dump_to_device(&mut self.device) {
                Ok(()) => {},
                Err(e) => { return Err(HeapError::DeviceError(e)) },
            }
            proof {
                lemma_stored_at_untouched(mid, self.device.contents(), residual, placed);
            }
            if self.root == c.offset() {
                self.root = residual_offset;
            }
            proof {
                let post = self.device.contents();
                lemma_stored_chunk_decodes(post, placed);
                lemma_stored_chunk_decodes(post, residual);
                if c.header.prev_free != 0 && spans_disjoint(moved_prev, c) && (
                c.header.next_free == 0 || spans_disjoint(moved_prev, moved_next)) {
                    if c.header.next_free != 0 {
                        lemma_stored_at_untouched(c1, c2, moved_prev, moved_next);
                    }
                    assert(spans_disjoint(moved_prev, residual));
                    lemma_stored_at_untouched(c2, mid, moved_prev, residual);
                    assert(spans_disjoint(moved_prev, placed));
                    lemma_stored_at_untouched(mid, post, moved_prev, placed);
                }
                if c.header.next_free != 0 && spans_disjoint(moved_next, c) {
                    assert(spans_disjoint(moved_next, residual));
                    lemma_stored_at_untouched(c2, mid, moved_next, residual);
                    assert(spans_disjoint(moved_next, placed));
                    lemma_stored_at_untouched(mid, post, moved_next, placed);
                }
                assert forall|i: int|
                    0 <= i < c0.len() && !(c.offset <= i < spec_chunk_end(c)) && !(
                    c.header.prev_free != 0 && in_tag_range(moved_prev, i)) && !(
                    c.header.next_free != 0 && in_tag_range(moved_next, i)) implies post[i]
                    == c0[i] by {
                    assert(c1[i] == c0[i]);
                    assert(c2[i] == c1[i]);
                    assert(!in_tag_range(residual, i));
                    assert(mid[i] == c2[i]);
                    assert(!in_tag_range(placed, i));
                    assert(post[i] == mid[i]);
                }
            }
            Ok(c.offset() + CHUNK_HEADER_SIZE)
        }
    }

    /// Frees the allocation whose payload begins at `offset` (the value a
    /// successful [`Self::allocate`] returned).  The chunk is marked free,
    /// coalesced with its free address-order neighbours — up to two merges,
    /// so two adjacent free chunks never remain side by side — and the merged
    /// chunk is pushed at the free-list head, becoming the new root.
    ///
    /// Freeing a chunk that is not allocated is rejected as `DoubleFree`
    /// before anything is written.  A free neighbour whose header disagrees
    /// with the boundary tag that announced it is reported as `Corrupt`.
    pub fn free(&mut self, offset: u64) -> (r: Result<(), HeapError>)
        requires
            old(self).wf(),
        ensures
            final(self).wf(),
            final(self).lower() == old(self).lower(),
            final(self).contents().len() == old(self).contents().len(),
            // an offset that cannot sit behind any header is rejected
            // before anything is read or written
            offset < CHUNK_HEADER_SIZE ==> r == Err::<(), HeapError>(
                HeapError::DeviceError(DeviceError::InvalidOffset),
            ) && final(self).contents() == old(self).contents() && final(self).spec_root() == old(
                self,
            ).spec_root(),
            r == Err::<(), HeapError>(HeapError::DoubleFree) ==> {
                &&& final(self).contents() == old(self).contents()
                &&& final(self).spec_root() == old(self).spec_root()
                &&& CHUNK_HEADER_SIZE <= offset
                &&& !spec_decode_chunk(
                    old(self).contents(),
                    (offset - CHUNK_HEADER_SIZE) as u64,
                ).header.allocated
            },
            // freeing a chunk that is already free is rejected as a double
            // free, unless the device fails first
            CHUNK_HEADER_SIZE <= offset && !spec_decode_chunk(
                old(self).contents(),
                (offset - CHUNK_HEADER_SIZE) as u64,
            ).header.allocated ==> r == Err::<(), HeapError>(HeapError::DoubleFree) || (r matches Err(
                HeapError::DeviceError(_),
            )),
            match r {
                Ok(()) => free_post(
                    old(self).contents(),
                    old(self).lower(),
                    final(self).contents(),
                    final(self).spec_root(),
                    offset,
                ),
                Err(_) => true,
            },
    {
        proof {
            self.device.lemma_inv();
        }
        if offset < CHUNK_HEADER_SIZE {
            return Err(HeapError::DeviceError(DeviceError::InvalidOffset));
        }
        let chunk_offset = offset - CHUNK_HEADER_SIZE;
        let c = match Chunk::load_from_device(&self.device, chunk_offset) {
            Ok(c) => c,
            Err(e) => { return Err(HeapError::DeviceError(e)) },
        };
        if !c.allocated() {
            // double frees are rejected, not silently accepted
            return Err(HeapError::DoubleFree);
        }
        // discover the free physical neighbours before any mutation
        let (_, device_size) = self.device.access_range();
        let end = c.offset() + CHUNK_OVERHEAD + c.data_size();
        let successor: Option<Chunk> = if end == device_size {
            None
        } else {
            match c.next_physical(&self.device) {
                Ok(n) => if n.allocated() {
                    None
                } else {
                    Some(n)
                },
                Err(e) => { return Err(HeapError::DeviceError(e)) },
            }
        };
        let predecessor_offset: Option<u64> = match c.prev_physical(&self.device) {
            Ok(None) => None,
            Ok(Some(p)) => {
                if p.allocated() {
                    None
                } else {
                    // the footer that announced a free predecessor must agree
                    // with that predecessor's own header
                    let pend = p.offset() + CHUNK_OVERHEAD + p.data_size();
                    if pend != chunk_offset {
                        return Err(HeapError::Corrupt);
                    }
                    Some(p.offset())
                }
            },
            Err(e) => { return Err(HeapError::DeviceError(e)) },
        };
        // mark the chunk free with cleared links and persist it
        let mut merged = c;
        merged.header.allocated = false;
        merged.header.prev_free = 0;
        merged.header.next_free = 0;
        match merged.dump_to_device(&mut self.device) {
            Ok(()) => {},
            Err(e) => { return Err(HeapError::DeviceError(e)) },
        }
        // absorb the free successor: splice it out of the list, grow the span
        if let Some(n) = successor {
            match self.splice_out(&n) {
                Ok(()) => {},
                Err(e) => { return Err(e) },
            }
            merged.header.data_size = merged.header.data_size + CHUNK_OVERHEAD
                + n.header.data_size;
        }
        // absorb the free predecessor: it may have been rewritten by the
        // successor's splice, so re-read and re-check it first
        if let Some(poff) = predecessor_offset {
            let p = match Chunk::load_from_device(&self.device, poff) {
                Ok(p) => p,
                Err(e) => { return Err(HeapError::DeviceError(e)) },
            };
            if p.allocated() {
                return Err(HeapError::Corrupt);
            }
            let pend = p.offset() + CHUNK_OVERHEAD + p.data_size();
            if pend != chunk_offset {
                return Err(HeapError::Corrupt);
            }
            match self.splice_out(&p) {
                Ok(()) => {},
                Err(e) => { return Err(e) },
            }
            merged = Chunk::new(
                p.offset(),
                p.data_size() + CHUNK_OVERHEAD + merged.header.data_size,
                false,
                0,
                0,
            );
        }
        // push the merged chunk at the free-list head
        let old_root = self.root;
        let ghost mut head_new = merged;
        if old_root != 0 {
            let mut head = match Chunk::load_from_device(&self.device, old_root) {
                Ok(h) => h,
                Err(e) => { return Err(HeapError::DeviceError(e)) },
            };
            head.header.prev_free = merged.offset;
            proof {
                head_new = head;
            }
            match head.dump_to_device(&mut self.device) {
                Ok(()) => {},
                Err(e) => { return Err(HeapError::DeviceError(e)) },
            }
        }
        merged.header.prev_free = 0;
        merged.header.next_free = old_root;
        let ghost before_push = self.device.contents();
        match merged.dump_to_device(&mut self.device) {
            Ok(()) => {},
            Err(e) => { return Err(HeapError::DeviceError(e)) },
        }
        self.root = merged.offset();
        proof {
            let post = self.device.contents();
            lemma_stored_chunk_decodes(post, merged);
            if old_root != 0 && (old_root + CHUNK_HEADER_SIZE <= merged.offset || spec_chunk_end(
                merged,
            ) <= old_root) {
                // the head's header range lies outside everything the final
                // dump wrote, so its rewritten back pointer survives
                assert forall|i: int|
                    old_root <= i < old_root + CHUNK_HEADER_SIZE implies post[i]
                    == before_push[i] by {
                    assert(!in_tag_range(merged, i));
                }
                assert(post.subrange(old_root as int, old_root + CHUNK_HEADER_SIZE)
                    =~= before_push.subrange(old_root as int, old_root + CHUNK_HEADER_SIZE));
                lemma_header_round_trip(head_new.header);
                assert(spec_decode_chunk(post, old_root).header == head_new.header);
            }
        }
        Ok(())
    }
}

/// Allocate/free inverse: on a device holding a single free chunk that spans
/// the whole accessible range and heads the free list, any successful
/// allocation followed by a successful free of the returned offset restores
/// exactly one free chunk with the original start offset and payload size,
/// again at the front of the free list.  Whether the allocation split the
/// chunk or took it whole, the round trip reclaims every byte.
pub proof fn lemma_allocate_free_inverse(
    pre: Seq<u8>,
    mid: Seq<u8>,
    post: Seq<u8>,
    lower: u64,
    root_mid: u64,
    root_post: u64,
    initial: Chunk,
    size: u64,
    data_offset: u64,
)
    requires
        1 <= lower,
        pre.len() <= u64::MAX,
        initial.offset == lower,
        !initial.header.allocated,
        initial.header.prev_free == 0,
        initial.header.next_free == 0,
        stored_at(pre, initial),
        spec_chunk_end(initial) == pre.len(),
        0 < size <= initial.header.data_size,
        allocate_post(pre, lower, lower, mid, root_mid, size, data_offset),
        free_post(mid, lower, post, root_post, data_offset),
    ensures
        data_offset == lower + CHUNK_HEADER_SIZE,
        root_post == lower,
        ({
            let merged = spec_decode_chunk(post, lower);
            &&& stored_at(post, merged)
            &&& !merged.header.allocated
            &&& merged.offset == initial.offset
            &&& merged.header.data_size == initial.header.data_size
            &&& merged.header.prev_free == 0
        }),
{
    lemma_stored_chunk_decodes(pre, initial);
    let chain = seq![lower];
    assert forall|i: int| 0 <= i < chain.len() implies ({
        let c = spec_decode_chunk(pre, #[trigger] chain[i]);
        &&& chain[i] != 0
        &&& chunk_in_range(c, lower, pre.len() as int)
        &&& !c.header.allocated
        &&& c.header.prev_free == (if i == 0 {
            0
        } else {
            chain[i - 1]
        })
        &&& c.header.next_free == (if i == chain.len() - 1 {
            0
        } else {
            chain[i + 1]
        })
    }) by {
        assert(i == 0);
        assert(chain[0] == lower);
        assert(spec_decode_chunk(pre, lower) == initial);
    }
    assert(is_free_chain(pre, lower, chain));
    // first fit pins the allocation at the list head: the single chunk
    let j = choose|j: int|
        0 <= j < chain.len() && chain[j] == data_offset - CHUNK_HEADER_SIZE && forall|i: int|
            0 <= i < j ==> (#[trigger] spec_decode_chunk(pre, chain[i])).header.data_size < size;
    assert(j == 0);
    assert(data_offset == lower + CHUNK_HEADER_SIZE);

    let found = spec_decode_chunk(pre, (data_offset - CHUNK_HEADER_SIZE) as u64);
    assert(found == initial);
    let placed = spec_decode_chunk(mid, (data_offset - CHUNK_HEADER_SIZE) as u64);
    let merged = spec_decode_chunk(post, root_post);
    // the freed chunk is the first on the device, so nothing below it is
    // absorbed and the merged chunk starts exactly there
    assert(merged.offset == lower);
    assert(root_post == lower);

    if found.header.data_size < size + CHUNK_OVERHEAD {
        // the whole chunk was taken: it still ends at the device's end
        assert(placed.header.data_size == initial.header.data_size);
        assert(spec_chunk_end(placed) == mid.len());
        assert(spec_chunk_end(merged) == spec_chunk_end(placed));
    } else {
        // the chunk was split: the residual right after the allocated part
        // is free, and freeing merges the two back together
        let residual = spec_decode_chunk(mid, (data_offset + size + CHUNK_FOOTER_SIZE) as u64);
        assert(placed.header.data_size == size);
        assert(spec_chunk_end(placed) < mid.len());
        assert((spec_chunk_end(placed) as u64) == (data_offset + size + CHUNK_FOOTER_SIZE) as u64);
        assert(spec_decode_chunk(mid, spec_chunk_end(placed) as u64) == residual);
        assert(!residual.header.allocated);
        assert(spec_chunk_end(merged) == spec_chunk_end(residual));
        assert(spec_chunk_end(residual) == lower + CHUNK_OVERHEAD + initial.header.data_size);
    }
    assert(spec_chunk_end(merged) == lower + CHUNK_OVERHEAD + initial.header.data_size);
    assert(merged.header.data_size == initial.header.data_size);
}

/// Double-free rejection: once a free has succeeded and left its merged
/// chunk at the freed offset itself (no predecessor was absorbed), no second
/// free of the same offset can succeed against the resulting device state:
/// the chunk there is already free, and a successful free demands an
/// allocated one.
pub proof fn lemma_double_free_rejected(
    pre: Seq<u8>,
    mid: Seq<u8>,
    post: Seq<u8>,
    lower: u64,
    root_mid: u64,
    root_post: u64,
    offset: u64,
)
    requires
        free_post(pre, lower, mid, root_mid, offset),
        root_mid == offset - CHUNK_HEADER_SIZE,
    ensures
        !free_post(mid, lower, post, root_post, offset),
{
    assert(!spec_decode_chunk(mid, (offset - CHUNK_HEADER_SIZE) as u64).header.allocated);
}

/// Exhaustion: when every chunk on the free list (a consistent chain
/// starting at the root) has a payload smaller than the request, no
/// allocation of that size can succeed on that device state — and the
/// allocator's contract separately guarantees that reporting exhaustion
/// leaves the device byte-for-byte unchanged.
pub proof fn lemma_exhaustion(
    pre: Seq<u8>,
    lower: u64,
    root: u64,
    post: Seq<u8>,
    root_post: u64,
    size: u64,
    data_offset: u64,
    offs: Seq<u64>,
)
    requires
        is_free_chain(pre, lower, offs),
        0 < offs.len(),
        offs[0] == root,
        forall|i: int|
            0 <= i < offs.len() ==> (#[trigger] spec_decode_chunk(pre, offs[i])).header.data_size
                < size,
    ensures
        !allocate_post(pre, lower, root, post, root_post, size, data_offset),
{
    if allocate_post(pre, lower, root, post, root_post, size, data_offset) {
        let j = choose|j: int|
            0 <= j < offs.len() && offs[j] == data_offset - CHUNK_HEADER_SIZE && forall|i: int|
                0 <= i < j ==> (#[trigger] spec_decode_chunk(pre, offs[i])).header.data_size
                    < size;
        assert(spec_decode_chunk(pre, offs[j]).header.data_size < size);
        assert(size <= spec_decode_chunk(
            pre,
            (data_offset - CHUNK_HEADER_SIZE) as u64,
        ).header.data_size);
    }
}

} // verus!
