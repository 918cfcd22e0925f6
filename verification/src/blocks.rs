//! Identified payload blocks for a block-oriented codec.
//!
//! A payload handed to an erasure codec is cut into equal-size blocks, each
//! carrying the index it occupies in the coded group.  [`BlockBuffer`] keeps
//! one such group: every slot always holds its bytes, and a presence flag per
//! slot records whether the block is currently available (a block lost to an
//! erasure is marked absent; a restored one is marked present again).  The
//! original payload is recoverable from the data blocks whenever all of them
//! were available at construction.

use vstd::prelude::*;

verus! {

use vstd::slice::slice_index_get;
use vstd::slice::slice_subrange;
use vstd::slice::slice_to_vec;

/// One payload block: the bytes of one slot of a coded group, together with
/// the slot index it belongs to.
#[derive(Debug)]
pub struct Block {
    id: usize,
    data: Vec<u8>,
}

impl Block {
    /// The slot index this block occupies in its group.
    pub closed spec fn spec_id(&self) -> usize {
        self.id
    }

    /// The block's bytes.
    pub closed spec fn spec_data(&self) -> Seq<u8> {
        self.data@
    }

    /// A block holding a copy of `data` for slot `id`.
    pub fn new(id: usize, data: &[u8]) -> (r: Block)
        ensures
            r.spec_id() == id,
            r.spec_data() == data@,
    {
        Block { id, data: slice_to_vec(data) }
    }

    /// The slot index this block occupies in its group.
    pub fn id(&self) -> (r: usize)
        ensures
            r == self.spec_id(),
    {
        self.id
    }

    /// Replaces the block's bytes with a copy of `data`, which must have
    /// exactly the block's length.
    pub fn clone_from_slice(&mut self, data: &[u8])
        requires
            data@.len() == old(self).spec_data().len(),
        ensures
            final(self).spec_id() == old(self).spec_id(),
            final(self).spec_data() == data@,
    {
        self.data = slice_to_vec(data);
    }

    /// The block's bytes.
    pub fn data(&self) -> (r: &[u8])
        ensures
            r@ == self.spec_data(),
    {
        self.data.as_slice()
    }
}

/// The concatenation of the bytes of the first `k` blocks.
pub open spec fn spec_concat(blocks: Seq<Block>, k: int) -> Seq<u8>
    decreases k,
{
    if k <= 0 {
        Seq::empty()
    } else {
        spec_concat(blocks, k - 1) + blocks[k - 1].spec_data()
    }
}

/// Appending a block does not change the concatenation of an untouched
/// prefix.
pub proof fn lemma_concat_push(blocks: Seq<Block>, b: Block, k: int)
    requires
        0 <= k <= blocks.len(),
    ensures
        spec_concat(blocks.push(b), k) == spec_concat(blocks, k),
    decreases k,
{
    if k > 0 {
        lemma_concat_push(blocks, b, k - 1);
        assert(blocks.push(b)[k - 1] == blocks[k - 1]);
    }
}

/// When every block holds `block_size` bytes, the concatenation of the first
/// `k` blocks holds `k * block_size` bytes.
pub proof fn lemma_concat_len(blocks: Seq<Block>, k: int, block_size: usize)
    requires
        0 <= k <= blocks.len(),
        forall|i: int|
            0 <= i < blocks.len() ==> (#[trigger] blocks[i].spec_data()).len() == block_size,
    ensures
        spec_concat(blocks, k).len() == k * block_size,
    decreases k,
{
    if k > 0 {
        lemma_concat_len(blocks, k - 1, block_size);
        assert(blocks[k - 1].spec_data().len() == block_size);
        assert((k - 1) * block_size + block_size == k * block_size) by (nonlinear_arith);
    } else {
        assert(k * block_size == 0) by (nonlinear_arith)
            requires
                k == 0,
        ;
    }
}

/// The concatenation of the first `k` blocks is a prefix of the
/// concatenation of the first `n`.
pub proof fn lemma_concat_prefix(blocks: Seq<Block>, k: int, n: int, block_size: usize)
    requires
        0 <= k <= n <= blocks.len(),
        forall|i: int|
            0 <= i < blocks.len() ==> (#[trigger] blocks[i].spec_data()).len() == block_size,
    ensures
        spec_concat(blocks, k) == spec_concat(blocks, n).subrange(0, k * block_size),
    decreases n - k,
{
    lemma_concat_len(blocks, k, block_size);
    lemma_concat_len(blocks, n, block_size);
    if k == n {
        assert(spec_concat(blocks, n).subrange(0, k * block_size) =~= spec_concat(blocks, k));
    } else {
        lemma_concat_prefix(blocks, k, n - 1, block_size);
        lemma_concat_len(blocks, n - 1, block_size);
        assert(k * block_size <= (n - 1) * block_size) by (nonlinear_arith)
            requires
                0 <= k <= n - 1,
                0 <= block_size,
        ;
        assert(spec_concat(blocks, n).subrange(0, k * block_size) =~= spec_concat(
            blocks,
            n - 1,
        ).subrange(0, k * block_size));
    }
}

/// Copies `s` onto the end of `out`.
fn push_bytes(out: &mut Vec<u8>, s: &[u8])
    ensures
        final(out)@ == old(out)@ + s@,
{
    let n = s.len();
    let mut j: usize = 0;
    while j < n
        invariant
            j <= n,
            n == s@.len(),
            out@.len() == old(out)@.len() + j,
            forall|i: int| 0 <= i < old(out)@.len() ==> out@[i] == old(out)@[i],
            forall|i: int| 0 <= i < j ==> out@[old(out)@.len() + i] == s@[i],
        decreases n - j,
    {
        out.push(*slice_index_get(s, j));
        j += 1;
    }
    proof {
        assert(out@ =~= old(out)@ + s@);
    }
}

/// A group of coded payload blocks: every slot's bytes, a presence flag per
/// slot, and the geometry of the group.  The first `data_block_count` slots
/// carry the payload; the remaining `parity_block_count` slots carry
/// redundancy.  Whether the payload is accessible is decided when the buffer
/// is built: exactly when every data block was available then.
#[derive(Debug)]
pub struct BlockBuffer {
    blocks: Vec<Block>,
    present: Vec<bool>,
    data_size: usize,
    data_accessible: bool,
    block_size: usize,
    data_block_count: usize,
    parity_block_count: usize,
}

impl BlockBuffer {
    /// The number of slots in the group.
    pub open spec fn spec_total(&self) -> int {
        self.spec_data_block_count() + self.spec_parity_block_count()
    }

    /// The blocks, one per slot, present or not.
    pub closed spec fn spec_blocks(&self) -> Seq<Block> {
        self.blocks@
    }

    /// The presence flag of each slot.
    pub closed spec fn spec_present(&self) -> Seq<bool> {
        self.present@
    }

    /// The length in bytes of the original payload.
    pub closed spec fn spec_data_size(&self) -> usize {
        self.data_size
    }

    /// Whether every data block was available when the buffer was built.
    pub closed spec fn spec_data_accessible(&self) -> bool {
        self.data_accessible
    }

    /// The size of one block in bytes.
    pub closed spec fn spec_block_size(&self) -> usize {
        self.block_size
    }

    /// The number of payload slots.
    pub closed spec fn spec_data_block_count(&self) -> usize {
        self.data_block_count
    }

    /// The number of redundancy slots.
    pub closed spec fn spec_parity_block_count(&self) -> usize {
        self.parity_block_count
    }

    /// Every slot holds a block of the right length carrying its own index,
    /// and the payload size fits in the data blocks.
    pub closed spec fn wf(&self) -> bool {
        &&& self.blocks@.len() == self.data_block_count + self.parity_block_count
        &&& self.present@.len() == self.data_block_count + self.parity_block_count
        &&& forall|i: int|
            0 <= i < self.blocks@.len() ==> (#[trigger] self.blocks@[i]).spec_id() == i
                && self.blocks@[i].spec_data().len() == self.block_size
        &&& self.data_size <= self.data_block_count * self.block_size
    }

    /// Cuts a payload into `data_block_count` data blocks of `block_size`
    /// bytes, padding with zeroes, and adds `parity_block_count` zero-filled
    /// parity slots.  Every slot is present and the payload is accessible.
    pub fn from_data_buffer(data_buffer: Vec<u8>, block_size: usize, data_block_count: usize, parity_block_count: usize) -> (r: BlockBuffer)
        requires
            data_buffer@.len() <= block_size * data_block_count,
            data_block_count + parity_block_count <= usize::MAX,
            (data_block_count + parity_block_count) * block_size <= usize::MAX,
        ensures
            r.wf(),
            r.spec_block_size() == block_size,
            r.spec_data_block_count() == data_block_count,
            r.spec_parity_block_count() == parity_block_count,
            r.spec_data_size() == data_buffer@.len(),
            r.spec_data_accessible(),
            forall|i: int| 0 <= i < r.spec_total() ==> r.spec_present()[i],
            // every slot carries its own index and exactly one block of bytes
            forall|i: int|
                0 <= i < r.spec_total() ==> (#[trigger] r.spec_blocks()[i]).spec_id() == i
                    && r.spec_blocks()[i].spec_data().len() == block_size,
            spec_concat(r.spec_blocks(), r.spec_total()) == data_buffer@ + Seq::new(
                ((data_block_count + parity_block_count) * block_size - data_buffer@.len()) as nat,
                |i: int| 0u8,
            ),
            // the payload is recoverable: the data blocks concatenate back to
            // the original bytes
            spec_concat(r.spec_blocks(), data_block_count as int).subrange(
                0,
                data_buffer@.len() as int,
            ) == data_buffer@,
    {
        let total = data_block_count + parity_block_count;
        let desired = total * block_size;
        proof {
            assert(block_size * data_block_count <= total * block_size) by (nonlinear_arith)
                requires
                    total == data_block_count + parity_block_count,
            ;
        }
        let original_size = data_buffer.len();
        let padding = desired - original_size;
        let mut padded = data_buffer;
        let ghost raw = padded@;
        if padding > 0 {
            let mut zeros: Vec<u8> = vec![0u8; padding];
            padded.append(&mut zeros);
        }
        let ghost p = padded@;
        proof {
            assert(p =~= raw + Seq::new((desired - raw.len()) as nat, |i: int| 0u8));
        }
        let present: Vec<bool> = vec![true; total];
        let mut blocks: Vec<Block> = Vec::new();
        let mut pos: usize = 0;
        let mut i: usize = 0;
        while i < total
            invariant
                i <= total,
                desired == total * block_size,
                desired - pos == (total - i) * block_size,
                pos <= desired,
                padded@ == p,
                p.len() == desired,
                blocks@.len() == i,
                forall|j: int|
                    0 <= j < i ==> (#[trigger] blocks@[j]).spec_id() == j
                        && blocks@[j].spec_data().len() == block_size,
                spec_concat(blocks@, i as int) == p.subrange(0, pos as int),
            decreases total - i,
        {
            proof {
                assert((total - i) * block_size == block_size + (total - (i + 1)) * block_size)
                    by (nonlinear_arith)
                    requires
                        i < total,
                ;
            }
            let ghost before = blocks@;
            let data = slice_to_vec(slice_subrange(padded.as_slice(), pos, pos + block_size));
            blocks.push(Block { id: i, data });
            proof {
                lemma_concat_push(before, blocks@[i as int], i as int);
                assert(spec_concat(blocks@, i + 1) =~= p.subrange(0, pos + block_size));
            }
            pos = pos + block_size;
            i = i + 1;
        }
        proof {
            assert((total - total) as int * block_size == 0) by (nonlinear_arith);
            assert(spec_concat(blocks@, total as int) =~= p);
            assert(block_size * data_block_count == data_block_count * block_size)
                by (nonlinear_arith);
            lemma_concat_prefix(blocks@, data_block_count as int, total as int, block_size);
            assert(data_block_count * block_size <= total * block_size) by (nonlinear_arith)
                requires
                    data_block_count <= total,
                    0 <= block_size,
            ;
            assert(spec_concat(blocks@, data_block_count as int).subrange(0, raw.len() as int)
                =~= raw);
        }
        BlockBuffer {
            blocks,
            present,
            data_size: original_size,
            data_accessible: true,
            block_size,
            data_block_count,
            parity_block_count,
        }
    }

    /// Rebuilds a group from the blocks that survived, identified by their
    /// slot indices; missing slots are zero-filled and marked absent.  The
    /// payload is accessible exactly when every data slot was given.  The
    /// given blocks must all have `block_size` bytes and distinct, in-range
    /// indices.
    pub fn from_blocks(blocks: &[Block], block_size: usize, data_block_count: usize, parity_block_count: usize, data_size: usize) -> (r: BlockBuffer)
        requires
            forall|i: int|
                0 <= i < blocks@.len() ==> (#[trigger] blocks@[i].spec_data()).len() == block_size,
            forall|i: int|
                0 <= i < blocks@.len() ==> (#[trigger] blocks@[i].spec_id()) < data_block_count
                    + parity_block_count,
            forall|i: int, j: int|
                0 <= i < j < blocks@.len() ==> blocks@[i].spec_id() != blocks@[j].spec_id(),
            blocks@.len() <= data_block_count + parity_block_count,
            data_block_count + parity_block_count <= usize::MAX,
            (data_block_count + parity_block_count) * block_size <= usize::MAX,
            data_size <= data_block_count * block_size,
        ensures
            r.wf(),
            r.spec_block_size() == block_size,
            r.spec_data_block_count() == data_block_count,
            r.spec_parity_block_count() == parity_block_count,
            r.spec_data_size() == data_size,
            forall|k: int|
                0 <= k < blocks@.len() ==> {
                    let id = (#[trigger] blocks@[k].spec_id()) as int;
                    &&& r.spec_present()[id]
                    &&& r.spec_blocks()[id].spec_data() == blocks@[k].spec_data()
                },
            forall|slot: int|
                0 <= slot < r.spec_total() ==> ((#[trigger] r.spec_present()[slot]) <==> exists|k: int|
                    0 <= k < blocks@.len() && (#[trigger] blocks@[k].spec_id()) == slot),
            r.spec_data_accessible() <==> (forall|slot: int|
                0 <= slot < data_block_count ==> #[trigger] r.spec_present()[slot]),
            // every slot carries its own index and exactly one block of bytes
            forall|i: int|
                0 <= i < r.spec_total() ==> (#[trigger] r.spec_blocks()[i]).spec_id() == i
                    && r.spec_blocks()[i].spec_data().len() == block_size,
    {
        let total = data_block_count + parity_block_count;
        let mut slots: Vec<Block> = Vec::new();
        let mut i: usize = 0;
        while i < total
            invariant
                i <= total,
                slots@.len() == i,
                forall|j: int|
                    0 <= j < i ==> (#[trigger] slots@[j]).spec_id() == j
                        && slots@[j].spec_data().len() == block_size,
            decreases total - i,
        {
            let data: Vec<u8> = vec![0u8; block_size];
            slots.push(Block { id: i, data });
            i = i + 1;
        }
        let mut present: Vec<bool> = vec![false; total];
        let mut k: usize = 0;
        while k < blocks.len()
            invariant
                k <= blocks@.len(),
                blocks@.len() <= total,
                slots@.len() == total,
                present@.len() == total,
                forall|i: int|
                    0 <= i < blocks@.len() ==> (#[trigger] blocks@[i].spec_data()).len()
                        == block_size,
                forall|i: int|
                    0 <= i < blocks@.len() ==> (#[trigger] blocks@[i].spec_id()) < total,
                forall|i: int, j: int|
                    0 <= i < j < blocks@.len() ==> blocks@[i].spec_id() != blocks@[j].spec_id(),
                forall|j: int|
                    0 <= j < total ==> (#[trigger] slots@[j]).spec_id() == j
                        && slots@[j].spec_data().len() == block_size,
                forall|m: int|
                    0 <= m < k ==> {
                        let id = (#[trigger] blocks@[m].spec_id()) as int;
                        &&& present@[id]
                        &&& slots@[id].spec_data() == blocks@[m].spec_data()
                    },
                forall|slot: int|
                    0 <= slot < total ==> ((#[trigger] present@[slot]) <==> exists|m: int|
                        0 <= m < k && (#[trigger] blocks@[m].spec_id()) == slot),
            decreases blocks@.len() - k,
        {
            let b = slice_index_get(blocks, k);
            let id = b.id();
            let copy = Block { id, data: slice_to_vec(b.data()) };
            slots[id] = copy;
            present[id] = true;
            k = k + 1;
        }
        let mut data_accessible = true;
        let mut d: usize = 0;
        while d < data_block_count
            invariant
                d <= data_block_count,
                data_block_count <= total,
                present@.len() == total,
                data_accessible <==> (forall|slot: int|
                    0 <= slot < d ==> #[trigger] present@[slot]),
            decreases data_block_count - d,
        {
            if !present[d] {
                data_accessible = false;
            }
            d = d + 1;
        }
        let ghost pres = present@;
        let r = BlockBuffer {
            blocks: slots,
            present,
            data_size,
            data_accessible,
            block_size,
            data_block_count,
            parity_block_count,
        };
        proof {
            assert(r.spec_present() == pres);
            if r.spec_data_accessible() {
                assert forall|slot: int|
                    0 <= slot < data_block_count implies #[trigger] r.spec_present()[slot] by {
                    assert(pres[slot]);
                }
            }
            if forall|slot: int| 0 <= slot < data_block_count ==> #[trigger] r.spec_present()[slot] {
                assert forall|slot: int|
                    0 <= slot < data_block_count implies #[trigger] pres[slot] by {
                    assert(r.spec_present()[slot]);
                }
                assert(r.spec_data_accessible());
            }
        }
        r
    }

    /// The size of one block in bytes.
    pub fn block_size(&self) -> (r: usize)
        ensures
            r == self.spec_block_size(),
    {
        self.block_size
    }

    /// The length in bytes of the original payload.
    pub fn data_size(&self) -> (r: usize)
        ensures
            r == self.spec_data_size(),
    {
        self.data_size
    }

    /// The group's blocks in slot order: a copy of each present slot, `None`
    /// for each absent one.
    pub fn blocks(&self) -> (r: Vec<Option<Block>>)
        requires
            self.wf(),
        ensures
            r@.len() == self.spec_total(),
            forall|i: int|
                0 <= i < r@.len() ==> match #[trigger] r@[i] {
                    Some(b) => self.spec_present()[i] && b.spec_id() == self.spec_blocks()[
                        i
                    ].spec_id() && b.spec_data() == self.spec_blocks()[i].spec_data(),
                    None => !self.spec_present()[i],
                },
    {
        let total = self.blocks.len();
        let mut out: Vec<Option<Block>> = Vec::new();
        let mut i: usize = 0;
        while i < total
            invariant
                i <= total,
                self.wf(),
                total == self.spec_total(),
                out@.len() == i,
                forall|j: int|
                    0 <= j < i ==> match #[trigger] out@[j] {
                        Some(b) => self.spec_present()[j] && b.spec_id() == self.spec_blocks()[
                            j
                        ].spec_id() && b.spec_data() == self.spec_blocks()[j].spec_data(),
                        None => !self.spec_present()[j],
                    },
            decreases total - i,
        {
            if self.present[i] {
                let b = &self.blocks[i];
                out.push(Some(Block { id: b.id, data: slice_to_vec(b.data.as_slice()) }));
            } else {
                out.push(None);
            }
            i = i + 1;
        }
        out
    }

    /// The original payload, when it is accessible: the bytes of the data
    /// blocks in slot order, cut to the payload size.
    pub fn data(&self) -> (r: Option<Vec<u8>>)
        requires
            self.wf(),
        ensures
            r is Some <==> self.spec_data_accessible(),
            match r {
                Some(v) => v@ == spec_concat(
                    self.spec_blocks(),
                    self.spec_data_block_count() as int,
                ).subrange(0, self.spec_data_size() as int),
                None => true,
            },
    {
        if !self.data_accessible {
            return None;
        }
        let mut out: Vec<u8> = Vec::new();
        let mut i: usize = 0;
        while i < self.data_block_count
            invariant
                i <= self.spec_data_block_count(),
                self.wf(),
                out@ == spec_concat(self.spec_blocks(), i as int),
            decreases self.data_block_count - i,
        {
            push_bytes(&mut out, self.blocks[i].data.as_slice());
            i = i + 1;
        }
        proof {
            lemma_concat_len(
                self.spec_blocks(),
                self.spec_data_block_count() as int,
                self.spec_block_size(),
            );
        }
        out.truncate(self.data_size);
        Some(out)
    }

    /// Marks slot `id` as available again; the slot's current bytes become
    /// the block's bytes.
    pub fn mark_present(&mut self, id: usize)
        requires
            old(self).wf(),
            id < old(self).spec_total(),
        ensures
            final(self).spec_present() == old(self).spec_present().update(id as int, true),
            final(self).spec_blocks() == old(self).spec_blocks(),
            final(self).spec_data_size() == old(self).spec_data_size(),
            final(self).spec_data_accessible() == old(self).spec_data_accessible(),
            final(self).spec_block_size() == old(self).spec_block_size(),
            final(self).spec_data_block_count() == old(self).spec_data_block_count(),
            final(self).spec_parity_block_count() == old(self).spec_parity_block_count(),
            final(self).wf(),
    {
        self.present[id] = true;
    }

    /// Marks slot `id` as lost.
    pub fn mark_absent(&mut self, id: usize)
        requires
            old(self).wf(),
            id < old(self).spec_total(),
        ensures
            final(self).spec_present() == old(self).spec_present().update(id as int, false),
            final(self).spec_blocks() == old(self).spec_blocks(),
            final(self).spec_data_size() == old(self).spec_data_size(),
            final(self).spec_data_accessible() == old(self).spec_data_accessible(),
            final(self).spec_block_size() == old(self).spec_block_size(),
            final(self).spec_data_block_count() == old(self).spec_data_block_count(),
            final(self).spec_parity_block_count() == old(self).spec_parity_block_count(),
            final(self).wf(),
    {
        self.present[id] = false;
    }

    /// Overwrites the front of slot `id`'s bytes with `data`, leaving the
    /// rest of the slot and its presence flag unchanged.
    pub fn overwrite_block(&mut self, id: usize, data: &[u8])
        requires
            old(self).wf(),
            id < old(self).spec_total(),
            data@.len() <= old(self).spec_block_size(),
        ensures
            final(self).wf(),
            final(self).spec_blocks().len() == old(self).spec_blocks().len(),
            final(self).spec_blocks()[id as int].spec_data() == data@ + old(
                self,
            ).spec_blocks()[id as int].spec_data().subrange(
                data@.len() as int,
                old(self).spec_block_size() as int,
            ),
            forall|j: int|
                0 <= j < old(self).spec_blocks().len() && j != id ==> final(self).spec_blocks()[j]
                    == old(self).spec_blocks()[j],
            final(self).spec_present() == old(self).spec_present(),
            final(self).spec_data_size() == old(self).spec_data_size(),
            final(self).spec_data_accessible() == old(self).spec_data_accessible(),
            final(self).spec_block_size() == old(self).spec_block_size(),
            final(self).spec_data_block_count() == old(self).spec_data_block_count(),
            final(self).spec_parity_block_count() == old(self).spec_parity_block_count(),
    {
        let mut fresh = slice_to_vec(data);
        let tail = slice_subrange(self.blocks[id].data.as_slice(), data.len(), self.block_size);
        push_bytes(&mut fresh, tail);
        self.blocks[id] = Block { id, data: fresh };
    }
}

} // verus!
