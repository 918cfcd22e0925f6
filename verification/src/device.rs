//! The storage interface the allocator runs on, and an in-memory device.
//!
//! The allocator consumes a [`StorageDevice`]: random-access byte-range reads
//! and writes over a fixed-size addressable region.  How the region is backed
//! (a file, a raw block device, memory) is irrelevant to the allocator's
//! correctness, so the interface is a trait whose contracts are stated over a
//! mathematical view of the device: its byte contents and the lower bound of
//! the range where chunks may live.

use vstd::prelude::*;

verus! {

/// An error reported by a storage device.  Originates below the allocator and
/// is always propagated unchanged.
#[derive(Clone, Copy, Debug, PartialEq, Eq, Structural)]
pub enum DeviceError {
    NotFound,
    PermissionDenied,
    InvalidOffset,
    NotEnoughSpace,
    Other(i32),
}

/// Random-access byte-range read/write over a fixed-size addressable region.
///
/// The contracts speak of two spec-level projections: `contents`, the byte
/// sequence the device holds, and `lower`, the smallest offset at which the
/// allocator is permitted to place a chunk (everything below it is reserved
/// for bootstrap concerns such as a superblock).  A device may fail any
/// operation — a real disk can — so success is never owed; the contracts pin
/// down what holds whenever an operation does succeed.
pub trait StorageDevice: Sized {
    /// The bytes the device currently holds, indexed from offset zero.
    spec fn contents(&self) -> Seq<u8>;

    /// The lower bound of the accessible range: the first offset at which a
    /// chunk header may legally begin.  Offset `0` is the free-list "no link"
    /// sentinel, so this bound is at least 1.
    spec fn lower(&self) -> u64;

    /// Implementation-defined well-formedness of the device handle.
    spec fn inv(&self) -> bool;

    /// The device's preferred transfer granularity, as a spec value.
    spec fn block_size_spec(&self) -> usize;

    /// A well-formed device has a valid accessible range and a size that fits
    /// the offset arithmetic of the chunk codec.
    proof fn lemma_inv(&self)
        requires
            self.inv(),
        ensures
            1 <= self.lower(),
            self.lower() <= self.contents().len(),
            self.contents().len() <= u64::MAX,
    ;

    /// The device's preferred transfer granularity in bytes.
    fn block_size(&self) -> (r: usize)
        requires
            self.inv(),
        ensures
            r == self.block_size_spec(),
    ;

    /// The total size of the device in bytes.
    fn size(&self) -> (r: u64)
        requires
            self.inv(),
        ensures
            r == self.contents().len(),
    ;

    /// The accessible range as `(first legal offset, device size)`.
    fn access_range(&self) -> (r: (u64, u64))
        requires
            self.inv(),
        ensures
            r.0 == self.lower(),
            r.1 == self.contents().len(),
    ;

    /// Reads bytes starting at `offset` into `buffer`, returning how many
    /// bytes were read.  A successful read may be short; the bytes it did
    /// read are exactly the device contents at `offset`, and the rest of the
    /// buffer is untouched.
    fn read_at(&self, offset: u64, buffer: &mut Vec<u8>) -> (r: Result<usize, DeviceError>)
        requires
            self.inv(),
        ensures
            final(buffer)@.len() == old(buffer)@.len(),
            match r {
                Ok(n) => {
                    &&& n <= final(buffer)@.len()
                    &&& self.lower() <= offset
                    &&& offset + n <= self.contents().len()
                    &&& forall|i: int|
                        0 <= i < n ==> final(buffer)@[i] == self.contents()[offset + i]
                    &&& forall|i: int|
                        n <= i < final(buffer)@.len() ==> final(buffer)@[i] == old(buffer)@[i]
                },
                Err(_) => true,
            },
    ;

    /// Writes all of `buffer` at `offset`, returning how many bytes were
    /// written.  On success the device holds `buffer` at `offset` and every
    /// other byte is unchanged.  On failure the write may have been partial;
    /// only the device's size and accessible range are preserved.
    fn write_at(&mut self, offset: u64, buffer: &[u8]) -> (r: Result<usize, DeviceError>)
        requires
            old(self).inv(),
        ensures
            final(self).inv(),
            final(self).lower() == old(self).lower(),
            final(self).block_size_spec() == old(self).block_size_spec(),
            final(self).contents().len() == old(self).contents().len(),
            match r {
                Ok(n) => {
                    &&& n == buffer@.len()
                    &&& old(self).lower() <= offset
                    &&& offset + n <= old(self).contents().len()
                    &&& forall|i: int|
                        0 <= i < final(self).contents().len() ==> final(self).contents()[i] == (
                        if offset <= i < offset + n {
                            buffer@[i - offset]
                        } else {
                            old(self).contents()[i]
                        })
                },
                Err(_) => true,
            },
    ;
}

/// A memory-backed storage device: the whole region is a byte vector.
///
/// Reads and writes that stay inside the accessible range always succeed and
/// are never short, which makes this device the reference backing for tests
/// and for reasoning about the allocator under a device that does not fail.
pub struct MemDevice {
    data: Vec<u8>,
    lower: u64,
    block: usize,
}

impl MemDevice {
    /// Creates a device holding `data`, with `lower` as the first offset at
    /// which a chunk may begin and `block` as the advertised block size.
    pub fn new(data: Vec<u8>, lower: u64, block: usize) -> (r: MemDevice)
        requires
            1 <= lower,
            lower <= data@.len(),
            data@.len() <= u64::MAX,
        ensures
            r.inv(),
            r.contents() == data@,
            r.lower() == lower,
            r.block_size_spec() == block,
    {
        MemDevice { data, lower, block }
    }

    /// Creates a zero-filled device of `size` bytes.
    pub fn zeroed(size: u64, lower: u64, block: usize) -> (r: MemDevice)
        requires
            1 <= lower,
            lower <= size,
            size <= usize::MAX,
        ensures
            r.inv(),
            r.contents() == Seq::new(size as nat, |i: int| 0u8),
            r.lower() == lower,
            r.block_size_spec() == block,
    {
        let data: Vec<u8> = vec![0u8; size as usize];
        proof {
            assert(data@ =~= Seq::new(size as nat, |i: int| 0u8));
        }
        MemDevice { data, lower, block }
    }
}

impl StorageDevice for MemDevice {
    closed spec fn contents(&self) -> Seq<u8> {
        self.data@
    }

    closed spec fn lower(&self) -> u64 {
        self.lower
    }

    closed spec fn inv(&self) -> bool {
        &&& 1 <= self.lower
        &&& self.lower <= self.data@.len()
        &&& self.data@.len() <= u64::MAX
    }

    closed spec fn block_size_spec(&self) -> usize {
        self.block
    }

    proof fn lemma_inv(&self) {
    }

    fn block_size(&self) -> (r: usize) {
        self.block
    }

    fn size(&self) -> (r: u64) {
        self.data.len() as u64
    }

    fn access_range(&self) -> (r: (u64, u64)) {
        (self.lower, self.data.len() as u64)
    }

    fn read_at(&self, offset: u64, buffer: &mut Vec<u8>) -> (r: Result<usize, DeviceError>)
        ensures
            self.lower() <= offset && offset + old(buffer)@.len() <= self.contents().len() ==> r
                == Ok::<usize, DeviceError>(old(buffer)@.len() as usize),
    {
        if offset < self.lower {
            return Err(DeviceError::InvalidOffset);
        }
        let len: usize = self.data.len();
        if offset > len as u64 {
            return Err(DeviceError::InvalidOffset);
        }
        let off: usize = offset as usize;
        let n: usize = buffer.len();
        if n > len - off {
            return Err(DeviceError::InvalidOffset);
        }
        let mut out: Vec<u8> = Vec::new();
        let mut i: usize = 0;
        while i < n
            invariant
                i <= n,
                n <= len - off,
                off + n <= self.data@.len(),
                out@.len() == i,
                forall|j: int| 0 <= j < i ==> out@[j] == self.data@[off + j],
            decreases n - i,
        {
            out.push(self.data[off + i]);
            i += 1;
        }
        *buffer = out;
        Ok(n)
    }

    fn write_at(&mut self, offset: u64, buffer: &[u8]) -> (r: Result<usize, DeviceError>)
        ensures
            old(self).lower() <= offset && offset + buffer@.len() <= old(self).contents().len()
                ==> r == Ok::<usize, DeviceError>(buffer@.len() as usize),
    {
        if offset < self.lower {
            return Err(DeviceError::InvalidOffset);
        }
        let len: usize = self.data.len();
        if offset > len as u64 {
            return Err(DeviceError::InvalidOffset);
        }
        let off: usize = offset as usize;
        let n: usize = buffer.len();
        if n > len - off {
            return Err(DeviceError::NotEnoughSpace);
        }
        let mut i: usize = 0;
        while i < n
            invariant
                i <= n,
                off + n <= len,
                len == self.data@.len(),
                self.data@.len() == old(self).data@.len(),
                self.lower == old(self).lower,
                self.block == old(self).block,
                n == buffer@.len(),
                forall|j: int|
                    0 <= j < self.data@.len() ==> self.data@[j] == (if off <= j < off + i {
                        buffer@[j - off]
                    } else {
                        old(self).data@[j]
                    }),
            decreases n - i,
        {
            let b: u8 = *vstd::slice::slice_index_get(buffer, i);
            self.data[off + i] = b;
            i += 1;
        }
        Ok(n)
    }
}

} // verus!
