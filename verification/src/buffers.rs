//! A byte buffer carved into fixed-size blocks.
//!
//! Payloads handed to a block-oriented codec must span a whole number of
//! equal-size blocks; [`BlockBuffer`] pads a raw byte buffer with zeroes up to
//! that length and remembers the original payload size and the block
//! geometry.

use vstd::prelude::*;

verus! {

/// A byte buffer padded with zeroes to a whole number of fixed-size blocks.
pub struct BlockBuffer {
    buffer: Vec<u8>,
    original_size: usize,
    block_size: usize,
    block_count: usize,
}

impl BlockBuffer {
    /// The padded bytes.
    pub closed spec fn spec_buffer(&self) -> Seq<u8> {
        self.buffer@
    }

    /// The length of the raw buffer before padding.
    pub closed spec fn spec_original_size(&self) -> usize {
        self.original_size
    }

    /// The size of one block in bytes.
    pub closed spec fn spec_block_size(&self) -> usize {
        self.block_size
    }

    /// The number of blocks.
    pub closed spec fn spec_block_count(&self) -> usize {
        self.block_count
    }

    /// The padded buffer spans exactly the advertised blocks and begins with
    /// the original bytes.
    pub closed spec fn wf(&self) -> bool {
        &&& self.buffer@.len() == self.block_count * self.block_size
        &&& self.original_size <= self.buffer@.len()
    }

    /// A zero-filled buffer of `block_count` blocks of `block_size` bytes.
    pub fn new(block_count: usize, block_size: usize) -> (r: BlockBuffer)
        requires
            block_count * block_size <= usize::MAX,
        ensures
            r.wf(),
            r.spec_block_count() == block_count,
            r.spec_block_size() == block_size,
            r.spec_original_size() == block_count * block_size,
            r.spec_buffer() == Seq::new((block_count * block_size) as nat, |i: int| 0u8),
    {
        let len = block_count * block_size;
        let buffer: Vec<u8> = vec![0u8; len];
        proof {
            assert(buffer@ =~= Seq::new((block_count * block_size) as nat, |i: int| 0u8));
        }
        BlockBuffer { buffer, original_size: len, block_size, block_count }
    }

    /// Wraps `buffer` in just enough blocks of `block_size` bytes to hold it,
    /// padding the last block with zeroes.
    pub fn from_raw_fitting(buffer: Vec<u8>, block_size: usize) -> (r: BlockBuffer)
        requires
            0 < block_size,
            buffer@.len() + block_size <= usize::MAX,
        ensures
            r.wf(),
            r.spec_block_size() == block_size,
            r.spec_original_size() == buffer@.len(),
            r.spec_block_count() == (if buffer@.len() as int % block_size as int == 0 {
                buffer@.len() as int / block_size as int
            } else {
                buffer@.len() as int / block_size as int + 1
            }),
            r.spec_buffer() == buffer@ + Seq::new(
                (r.spec_block_count() * block_size - buffer@.len()) as nat,
                |i: int| 0u8,
            ),
    {
        let len = buffer.len();
        let mut block_count = len / block_size;
        proof {
            vstd::arithmetic::div_mod::lemma_fundamental_div_mod(len as int, block_size as int);
            vstd::arithmetic::div_mod::lemma_mod_division_less_than_divisor(
                len as int,
                block_size as int,
            );
            assert((len / block_size) * block_size <= len) by (nonlinear_arith)
                requires 0 < block_size
            ;
        }
        if block_count * block_size < len {
            block_count = block_count + 1;
            proof {
                assert(len % block_size != 0 && len <= block_count * block_size && block_count
                    * block_size <= len + block_size) by (nonlinear_arith)
                    requires
                        0 < block_size,
                        block_count == len / block_size + 1,
                        (len / block_size) * block_size < len,
                        len == (len / block_size) * block_size + len % block_size,
                        0 <= len % block_size < block_size,
                ;
            }
        } else {
            proof {
                assert(len % block_size == 0) by (nonlinear_arith)
                    requires
                        0 < block_size,
                        len <= (len / block_size) * block_size,
                        len == (len / block_size) * block_size + len % block_size,
                        0 <= len % block_size < block_size,
                ;
            }
        }
        Self::from_raw_padded(buffer, block_count, block_size)
    }

    /// Pads `buffer` with zeroes up to `block_count * block_size` bytes.  The
    /// buffer must not exceed that size.
    pub fn from_raw_padded(buffer: Vec<u8>, block_count: usize, block_size: usize) -> (r: BlockBuffer)
        requires
            buffer@.len() <= block_count * block_size,
            block_count * block_size <= usize::MAX,
        ensures
            r.wf(),
            r.spec_block_count() == block_count,
            r.spec_block_size() == block_size,
            r.spec_original_size() == buffer@.len(),
            r.spec_buffer() == buffer@ + Seq::new(
                (block_count * block_size - buffer@.len()) as nat,
                |i: int| 0u8,
            ),
    {
        let original_size = buffer.len();
        let desired_size = block_count * block_size;
        let remaining = desired_size - original_size;
        let mut buffer = buffer;
        let ghost raw = buffer@;
        if remaining > 0 {
            let mut padding: Vec<u8> = vec![0u8; remaining];
            buffer.append(&mut padding);
        }
        proof {
            assert(buffer@ =~= raw + Seq::new(
                (block_count * block_size - raw.len()) as nat,
                |i: int| 0u8,
            ));
        }
        BlockBuffer { buffer, original_size, block_size, block_count }
    }

    /// The size of one block in bytes.
    pub fn block_size(&self) -> (r: usize)
        ensures
            r == self.spec_block_size(),
    {
        self.block_size
    }

    /// The number of blocks the buffer spans.
    pub fn block_count(&self) -> (r: usize)
        ensures
            r == self.spec_block_count(),
    {
        self.block_count
    }

    /// The padded bytes, block by block.
    pub fn bytes(&self) -> (r: &Vec<u8>)
        ensures
            r@ == self.spec_buffer(),
    {
        &self.buffer
    }
}

} // verus!
