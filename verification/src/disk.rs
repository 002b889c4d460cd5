//! The emulated disk: 64 blocks of 512 bytes, read and written a block at a
//! time through an input and an output buffer.
use vstd::prelude::*;
use crate::constants::{BLOCK_SIZE, NUM_BLOCKS};

verus! {

/// Why a disk access failed.
#[derive(Debug, Clone, Copy, PartialEq, Eq)]
pub enum DiskError {
    /// The block number is past the last block.
    BlockOutOfRange,
}

/// The disk D[64][512] with its I/O buffers I[512] and O[512].
pub struct Disk {
    data: [[u8; BLOCK_SIZE]; NUM_BLOCKS],
    /// Receives a block on `read_block`.
    pub input_buffer: [u8; BLOCK_SIZE],
    /// Supplies a block on `write_block`.
    pub output_buffer: [u8; BLOCK_SIZE],
}

/// A block of zero bytes.
pub open spec fn zero_block() -> Seq<u8> {
    Seq::new(BLOCK_SIZE as nat, |k: int| 0u8)
}

impl Disk {
    /// The contents of block `i`.
    pub closed spec fn block(&self, i: int) -> Seq<u8> {
        self.data@[i]@
    }

    /// The input buffer I.
    pub closed spec fn input(&self) -> Seq<u8> {
        self.input_buffer@
    }

    /// The output buffer O.
    pub closed spec fn output(&self) -> Seq<u8> {
        self.output_buffer@
    }

    /// Fills the output buffer with `block`.
    pub fn set_output(&mut self, block: &[u8; BLOCK_SIZE])
        ensures
            final(self).output() == block@,
            final(self).input() == old(self).input(),
            forall|b: int| #[trigger] final(self).block(b) == old(self).block(b),
    {
        self.output_buffer = *block;
    }

    /// A copy of the input buffer.
    pub fn input_copy(&self) -> (block: [u8; BLOCK_SIZE])
        ensures
            block@ == self.input(),
    {
        self.input_buffer
    }

    /// A zeroed disk with zeroed buffers.
    pub fn new() -> (d: Self)
        ensures
            forall|i: int| 0 <= i < NUM_BLOCKS ==> #[trigger] d.block(i) == zero_block(),
            d.input() == zero_block(),
            d.output() == zero_block(),
    {
        let d = Disk {
            data: [[0u8; BLOCK_SIZE]; NUM_BLOCKS],
            input_buffer: [0u8; BLOCK_SIZE],
            output_buffer: [0u8; BLOCK_SIZE],
        };
        assert(d.input() =~= zero_block());
        assert(d.output() =~= zero_block());
        assert forall|i: int| 0 <= i < NUM_BLOCKS implies #[trigger] d.block(i) == zero_block() by {
            assert(d.block(i) =~= zero_block());
        }
        d
    }

    /// Copies block `i` into the input buffer; fails past the last block.
    pub fn read_block(&mut self, i: usize) -> (r: Result<(), DiskError>)
        ensures
            i < NUM_BLOCKS <==> r is Ok,
            r is Ok ==> final(self).input() == old(self).block(i as int),
            r is Err ==> final(self).input() == old(self).input(),
            final(self).output() == old(self).output(),
            forall|b: int| 0 <= b < NUM_BLOCKS ==> #[trigger] final(self).block(b) == old(self).block(b),
    {
        if i >= NUM_BLOCKS {
            return Err(DiskError::BlockOutOfRange);
        }
        self.input_buffer = self.data[i];
        Ok(())
    }

    /// Copies the output buffer into block `i`; fails past the last block.
    pub fn write_block(&mut self, i: usize) -> (r: Result<(), DiskError>)
        ensures
            i < NUM_BLOCKS <==> r is Ok,
            r is Ok ==> final(self).block(i as int) == old(self).output(),
            forall|b: int| 0 <= b < NUM_BLOCKS && (b != i || r is Err) ==> #[trigger] final(self).block(b) == old(self).block(b),
            final(self).input() == old(self).input(),
            final(self).output() == old(self).output(),
    {
        if i >= NUM_BLOCKS {
            return Err(DiskError::BlockOutOfRange);
        }
        self.data[i] = self.output_buffer;
        Ok(())
    }
}

/// Two disks with the same blocks and the same buffers are the same disk.
pub proof fn lemma_disk_ext(a: Disk, b: Disk)
    requires
        forall|i: int| 0 <= i < NUM_BLOCKS ==> #[trigger] a.block(i) == b.block(i),
        a.input() == b.input(),
        a.output() == b.output(),
    ensures
        a == b,
{
    assert forall|i: int| 0 <= i < NUM_BLOCKS implies #[trigger] a.data[i] == b.data[i] by {
        assert(a.block(i) == b.block(i));
        assert(a.data[i] =~= b.data[i]);
    }
    assert(a.data =~= b.data);
    assert(a.input_buffer =~= b.input_buffer);
    assert(a.output_buffer =~= b.output_buffer);
}

/// Reading a block back after writing it gives what was in the output buffer
/// at the write: `after_write` and `after_read` are the disks that
/// `write_block(i)` and then `read_block(i)` leave.
pub proof fn law_disk_write_then_read(before: Disk, after_write: Disk, after_read: Disk, i: int)
    requires
        0 <= i < NUM_BLOCKS,
        after_write.block(i) == before.output(),
        after_read.input() == after_write.block(i),
    ensures
        after_read.input() == before.output(),
{
}

} // verus!
