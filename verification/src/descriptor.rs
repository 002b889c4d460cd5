//! File descriptors: a size and three block numbers, stored as four
//! little-endian 32-bit integers, 32 descriptors to a block in blocks 1 to 6.
use vstd::prelude::*;
use crate::byte_utils::{i32_at, i32_le_bytes, read_i32, write_i32, lemma_i32_round_trip};
use crate::constants::{DESCRIPTOR_SIZE, DESCRIPTORS_PER_BLOCK};

verus! {

/// A file descriptor in memory: size -1 marks a free descriptor.
#[derive(Debug, Clone, Copy)]
pub struct FileDescriptor {
    pub size: i32,
    pub blocks: [i32; 3],
}

impl FileDescriptor {
    /// A free descriptor: size -1, no blocks.
    pub fn new_free() -> (d: Self)
        ensures
            d.size == -1,
            d.blocks@ == seq![0i32, 0i32, 0i32],
    {
        FileDescriptor { size: -1, blocks: [0, 0, 0] }
    }

    /// An empty file's descriptor: size 0, no blocks.
    pub fn new_empty() -> (d: Self)
        ensures
            d.size == 0,
            d.blocks@ == seq![0i32, 0i32, 0i32],
    {
        FileDescriptor { size: 0, blocks: [0, 0, 0] }
    }

    /// Whether the descriptor is free.
    pub fn is_free(&self) -> (free: bool)
        ensures
            free == (self.size == -1),
    {
        self.size == -1
    }
}

/// Byte offset of slot `slot` within a descriptor block.
pub open spec fn slot_offset(slot: int) -> int {
    slot * DESCRIPTOR_SIZE
}

/// The size field of the descriptor in slot `slot` of a block.
pub open spec fn slot_size(data: Seq<u8>, slot: int) -> int {
    i32_at(data, slot_offset(slot))
}

/// Block number `b` (0, 1 or 2) of the descriptor in slot `slot` of a block.
pub open spec fn slot_block(data: Seq<u8>, slot: int, b: int) -> int {
    i32_at(data, slot_offset(slot) + 4 + 4 * b)
}

/// The sixteen bytes that store a descriptor.
pub open spec fn descriptor_bytes(desc: FileDescriptor) -> Seq<u8> {
    i32_le_bytes(desc.size as int) + i32_le_bytes(desc.blocks[0] as int) + i32_le_bytes(
        desc.blocks[1] as int,
    ) + i32_le_bytes(desc.blocks[2] as int)
}

/// The disk block that holds descriptor `index`: descriptors 0-31 are in block 1,
/// 32-63 in block 2, and so on.
pub fn descriptor_block(index: usize) -> (block: usize)
    ensures
        block == 1 + index / DESCRIPTORS_PER_BLOCK,
{
    1 + (index / DESCRIPTORS_PER_BLOCK)
}

/// Reads the descriptor in slot `index_in_block` of a descriptor block.
pub fn read_descriptor(block_data: &[u8], index_in_block: usize) -> (desc: FileDescriptor)
    requires
        (index_in_block + 1) * DESCRIPTOR_SIZE <= block_data@.len(),
    ensures
        desc.size == slot_size(block_data@, index_in_block as int),
        forall|b: int| 0 <= b < 3 ==> #[trigger] desc.blocks[b] == slot_block(block_data@, index_in_block as int, b),
{
    let len = block_data.len();
    assert(index_in_block * DESCRIPTOR_SIZE + DESCRIPTOR_SIZE == (index_in_block + 1) * DESCRIPTOR_SIZE);
    let offset = index_in_block * DESCRIPTOR_SIZE;
    FileDescriptor {
        size: read_i32(block_data, offset),
        blocks: [
            read_i32(block_data, offset + 4),
            read_i32(block_data, offset + 8),
            read_i32(block_data, offset + 12),
        ],
    }
}

/// Writes a descriptor into slot `index_in_block` of a descriptor block; the
/// bytes of the other slots stay.
pub fn write_descriptor(block_data: &mut [u8], index_in_block: usize, desc: &FileDescriptor)
    requires
        (index_in_block + 1) * DESCRIPTOR_SIZE <= old(block_data)@.len(),
    ensures
        final(block_data)@.len() == old(block_data)@.len(),
        final(block_data)@.subrange(
            slot_offset(index_in_block as int),
            slot_offset(index_in_block as int) + DESCRIPTOR_SIZE,
        ) == descriptor_bytes(*desc),
        slot_size(final(block_data)@, index_in_block as int) == desc.size,
        forall|b: int| 0 <= b < 3 ==> #[trigger] slot_block(final(block_data)@, index_in_block as int, b) == desc.blocks[b],
        forall|k: int|
            0 <= k < old(block_data)@.len() && !(slot_offset(index_in_block as int) <= k
                < slot_offset(index_in_block as int) + DESCRIPTOR_SIZE) ==> #[trigger] final(block_data)@[k]
                == old(block_data)@[k],
{
    let len = block_data.len();
    assert(index_in_block * DESCRIPTOR_SIZE + DESCRIPTOR_SIZE == (index_in_block + 1) * DESCRIPTOR_SIZE);
    let offset = index_in_block * DESCRIPTOR_SIZE;
    let ghost d0 = block_data@;
    write_i32(block_data, offset, desc.size);
    let ghost d1 = block_data@;
    write_i32(block_data, offset + 4, desc.blocks[0]);
    let ghost d2 = block_data@;
    write_i32(block_data, offset + 8, desc.blocks[1]);
    let ghost d3 = block_data@;
    write_i32(block_data, offset + 12, desc.blocks[2]);
    proof {
        let d4 = block_data@;
        let o = offset as int;
        assert(d4.subrange(o, o + 4) =~= d1.subrange(o, o + 4));
        assert(d4.subrange(o + 4, o + 8) =~= d2.subrange(o + 4, o + 8));
        assert(d4.subrange(o + 8, o + 12) =~= d3.subrange(o + 8, o + 12));
        assert(d4.subrange(o, o + 16) =~= descriptor_bytes(*desc));
        lemma_i32_round_trip(d4, o, desc.size as int);
        lemma_i32_round_trip(d4, o + 4, desc.blocks[0] as int);
        lemma_i32_round_trip(d4, o + 8, desc.blocks[1] as int);
        lemma_i32_round_trip(d4, o + 12, desc.blocks[2] as int);
        assert forall|b: int| 0 <= b < 3 implies #[trigger] slot_block(d4, index_in_block as int, b) == desc.blocks[b] by {
            if b == 1 {
                assert(o + 4 + 4 * b == o + 8);
            } else if b == 2 {
                assert(o + 4 + 4 * b == o + 12);
            }
        }
    }
}

} // verus!
