//! The block bitmap: one bit per disk block in the first bytes of block 0;
//! a set bit marks an occupied block, a clear bit a free one.
use vstd::prelude::*;
use crate::constants::NUM_BLOCKS;

verus! {

/// The mask of bit `pos` within a byte.
pub open spec fn bit_mask(pos: int) -> u8 {
    1u8 << (pos as u8)
}

/// Whether the bit of block `block` is set in `data`.
pub open spec fn bit_is_set(data: Seq<u8>, block: int) -> bool {
    data[block / 8] & bit_mask(block % 8) != 0
}

/// Whether `block` counts as occupied: blocks past the disk always do.
pub open spec fn block_occupied(data: Seq<u8>, block: int) -> bool {
    block >= NUM_BLOCKS || bit_is_set(data, block)
}

/// The bitmap with the bit of `block` set.
pub open spec fn with_bit_set(data: Seq<u8>, block: int) -> Seq<u8> {
    data.update(block / 8, data[block / 8] | bit_mask(block % 8))
}

/// The bitmap with the bit of `block` cleared.
pub open spec fn with_bit_cleared(data: Seq<u8>, block: int) -> Seq<u8> {
    data.update(block / 8, data[block / 8] & !bit_mask(block % 8))
}

/// Setting bit `p` of a byte sets it and keeps the others.
proof fn lemma_set_bit(x: u8, p: u8, q: u8)
    requires
        p < 8,
        q < 8,
    ensures
        ((x | (1u8 << p)) & (1u8 << q) != 0) == (p == q || x & (1u8 << q) != 0),
{
    assert(((x | (1u8 << p)) & (1u8 << q) != 0) == (p == q || x & (1u8 << q) != 0))
        by (bit_vector)
        requires
            p < 8,
            q < 8,
    ;
}

/// Clearing bit `p` of a byte clears it and keeps the others.
proof fn lemma_clear_bit(x: u8, p: u8, q: u8)
    requires
        p < 8,
        q < 8,
    ensures
        ((x & !(1u8 << p)) & (1u8 << q) != 0) == (p != q && x & (1u8 << q) != 0),
{
    assert(((x & !(1u8 << p)) & (1u8 << q) != 0) == (p != q && x & (1u8 << q) != 0))
        by (bit_vector)
        requires
            p < 8,
            q < 8,
    ;
}

/// Whether block `block_num` is occupied; numbers past the disk count as occupied.
pub fn is_block_occupied(bitmap_data: &[u8], block_num: usize) -> (occupied: bool)
    requires
        block_num < NUM_BLOCKS ==> block_num / 8 < bitmap_data@.len(),
    ensures
        occupied == block_occupied(bitmap_data@, block_num as int),
{
    if block_num >= NUM_BLOCKS {
        return true;
    }
    let byte_index = block_num / 8;
    let bit_position = block_num % 8;
    let mask = 1u8 << (bit_position as u8);
    (bitmap_data[byte_index] & mask) != 0
}

/// Marks block `block_num` occupied; numbers past the disk are ignored.
pub fn set_block_occupied(bitmap_data: &mut [u8], block_num: usize)
    requires
        block_num < NUM_BLOCKS ==> block_num / 8 < old(bitmap_data)@.len(),
    ensures
        final(bitmap_data)@.len() == old(bitmap_data)@.len(),
        block_num >= NUM_BLOCKS ==> final(bitmap_data)@ == old(bitmap_data)@,
        block_num < NUM_BLOCKS ==> final(bitmap_data)@ == with_bit_set(old(bitmap_data)@, block_num as int),
        block_num < NUM_BLOCKS ==> bit_is_set(final(bitmap_data)@, block_num as int),
        forall|b: int|
            0 <= b < 8 * old(bitmap_data)@.len() && b != block_num ==> #[trigger] bit_is_set(final(bitmap_data)@, b)
                == bit_is_set(old(bitmap_data)@, b),
        forall|k: int|
            NUM_BLOCKS / 8 <= k < old(bitmap_data)@.len() ==> #[trigger] final(bitmap_data)@[k]
                == old(bitmap_data)@[k],
{
    if block_num >= NUM_BLOCKS {
        return;
    }
    let byte_index = block_num / 8;
    let bit_position = block_num % 8;
    let mask = 1u8 << (bit_position as u8);
    bitmap_data[byte_index] = bitmap_data[byte_index] | mask;
    proof {
        assert forall|b: int| 0 <= b < 8 * old(bitmap_data)@.len() implies #[trigger] bit_is_set(bitmap_data@, b)
            == (b == block_num || bit_is_set(old(bitmap_data)@, b)) by {
            if b / 8 == byte_index {
                lemma_set_bit(old(bitmap_data)@[b / 8], bit_position as u8, (b % 8) as u8);
            }
        }
    }
}

/// Marks block `block_num` free; numbers past the disk are ignored.
pub fn set_block_free(bitmap_data: &mut [u8], block_num: usize)
    requires
        block_num < NUM_BLOCKS ==> block_num / 8 < old(bitmap_data)@.len(),
    ensures
        final(bitmap_data)@.len() == old(bitmap_data)@.len(),
        block_num >= NUM_BLOCKS ==> final(bitmap_data)@ == old(bitmap_data)@,
        block_num < NUM_BLOCKS ==> final(bitmap_data)@ == with_bit_cleared(old(bitmap_data)@, block_num as int),
        block_num < NUM_BLOCKS ==> !bit_is_set(final(bitmap_data)@, block_num as int),
        forall|b: int|
            0 <= b < 8 * old(bitmap_data)@.len() && b != block_num ==> #[trigger] bit_is_set(final(bitmap_data)@, b)
                == bit_is_set(old(bitmap_data)@, b),
        forall|k: int|
            NUM_BLOCKS / 8 <= k < old(bitmap_data)@.len() ==> #[trigger] final(bitmap_data)@[k]
                == old(bitmap_data)@[k],
{
    if block_num >= NUM_BLOCKS {
        return;
    }
    let byte_index = block_num / 8;
    let bit_position = block_num % 8;
    let mask = !(1u8 << (bit_position as u8));
    bitmap_data[byte_index] = bitmap_data[byte_index] & mask;
    proof {
        assert forall|b: int| 0 <= b < 8 * old(bitmap_data)@.len() implies #[trigger] bit_is_set(bitmap_data@, b)
            == (b != block_num && bit_is_set(old(bitmap_data)@, b)) by {
            if b / 8 == byte_index {
                lemma_clear_bit(old(bitmap_data)@[b / 8], bit_position as u8, (b % 8) as u8);
            }
        }
    }
}

/// The lowest free block, or `None` when every block is occupied. A bitmap
/// shorter than the 64 bits must show a free block before its end.
pub fn find_free_block(bitmap_data: &[u8]) -> (found: Option<usize>)
    requires
        bitmap_data@.len() >= NUM_BLOCKS / 8
            || exists|b: int| 0 <= b < 8 * bitmap_data@.len() && !#[trigger] bit_is_set(bitmap_data@, b),
    ensures
        match found {
            Some(b) => {
                &&& b < NUM_BLOCKS
                &&& !bit_is_set(bitmap_data@, b as int)
                &&& forall|c: int| 0 <= c < b ==> #[trigger] bit_is_set(bitmap_data@, c)
            },
            None => forall|c: int| 0 <= c < NUM_BLOCKS ==> #[trigger] bit_is_set(bitmap_data@, c),
        },
{
    let mut block_num: usize = 0;
    while block_num < NUM_BLOCKS
        invariant
            block_num <= NUM_BLOCKS,
            bitmap_data@.len() >= NUM_BLOCKS / 8
                || exists|b: int| 0 <= b < 8 * bitmap_data@.len() && !#[trigger] bit_is_set(bitmap_data@, b),
            forall|c: int| 0 <= c < block_num ==> #[trigger] bit_is_set(bitmap_data@, c),
        decreases NUM_BLOCKS - block_num,
    {
        proof {
            if bitmap_data@.len() < NUM_BLOCKS / 8 && block_num / 8 >= bitmap_data@.len() {
                // every bit of the short bitmap is set, against the free one it has
                let b = choose|b: int| 0 <= b < 8 * bitmap_data@.len() && !#[trigger] bit_is_set(bitmap_data@, b);
                assert(bit_is_set(bitmap_data@, b));
            }
        }
        if !is_block_occupied(bitmap_data, block_num) {
            return Some(block_num);
        }
        block_num = block_num + 1;
    }
    None
}

/// Freeing a block that was free before it was marked occupied gives back the
/// bitmap as it was; marking a block that was occupied before it was freed does too.
pub proof fn law_set_free_round_trip(data: Seq<u8>, block: int)
    requires
        0 <= block < NUM_BLOCKS,
        block / 8 < data.len(),
    ensures
        !bit_is_set(data, block) ==> with_bit_cleared(with_bit_set(data, block), block) == data,
        bit_is_set(data, block) ==> with_bit_set(with_bit_cleared(data, block), block) == data,
{
    let x = data[block / 8];
    let p = (block % 8) as u8;
    assert((x & (1u8 << p)) == 0 ==> ((x | (1u8 << p)) & !(1u8 << p)) == x) by (bit_vector)
        requires
            p < 8,
    ;
    assert((x & (1u8 << p)) != 0 ==> ((x & !(1u8 << p)) | (1u8 << p)) == x) by (bit_vector)
        requires
            p < 8,
    ;
    assert(with_bit_cleared(with_bit_set(data, block), block) =~= data || bit_is_set(data, block));
    assert(with_bit_set(with_bit_cleared(data, block), block) =~= data || !bit_is_set(data, block));
}

} // verus!
