//! The file system state and its bookkeeping: the reserved-block cache that
//! holds the bitmap and the descriptors, and (re)initialisation.
use vstd::prelude::*;
use crate::bitmap::{bit_is_set, find_free_block, is_block_occupied, set_block_free, set_block_occupied};
use crate::byte_utils::{i32_at, lemma_i32_at_frame};
use crate::constants::{
    BITMAP_BLOCK, BLOCK_SIZE, DESCRIPTORS_PER_BLOCK, DESCRIPTOR_SIZE, DIRECTORY_BLOCK,
    DIR_ENTRY_SIZE, MAX_FILE_BLOCKS, MAX_FILE_SIZE, NUM_BLOCKS, NUM_DESCRIPTORS, OFT_SIZE, RESERVED_BLOCKS,
};
use crate::descriptor::{
    descriptor_block, read_descriptor, slot_block, slot_size, write_descriptor, FileDescriptor,
};
use crate::directory::{entry_index, entry_name};
use crate::disk::{zero_block, Disk};
use crate::oft::{OFTEntry, OFT};

verus! {

/// The whole file system: the disk, the open file table, the user memory M
/// and the cached reserved blocks 0-6 (bitmap and descriptors).
pub struct FileSystem {
    pub(crate) disk: Disk,
    pub(crate) oft: OFT,
    /// The user memory M[512].
    pub memory: [u8; BLOCK_SIZE],
    pub(crate) reserved_cache: [[u8; BLOCK_SIZE]; RESERVED_BLOCKS],
}

/// The contents `c` with byte `p` set to `x`, or `x` appended when `p` is its length.
pub open spec fn put_at(c: Seq<u8>, p: int, x: u8) -> Seq<u8> {
    if p < c.len() {
        c.update(p, x)
    } else {
        c.push(x)
    }
}

/// Byte `k` of cached reserved block `b` right after initialisation: in the
/// bitmap (block 0) only the bits of blocks 0-7 are set; in the descriptor
/// blocks (1-6) descriptor 0 has size 0 and first block 7, and every other
/// descriptor has size -1 (four bytes 0xFF) and no blocks.
pub open spec fn initial_cache_byte(b: int, k: int) -> u8 {
    if b == 0 {
        if k == 0 {
            0xFFu8
        } else {
            0u8
        }
    } else if b == 1 && k < DESCRIPTOR_SIZE {
        if k == 4 {
            7u8
        } else {
            0u8
        }
    } else if k % (DESCRIPTOR_SIZE as int) < 4 {
        0xFFu8
    } else {
        0u8
    }
}

/// Cached reserved block `b` right after initialisation.
pub open spec fn initial_cache(b: int) -> Seq<u8> {
    Seq::new(BLOCK_SIZE as nat, |k: int| initial_cache_byte(b, k))
}

/// The four bytes at `o` that decode to -1, 0 or 7 are those of that value.
proof fn lemma_field_bytes(data: Seq<u8>, o: int, v: int)
    requires
        0 <= o,
        o + 4 <= data.len(),
        i32_at(data, o) == v,
        v == -1 || v == 0 || v == 7,
    ensures
        data[o] == (if v == -1 { 0xFFu8 } else { v as u8 }),
        data[o + 1] == (if v == -1 { 0xFFu8 } else { 0u8 }),
        data[o + 2] == (if v == -1 { 0xFFu8 } else { 0u8 }),
        data[o + 3] == (if v == -1 { 0xFFu8 } else { 0u8 }),
{
}

/// A byte with all eight bits set is 0xFF; one with none set is 0.
proof fn lemma_byte_bits(x: u8)
    ensures
        (x & (1u8 << 0u8) != 0 && x & (1u8 << 1u8) != 0 && x & (1u8 << 2u8) != 0 && x & (1u8 << 3u8) != 0 && x & (1u8
            << 4u8) != 0 && x & (1u8 << 5u8) != 0 && x & (1u8 << 6u8) != 0 && x & (1u8 << 7u8) != 0) ==> x == 0xFFu8,
        (x & (1u8 << 0u8) == 0 && x & (1u8 << 1u8) == 0 && x & (1u8 << 2u8) == 0 && x & (1u8 << 3u8) == 0 && x & (1u8
            << 4u8) == 0 && x & (1u8 << 5u8) == 0 && x & (1u8 << 6u8) == 0 && x & (1u8 << 7u8) == 0) ==> x == 0u8,
{
    assert((x & (1u8 << 0u8) != 0 && x & (1u8 << 1u8) != 0 && x & (1u8 << 2u8) != 0 && x & (1u8 << 3u8) != 0 && x & (1u8
        << 4u8) != 0 && x & (1u8 << 5u8) != 0 && x & (1u8 << 6u8) != 0 && x & (1u8 << 7u8) != 0) ==> x == 0xFFu8)
        by (bit_vector);
    assert((x & (1u8 << 0u8) == 0 && x & (1u8 << 1u8) == 0 && x & (1u8 << 2u8) == 0 && x & (1u8 << 3u8) == 0 && x & (1u8
        << 4u8) == 0 && x & (1u8 << 5u8) == 0 && x & (1u8 << 6u8) == 0 && x & (1u8 << 7u8) == 0) ==> x == 0u8)
        by (bit_vector);
}

/// A bitmap block with exactly the bits of blocks 0-7 set, and nothing past the
/// 64 bits, is the initial one.
proof fn lemma_initial_bitmap(bitmap: Seq<u8>)
    requires
        bitmap.len() == BLOCK_SIZE,
        forall|b: int| 0 <= b < NUM_BLOCKS ==> (#[trigger] bit_is_set(bitmap, b) <==> b < DIRECTORY_BLOCK + 1),
        forall|k: int| NUM_BLOCKS / 8 <= k < BLOCK_SIZE ==> #[trigger] bitmap[k] == 0,
    ensures
        bitmap == initial_cache(0),
{
    assert forall|k: int| 0 <= k < NUM_BLOCKS / 8 implies #[trigger] bitmap[k] == initial_cache_byte(0, k) by {
        let x = bitmap[k];
        lemma_byte_bits(x);
        assert(bit_is_set(bitmap, 8 * k) == (x & (1u8 << 0u8) != 0));
        assert(bit_is_set(bitmap, 8 * k + 1) == (x & (1u8 << 1u8) != 0));
        assert(bit_is_set(bitmap, 8 * k + 2) == (x & (1u8 << 2u8) != 0));
        assert(bit_is_set(bitmap, 8 * k + 3) == (x & (1u8 << 3u8) != 0));
        assert(bit_is_set(bitmap, 8 * k + 4) == (x & (1u8 << 4u8) != 0));
        assert(bit_is_set(bitmap, 8 * k + 5) == (x & (1u8 << 5u8) != 0));
        assert(bit_is_set(bitmap, 8 * k + 6) == (x & (1u8 << 6u8) != 0));
        assert(bit_is_set(bitmap, 8 * k + 7) == (x & (1u8 << 7u8) != 0));
    }
    assert(bitmap =~= initial_cache(0));
}

/// Both descriptors' fields are equal in the two slot bytes.
proof fn lemma_slot_frame(a: Seq<u8>, b: Seq<u8>, slot: int)
    requires
        0 <= slot < DESCRIPTORS_PER_BLOCK,
        a.len() == BLOCK_SIZE,
        b.len() == BLOCK_SIZE,
        forall|k: int| slot * 16 <= k < slot * 16 + 16 ==> a[k] == b[k],
    ensures
        slot_size(a, slot) == slot_size(b, slot),
        forall|x: int| 0 <= x < 3 ==> #[trigger] slot_block(a, slot, x) == slot_block(b, slot, x),
{
    lemma_i32_at_frame(a, b, slot * 16);
    lemma_i32_at_frame(a, b, slot * 16 + 4);
    lemma_i32_at_frame(a, b, slot * 16 + 8);
    lemma_i32_at_frame(a, b, slot * 16 + 12);
    assert forall|x: int| 0 <= x < 3 implies #[trigger] slot_block(a, slot, x) == slot_block(b, slot, x) by {
        if x == 1 {
            assert(slot * 16 + 4 + 4 * x == slot * 16 + 8);
        } else if x == 2 {
            assert(slot * 16 + 4 + 4 * x == slot * 16 + 12);
        }
    }
}

impl FileSystem {
    /// Cached reserved block `blk` (0 = bitmap, 1-6 = descriptors).
    pub closed spec fn cache(&self, blk: int) -> Seq<u8> {
        self.reserved_cache@[blk]@
    }

    /// Disk block `blk` as it stands on the disk.
    pub closed spec fn disk_block(&self, blk: int) -> Seq<u8> {
        self.disk.block(blk)
    }

    /// Entry `j` of the open file table.
    pub closed spec fn entry(&self, j: int) -> OFTEntry {
        self.oft@[j]
    }

    /// The user memory M.
    pub closed spec fn mem(&self) -> Seq<u8> {
        self.memory@
    }

    /// The disk's input buffer.
    pub closed spec fn disk_input(&self) -> Seq<u8> {
        self.disk.input()
    }

    /// The disk's output buffer.
    pub closed spec fn disk_output(&self) -> Seq<u8> {
        self.disk.output()
    }

    /// Whether the bitmap marks block `b` occupied.
    pub open spec fn occupied(&self, b: int) -> bool {
        bit_is_set(self.cache(BITMAP_BLOCK as int), b)
    }

    /// The size field of descriptor `i` (-1 when free).
    pub open spec fn dsize(&self, i: int) -> int {
        slot_size(self.cache(1 + i / DESCRIPTORS_PER_BLOCK as int), i % DESCRIPTORS_PER_BLOCK as int)
    }

    /// Block number `b` of descriptor `i` (0 when none).
    pub open spec fn dblock(&self, i: int, b: int) -> int {
        slot_block(self.cache(1 + i / DESCRIPTORS_PER_BLOCK as int), i % DESCRIPTORS_PER_BLOCK as int, b)
    }

    /// The open file table has its four entries.
    pub closed spec fn shape(&self) -> bool {
        &&& self.oft@.len() == OFT_SIZE
    }

    /// Whether descriptor `i` is the one the initial state gives it.
    pub open spec fn initial_descriptor(&self, i: int) -> bool {
        if i == 0 {
            self.dsize(0) == 0 && self.dblock(0, 0) == DIRECTORY_BLOCK && self.dblock(0, 1) == 0
                && self.dblock(0, 2) == 0
        } else {
            self.dsize(i) == -1 && self.dblock(i, 0) == 0 && self.dblock(i, 1) == 0 && self.dblock(i, 2) == 0
        }
    }

    /// The descriptor table and bitmap of a freshly initialised system.
    pub open spec fn initial_tables(&self) -> bool {
        &&& forall|b: int| 0 <= b < NUM_BLOCKS ==> (#[trigger] self.occupied(b) <==> b <= DIRECTORY_BLOCK)
        &&& forall|i: int| 0 <= i < NUM_DESCRIPTORS ==> #[trigger] self.initial_descriptor(i)
    }

    /// Writes descriptor `desc_index` into the cache; no other descriptor, the
    /// bitmap, the disk, the table or the memory changes.
    pub(crate) fn write_descriptor(&mut self, desc_index: usize, desc: &FileDescriptor)
        requires
            desc_index < NUM_DESCRIPTORS,
        ensures
            final(self).dsize(desc_index as int) == desc.size,
            forall|b: int| 0 <= b < 3 ==> #[trigger] final(self).dblock(desc_index as int, b) == desc.blocks[b],
            forall|i: int|
                0 <= i < NUM_DESCRIPTORS && i != desc_index ==> #[trigger] final(self).dsize(i) == old(self).dsize(i),
            forall|i: int, b: int|
                0 <= i < NUM_DESCRIPTORS && i != desc_index && 0 <= b < 3 ==> #[trigger] final(self).dblock(i, b)
                    == old(self).dblock(i, b),
            final(self).cache(0) == old(self).cache(0),
            final(self).disk == old(self).disk,
            final(self).oft == old(self).oft,
            final(self).memory == old(self).memory,
    {
        let block_in_cache = descriptor_block(desc_index);
        let index_in_block = desc_index % DESCRIPTORS_PER_BLOCK;
        let ghost before = *self;
        write_descriptor(&mut self.reserved_cache[block_in_cache], index_in_block, desc);
        proof {
            assert forall|i: int| 0 <= i < NUM_DESCRIPTORS && i != desc_index implies
                #[trigger] self.dsize(i) == before.dsize(i) && forall|b: int| 0 <= b < 3 ==> #[trigger] self.dblock(i, b)
                    == before.dblock(i, b) by {
                let bi = 1 + i / 32;
                if bi == block_in_cache {
                    let s = i % 32;
                    assert(s != index_in_block);
                    lemma_slot_frame(self.cache(bi), before.cache(bi), s);
                } else {
                    assert(self.cache(bi) == before.cache(bi));
                }
            }
            assert forall|i: int, b: int|
                0 <= i < NUM_DESCRIPTORS && i != desc_index && 0 <= b < 3 implies #[trigger] self.dblock(i, b)
                    == before.dblock(i, b) by {
                assert(self.dsize(i) == before.dsize(i));
            }
        }
    }

    /// Reads descriptor `desc_index` from the cache.
    pub(crate) fn read_descriptor(&self, desc_index: usize) -> (d: FileDescriptor)
        requires
            desc_index < NUM_DESCRIPTORS,
        ensures
            d.size == self.dsize(desc_index as int),
            forall|b: int| 0 <= b < 3 ==> #[trigger] d.blocks[b] == self.dblock(desc_index as int, b),
    {
        let block_in_cache = descriptor_block(desc_index);
        let index_in_block = desc_index % DESCRIPTORS_PER_BLOCK;
        read_descriptor(&self.reserved_cache[block_in_cache], index_in_block)
    }

    /// Whether entry `j` of the open file table is in use.
    pub open spec fn is_open(&self, j: int) -> bool {
        self.entry(j).current_pos != -1
    }

    /// The descriptor index that entry `j` holds.
    pub open spec fn open_desc(&self, j: int) -> int {
        self.entry(j).descriptor_index as int
    }

    /// The current position of entry `j`.
    pub open spec fn pos(&self, j: int) -> int {
        self.entry(j).current_pos as int
    }

    /// Whether entry `j` holds descriptor `d` open.
    pub open spec fn holds(&self, j: int, d: int) -> bool {
        self.is_open(j) && self.open_desc(j) == d
    }

    /// The entry that holds descriptor `d` open, or -1.
    pub open spec fn holder(&self, d: int) -> int {
        if self.holds(0, d) {
            0
        } else if self.holds(1, d) {
            1
        } else if self.holds(2, d) {
            2
        } else if self.holds(3, d) {
            3
        } else {
            -1
        }
    }

    /// Byte `k` of the file with descriptor `d`: from the buffer of the entry
    /// that holds it open when `k` lies in the buffered block, else from disk.
    pub open spec fn file_byte(&self, d: int, k: int) -> u8 {
        let j = self.holder(d);
        if j >= 0 && k / BLOCK_SIZE as int == self.pos(j) / BLOCK_SIZE as int {
            self.entry(j).buffer@[k % BLOCK_SIZE as int]
        } else {
            self.disk_block(self.dblock(d, k / BLOCK_SIZE as int))[k % BLOCK_SIZE as int]
        }
    }

    /// The length of the file with descriptor `d` (0 for a free descriptor).
    pub open spec fn file_len(&self, d: int) -> nat {
        if self.dsize(d) < 0 {
            0
        } else {
            self.dsize(d) as nat
        }
    }

    /// The contents of the file with descriptor `d`.
    pub open spec fn content(&self, d: int) -> Seq<u8> {
        Seq::new(self.file_len(d), |k: int| self.file_byte(d, k))
    }

    /// The directory's contents: 8-byte entries of a name and a descriptor index.
    pub open spec fn dir(&self) -> Seq<u8> {
        self.content(0)
    }

    /// The number of directory entries, free ones included.
    pub open spec fn entry_count(&self) -> int {
        self.dsize(0) / DIR_ENTRY_SIZE as int
    }

    /// Whether block slot `b` of descriptor `i` agrees with its size and the bitmap.
    pub open spec fn block_ok(&self, i: int, b: int) -> bool {
        let blk = self.dblock(i, b);
        &&& (self.dsize(i) == -1 ==> blk == 0)
        &&& (b * BLOCK_SIZE < self.dsize(i) ==> blk != 0)
        &&& (blk != 0 ==> DIRECTORY_BLOCK <= blk < NUM_BLOCKS && self.occupied(blk))
    }

    /// Whether descriptor `i` has a legal size.
    pub open spec fn desc_ok(&self, i: int) -> bool {
        self.dsize(i) == -1 || 0 <= self.dsize(i) <= MAX_FILE_SIZE
    }

    /// No disk block belongs to two descriptor slots.
    pub open spec fn blocks_distinct(&self) -> bool {
        forall|i1: int, b1: int, i2: int, b2: int|
            0 <= i1 < NUM_DESCRIPTORS && 0 <= b1 < 3 && 0 <= i2 < NUM_DESCRIPTORS && 0 <= b2 < 3 && (i1
                != i2 || b1 != b2) && self.dblock(i1, b1) != 0 ==> #[trigger] self.dblock(i1, b1)
                != #[trigger] self.dblock(i2, b2)
    }

    /// Whether entry `j` of the open file table agrees with its descriptor.
    pub open spec fn entry_ok(&self, j: int) -> bool {
        self.is_open(j) ==> {
            let d = self.open_desc(j);
            &&& (j == 0 <==> d == 0)
            &&& 0 <= d < NUM_DESCRIPTORS
            &&& self.dsize(d) >= 0
            &&& 0 <= self.pos(j) <= self.dsize(d)
            &&& self.entry(j).size == self.dsize(d)
        }
    }

    /// No descriptor is open in two entries.
    pub open spec fn opens_distinct(&self) -> bool {
        forall|j1: int, j2: int|
            0 <= j1 < OFT_SIZE && 0 <= j2 < OFT_SIZE && j1 != j2 && self.is_open(j1) && self.is_open(j2)
                ==> #[trigger] self.open_desc(j1) != #[trigger] self.open_desc(j2)
    }

    /// The consistency of bitmap, descriptors, blocks and open file table.
    pub open spec fn wf_core(&self) -> bool {
        &&& self.shape()
        &&& forall|b: int| 0 <= b < DIRECTORY_BLOCK ==> #[trigger] self.occupied(b)
        &&& forall|i: int| 0 <= i < NUM_DESCRIPTORS ==> #[trigger] self.desc_ok(i)
        &&& forall|i: int, b: int| 0 <= i < NUM_DESCRIPTORS && 0 <= b < 3 ==> #[trigger] self.block_ok(i, b)
        &&& self.blocks_distinct()
        &&& self.dblock(0, 0) == DIRECTORY_BLOCK
        &&& self.dsize(0) >= 0
        &&& self.is_open(0)
        &&& forall|j: int| 0 <= j < OFT_SIZE ==> #[trigger] self.entry_ok(j)
        &&& self.opens_distinct()
    }

    /// Whether directory entry `e` is free or names a file in use.
    pub open spec fn dir_entry_ok(&self, e: int) -> bool {
        let x = entry_index(self.dir(), e);
        x == 0 || (1 <= x < NUM_DESCRIPTORS && self.dsize(x) >= 0)
    }

    /// The directory's entries point to files in use, no two to the same one,
    /// and no two name the same file.
    pub open spec fn dir_ok(&self) -> bool {
        &&& self.dsize(0) % DIR_ENTRY_SIZE as int == 0
        &&& forall|e: int| 0 <= e < self.entry_count() ==> #[trigger] self.dir_entry_ok(e)
        &&& forall|e1: int, e2: int|
            0 <= e1 < self.entry_count() && 0 <= e2 < self.entry_count() && e1 != e2 && entry_index(
                self.dir(),
                e1,
            ) != 0 ==> #[trigger] entry_index(self.dir(), e1) != #[trigger] entry_index(self.dir(), e2)
        &&& forall|e1: int, e2: int|
            0 <= e1 < self.entry_count() && 0 <= e2 < self.entry_count() && e1 != e2 && entry_index(
                self.dir(),
                e1,
            ) != 0 && entry_index(self.dir(), e2) != 0 ==> #[trigger] entry_name(self.dir(), e1) != #[trigger] entry_name(
                self.dir(),
                e2,
            )
    }

    /// The file system's invariant.
    pub open spec fn wf(&self) -> bool {
        self.wf_core() && self.dir_ok()
    }

    /// Whether the bitmap marks the same blocks occupied as `other`'s.
    pub open spec fn occupied_same_as(&self, other: Self) -> bool {
        forall|b: int| #[trigger] self.occupied(b) == other.occupied(b)
    }

    /// Whether the cached reserved blocks (the bitmap and the descriptors) are
    /// byte for byte `other`'s, so every block is free or occupied as there.
    pub open spec fn tables_same_as(&self, other: Self) -> bool {
        &&& forall|b: int| 0 <= b < RESERVED_BLOCKS ==> #[trigger] self.cache(b) == other.cache(b)
        &&& self.occupied_same_as(other)
    }

    /// Whether all is as in `other` but the directory's own cursor (the position
    /// and buffer of entry 0 of the open file table) and how the disk holds the
    /// files: the files, the directory, the tables, the other entries of the open
    /// file table and the memory.
    pub open spec fn same_but_directory_cursor(&self, other: Self) -> bool {
        &&& self.same_files(other)
        &&& self.tables_same_as(other)
        &&& forall|j: int| 1 <= j < OFT_SIZE ==> #[trigger] self.entry(j) == other.entry(j)
    }

    /// Whether every entry of the open file table but entry `j` is as in `other`.
    pub open spec fn other_entries_same(&self, other: Self, j: int) -> bool {
        forall|j2: int| 0 <= j2 < OFT_SIZE && j2 != j ==> #[trigger] self.entry(j2) == other.entry(j2)
    }

    /// Whether everything but the memory is as in `other`: the disk's blocks and
    /// buffers, the tables and every entry of the open file table.
    pub open spec fn same_but_memory(&self, other: Self) -> bool {
        &&& forall|b: int| 0 <= b < NUM_BLOCKS ==> #[trigger] self.disk_block(b) == other.disk_block(b)
        &&& self.disk_input() == other.disk_input()
        &&& self.disk_output() == other.disk_output()
        &&& forall|b: int| 0 <= b < RESERVED_BLOCKS ==> #[trigger] self.cache(b) == other.cache(b)
        &&& forall|j: int| 0 <= j < OFT_SIZE ==> #[trigger] self.entry(j) == other.entry(j)
    }

    /// The same disk, tables and open file table make all but the memory alike.
    pub(crate) proof fn lemma_same_but_memory(pre: Self, post: Self)
        requires
            post.disk == pre.disk,
            post.oft == pre.oft,
            post.reserved_cache == pre.reserved_cache,
        ensures
            post.same_but_memory(pre),
    {
    }

    /// Two states with the same memory that are alike in all but the memory are
    /// the same state.
    pub proof fn lemma_same_but_memory_ext(a: Self, b: Self)
        requires
            a.same_but_memory(b),
            a.mem() == b.mem(),
        ensures
            a == b,
    {
        assert forall|i: int| 0 <= i < NUM_BLOCKS implies #[trigger] a.disk.block(i) == b.disk.block(i) by {
            assert(a.disk_block(i) == b.disk_block(i));
        }
        crate::disk::lemma_disk_ext(a.disk, b.disk);
        a.oft.lemma_len();
        b.oft.lemma_len();
        assert forall|j: int| 0 <= j < OFT_SIZE implies a.oft@[j] == b.oft@[j] by {
            assert(a.entry(j) == b.entry(j));
        }
        assert(a.oft@ =~= b.oft@);
        OFT::lemma_ext(a.oft, b.oft);
        assert(a.memory =~= b.memory);
        assert forall|i: int| 0 <= i < RESERVED_BLOCKS implies a.reserved_cache[i] == b.reserved_cache[i] by {
            assert(a.cache(i) == b.cache(i));
            assert(a.reserved_cache[i] =~= b.reserved_cache[i]);
        }
        assert(a.reserved_cache =~= b.reserved_cache);
    }

    /// Whether the tables say what `other`'s say: every bit of the bitmap block,
    /// and every descriptor's size and block numbers (which make up every byte
    /// of the descriptor blocks).
    pub open spec fn same_tables(&self, other: Self) -> bool {
        &&& forall|b: int| 0 <= b < 8 * BLOCK_SIZE ==> #[trigger] self.occupied(b) == other.occupied(b)
        &&& forall|i: int| 0 <= i < NUM_DESCRIPTORS ==> #[trigger] self.dsize(i) == other.dsize(i)
        &&& forall|i: int, k: int| 0 <= i < NUM_DESCRIPTORS && 0 <= k < 3 ==> #[trigger] self.dblock(i, k) == other.dblock(
            i,
            k,
        )
    }

    /// Whether the file system looks as `other` does through its view: the same
    /// files and directory, the same open files and positions, the same memory
    /// and the same tables.
    pub open spec fn same_view(&self, other: Self) -> bool {
        self.same_files(other) && self.same_tables(other)
    }

    /// Whether block `b` is one of descriptor `d`'s blocks.
    pub open spec fn owns_block(&self, d: int, b: int) -> bool {
        b != 0 && (self.dblock(d, 0) == b || self.dblock(d, 1) == b || self.dblock(d, 2) == b)
    }

    /// Whether block `b` went to descriptor `d` since `pre`: a slot of `d` that
    /// had no block then holds `b` now.
    pub open spec fn newly_given(&self, pre: Self, d: int, b: int) -> bool {
        b != 0 && ((pre.dblock(d, 0) == 0 && self.dblock(d, 0) == b) || (pre.dblock(d, 1) == 0 && self.dblock(d, 1)
            == b) || (pre.dblock(d, 2) == 0 && self.dblock(d, 2) == b))
    }

    /// Whether the bitmap is `pre`'s with the blocks newly given to descriptor
    /// `d` marked occupied, every bit of the bitmap block counted.
    pub open spec fn bitmap_grown(&self, pre: Self, d: int) -> bool {
        forall|b: int| 0 <= b < 8 * BLOCK_SIZE ==> #[trigger] self.occupied(b) == (pre.occupied(b) || self.newly_given(pre, d, b))
    }

    /// Whether every block newly given to descriptor `d` since `pre` was the
    /// lowest free block when it was given: it was free in `pre`, and every lower
    /// block was occupied in `pre` or was given to a lower slot of `d` before it.
    pub open spec fn lowest_free_given(&self, pre: Self, d: int) -> bool {
        forall|k: int|
            0 <= k < 3 && pre.dblock(d, k) == 0 && #[trigger] self.dblock(d, k) != 0 ==> {
                &&& !pre.occupied(self.dblock(d, k))
                &&& forall|c: int|
                    0 <= c < self.dblock(d, k) ==> #[trigger] pre.occupied(c) || (0 < k && pre.dblock(d, 0) == 0
                        && self.dblock(d, 0) == c) || (1 < k && pre.dblock(d, 1) == 0 && self.dblock(d, 1) == c)
            }
    }

    /// Whether the bitmap is `pre`'s with descriptor `d`'s blocks marked free,
    /// every bit of the bitmap block counted.
    pub open spec fn bitmap_freed(&self, pre: Self, d: int) -> bool {
        forall|b: int| 0 <= b < 8 * BLOCK_SIZE ==> #[trigger] self.occupied(b) == (pre.occupied(b) && !pre.owns_block(d, b))
    }

    /// Whether descriptor `d` got blocks only in slots that had none and that
    /// its size now reaches, and no other descriptor's blocks changed.
    pub open spec fn blocks_grown(&self, pre: Self, d: int) -> bool {
        &&& forall|k: int| 0 <= k < 3 && #[trigger] self.dblock(d, k) != pre.dblock(d, k) ==> pre.dblock(d, k) == 0 && k
            * BLOCK_SIZE < self.dsize(d)
        &&& forall|i: int, k: int| 0 <= i < NUM_DESCRIPTORS && i != d && 0 <= k < 3 ==> #[trigger] self.dblock(i, k)
            == pre.dblock(i, k)
    }

    /// The same cached blocks mean the same tables.
    pub(crate) proof fn lemma_tables_same(pre: Self, post: Self)
        requires
            post.reserved_cache == pre.reserved_cache,
        ensures
            post.tables_same_as(pre),
    {
    }

    /// What stays the same when the tables, the memory, the open files and the
    /// contents do.
    pub(crate) proof fn lemma_unchanged_frame(&self, other: Self)
        requires
            self.unchanged_from(other),
        ensures
            self.same_but_directory_cursor(other),
    {
        self.lemma_unchanged(other);
    }

    /// Giving slot `cur` the lowest free block, at position `pos` in that slot,
    /// keeps every block given since `pre` the lowest free one at its time.
    pub(crate) proof fn lemma_lowest_step(pre: Self, mid: Self, post: Self, d: int, cur: int, pos: int)
        requires
            mid.bitmap_grown(pre, d),
            mid.lowest_free_given(pre, d),
            forall|k: int| 0 <= k < 3 && pre.dblock(d, k) == 0 && #[trigger] mid.dblock(d, k) != 0 ==> k * BLOCK_SIZE <= pos,
            cur == pos / BLOCK_SIZE as int,
            0 <= cur < 3,
            0 <= pos,
            post.dblock(d, cur) != 0,
            mid.dblock(d, cur) != 0 ==> post.dblock(d, cur) == mid.dblock(d, cur),
            forall|k: int| 0 <= k < 3 && k != cur ==> #[trigger] post.dblock(d, k) == mid.dblock(d, k),
            mid.dblock(d, cur) == 0 ==> !mid.occupied(post.dblock(d, cur)) && forall|c: int|
                0 <= c < post.dblock(d, cur) ==> #[trigger] mid.occupied(c),
            mid.dblock(d, cur) == 0 ==> pre.dblock(d, cur) == 0,
            mid.dblock(d, cur) == 0 ==> 0 <= post.dblock(d, cur) < 8 * BLOCK_SIZE,
        ensures
            post.lowest_free_given(pre, d),
            forall|k: int| 0 <= k < 3 && pre.dblock(d, k) == 0 && #[trigger] post.dblock(d, k) != 0 ==> k * BLOCK_SIZE <= pos,
    {
        assert forall|k: int| 0 <= k < 3 && pre.dblock(d, k) == 0 && #[trigger] post.dblock(d, k) != 0 implies k * BLOCK_SIZE
            <= pos by {
            if k != cur {
                assert(post.dblock(d, k) == mid.dblock(d, k));
            }
        }
        assert forall|k: int| 0 <= k < 3 && pre.dblock(d, k) == 0 && #[trigger] post.dblock(d, k) != 0 implies {
            &&& !pre.occupied(post.dblock(d, k))
            &&& forall|c: int|
                0 <= c < post.dblock(d, k) ==> #[trigger] pre.occupied(c) || (0 < k && pre.dblock(d, 0) == 0 && post.dblock(
                    d,
                    0,
                ) == c) || (1 < k && pre.dblock(d, 1) == 0 && post.dblock(d, 1) == c)
        } by {
            let nb = post.dblock(d, k);
            if k == cur && mid.dblock(d, cur) == 0 {
                assert(mid.occupied(nb) == (pre.occupied(nb) || mid.newly_given(pre, d, nb)));
                assert forall|c: int| 0 <= c < nb implies #[trigger] pre.occupied(c) || (0 < k && pre.dblock(d, 0) == 0
                    && post.dblock(d, 0) == c) || (1 < k && pre.dblock(d, 1) == 0 && post.dblock(d, 1) == c) by {
                    assert(mid.occupied(c));
                    assert(mid.occupied(c) == (pre.occupied(c) || mid.newly_given(pre, d, c)));
                    if !pre.occupied(c) {
                        if pre.dblock(d, 0) == 0 && mid.dblock(d, 0) == c && c != 0 {
                            assert(0 < k);
                        } else if pre.dblock(d, 1) == 0 && mid.dblock(d, 1) == c && c != 0 {
                            assert(1 < k);
                        } else {
                            assert(pre.dblock(d, 2) == 0 && mid.dblock(d, 2) == c && c != 0);
                            assert(2 * BLOCK_SIZE <= pos);
                        }
                    }
                }
            } else {
                assert(post.dblock(d, k) == mid.dblock(d, k));
                assert(mid.dblock(d, k) != 0);
                assert forall|c: int| 0 <= c < nb implies #[trigger] pre.occupied(c) || (0 < k && pre.dblock(d, 0) == 0
                    && post.dblock(d, 0) == c) || (1 < k && pre.dblock(d, 1) == 0 && post.dblock(d, 1) == c) by {
                    assert(pre.occupied(c) || (0 < k && pre.dblock(d, 0) == 0 && mid.dblock(d, 0) == c) || (1 < k
                        && pre.dblock(d, 1) == 0 && mid.dblock(d, 1) == c));
                    if cur < k && cur <= 1 && mid.dblock(d, cur) == 0 {
                        assert(k * BLOCK_SIZE <= pos);
                    }
                }
            }
        }
    }

    /// One more block slot filled keeps the bitmap and the block slots grown from `pre`.
    pub(crate) proof fn lemma_grow_step(pre: Self, mid: Self, post: Self, d: int, cur: int)
        requires
            mid.bitmap_grown(pre, d),
            mid.blocks_grown(pre, d),
            0 <= cur < 3,
            post.dblock(d, cur) != 0,
            mid.dblock(d, cur) != 0 ==> post.dblock(d, cur) == mid.dblock(d, cur),
            forall|k: int| 0 <= k < 3 && k != cur ==> #[trigger] post.dblock(d, k) == mid.dblock(d, k),
            forall|c: int| 0 <= c < 8 * BLOCK_SIZE ==> #[trigger] post.occupied(c) == (mid.occupied(c) || (mid.dblock(d, cur)
                == 0 && c == post.dblock(d, cur))),
            forall|i: int, k: int| 0 <= i < NUM_DESCRIPTORS && i != d && 0 <= k < 3 ==> #[trigger] post.dblock(i, k)
                == mid.dblock(i, k),
            post.dsize(d) > cur * BLOCK_SIZE,
            post.dsize(d) >= mid.dsize(d),
        ensures
            post.bitmap_grown(pre, d),
            post.blocks_grown(pre, d),
    {
        assert forall|k: int| 0 <= k < 3 && #[trigger] post.dblock(d, k) != pre.dblock(d, k) implies pre.dblock(d, k) == 0
            && k * BLOCK_SIZE < post.dsize(d) by {
            if k != cur {
                assert(post.dblock(d, k) == mid.dblock(d, k));
            } else if mid.dblock(d, k) != pre.dblock(d, k) {
                assert(pre.dblock(d, k) == 0);
            }
        }
        assert forall|i: int, k: int| 0 <= i < NUM_DESCRIPTORS && i != d && 0 <= k < 3 implies #[trigger] post.dblock(i, k)
            == pre.dblock(i, k) by {
            assert(mid.dblock(i, k) == pre.dblock(i, k));
        }
        assert(post.dblock(d, 0) == mid.dblock(d, 0) || cur == 0);
        assert(post.dblock(d, 1) == mid.dblock(d, 1) || cur == 1);
        assert(post.dblock(d, 2) == mid.dblock(d, 2) || cur == 2);
        assert(mid.dblock(d, cur) == 0 ==> pre.dblock(d, cur) == 0);
        assert forall|c: int| 0 <= c < 8 * BLOCK_SIZE implies #[trigger] post.occupied(c) == (pre.occupied(c)
            || post.newly_given(pre, d, c)) by {
            assert(mid.occupied(c) == (pre.occupied(c) || mid.newly_given(pre, d, c)));
        }
    }

    /// Whether some disk block is free.
    pub open spec fn has_free_block(&self) -> bool {
        exists|b: int| 0 <= b < NUM_BLOCKS && !#[trigger] self.occupied(b)
    }

    // ======================= BITMAP HELPERS ============================ //

    /// Finds the lowest free block and marks it occupied; `None` if the disk is full.
    pub(crate) fn allocate_block(&mut self) -> (found: Option<usize>)
        ensures
            match found {
                Some(b) => {
                    &&& b < NUM_BLOCKS
                    &&& !old(self).occupied(b as int)
                    &&& forall|c: int| 0 <= c < b ==> #[trigger] old(self).occupied(c)
                    &&& forall|c: int| 0 <= c < 8 * BLOCK_SIZE ==> #[trigger] final(self).occupied(c) == (c == b || old(self).occupied(c))
                },
                None => {
                    &&& forall|c: int| 0 <= c < NUM_BLOCKS ==> #[trigger] old(self).occupied(c)
                    &&& *final(self) == *old(self)
                },
            },
            forall|i: int| 1 <= i < RESERVED_BLOCKS ==> #[trigger] final(self).cache(i) == old(self).cache(i),
            final(self).disk == old(self).disk,
            final(self).oft == old(self).oft,
            final(self).memory == old(self).memory,
    {
        let block_num = find_free_block(&self.reserved_cache[BITMAP_BLOCK]);
        match block_num {
            Some(b) => {
                set_block_occupied(&mut self.reserved_cache[BITMAP_BLOCK], b);
                Some(b)
            },
            None => None,
        }
    }

    /// Marks block `block_num` free in the bitmap.
    pub(crate) fn free_block(&mut self, block_num: usize)
        ensures
            forall|c: int| 0 <= c < 8 * BLOCK_SIZE ==> #[trigger] final(self).occupied(c) == (!(c == block_num && block_num
                < NUM_BLOCKS) && old(self).occupied(c)),
            forall|i: int| 1 <= i < RESERVED_BLOCKS ==> #[trigger] final(self).cache(i) == old(self).cache(i),
            final(self).disk == old(self).disk,
            final(self).oft == old(self).oft,
            final(self).memory == old(self).memory,
    {
        set_block_free(&mut self.reserved_cache[BITMAP_BLOCK], block_num);
    }

    /// Whether block `block_num` is occupied (numbers past the disk count as occupied).
    pub(crate) fn is_block_occupied(&self, block_num: usize) -> (occupied: bool)
        ensures
            occupied == (block_num >= NUM_BLOCKS || self.occupied(block_num as int)),
    {
        is_block_occupied(&self.reserved_cache[BITMAP_BLOCK], block_num)
    }

    /// The lowest free descriptor from index 1 on.
    pub(crate) fn find_free_descriptor(&self) -> (found: Option<usize>)
        ensures
            match found {
                Some(i) => 1 <= i < NUM_DESCRIPTORS && self.dsize(i as int) == -1 && forall|c: int|
                    1 <= c < i ==> #[trigger] self.dsize(c) != -1,
                None => forall|c: int| 1 <= c < NUM_DESCRIPTORS ==> #[trigger] self.dsize(c) != -1,
            },
    {
        let mut desc_idx: usize = 1;
        while desc_idx < NUM_DESCRIPTORS
            invariant
                1 <= desc_idx <= NUM_DESCRIPTORS,
                forall|c: int| 1 <= c < desc_idx ==> #[trigger] self.dsize(c) != -1,
            decreases NUM_DESCRIPTORS - desc_idx,
        {
            if self.read_descriptor(desc_idx).is_free() {
                return Some(desc_idx);
            }
            desc_idx = desc_idx + 1;
        }
        None
    }

    /// Descriptor tables as initialisation leaves them are the initial bytes.
    proof fn lemma_initial_cache(&self)
        requires
            forall|i: int| 0 <= i < NUM_DESCRIPTORS ==> #[trigger] self.initial_descriptor(i),
            forall|b: int| 1 <= b < RESERVED_BLOCKS ==> #[trigger] self.cache(b).len() == BLOCK_SIZE,
        ensures
            forall|b: int| 1 <= b < RESERVED_BLOCKS ==> #[trigger] self.cache(b) == initial_cache(b),
    {
        assert forall|b: int| 1 <= b < RESERVED_BLOCKS implies #[trigger] self.cache(b) == initial_cache(b) by {
            assert(self.cache(b).len() == BLOCK_SIZE);
            assert forall|k: int| 0 <= k < BLOCK_SIZE implies #[trigger] self.cache(b)[k] == initial_cache_byte(b, k) by {
                let slot = k / 16;
                let f = (k % 16) / 4;
                let i = 32 * (b - 1) + slot;
                assert(1 + i / 32 == b && i % 32 == slot);
                assert(self.initial_descriptor(i));
                let o = slot * 16 + 4 * f;
                if f == 0 {
                    assert(i32_at(self.cache(b), o) == self.dsize(i));
                    lemma_field_bytes(self.cache(b), o, self.dsize(i));
                } else {
                    assert(i32_at(self.cache(b), o) == self.dblock(i, f - 1));
                    lemma_field_bytes(self.cache(b), o, self.dblock(i, f - 1));
                }
                assert(o <= k < o + 4);
            }
            assert(self.cache(b) =~= initial_cache(b));
        }
    }

    /// The state that initialisation leaves, every part of it fixed: the cached
    /// tables byte for byte, the memory, every entry of the open file table with
    /// its buffer, every disk block and both disk buffers.
    pub open spec fn is_initial(&self) -> bool {
        &&& self.initial_tables()
        &&& forall|b: int| 0 <= b < RESERVED_BLOCKS ==> #[trigger] self.cache(b) == initial_cache(b)
        &&& self.mem() == zero_block()
        &&& self.holds(0, 0)
        &&& self.pos(0) == 0
        &&& self.entry(0).size == 0
        &&& self.entry(0).buffer@ == zero_block()
        &&& forall|j: int| 1 <= j < OFT_SIZE ==> !#[trigger] self.is_open(j)
        &&& forall|j: int| 1 <= j < OFT_SIZE ==> #[trigger] self.entry(j).size == 0 && self.entry(j).descriptor_index == 0
            && self.entry(j).buffer@ == zero_block()
        &&& self.disk_input() == zero_block()
        &&& self.disk_output() == initial_cache(RESERVED_BLOCKS - 1)
        &&& forall|b: int| 0 <= b < RESERVED_BLOCKS ==> #[trigger] self.disk_block(b) == self.cache(b)
        &&& forall|b: int| RESERVED_BLOCKS <= b < NUM_BLOCKS ==> #[trigger] self.disk_block(b) == zero_block()
    }

    /// Initialisation leaves one state only: two initial states are equal in
    /// every field.
    pub proof fn law_initial_state_unique(a: Self, b: Self)
        requires
            a.is_initial(),
            b.is_initial(),
        ensures
            a == b,
    {
        assert forall|i: int| 0 <= i < NUM_BLOCKS implies #[trigger] a.disk.block(i) == b.disk.block(i) by {
            if i < RESERVED_BLOCKS {
                assert(a.disk_block(i) == a.cache(i));
                assert(b.disk_block(i) == b.cache(i));
            } else {
                assert(a.disk_block(i) == zero_block());
                assert(b.disk_block(i) == zero_block());
            }
        }
        crate::disk::lemma_disk_ext(a.disk, b.disk);
        assert forall|j: int| 0 <= j < OFT_SIZE implies #[trigger] a.oft@[j] == b.oft@[j] by {
            let (x, y) = (a.entry(j), b.entry(j));
            if j == 0 {
                assert(a.holds(0, 0) && b.holds(0, 0));
            } else {
                assert(!a.is_open(j) && !b.is_open(j));
                assert(x.size == 0 && y.size == 0);
            }
            assert(x.buffer =~= y.buffer);
        }
        a.oft.lemma_len();
        b.oft.lemma_len();
        assert(a.oft@ =~= b.oft@);
        OFT::lemma_ext(a.oft, b.oft);
        assert(a.memory =~= b.memory);
        assert forall|i: int| 0 <= i < RESERVED_BLOCKS implies a.reserved_cache[i] == b.reserved_cache[i] by {
            assert(a.cache(i) == b.cache(i));
            assert(a.reserved_cache[i] =~= b.reserved_cache[i]);
        }
        assert(a.reserved_cache =~= b.reserved_cache);
    }

    /// A new file system, initialised.
    pub fn new() -> (fs: Self)
        ensures
            fs.wf(),
            fs.is_initial(),
    {
        let mut fs = FileSystem {
            disk: Disk::new(),
            oft: OFT::new(),
            memory: [0u8; BLOCK_SIZE],
            reserved_cache: [[0u8; BLOCK_SIZE]; RESERVED_BLOCKS],
        };
        fs.init();
        fs
    }

    /// (Re)initialises the file system: a zeroed disk, a bitmap with the
    /// reserved blocks and the directory's first block occupied, the directory's
    /// descriptor, every other descriptor free, zeroed memory and an open file
    /// table with only the directory open.
    pub fn init(&mut self)
        ensures
            final(self).wf(),
            final(self).is_initial(),
    {
        // step 1: zero out the disk
        self.disk = Disk::new();
        let ghost new_disk = self.disk;
        // step 2: zero out the reserved cache
        self.reserved_cache = [[0u8; BLOCK_SIZE]; RESERVED_BLOCKS];
        proof {
            self.oft.lemma_len();
            assert forall|b: int| 0 <= b < NUM_BLOCKS implies !#[trigger] bit_is_set(self.cache(0), b) by {
                let p = (b % 8) as u8;
                assert(0u8 & (1u8 << p) == 0) by (bit_vector);
            }
        }
        // step 3: mark blocks 0-7 occupied (bitmap, descriptors, directory)
        let mut block_num: usize = 0;
        while block_num <= DIRECTORY_BLOCK
            invariant
                block_num <= DIRECTORY_BLOCK + 1,
                self.disk == new_disk,
                self.cache(0).len() == BLOCK_SIZE,
                forall|b: int| 0 <= b < NUM_BLOCKS ==> (#[trigger] bit_is_set(self.cache(0), b) <==> b < block_num),
                forall|k: int| NUM_BLOCKS / 8 <= k < BLOCK_SIZE ==> #[trigger] self.cache(0)[k] == 0,
            decreases DIRECTORY_BLOCK + 1 - block_num,
        {
            set_block_occupied(&mut self.reserved_cache[BITMAP_BLOCK], block_num);
            block_num = block_num + 1;
        }
        let ghost bitmap = self.cache(0);
        proof {
            lemma_initial_bitmap(bitmap);
        }
        // step 4: descriptor 0 is the directory, with block 7; the rest are free
        let dir_descriptor = FileDescriptor { size: 0, blocks: [DIRECTORY_BLOCK as i32, 0, 0] };
        self.write_descriptor(0, &dir_descriptor);
        let mut desc_idx: usize = 1;
        while desc_idx < NUM_DESCRIPTORS
            invariant
                1 <= desc_idx <= NUM_DESCRIPTORS,
                self.disk == new_disk,
                self.cache(0) == bitmap,
                forall|i: int| 0 <= i < desc_idx ==> #[trigger] self.initial_descriptor(i),
            decreases NUM_DESCRIPTORS - desc_idx,
        {
            let free_descriptor = FileDescriptor::new_free();
            let ghost before = *self;
            self.write_descriptor(desc_idx, &free_descriptor);
            proof {
                assert forall|b: int| 1 <= b < RESERVED_BLOCKS implies #[trigger] self.cache(b).len() == BLOCK_SIZE by {
                }
                assert forall|i: int| 0 <= i < desc_idx + 1 implies #[trigger] self.initial_descriptor(i) by {
                    if i == desc_idx {
                        assert(self.dblock(i, 0) == free_descriptor.blocks[0]);
                        assert(self.dblock(i, 1) == free_descriptor.blocks[1]);
                        assert(self.dblock(i, 2) == free_descriptor.blocks[2]);
                    } else {
                        assert(before.initial_descriptor(i));
                        assert(self.dsize(i) == before.dsize(i));
                        assert(self.dblock(i, 0) == before.dblock(i, 0));
                        assert(self.dblock(i, 1) == before.dblock(i, 1));
                        assert(self.dblock(i, 2) == before.dblock(i, 2));
                    }
                }
            }
            desc_idx = desc_idx + 1;
        }
        let ghost tables = *self;
        // step 5: write the reserved cache to disk
        let ghost zeroed_disk = self.disk;
        self.flush_reserved_cache();
        let ghost flushed = *self;
        // step 6: zero the memory
        self.memory = [0u8; BLOCK_SIZE];
        // step 7: a fresh open file table
        self.oft = OFT::new();
        let ghost fresh = self.oft;
        // step 8: open the directory in entry 0 with its first block buffered
        let _ = self.disk.read_block(DIRECTORY_BLOCK);
        let dir_block = self.disk.input_copy();
        if let Some(dir_entry) = self.oft.get_mut(0) {
            dir_entry.current_pos = 0;
            dir_entry.size = 0;
            dir_entry.descriptor_index = 0;
            dir_entry.buffer = dir_block;
        }
        proof {
            self.oft.lemma_len();
            assert(self.mem() =~= zero_block());
            assert(self.reserved_cache == tables.reserved_cache);
            assert forall|i: int| 0 <= i < NUM_DESCRIPTORS implies #[trigger] self.initial_descriptor(i) by {
                assert(tables.initial_descriptor(i));
            }
            assert(self.initial_tables());
            self.lemma_initial_cache();
            assert(self.cache(0) == initial_cache(0));
            assert forall|b: int| 0 <= b < RESERVED_BLOCKS implies #[trigger] self.disk_block(b) == self.cache(b) by {
                assert(flushed.disk_block(b) == tables.cache(b));
                assert(self.disk.block(b) == flushed.disk.block(b));
            }
            assert forall|b: int| RESERVED_BLOCKS <= b < NUM_BLOCKS implies #[trigger] self.disk_block(b) == zero_block() by {
                assert(flushed.disk_block(b) == tables.disk_block(b));
                assert(zeroed_disk.block(b) == zero_block());
                assert(self.disk.block(b) == flushed.disk.block(b));
            }
            self.lemma_initial_wf();
            assert(self.wf_core());
            assert(self.dir_ok());
            assert(self.cache(0) == bitmap);
            assert(bitmap == initial_cache(0));
            assert forall|b: int| 0 <= b < RESERVED_BLOCKS implies #[trigger] self.cache(b) == initial_cache(b) by {
                if b == 0 {
                    assert(self.cache(0) == initial_cache(0));
                }
            }
            assert(flushed.disk_block(DIRECTORY_BLOCK as int) == zero_block());
            assert(dir_block@ == zero_block());
            assert(self.entry(0).buffer@ == zero_block());
            assert(self.disk_input() == zero_block());
            assert(self.disk_output() == tables.cache(RESERVED_BLOCKS - 1));
            assert(self.cache(RESERVED_BLOCKS - 1) == initial_cache(RESERVED_BLOCKS - 1));
            assert(tables.cache(RESERVED_BLOCKS - 1) == self.cache(RESERVED_BLOCKS - 1));
            assert forall|j: int| 1 <= j < OFT_SIZE implies #[trigger] self.entry(j).size == 0 && self.entry(j).descriptor_index
                == 0 && self.entry(j).buffer@ == zero_block() by {
                assert(self.entry(j) == fresh@[j]);
                assert(fresh@[j].current_pos == -1);
                assert(fresh@[j].buffer@ =~= zero_block());
            }
        }
    }

    /// Initial tables with only the directory open satisfy the invariant.
    proof fn lemma_initial_wf(&self)
        requires
            self.initial_tables(),
            self.shape(),
            self.holds(0, 0),
            self.pos(0) == 0,
            self.entry(0).size == 0,
            forall|j: int| 1 <= j < OFT_SIZE ==> !#[trigger] self.is_open(j),
        ensures
            self.wf(),
    {
        assert forall|i: int| 0 <= i < NUM_DESCRIPTORS implies #[trigger] self.desc_ok(i) by {
            assert(self.initial_descriptor(i));
        }
        assert forall|i: int, b: int| 0 <= i < NUM_DESCRIPTORS && 0 <= b < 3 implies #[trigger] self.block_ok(i, b) by {
            assert(self.initial_descriptor(i));
            assert(self.occupied(DIRECTORY_BLOCK as int));
        }
        assert forall|i1: int, b1: int, i2: int, b2: int|
            0 <= i1 < NUM_DESCRIPTORS && 0 <= b1 < 3 && 0 <= i2 < NUM_DESCRIPTORS && 0 <= b2 < 3 && (i1 != i2
                || b1 != b2) && self.dblock(i1, b1) != 0 implies #[trigger] self.dblock(i1, b1)
                != #[trigger] self.dblock(i2, b2) by {
            assert(self.initial_descriptor(i1));
            assert(self.initial_descriptor(i2));
        }
        assert(self.initial_descriptor(0));
        assert forall|j: int| 0 <= j < OFT_SIZE implies #[trigger] self.entry_ok(j) by {
        }
        assert(self.entry_count() == 0);
    }

    /// Writes the cached reserved blocks 0-6 back to the disk.
    fn flush_reserved_cache(&mut self)
        ensures
            forall|b: int| 0 <= b < RESERVED_BLOCKS ==> #[trigger] final(self).disk_block(b) == old(self).cache(b),
            forall|b: int| RESERVED_BLOCKS <= b < NUM_BLOCKS ==> #[trigger] final(self).disk_block(b) == old(self).disk_block(b),
            final(self).disk_output() == old(self).cache(RESERVED_BLOCKS - 1),
            final(self).disk_input() == old(self).disk_input(),
            final(self).reserved_cache == old(self).reserved_cache,
            final(self).oft == old(self).oft,
            final(self).memory == old(self).memory,
    {
        let ghost start = *self;
        let mut i: usize = 0;
        while i < RESERVED_BLOCKS
            invariant
                i <= RESERVED_BLOCKS,
                forall|b: int| 0 <= b < i ==> #[trigger] self.disk.block(b) == start.reserved_cache@[b]@,
                forall|b: int| i <= b < NUM_BLOCKS ==> #[trigger] self.disk.block(b) == start.disk.block(b),
                i > 0 ==> self.disk.output() == start.reserved_cache@[i - 1]@,
                self.disk.input() == start.disk.input(),
                self.reserved_cache == start.reserved_cache,
                self.oft == start.oft,
                self.memory == start.memory,
            decreases RESERVED_BLOCKS - i,
        {
            self.disk.set_output(&self.reserved_cache[i]);
            let _ = self.disk.write_block(i);
            i = i + 1;
        }
    }

    /// Writing the cached tables to the disk and loading them back gives the
    /// tables that were cached, with the reserved disk blocks holding them and
    /// every other disk block, the memory and the open file table as they were.
    /// `flushed` is a state that `flush_reserved_cache` leaves from `cached`, and
    /// `loaded` one that `load_reserved_cache` leaves from `flushed`: the
    /// requirements are what those two functions ensure.
    pub proof fn law_flush_then_load(cached: Self, flushed: Self, loaded: Self)
        requires
            forall|b: int| 0 <= b < RESERVED_BLOCKS ==> #[trigger] flushed.disk_block(b) == cached.cache(b),
            forall|b: int| RESERVED_BLOCKS <= b < NUM_BLOCKS ==> #[trigger] flushed.disk_block(b) == cached.disk_block(b),
            forall|b: int| 0 <= b < RESERVED_BLOCKS ==> #[trigger] flushed.cache(b) == cached.cache(b),
            forall|j: int| #[trigger] flushed.entry(j) == cached.entry(j),
            flushed.mem() == cached.mem(),
            forall|b: int| 0 <= b < RESERVED_BLOCKS ==> #[trigger] loaded.cache(b) == flushed.disk_block(b),
            forall|b: int| 0 <= b < NUM_BLOCKS ==> #[trigger] loaded.disk_block(b) == flushed.disk_block(b),
            forall|j: int| #[trigger] loaded.entry(j) == flushed.entry(j),
            loaded.mem() == flushed.mem(),
        ensures
            loaded.tables_same_as(cached),
            forall|b: int| 0 <= b < RESERVED_BLOCKS ==> #[trigger] loaded.cache(b) == cached.cache(b),
            forall|b: int| 0 <= b < RESERVED_BLOCKS ==> #[trigger] loaded.disk_block(b) == cached.cache(b),
            forall|b: int| RESERVED_BLOCKS <= b < NUM_BLOCKS ==> #[trigger] loaded.disk_block(b) == cached.disk_block(b),
            forall|j: int| #[trigger] loaded.entry(j) == cached.entry(j),
            loaded.mem() == cached.mem(),
    {
        assert(loaded.cache(0) == flushed.disk_block(0));
        assert forall|b: int| 0 <= b < RESERVED_BLOCKS implies #[trigger] loaded.disk_block(b) == cached.cache(b) by {
            assert(flushed.disk_block(b) == cached.cache(b));
        }
        assert forall|b: int| RESERVED_BLOCKS <= b < NUM_BLOCKS implies #[trigger] loaded.disk_block(b) == cached.disk_block(b) by {
            assert(flushed.disk_block(b) == cached.disk_block(b));
        }
        assert forall|j: int| #[trigger] loaded.entry(j) == cached.entry(j) by {
            assert(flushed.entry(j) == cached.entry(j));
        }
    }

    /// Loads the reserved blocks 0-6 from the disk into the cache.
    fn load_reserved_cache(&mut self)
        ensures
            forall|b: int| 0 <= b < RESERVED_BLOCKS ==> #[trigger] final(self).cache(b) == old(self).disk_block(b),
            forall|b: int| 0 <= b < NUM_BLOCKS ==> #[trigger] final(self).disk_block(b) == old(self).disk_block(b),
            final(self).oft == old(self).oft,
            final(self).memory == old(self).memory,
    {
        let ghost start = *self;
        let mut i: usize = 0;
        while i < RESERVED_BLOCKS
            invariant
                i <= RESERVED_BLOCKS,
                forall|b: int| 0 <= b < i ==> #[trigger] self.reserved_cache@[b]@ == start.disk.block(b),
                forall|b: int| 0 <= b < NUM_BLOCKS ==> #[trigger] self.disk.block(b) == start.disk.block(b),
                self.oft == start.oft,
                self.memory == start.memory,
            decreases RESERVED_BLOCKS - i,
        {
            let _ = self.disk.read_block(i);
            self.reserved_cache[i] = self.disk.input_copy();
            i = i + 1;
        }
    }

    // ======================== BUFFERED FILE ACCESS ======================== //

    /// The entry that holds a descriptor open is the only one that holds it.
    pub(crate) proof fn lemma_holder(&self, j: int)
        requires
            self.wf_core(),
            0 <= j < OFT_SIZE,
            self.is_open(j),
        ensures
            self.holder(self.open_desc(j)) == j,
            forall|d: int| d != self.open_desc(j) ==> #[trigger] self.holder(d) != j,
    {
        let d = self.open_desc(j);
        assert forall|j2: int| 0 <= j2 < OFT_SIZE && j2 != j implies !#[trigger] self.holds(j2, d) by {
            if self.is_open(j2) {
                assert(self.open_desc(j) != self.open_desc(j2));
            }
        }
        assert(self.holds(j, d));
    }

    /// Equal cached tables give equal bitmap bits and descriptors, and carry the
    /// table part of the invariant over.
    pub(crate) proof fn lemma_same_tables(pre: Self, post: Self)
        requires
            post.reserved_cache == pre.reserved_cache,
        ensures
            forall|b: int| #[trigger] post.occupied(b) == pre.occupied(b),
            forall|i: int| #[trigger] post.dsize(i) == pre.dsize(i),
            forall|i: int, b: int| #[trigger] post.dblock(i, b) == pre.dblock(i, b),
            forall|i: int| #[trigger] post.desc_ok(i) == pre.desc_ok(i),
            forall|i: int, b: int| #[trigger] post.block_ok(i, b) == pre.block_ok(i, b),
            pre.blocks_distinct() ==> post.blocks_distinct(),
    {
        assert forall|b: int| #[trigger] post.occupied(b) == pre.occupied(b) by {
            assert(post.cache(0) == pre.cache(0));
        }
        assert forall|i: int| #[trigger] post.dsize(i) == pre.dsize(i) by {
            assert(post.cache(1 + i / 32) == pre.cache(1 + i / 32));
        }
        assert forall|i: int, b: int| #[trigger] post.dblock(i, b) == pre.dblock(i, b) by {
            assert(post.cache(1 + i / 32) == pre.cache(1 + i / 32));
        }
        assert forall|i: int| #[trigger] post.desc_ok(i) == pre.desc_ok(i) by {
            assert(post.dsize(i) == pre.dsize(i));
        }
        assert forall|i: int, b: int| #[trigger] post.block_ok(i, b) == pre.block_ok(i, b) by {
            assert(post.dsize(i) == pre.dsize(i));
            assert(post.dblock(i, b) == pre.dblock(i, b));
            assert(post.occupied(pre.dblock(i, b)) == pre.occupied(pre.dblock(i, b)));
        }
        if pre.blocks_distinct() {
            assert forall|i1: int, b1: int, i2: int, b2: int|
                0 <= i1 < NUM_DESCRIPTORS && 0 <= b1 < 3 && 0 <= i2 < NUM_DESCRIPTORS && 0 <= b2 < 3 && (i1
                    != i2 || b1 != b2) && post.dblock(i1, b1) != 0 implies #[trigger] post.dblock(i1, b1)
                    != #[trigger] post.dblock(i2, b2) by {
                assert(pre.dblock(i1, b1) != pre.dblock(i2, b2));
            }
        }
    }

    /// Changing entry `j`'s position (and its buffer) keeps the invariant when
    /// the tables and the other entries stay.
    proof fn lemma_wf_core_entry_moved(pre: Self, post: Self, j: int)
        requires
            pre.wf_core(),
            0 <= j < OFT_SIZE,
            pre.is_open(j),
            post.reserved_cache == pre.reserved_cache,
            post.oft@.len() == OFT_SIZE,
            forall|j2: int| 0 <= j2 < OFT_SIZE && j2 != j ==> #[trigger] post.entry(j2) == pre.entry(j2),
            post.entry(j).descriptor_index == pre.entry(j).descriptor_index,
            post.entry(j).size == pre.entry(j).size,
            0 <= post.pos(j) <= pre.dsize(pre.open_desc(j)),
        ensures
            post.wf_core(),
            forall|d: int| #[trigger] post.holder(d) == pre.holder(d),
    {
        Self::lemma_same_tables(pre, post);
        assert forall|j2: int| 0 <= j2 < OFT_SIZE implies #[trigger] post.entry_ok(j2) by {
            assert(pre.entry_ok(j2));
        }
        assert forall|j1: int, j2: int|
            0 <= j1 < OFT_SIZE && 0 <= j2 < OFT_SIZE && j1 != j2 && post.is_open(j1) && post.is_open(j2)
                implies #[trigger] post.open_desc(j1) != #[trigger] post.open_desc(j2) by {
            assert(pre.is_open(j1) && pre.is_open(j2));
            assert(pre.open_desc(j1) != pre.open_desc(j2));
        }
        assert forall|d: int| #[trigger] post.holder(d) == pre.holder(d) by {
            assert(post.holds(0, d) == pre.holds(0, d));
            assert(post.holds(1, d) == pre.holds(1, d));
            assert(post.holds(2, d) == pre.holds(2, d));
            assert(post.holds(3, d) == pre.holds(3, d));
        }
    }

    /// Flushing entry `j`'s buffer to its block and loading the block of the new
    /// position keeps every file's contents.
    proof fn lemma_swap_keeps_contents(pre: Self, post: Self, j: int, cur: int, nb: int, flushed: bool)
        requires
            pre.wf_core(),
            post.wf_core(),
            0 <= j < OFT_SIZE,
            pre.is_open(j),
            post.reserved_cache == pre.reserved_cache,
            forall|d: int| #[trigger] post.holder(d) == pre.holder(d),
            forall|j2: int| 0 <= j2 < OFT_SIZE && j2 != j ==> #[trigger] post.entry(j2) == pre.entry(j2),
            post.entry(j).descriptor_index == pre.entry(j).descriptor_index,
            cur == pre.pos(j) / BLOCK_SIZE as int,
            nb == post.pos(j) / BLOCK_SIZE as int,
            cur != nb,
            flushed == (cur < MAX_FILE_BLOCKS && pre.dblock(pre.open_desc(j), cur) != 0),
            flushed ==> post.disk.block(pre.dblock(pre.open_desc(j), cur)) == pre.entry(j).buffer@,
            forall|x: int| 0 <= x < NUM_BLOCKS && (!flushed || x != pre.dblock(pre.open_desc(j), cur)) ==>
                #[trigger] post.disk.block(x) == pre.disk.block(x),
            nb < MAX_FILE_BLOCKS && pre.dblock(pre.open_desc(j), nb) != 0 ==> post.entry(j).buffer@
                == pre.disk.block(pre.dblock(pre.open_desc(j), nb)),
        ensures
            forall|d: int| 0 <= d < NUM_DESCRIPTORS ==> #[trigger] post.content(d) == pre.content(d),
    {
        let big_d = pre.open_desc(j);
        pre.lemma_holder(j);
        assert(pre.entry_ok(j));
        assert(pre.blocks_distinct());
        assert forall|d2: int| 0 <= d2 < NUM_DESCRIPTORS implies #[trigger] post.content(d2) == pre.content(d2) by {
            assert forall|k: int| 0 <= k < pre.file_len(d2) implies #[trigger] post.file_byte(d2, k) == pre.file_byte(d2, k) by {
                let bk = k / BLOCK_SIZE as int;
                assert(pre.desc_ok(d2));
                assert(pre.block_ok(d2, bk));
                if d2 == big_d {
                    if bk == nb {
                        if flushed {
                            assert(pre.dblock(d2, cur) != pre.dblock(d2, nb));
                        }
                    } else if bk == cur {
                    } else {
                        if flushed {
                            assert(pre.dblock(d2, cur) != pre.dblock(d2, bk));
                        }
                    }
                } else {
                    if flushed {
                        assert(pre.dblock(big_d, cur) != pre.dblock(d2, bk));
                    }
                }
            }
            assert(post.content(d2) =~= pre.content(d2));
        }
    }

    /// Moves entry `j` to position `new_pos`: when the position leaves the
    /// buffered block, the buffer goes back to its disk block and the new block
    /// (or zeros, if the file has none there) comes in. No file's contents change.
    pub(crate) fn swap_to(&mut self, j: usize, new_pos: i32)
        requires
            old(self).wf_core(),
            j < OFT_SIZE,
            old(self).is_open(j as int),
            0 <= new_pos <= old(self).dsize(old(self).open_desc(j as int)),
        ensures
            final(self).wf_core(),
            final(self).reserved_cache == old(self).reserved_cache,
            final(self).memory == old(self).memory,
            final(self).pos(j as int) == new_pos,
            final(self).entry(j as int).size == old(self).entry(j as int).size,
            final(self).entry(j as int).descriptor_index == old(self).entry(j as int).descriptor_index,
            forall|j2: int| 0 <= j2 < OFT_SIZE && j2 != j ==> #[trigger] final(self).entry(j2) == old(self).entry(j2),
            forall|d: int| 0 <= d < NUM_DESCRIPTORS ==> #[trigger] final(self).content(d) == old(self).content(d),
            forall|i: int| #[trigger] final(self).dsize(i) == old(self).dsize(i),
            forall|i: int, b: int| #[trigger] final(self).dblock(i, b) == old(self).dblock(i, b),
            forall|b: int| #[trigger] final(self).occupied(b) == old(self).occupied(b),
    {
        let ghost pre = *self;
        proof {
            self.oft.lemma_len();
        }
        let (d, cur, buf) = match self.oft.get(j) {
            Some(e) => (e.descriptor_index as usize, e.current_block(), e.buffer),
            None => (0, 0, [0u8; BLOCK_SIZE]),
        };
        let nb = (new_pos as usize) / BLOCK_SIZE;
        let ghost big_d = d as int;
        proof {
            assert(pre.entry_ok(j as int));
            if cur < 3 {
                assert(pre.block_ok(big_d, cur as int));
            }
            if nb < 3 {
                assert(pre.block_ok(big_d, nb as int));
            }
        }
        if nb != cur {
            let desc = self.read_descriptor(d);
            let flushed = cur < MAX_FILE_BLOCKS && desc.blocks[cur] != 0;
            if flushed {
                self.disk.set_output(&buf);
                let _ = self.disk.write_block(desc.blocks[cur] as usize);
            }
            let ghost mid = *self;
            let new_buf = if nb < MAX_FILE_BLOCKS && desc.blocks[nb] != 0 {
                let _ = self.disk.read_block(desc.blocks[nb] as usize);
                self.disk.input_copy()
            } else {
                [0u8; BLOCK_SIZE]
            };
            if let Some(e) = self.oft.get_mut(j) {
                e.buffer = new_buf;
                e.current_pos = new_pos;
            }
            proof {
                self.oft.lemma_len();
                assert forall|x: int| 0 <= x < NUM_BLOCKS && (!flushed || x != desc.blocks[cur as int]) implies
                    #[trigger] self.disk.block(x) == pre.disk.block(x) by {
                    assert(mid.disk.block(x) == pre.disk.block(x));
                }
                Self::lemma_wf_core_entry_moved(pre, *self, j as int);
                Self::lemma_swap_keeps_contents(pre, *self, j as int, cur as int, nb as int, flushed);
                Self::lemma_same_tables(pre, *self);
            }
        } else {
            if let Some(e) = self.oft.get_mut(j) {
                e.current_pos = new_pos;
            }
            proof {
                self.oft.lemma_len();
                Self::lemma_wf_core_entry_moved(pre, *self, j as int);
                Self::lemma_same_tables(pre, *self);
                assert forall|d2: int| 0 <= d2 < NUM_DESCRIPTORS implies #[trigger] self.content(d2) == pre.content(d2) by {
                    assert(self.content(d2) =~= pre.content(d2));
                }
            }
        }
    }

    /// Marking a free block occupied and giving it to slot `b` of descriptor
    /// `d` (which had no block there) keeps the invariant and every file's contents,
    /// provided the position of the entry holding `d` lies in that block.
    #[verifier::rlimit(40)]
    proof fn lemma_alloc_keeps(pre: Self, mid: Self, post: Self, d: int, b: int, nb: int)
        requires
            pre.wf_core(),
            0 <= d < NUM_DESCRIPTORS,
            0 <= b < 3,
            pre.dsize(d) >= 0,
            pre.dblock(d, b) == 0,
            0 <= nb < NUM_BLOCKS,
            !pre.occupied(nb),
            forall|c: int| 0 <= c < 8 * BLOCK_SIZE ==> #[trigger] mid.occupied(c) == (c == nb || pre.occupied(c)),
            forall|i: int| 1 <= i < RESERVED_BLOCKS ==> #[trigger] mid.cache(i) == pre.cache(i),
            mid.disk == pre.disk,
            mid.oft == pre.oft,
            post.dsize(d) == pre.dsize(d),
            post.dblock(d, b) == nb,
            forall|x: int| 0 <= x < 3 && x != b ==> #[trigger] post.dblock(d, x) == pre.dblock(d, x),
            forall|i: int| 0 <= i < NUM_DESCRIPTORS && i != d ==> #[trigger] post.dsize(i) == mid.dsize(i),
            forall|i: int, x: int| 0 <= i < NUM_DESCRIPTORS && i != d && 0 <= x < 3 ==> #[trigger] post.dblock(i, x) == mid.dblock(i, x),
            post.cache(0) == mid.cache(0),
            post.disk == pre.disk,
            post.oft == pre.oft,
        ensures
            post.wf_core(),
            forall|d2: int| 0 <= d2 < NUM_DESCRIPTORS ==> #[trigger] post.content(d2) == pre.content(d2),
            forall|c: int| 0 <= c < 8 * BLOCK_SIZE ==> #[trigger] post.occupied(c) == (c == nb || pre.occupied(c)),
            forall|i: int| 0 <= i < NUM_DESCRIPTORS && i != d ==> #[trigger] post.dsize(i) == pre.dsize(i),
            forall|i: int, x: int| 0 <= i < NUM_DESCRIPTORS && i != d && 0 <= x < 3 ==> #[trigger] post.dblock(i, x) == pre.dblock(i, x),
    {
        assert forall|i: int| 0 <= i < NUM_DESCRIPTORS && i != d implies #[trigger] mid.dsize(i) == pre.dsize(i) by {
            assert(mid.cache(1 + i / 32) == pre.cache(1 + i / 32));
        }
        assert forall|i: int, x: int| 0 <= i < NUM_DESCRIPTORS && i != d && 0 <= x < 3 implies #[trigger] mid.dblock(i, x) == pre.dblock(i, x) by {
            assert(mid.cache(1 + i / 32) == pre.cache(1 + i / 32));
        }
        assert forall|c: int| 0 <= c < 8 * BLOCK_SIZE implies #[trigger] post.occupied(c) == (c == nb || pre.occupied(c)) by {
            assert(mid.occupied(c) == (c == nb || pre.occupied(c)));
        }
        // nb was in no descriptor, and is past the reserved blocks
        assert forall|i: int, x: int| 0 <= i < NUM_DESCRIPTORS && 0 <= x < 3 implies #[trigger] pre.dblock(i, x) != nb by {
            assert(pre.block_ok(i, x));
        }
        assert(nb >= DIRECTORY_BLOCK) by {
            if nb < DIRECTORY_BLOCK {
                assert(pre.occupied(nb));
            }
        }
        assert forall|b2: int| 0 <= b2 < DIRECTORY_BLOCK implies #[trigger] post.occupied(b2) by {
            assert(pre.occupied(b2));
        }
        assert forall|i: int| 0 <= i < NUM_DESCRIPTORS implies #[trigger] post.desc_ok(i) by {
            assert(pre.desc_ok(i));
        }
        assert forall|i: int, x: int| 0 <= i < NUM_DESCRIPTORS && 0 <= x < 3 implies #[trigger] post.block_ok(i, x) by {
            assert(pre.block_ok(i, x));
            if pre.dblock(i, x) != 0 {
                assert(post.occupied(pre.dblock(i, x)));
            }
        }
        assert forall|i1: int, b1: int, i2: int, b2: int|
            0 <= i1 < NUM_DESCRIPTORS && 0 <= b1 < 3 && 0 <= i2 < NUM_DESCRIPTORS && 0 <= b2 < 3 && (i1
                != i2 || b1 != b2) && post.dblock(i1, b1) != 0 implies #[trigger] post.dblock(i1, b1)
                != #[trigger] post.dblock(i2, b2) by {
            assert(pre.dblock(i1, b1) != nb);
            assert(pre.dblock(i2, b2) != nb);
            if !(i1 == d && b1 == b) && !(i2 == d && b2 == b) {
                assert(pre.dblock(i1, b1) != pre.dblock(i2, b2));
            }
        }
        assert forall|j: int| 0 <= j < OFT_SIZE implies #[trigger] post.entry_ok(j) by {
            assert(pre.entry_ok(j));
        }
        assert forall|j1: int, j2: int|
            0 <= j1 < OFT_SIZE && 0 <= j2 < OFT_SIZE && j1 != j2 && post.is_open(j1) && post.is_open(j2)
                implies #[trigger] post.open_desc(j1) != #[trigger] post.open_desc(j2) by {
            assert(pre.open_desc(j1) != pre.open_desc(j2));
        }
        assert(post.entry_ok(0));
        assert(post.dblock(0, 0) == DIRECTORY_BLOCK) by {
            if d == 0 {
                assert(b != 0);
            }
        }
        assert forall|d2: int| 0 <= d2 < NUM_DESCRIPTORS implies #[trigger] post.content(d2) == pre.content(d2) by {
            assert(post.holder(d2) == pre.holder(d2));
            assert forall|k: int| 0 <= k < pre.file_len(d2) implies #[trigger] post.file_byte(d2, k) == pre.file_byte(d2, k) by {
                assert(pre.desc_ok(d2));
                assert(pre.block_ok(d2, k / BLOCK_SIZE as int));
            }
            assert(post.content(d2) =~= pre.content(d2));
        }
    }

    /// Storing `x` in entry `j`'s buffer at its position, whose block the file
    /// has, (and growing the file by one when the position is at its end) keeps
    /// the invariant and changes the file's contents by that byte alone.
    proof fn lemma_byte_written(pre: Self, post: Self, j: int, x: u8)
        requires
            pre.wf_core(),
            0 <= j < OFT_SIZE,
            pre.is_open(j),
            pre.pos(j) < MAX_FILE_SIZE,
            pre.dblock(pre.open_desc(j), pre.pos(j) / BLOCK_SIZE as int) != 0,
            post.oft@.len() == OFT_SIZE,
            post.entry(j).buffer@ == pre.entry(j).buffer@.update(pre.pos(j) % BLOCK_SIZE as int, x),
            post.entry(j).current_pos == pre.entry(j).current_pos,
            post.entry(j).descriptor_index == pre.entry(j).descriptor_index,
            post.entry(j).size == if pre.pos(j) < pre.dsize(pre.open_desc(j)) { pre.dsize(pre.open_desc(j)) } else { pre.pos(j) + 1 },
            forall|j2: int| 0 <= j2 < OFT_SIZE && j2 != j ==> #[trigger] post.entry(j2) == pre.entry(j2),
            post.dsize(pre.open_desc(j)) == post.entry(j).size,
            forall|b: int| 0 <= b < 3 ==> #[trigger] post.dblock(pre.open_desc(j), b) == pre.dblock(pre.open_desc(j), b),
            forall|i: int| 0 <= i < NUM_DESCRIPTORS && i != pre.open_desc(j) ==> #[trigger] post.dsize(i) == pre.dsize(i),
            forall|i: int, b: int| 0 <= i < NUM_DESCRIPTORS && i != pre.open_desc(j) && 0 <= b < 3 ==> #[trigger] post.dblock(i, b) == pre.dblock(i, b),
            post.cache(0) == pre.cache(0),
            post.disk == pre.disk,
        ensures
            post.wf_core(),
            post.content(pre.open_desc(j)) == put_at(pre.content(pre.open_desc(j)), pre.pos(j), x),
            forall|d2: int| 0 <= d2 < NUM_DESCRIPTORS && d2 != pre.open_desc(j) ==> #[trigger] post.content(d2) == pre.content(d2),
    {
        let d = pre.open_desc(j);
        let p = pre.pos(j);
        pre.lemma_holder(j);
        assert(pre.entry_ok(j));
        assert forall|c: int| #[trigger] post.occupied(c) == pre.occupied(c) by {
        }
        assert forall|b2: int| 0 <= b2 < DIRECTORY_BLOCK implies #[trigger] post.occupied(b2) by {
            assert(pre.occupied(b2));
        }
        assert forall|i: int| 0 <= i < NUM_DESCRIPTORS implies #[trigger] post.desc_ok(i) by {
            assert(pre.desc_ok(i));
        }
        assert forall|i: int, b: int| 0 <= i < NUM_DESCRIPTORS && 0 <= b < 3 implies #[trigger] post.block_ok(i, b) by {
            assert(pre.block_ok(i, b));
            assert(pre.dblock(i, b) != 0 ==> post.occupied(pre.dblock(i, b)));
            if i == d && b * BLOCK_SIZE < post.dsize(d) && !(b * BLOCK_SIZE < pre.dsize(d)) {
                assert(b == p / BLOCK_SIZE as int);
            }
        }
        assert forall|i1: int, b1: int, i2: int, b2: int|
            0 <= i1 < NUM_DESCRIPTORS && 0 <= b1 < 3 && 0 <= i2 < NUM_DESCRIPTORS && 0 <= b2 < 3 && (i1
                != i2 || b1 != b2) && post.dblock(i1, b1) != 0 implies #[trigger] post.dblock(i1, b1)
                != #[trigger] post.dblock(i2, b2) by {
            assert(pre.dblock(i1, b1) != pre.dblock(i2, b2));
        }
        assert forall|j2: int| 0 <= j2 < OFT_SIZE implies #[trigger] post.entry_ok(j2) by {
            assert(pre.entry_ok(j2));
        }
        assert forall|j1: int, j2: int|
            0 <= j1 < OFT_SIZE && 0 <= j2 < OFT_SIZE && j1 != j2 && post.is_open(j1) && post.is_open(j2)
                implies #[trigger] post.open_desc(j1) != #[trigger] post.open_desc(j2) by {
            assert(pre.open_desc(j1) != pre.open_desc(j2));
        }
        assert(post.dblock(0, 0) == DIRECTORY_BLOCK);
        assert(post.wf_core());
        assert forall|d2: int| 0 <= d2 < NUM_DESCRIPTORS && d2 != d implies #[trigger] post.content(d2) == pre.content(d2) by {
            assert(post.holder(d2) == pre.holder(d2));
            assert forall|k: int| 0 <= k < pre.file_len(d2) implies #[trigger] post.file_byte(d2, k) == pre.file_byte(d2, k) by {
                assert(pre.desc_ok(d2));
                assert(pre.block_ok(d2, k / BLOCK_SIZE as int));
            }
            assert(post.content(d2) =~= pre.content(d2));
        }
        assert(post.holder(d) == j);
        let c = put_at(pre.content(d), p, x);
        assert forall|k: int| 0 <= k < post.file_len(d) implies #[trigger] post.file_byte(d, k) == c[k] by {
            assert(pre.desc_ok(d));
            if k / BLOCK_SIZE as int == p / BLOCK_SIZE as int {
                if k != p {
                    assert(k % BLOCK_SIZE as int != p % BLOCK_SIZE as int);
                }
            }
        }
        assert(post.content(d) =~= c);
    }

    /// Writes `x` at the current position of entry `j` and advances it by one,
    /// growing the file when the position is at its end. A block is allocated
    /// when the position lies in a block the file does not have yet. Fails,
    /// changing nothing, at the largest file size or when no block is free.
    #[verifier::rlimit(40)]
    pub(crate) fn put_byte(&mut self, j: usize, x: u8) -> (written: bool)
        requires
            old(self).wf_core(),
            j < OFT_SIZE,
            old(self).is_open(j as int),
        ensures
            ({
                let d = old(self).open_desc(j as int);
                let p = old(self).pos(j as int);
                &&& written == (p < MAX_FILE_SIZE && (old(self).dblock(d, p / BLOCK_SIZE as int) != 0
                    || old(self).has_free_block()))
                &&& !written ==> *final(self) == *old(self)
                &&& written ==> {
                    &&& final(self).wf_core()
                    &&& final(self).pos(j as int) == p + 1
                    &&& final(self).entry(j as int).descriptor_index == old(self).entry(j as int).descriptor_index
                    &&& final(self).content(d) == put_at(old(self).content(d), p, x)
                    &&& final(self).dsize(d) == if p < old(self).dsize(d) { old(self).dsize(d) } else { p + 1 }
                    &&& final(self).dblock(d, p / BLOCK_SIZE as int) != 0
                    &&& old(self).dblock(d, p / BLOCK_SIZE as int) != 0 ==> final(self).dblock(d, p / BLOCK_SIZE as int)
                        == old(self).dblock(d, p / BLOCK_SIZE as int)
                    &&& forall|k: int| 0 <= k < 3 && k != p / BLOCK_SIZE as int ==> #[trigger] final(self).dblock(d, k)
                        == old(self).dblock(d, k)
                    &&& forall|c: int| 0 <= c < 8 * BLOCK_SIZE ==> #[trigger] final(self).occupied(c) == (old(self).occupied(c)
                        || (old(self).dblock(d, p / BLOCK_SIZE as int) == 0 && c == final(self).dblock(d, p / BLOCK_SIZE as int)))
                    &&& old(self).dblock(d, p / BLOCK_SIZE as int) == 0 ==> {
                        &&& !old(self).occupied(final(self).dblock(d, p / BLOCK_SIZE as int))
                        &&& forall|c: int| 0 <= c < final(self).dblock(d, p / BLOCK_SIZE as int) ==> #[trigger] old(self).occupied(c)
                    }
                    &&& forall|d2: int| 0 <= d2 < NUM_DESCRIPTORS && d2 != d ==> #[trigger] final(self).content(d2) == old(self).content(d2)
                    &&& forall|d2: int| 0 <= d2 < NUM_DESCRIPTORS && d2 != d ==> #[trigger] final(self).dsize(d2) == old(self).dsize(d2)
                    &&& forall|d2: int, b: int| 0 <= d2 < NUM_DESCRIPTORS && d2 != d && 0 <= b < 3 ==> #[trigger] final(self).dblock(d2, b) == old(self).dblock(d2, b)
                    &&& forall|j2: int| 0 <= j2 < OFT_SIZE && j2 != j ==> #[trigger] final(self).entry(j2) == old(self).entry(j2)
                    &&& final(self).memory == old(self).memory
                }
            }),
    {
        let ghost pre = *self;
        proof {
            self.oft.lemma_len();
            assert(pre.entry_ok(j as int));
            pre.lemma_holder(j as int);
        }
        let (d, pos, size) = match self.oft.get(j) {
            Some(e) => (e.descriptor_index as usize, e.current_pos, e.size),
            None => (0, 0, 0),
        };
        if pos >= MAX_FILE_SIZE as i32 {
            return false;
        }
        let cur = pos as usize / BLOCK_SIZE;
        let off = pos as usize % BLOCK_SIZE;
        let mut desc = self.read_descriptor(d);
        if desc.blocks[cur] == 0 {
            let ghost pre_alloc = *self;
            match self.allocate_block() {
                None => {
                    proof {
                        assert(!pre.has_free_block());
                    }
                    return false;
                },
                Some(nb) => {
                    let ghost mid = *self;
                    desc.blocks[cur] = nb as i32;
                    self.write_descriptor(d, &desc);
                    proof {
                        assert(pre.block_ok(d as int, cur as int));
                        Self::lemma_alloc_keeps(pre, mid, *self, d as int, cur as int, nb as int);
                    }
                },
            }
        }
        let ghost alloc = *self;
        assert(alloc.dblock(d as int, cur as int) != 0);
        assert(pre.dblock(d as int, cur as int) == 0 ==> !pre.occupied(alloc.dblock(d as int, cur as int)) && forall|c: int|
            0 <= c < alloc.dblock(d as int, cur as int) ==> #[trigger] pre.occupied(c));
        assert(pre.dblock(d as int, cur as int) != 0 ==> alloc.dblock(d as int, cur as int) == pre.dblock(d as int, cur as int));
        assert(forall|k: int| 0 <= k < 3 && k != cur ==> #[trigger] alloc.dblock(d as int, k) == pre.dblock(d as int, k));
        assert(forall|c: int| 0 <= c < 8 * BLOCK_SIZE ==> #[trigger] alloc.occupied(c) == (pre.occupied(c) || (pre.dblock(
            d as int,
            cur as int,
        ) == 0 && c == alloc.dblock(d as int, cur as int))));
        let new_pos = pos + 1;
        if let Some(e) = self.oft.get_mut(j) {
            e.buffer[off] = x;
            if new_pos > e.size {
                e.size = new_pos;
            }
        }
        if new_pos > size {
            desc.size = new_pos;
            self.write_descriptor(d, &desc);
        }
        proof {
            self.oft.lemma_len();
            Self::lemma_byte_written(alloc, *self, j as int, x);
        }
        let ghost written = *self;
        self.swap_to(j, new_pos);
        proof {
            Self::lemma_same_tables(written, *self);
            assert forall|k: int| 0 <= k < 3 implies #[trigger] self.dblock(d as int, k) == alloc.dblock(d as int, k) by {
                assert(written.dblock(d as int, k) == alloc.dblock(d as int, k));
            }
            assert forall|c: int| 0 <= c < 8 * BLOCK_SIZE implies #[trigger] self.occupied(c) == alloc.occupied(c) by {
                assert(written.cache(0) == alloc.cache(0));
                assert(self.occupied(c) == written.occupied(c));
            }
            assert forall|d2: int| 0 <= d2 < NUM_DESCRIPTORS && d2 != d implies #[trigger] self.dsize(d2) == pre.dsize(d2) by {
                assert(written.dsize(d2) == alloc.dsize(d2));
                assert(alloc.dsize(d2) == pre.dsize(d2));
            }
            assert forall|d2: int, b: int| 0 <= d2 < NUM_DESCRIPTORS && d2 != d && 0 <= b < 3 implies #[trigger] self.dblock(d2, b) == pre.dblock(d2, b) by {
                assert(written.dblock(d2, b) == alloc.dblock(d2, b));
                assert(alloc.dblock(d2, b) == pre.dblock(d2, b));
            }
        }
        true
    }

    /// Reads the byte at the current position of entry `j` and advances it by one.
    pub(crate) fn get_byte(&mut self, j: usize) -> (x: u8)
        requires
            old(self).wf_core(),
            j < OFT_SIZE,
            old(self).is_open(j as int),
            old(self).pos(j as int) < old(self).dsize(old(self).open_desc(j as int)),
        ensures
            x == old(self).content(old(self).open_desc(j as int))[old(self).pos(j as int)],
            final(self).wf_core(),
            final(self).reserved_cache == old(self).reserved_cache,
            final(self).memory == old(self).memory,
            final(self).pos(j as int) == old(self).pos(j as int) + 1,
            final(self).entry(j as int).size == old(self).entry(j as int).size,
            final(self).entry(j as int).descriptor_index == old(self).entry(j as int).descriptor_index,
            forall|j2: int| 0 <= j2 < OFT_SIZE && j2 != j ==> #[trigger] final(self).entry(j2) == old(self).entry(j2),
            forall|d: int| 0 <= d < NUM_DESCRIPTORS ==> #[trigger] final(self).content(d) == old(self).content(d),
            forall|i: int| #[trigger] final(self).dsize(i) == old(self).dsize(i),
            forall|i: int, b: int| #[trigger] final(self).dblock(i, b) == old(self).dblock(i, b),
            forall|b: int| #[trigger] final(self).occupied(b) == old(self).occupied(b),
    {
        proof {
            self.oft.lemma_len();
            self.lemma_holder(j as int);
            assert(self.entry_ok(j as int));
        }
        let (pos, x) = match self.oft.get(j) {
            Some(e) => (e.current_pos, e.buffer[e.current_pos as usize % BLOCK_SIZE]),
            None => (0, 0),
        };
        self.swap_to(j, pos + 1);
        x
    }

    /// Opens descriptor `d` in the free entry `j` at position 0, with the file's
    /// first block (or zeros, if it has none) in the buffer.
    pub(crate) fn open_entry(&mut self, j: usize, d: usize)
        requires
            old(self).wf_core(),
            1 <= j < OFT_SIZE,
            !old(self).is_open(j as int),
            1 <= d < NUM_DESCRIPTORS,
            old(self).dsize(d as int) >= 0,
            old(self).holder(d as int) == -1,
        ensures
            final(self).wf_core(),
            final(self).holds(j as int, d as int),
            final(self).pos(j as int) == 0,
            final(self).reserved_cache == old(self).reserved_cache,
            final(self).memory == old(self).memory,
            forall|j2: int| 0 <= j2 < OFT_SIZE && j2 != j ==> #[trigger] final(self).entry(j2) == old(self).entry(j2),
            forall|d2: int| 0 <= d2 < NUM_DESCRIPTORS ==> #[trigger] final(self).content(d2) == old(self).content(d2),
    {
        let ghost pre = *self;
        proof {
            self.oft.lemma_len();
            assert(pre.block_ok(d as int, 0));
        }
        let desc = self.read_descriptor(d);
        let buf = if desc.blocks[0] != 0 {
            let _ = self.disk.read_block(desc.blocks[0] as usize);
            self.disk.input_copy()
        } else {
            [0u8; BLOCK_SIZE]
        };
        if let Some(e) = self.oft.get_mut(j) {
            e.buffer = buf;
            e.current_pos = 0;
            e.size = desc.size;
            e.descriptor_index = d as i32;
        }
        proof {
            self.oft.lemma_len();
            Self::lemma_same_tables(pre, *self);
            assert forall|j2: int| 0 <= j2 < OFT_SIZE implies #[trigger] self.entry_ok(j2) by {
                assert(pre.entry_ok(j2));
            }
            assert forall|j1: int, j2: int|
                0 <= j1 < OFT_SIZE && 0 <= j2 < OFT_SIZE && j1 != j2 && self.is_open(j1) && self.is_open(j2)
                    implies #[trigger] self.open_desc(j1) != #[trigger] self.open_desc(j2) by {
                if j1 != j && j2 != j {
                    assert(pre.open_desc(j1) != pre.open_desc(j2));
                } else if j1 == j {
                    assert(!pre.holds(j2, d as int));
                } else {
                    assert(!pre.holds(j1, d as int));
                }
            }
            assert(self.wf_core());
            self.lemma_holder(j as int);
            assert forall|d2: int| 0 <= d2 < NUM_DESCRIPTORS implies #[trigger] self.content(d2) == pre.content(d2) by {
                if d2 != d {
                    assert(self.holder(d2) == pre.holder(d2)) by {
                        assert(self.holds(0, d2) == pre.holds(0, d2));
                        assert(self.holds(1, d2) == pre.holds(1, d2));
                        assert(self.holds(2, d2) == pre.holds(2, d2));
                        assert(self.holds(3, d2) == pre.holds(3, d2));
                    }
                }
                assert forall|k: int| 0 <= k < pre.file_len(d2) implies #[trigger] self.file_byte(d2, k) == pre.file_byte(d2, k) by {
                    assert(pre.desc_ok(d2));
                    assert(pre.block_ok(d2, k / BLOCK_SIZE as int));
                }
                assert(self.content(d2) =~= pre.content(d2));
            }
        }
    }

    /// Closes entry `j`: its buffer goes back to its disk block and the entry is freed.
    pub(crate) fn close_entry(&mut self, j: usize)
        requires
            old(self).wf_core(),
            1 <= j < OFT_SIZE,
            old(self).is_open(j as int),
        ensures
            final(self).wf_core(),
            !final(self).is_open(j as int),
            final(self).reserved_cache == old(self).reserved_cache,
            final(self).memory == old(self).memory,
            forall|j2: int| 0 <= j2 < OFT_SIZE && j2 != j ==> #[trigger] final(self).entry(j2) == old(self).entry(j2),
            forall|d2: int| 0 <= d2 < NUM_DESCRIPTORS ==> #[trigger] final(self).content(d2) == old(self).content(d2),
    {
        let ghost pre = *self;
        proof {
            self.oft.lemma_len();
            assert(pre.entry_ok(j as int));
            pre.lemma_holder(j as int);
        }
        let (d, cur, buf) = match self.oft.get(j) {
            Some(e) => (e.descriptor_index as usize, e.current_block(), e.buffer),
            None => (0, 0, [0u8; BLOCK_SIZE]),
        };
        let ghost big_d = d as int;
        proof {
            if cur < 3 {
                assert(pre.block_ok(big_d, cur as int));
            }
        }
        let desc = self.read_descriptor(d);
        let flushed = cur < MAX_FILE_BLOCKS && desc.blocks[cur] != 0;
        if flushed {
            self.disk.set_output(&buf);
            let _ = self.disk.write_block(desc.blocks[cur] as usize);
        }
        let ghost mid = *self;
        if let Some(e) = self.oft.get_mut(j) {
            e.current_pos = -1;
        }
        proof {
            self.oft.lemma_len();
            Self::lemma_same_tables(pre, *self);
            assert forall|x: int| 0 <= x < NUM_BLOCKS && (!flushed || x != desc.blocks[cur as int]) implies
                #[trigger] self.disk.block(x) == pre.disk.block(x) by {
                assert(mid.disk.block(x) == pre.disk.block(x));
            }
            assert forall|j2: int| 0 <= j2 < OFT_SIZE implies #[trigger] self.entry_ok(j2) by {
                assert(pre.entry_ok(j2));
            }
            assert forall|j1: int, j2: int|
                0 <= j1 < OFT_SIZE && 0 <= j2 < OFT_SIZE && j1 != j2 && self.is_open(j1) && self.is_open(j2)
                    implies #[trigger] self.open_desc(j1) != #[trigger] self.open_desc(j2) by {
                assert(pre.open_desc(j1) != pre.open_desc(j2));
            }
            assert(self.wf_core());
            assert(pre.blocks_distinct());
            assert forall|d2: int| 0 <= d2 < NUM_DESCRIPTORS implies #[trigger] self.content(d2) == pre.content(d2) by {
                if d2 != big_d {
                    assert(self.holder(d2) == pre.holder(d2)) by {
                        assert(self.holds(0, d2) == pre.holds(0, d2));
                        assert(self.holds(1, d2) == pre.holds(1, d2));
                        assert(self.holds(2, d2) == pre.holds(2, d2));
                        assert(self.holds(3, d2) == pre.holds(3, d2));
                    }
                } else {
                    assert(self.holder(d2) == -1) by {
                        assert(!self.holds(j as int, d2));
                        assert forall|j2: int| 0 <= j2 < OFT_SIZE && j2 != j implies !#[trigger] self.holds(j2, d2) by {
                            assert(pre.holder(d2) == j);
                            if pre.holds(j2, d2) {
                                assert(pre.open_desc(j2) != pre.open_desc(j as int));
                            }
                        }
                    }
                }
                assert forall|k: int| 0 <= k < pre.file_len(d2) implies #[trigger] self.file_byte(d2, k) == pre.file_byte(d2, k) by {
                    let bk = k / BLOCK_SIZE as int;
                    assert(pre.desc_ok(d2));
                    assert(pre.block_ok(d2, bk));
                    if flushed {
                        if d2 != big_d || bk != cur {
                            assert(pre.dblock(big_d, cur as int) != pre.dblock(d2, bk));
                        }
                    }
                }
                assert(self.content(d2) =~= pre.content(d2));
            }
        }
    }

    /// Changing descriptor `d`, which no entry holds open and which is not the
    /// directory, to `post`'s (with blocks that agree with the bitmap) keeps the
    /// invariant and every other file's contents.
    proof fn lemma_tables_changed_at(pre: Self, post: Self, d: int)
        requires
            pre.wf_core(),
            1 <= d < NUM_DESCRIPTORS,
            pre.holder(d) == -1,
            post.desc_ok(d),
            forall|x: int| 0 <= x < 3 ==> #[trigger] post.block_ok(d, x),
            forall|x: int| 0 <= x < 3 ==> (#[trigger] post.dblock(d, x) == 0 || post.dblock(d, x) == pre.dblock(d, x)),
            forall|b: int| 0 <= b < NUM_BLOCKS && !(exists|x: int| 0 <= x < 3 && pre.dblock(d, x) == b && b != 0) ==> #[trigger] post.occupied(b) == pre.occupied(b),
            forall|i: int| 0 <= i < NUM_DESCRIPTORS && i != d ==> #[trigger] post.dsize(i) == pre.dsize(i),
            forall|i: int, x: int| 0 <= i < NUM_DESCRIPTORS && i != d && 0 <= x < 3 ==> #[trigger] post.dblock(i, x) == pre.dblock(i, x),
            post.disk == pre.disk,
            post.oft == pre.oft,
        ensures
            post.wf_core(),
            forall|d2: int| 0 <= d2 < NUM_DESCRIPTORS && d2 != d ==> #[trigger] post.content(d2) == pre.content(d2),
    {
        assert forall|i: int, x: int| 0 <= i < NUM_DESCRIPTORS && 0 <= x < 3 && i != d && pre.dblock(i, x) != 0 implies
            #[trigger] post.occupied(pre.dblock(i, x)) by {
            assert(pre.block_ok(i, x));
            if exists|y: int| 0 <= y < 3 && pre.dblock(d, y) == pre.dblock(i, x) && pre.dblock(i, x) != 0 {
                let y = choose|y: int| 0 <= y < 3 && pre.dblock(d, y) == pre.dblock(i, x) && pre.dblock(i, x) != 0;
                assert(pre.dblock(i, x) != pre.dblock(d, y));
            }
        }
        assert forall|b2: int| 0 <= b2 < DIRECTORY_BLOCK implies #[trigger] post.occupied(b2) by {
            assert(pre.occupied(b2));
            if exists|y: int| 0 <= y < 3 && pre.dblock(d, y) == b2 && b2 != 0 {
                let y = choose|y: int| 0 <= y < 3 && pre.dblock(d, y) == b2 && b2 != 0;
                assert(pre.block_ok(d, y));
            }
        }
        assert forall|i: int| 0 <= i < NUM_DESCRIPTORS implies #[trigger] post.desc_ok(i) by {
            assert(pre.desc_ok(i));
        }
        assert forall|i: int, x: int| 0 <= i < NUM_DESCRIPTORS && 0 <= x < 3 implies #[trigger] post.block_ok(i, x) by {
            assert(pre.block_ok(i, x));
            if i != d && pre.dblock(i, x) != 0 {
                assert(post.occupied(pre.dblock(i, x)));
            }
        }
        assert forall|i1: int, b1: int, i2: int, b2: int|
            0 <= i1 < NUM_DESCRIPTORS && 0 <= b1 < 3 && 0 <= i2 < NUM_DESCRIPTORS && 0 <= b2 < 3 && (i1
                != i2 || b1 != b2) && post.dblock(i1, b1) != 0 implies #[trigger] post.dblock(i1, b1)
                != #[trigger] post.dblock(i2, b2) by {
            if post.dblock(i2, b2) != 0 {
                assert(pre.dblock(i1, b1) != pre.dblock(i2, b2));
            }
        }
        assert forall|j: int| 0 <= j < OFT_SIZE implies #[trigger] post.entry_ok(j) by {
            assert(pre.entry_ok(j));
            if pre.is_open(j) {
                assert(pre.open_desc(j) != d) by {
                    if pre.open_desc(j) == d {
                        assert(pre.holds(j, d));
                    }
                }
            }
        }
        assert forall|j1: int, j2: int|
            0 <= j1 < OFT_SIZE && 0 <= j2 < OFT_SIZE && j1 != j2 && post.is_open(j1) && post.is_open(j2)
                implies #[trigger] post.open_desc(j1) != #[trigger] post.open_desc(j2) by {
            assert(pre.open_desc(j1) != pre.open_desc(j2));
        }
        assert(post.wf_core());
        assert forall|d2: int| 0 <= d2 < NUM_DESCRIPTORS && d2 != d implies #[trigger] post.content(d2) == pre.content(d2) by {
            assert(post.holder(d2) == pre.holder(d2));
            assert forall|k: int| 0 <= k < pre.file_len(d2) implies #[trigger] post.file_byte(d2, k) == pre.file_byte(d2, k) by {
                assert(pre.desc_ok(d2));
                assert(pre.block_ok(d2, k / BLOCK_SIZE as int));
            }
            assert(post.content(d2) =~= pre.content(d2));
        }
    }

    /// Freeing descriptor `d`'s blocks and then the descriptor keeps the invariant.
    proof fn lemma_free_keeps(pre: Self, freed: Self, post: Self, d: int)
        requires
            pre.wf_core(),
            1 <= d < NUM_DESCRIPTORS,
            pre.dsize(d) >= 0,
            pre.holder(d) == -1,
            forall|i: int| 1 <= i < RESERVED_BLOCKS ==> #[trigger] freed.cache(i) == pre.cache(i),
            forall|c: int| 0 <= c < NUM_BLOCKS ==> #[trigger] freed.occupied(c) == (pre.occupied(c) && !(exists|x: int| 0 <= x < 3 && pre.dblock(d, x) == c && c != 0)),
            freed.disk == pre.disk,
            freed.oft == pre.oft,
            post.dsize(d) == -1,
            forall|x: int| 0 <= x < 3 ==> #[trigger] post.dblock(d, x) == 0,
            forall|i: int| 0 <= i < NUM_DESCRIPTORS && i != d ==> #[trigger] post.dsize(i) == freed.dsize(i),
            forall|i: int, x: int| 0 <= i < NUM_DESCRIPTORS && i != d && 0 <= x < 3 ==> #[trigger] post.dblock(i, x) == freed.dblock(i, x),
            post.cache(0) == freed.cache(0),
            post.disk == freed.disk,
            post.oft == freed.oft,
        ensures
            post.wf_core(),
            forall|i: int| 0 <= i < NUM_DESCRIPTORS && i != d ==> #[trigger] post.dsize(i) == pre.dsize(i),
            forall|d2: int| 0 <= d2 < NUM_DESCRIPTORS && d2 != d ==> #[trigger] post.content(d2) == pre.content(d2),
    {
        assert forall|i: int| 0 <= i < NUM_DESCRIPTORS && i != d implies #[trigger] post.dsize(i) == pre.dsize(i) by {
            assert(freed.cache(1 + i / 32) == pre.cache(1 + i / 32));
        }
        assert forall|i: int, x: int| 0 <= i < NUM_DESCRIPTORS && i != d && 0 <= x < 3 implies #[trigger] post.dblock(i, x) == pre.dblock(i, x) by {
            assert(freed.cache(1 + i / 32) == pre.cache(1 + i / 32));
        }
        assert forall|b: int| 0 <= b < NUM_BLOCKS && !(exists|x: int| 0 <= x < 3 && pre.dblock(d, x) == b && b != 0) implies #[trigger] post.occupied(b) == pre.occupied(b) by {
            assert(freed.occupied(b) == pre.occupied(b));
        }
        assert forall|x: int| 0 <= x < 3 implies #[trigger] post.block_ok(d, x) by {
        }
        Self::lemma_tables_changed_at(pre, post, d);
    }

    /// Gives the free descriptor `d` to a new, empty file.
    pub(crate) fn new_file(&mut self, d: usize)
        requires
            old(self).wf_core(),
            1 <= d < NUM_DESCRIPTORS,
            old(self).dsize(d as int) == -1,
        ensures
            final(self).wf_core(),
            final(self).dsize(d as int) == 0,
            final(self).content(d as int) == Seq::<u8>::empty(),
            forall|b: int| 0 <= b < 3 ==> #[trigger] final(self).dblock(d as int, b) == 0,
            forall|i: int| 0 <= i < NUM_DESCRIPTORS && i != d ==> #[trigger] final(self).dsize(i) == old(self).dsize(i),
            forall|i: int, b: int| 0 <= i < NUM_DESCRIPTORS && i != d && 0 <= b < 3 ==> #[trigger] final(self).dblock(i, b) == old(self).dblock(i, b),
            forall|b: int| #[trigger] final(self).occupied(b) == old(self).occupied(b),
            forall|d2: int| 0 <= d2 < NUM_DESCRIPTORS && d2 != d ==> #[trigger] final(self).content(d2) == old(self).content(d2),
            final(self).oft == old(self).oft,
            forall|j: int| #[trigger] final(self).entry(j) == old(self).entry(j),
            final(self).memory == old(self).memory,
            final(self).disk == old(self).disk,
    {
        let ghost pre = *self;
        let desc = FileDescriptor::new_empty();
        self.write_descriptor(d, &desc);
        proof {
            assert(pre.block_ok(d as int, 0));
            assert(pre.block_ok(d as int, 1));
            assert(pre.block_ok(d as int, 2));
            assert forall|x: int| 0 <= x < 3 implies #[trigger] self.dblock(d as int, x) == pre.dblock(d as int, x) by {
                assert(pre.block_ok(d as int, x));
            }
            assert forall|x: int| 0 <= x < 3 implies #[trigger] self.block_ok(d as int, x) by {
                assert(self.dblock(d as int, x) == 0);
            }
            assert forall|b: int| #[trigger] self.occupied(b) == pre.occupied(b) by {
            }
            assert(pre.holder(d as int) == -1) by {
                assert forall|j: int| 0 <= j < OFT_SIZE implies !#[trigger] pre.holds(j, d as int) by {
                    assert(pre.entry_ok(j));
                }
            }
            Self::lemma_tables_changed_at(pre, *self, d as int);
            assert(self.content(d as int) =~= Seq::<u8>::empty());
        }
    }

    /// Frees descriptor `d`, which no entry holds open, and its blocks.
    pub(crate) fn free_file(&mut self, d: usize)
        requires
            old(self).wf_core(),
            1 <= d < NUM_DESCRIPTORS,
            old(self).dsize(d as int) >= 0,
            old(self).holder(d as int) == -1,
        ensures
            final(self).wf_core(),
            final(self).dsize(d as int) == -1,
            forall|i: int| 0 <= i < NUM_DESCRIPTORS && i != d ==> #[trigger] final(self).dsize(i) == old(self).dsize(i),
            forall|d2: int| 0 <= d2 < NUM_DESCRIPTORS && d2 != d ==> #[trigger] final(self).content(d2) == old(self).content(d2),
            final(self).oft == old(self).oft,
            forall|j: int| #[trigger] final(self).entry(j) == old(self).entry(j),
            final(self).memory == old(self).memory,
            final(self).disk == old(self).disk,
            final(self).bitmap_freed(*old(self), d as int),
            forall|k: int| 0 <= k < 3 ==> #[trigger] final(self).dblock(d as int, k) == 0,
            forall|i: int, k: int| 0 <= i < NUM_DESCRIPTORS && i != d && 0 <= k < 3 ==> #[trigger] final(self).dblock(i, k)
                == old(self).dblock(i, k),
    {
        let ghost pre = *self;
        let desc = self.read_descriptor(d);
        let mut b: usize = 0;
        while b < MAX_FILE_BLOCKS
            invariant
                b <= MAX_FILE_BLOCKS,
                pre.wf_core(),
                1 <= d < NUM_DESCRIPTORS,
                forall|x: int| 0 <= x < 3 ==> #[trigger] desc.blocks[x] == pre.dblock(d as int, x),
                forall|i: int| 1 <= i < RESERVED_BLOCKS ==> #[trigger] self.cache(i) == pre.cache(i),
                forall|c: int| 0 <= c < 8 * BLOCK_SIZE ==> #[trigger] self.occupied(c) == (pre.occupied(c) && !(exists|x: int| 0 <= x < b && pre.dblock(d as int, x) == c && c != 0)),
                self.disk == pre.disk,
                self.oft == pre.oft,
                self.memory == pre.memory,
            decreases MAX_FILE_BLOCKS - b,
        {
            proof {
                assert(pre.block_ok(d as int, b as int));
            }
            if desc.blocks[b] != 0 {
                let ghost before = *self;
                self.free_block(desc.blocks[b] as usize);
                proof {
                    assert forall|c: int| 0 <= c < 8 * BLOCK_SIZE implies #[trigger] self.occupied(c) == (pre.occupied(c) && !(exists|x: int| 0 <= x < b + 1 && pre.dblock(d as int, x) == c && c != 0)) by {
                        assert(before.occupied(c) == (pre.occupied(c) && !(exists|x: int| 0 <= x < b && pre.dblock(d as int, x) == c && c != 0)));
                        if c == desc.blocks[b as int] {
                            assert(pre.dblock(d as int, b as int) == c);
                        } else {
                            if exists|x: int| 0 <= x < b + 1 && pre.dblock(d as int, x) == c && c != 0 {
                                let x = choose|x: int| 0 <= x < b + 1 && pre.dblock(d as int, x) == c && c != 0;
                                assert(x < b);
                            }
                        }
                    }
                }
            } else {
                proof {
                    assert forall|c: int| 0 <= c < 8 * BLOCK_SIZE implies #[trigger] self.occupied(c) == (pre.occupied(c) && !(exists|x: int| 0 <= x < b + 1 && pre.dblock(d as int, x) == c && c != 0)) by {
                        if exists|x: int| 0 <= x < b + 1 && pre.dblock(d as int, x) == c && c != 0 {
                            let x = choose|x: int| 0 <= x < b + 1 && pre.dblock(d as int, x) == c && c != 0;
                            assert(x < b);
                        }
                    }
                }
            }
            b = b + 1;
        }
        let free_desc = FileDescriptor::new_free();
        let ghost freed = *self;
        self.write_descriptor(d, &free_desc);
        proof {
            Self::lemma_free_keeps(pre, freed, *self, d as int);
            assert forall|c: int| 0 <= c < 8 * BLOCK_SIZE implies #[trigger] self.occupied(c) == (pre.occupied(c)
                && !pre.owns_block(d as int, c)) by {
                assert(freed.occupied(c) == (pre.occupied(c) && !(exists|x: int| 0 <= x < 3 && pre.dblock(d as int, x) == c && c != 0)));
                if pre.owns_block(d as int, c) {
                    if pre.dblock(d as int, 0) == c {
                        assert(0 <= 0int < 3 && pre.dblock(d as int, 0) == c && c != 0);
                    } else if pre.dblock(d as int, 1) == c {
                        assert(0 <= 1int < 3 && pre.dblock(d as int, 1) == c && c != 0);
                    } else {
                        assert(0 <= 2int < 3 && pre.dblock(d as int, 2) == c && c != 0);
                    }
                }
            }
            assert forall|k: int| 0 <= k < 3 implies #[trigger] self.dblock(d as int, k) == 0 by {
                assert(free_desc.blocks[k] == 0);
            }
        }
    }

    /// Whether some block is free.
    pub(crate) fn has_free_block_exec(&self) -> (free: bool)
        ensures
            free == self.has_free_block(),
    {
        let found = find_free_block(&self.reserved_cache[BITMAP_BLOCK]);
        proof {
            if let Some(b) = found {
                assert(!self.occupied(b as int));
            }
        }
        found.is_some()
    }

    /// Whether the open files (entries 1-3) are as in `other`.
    pub open spec fn same_open_files(&self, other: Self) -> bool {
        forall|j: int|
            1 <= j < OFT_SIZE ==> (#[trigger] self.is_open(j) == other.is_open(j) && (self.is_open(j) ==> self.open_desc(j)
                == other.open_desc(j) && self.pos(j) == other.pos(j)))
    }

    /// Whether every descriptor, file and open file is as in `other`, except
    /// perhaps those of descriptor `d` and of the directory.
    pub open spec fn same_files_except(&self, other: Self, d: int) -> bool {
        &&& forall|i: int| 1 <= i < NUM_DESCRIPTORS && i != d ==> #[trigger] self.dsize(i) == other.dsize(i)
        &&& forall|i: int| 1 <= i < NUM_DESCRIPTORS && i != d ==> #[trigger] self.content(i) == other.content(i)
    }

    /// Whether files, directory, open files and memory are all as in `other`.
    pub open spec fn same_files(&self, other: Self) -> bool {
        &&& self.same_files_except(other, -1)
        &&& self.dsize(0) == other.dsize(0)
        &&& self.dir() == other.dir()
        &&& self.same_open_files(other)
        &&& self.mem() == other.mem()
    }

    /// A state whose memory, open files, descriptor sizes and file contents
    /// are those of `pre` has the same files.
    pub(crate) proof fn lemma_same_files(&self, pre: Self)
        requires
            self.memory == pre.memory,
            forall|j: int| 1 <= j < OFT_SIZE ==> #[trigger] self.entry(j) == pre.entry(j),
            forall|d: int| 0 <= d < NUM_DESCRIPTORS ==> #[trigger] self.content(d) == pre.content(d),
            forall|i: int| 0 <= i < NUM_DESCRIPTORS ==> #[trigger] self.dsize(i) == pre.dsize(i),
        ensures
            self.same_files(pre),
    {
        assert(self.content(0) == pre.content(0));
        assert(self.dsize(0) == pre.dsize(0));
        assert(self.mem() =~= pre.mem());
    }

    /// The memory is unchanged when the field is.
    pub(crate) proof fn lemma_same_mem(&self, pre: Self)
        requires
            self.memory == pre.memory,
        ensures
            self.mem() == pre.mem(),
    {
    }

    /// Whether the tables, memory, open files and file contents are those of `other`.
    pub(crate) open spec fn unchanged_from(&self, other: Self) -> bool {
        &&& self.reserved_cache == other.reserved_cache
        &&& self.memory == other.memory
        &&& forall|j: int| 1 <= j < OFT_SIZE ==> #[trigger] self.entry(j) == other.entry(j)
        &&& forall|d: int| 0 <= d < NUM_DESCRIPTORS ==> #[trigger] self.content(d) == other.content(d)
    }

    /// What stays when the tables, memory, open files and contents do.
    pub(crate) proof fn lemma_unchanged(&self, other: Self)
        requires
            self.unchanged_from(other),
        ensures
            forall|i: int| #[trigger] self.dsize(i) == other.dsize(i),
            forall|i: int, b: int| #[trigger] self.dblock(i, b) == other.dblock(i, b),
            forall|b: int| #[trigger] self.occupied(b) == other.occupied(b),
            self.same_files(other),
            other.dir_ok() ==> self.dir_ok(),
            self.has_free_block() == other.has_free_block(),
            self.wf_core() && other.wf_core() ==> forall|d: int| d != 0 ==> #[trigger] self.holder(d) == other.holder(d),
    {
        Self::lemma_same_tables(other, *self);
        if self.wf_core() && other.wf_core() {
            assert forall|d: int| d != 0 implies #[trigger] self.holder(d) == other.holder(d) by {
                assert(self.entry_ok(0));
                assert(other.entry_ok(0));
                assert(self.holds(1, d) == other.holds(1, d));
                assert(self.holds(2, d) == other.holds(2, d));
                assert(self.holds(3, d) == other.holds(3, d));
            }
        }
        self.lemma_same_files(other);
        if other.dir_ok() {
            Self::lemma_dir_ok_same(other, *self);
        }
        if other.has_free_block() {
            let b = choose|b: int| 0 <= b < NUM_BLOCKS && !#[trigger] other.occupied(b);
            assert(!self.occupied(b));
        }
        if self.has_free_block() {
            let b = choose|b: int| 0 <= b < NUM_BLOCKS && !#[trigger] self.occupied(b);
            assert(!other.occupied(b));
        }
    }

    /// Being unchanged carries over.
    pub(crate) proof fn lemma_unchanged_trans(a: Self, b: Self, c: Self)
        requires
            b.unchanged_from(a),
            c.unchanged_from(b),
        ensures
            c.unchanged_from(a),
    {
        assert forall|j: int| 1 <= j < OFT_SIZE implies #[trigger] c.entry(j) == a.entry(j) by {
            assert(b.entry(j) == a.entry(j));
        }
        assert forall|d: int| 0 <= d < NUM_DESCRIPTORS implies #[trigger] c.content(d) == a.content(d) by {
            assert(b.content(d) == a.content(d));
        }
    }

    /// Whether some entry of the open file table holds descriptor `d` open.
    pub(crate) fn is_held_open(&self, d: usize) -> (held: bool)
        requires
            self.shape(),
        ensures
            held == (self.holder(d as int) != -1),
    {
        proof {
            self.oft.lemma_len();
        }
        let mut j: usize = 0;
        while j < OFT_SIZE
            invariant
                j <= OFT_SIZE,
                self.oft@.len() == OFT_SIZE,
                forall|k: int| 0 <= k < j ==> !#[trigger] self.holds(k, d as int),
            decreases OFT_SIZE - j,
        {
            let hit = match self.oft.get(j) {
                Some(e) => !e.is_free() && e.descriptor_index as usize == d && e.descriptor_index >= 0,
                None => false,
            };
            if hit {
                return true;
            }
            j = j + 1;
        }
        false
    }

    /// The first free entry of the open file table from entry 1 on.
    pub(crate) fn free_slot(&self) -> (found: Option<usize>)
        ensures
            match found {
                Some(j) => 1 <= j < OFT_SIZE && !self.is_open(j as int) && forall|k: int|
                    1 <= k < j ==> #[trigger] self.is_open(k),
                None => forall|k: int| 1 <= k < OFT_SIZE ==> #[trigger] self.is_open(k),
            },
    {
        self.oft.find_free()
    }

    /// Whether entry `j` of the open file table is in use.
    pub(crate) fn entry_is_open(&self, j: usize) -> (open: bool)
        requires
            self.shape(),
            j < OFT_SIZE,
        ensures
            open == self.is_open(j as int),
    {
        proof {
            self.oft.lemma_len();
        }
        match self.oft.get(j) {
            Some(e) => !e.is_free(),
            None => false,
        }
    }

    /// The descriptor that the open entry `j` holds.
    pub(crate) fn entry_descriptor(&self, j: usize) -> (d: usize)
        requires
            self.wf_core(),
            j < OFT_SIZE,
            self.is_open(j as int),
        ensures
            d == self.open_desc(j as int),
            d < NUM_DESCRIPTORS,
            self.dsize(d as int) >= 0,
            0 <= self.pos(j as int) <= self.dsize(d as int),
    {
        proof {
            self.oft.lemma_len();
            assert(self.entry_ok(j as int));
        }
        match self.oft.get(j) {
            Some(e) => e.descriptor_index as usize,
            None => 0,
        }
    }

    /// The position, size and descriptor index of entry `j` of the open file table.
    pub(crate) fn entry_fields(&self, j: usize) -> (r: (i32, i32, i32))
        requires
            j < OFT_SIZE,
        ensures
            r == (self.entry(j as int).current_pos, self.entry(j as int).size, self.entry(j as int).descriptor_index),
    {
        proof {
            self.oft.lemma_len();
        }
        match self.oft.get(j) {
            Some(e) => (e.current_pos, e.size, e.descriptor_index),
            None => (0, 0, 0),
        }
    }

    /// The current position of the open entry `j`.
    pub(crate) fn entry_position(&self, j: usize) -> (p: usize)
        requires
            self.wf_core(),
            j < OFT_SIZE,
            self.is_open(j as int),
        ensures
            p == self.pos(j as int),
    {
        proof {
            self.oft.lemma_len();
            assert(self.entry_ok(j as int));
        }
        match self.oft.get(j) {
            Some(e) => e.current_pos as usize,
            None => 0,
        }
    }

    /// The memory is the memory field's contents.
    pub(crate) proof fn lemma_mem(&self)
        ensures
            self.mem() == self.memory@,
    {
    }

    /// Sets byte `k` of the memory M.
    pub(crate) fn set_mem(&mut self, k: usize, x: u8)
        requires
            k < BLOCK_SIZE,
        ensures
            final(self).mem() == old(self).mem().update(k as int, x),
            final(self).disk == old(self).disk,
            final(self).oft == old(self).oft,
            final(self).wf_core() == old(self).wf_core(),
            final(self).dir_ok() == old(self).dir_ok(),
            final(self).reserved_cache == old(self).reserved_cache,
            forall|j: int| #[trigger] final(self).entry(j) == old(self).entry(j),
            forall|d: int| #[trigger] final(self).content(d) == old(self).content(d),
            forall|i: int| #[trigger] final(self).dsize(i) == old(self).dsize(i),
            forall|i: int, b: int| #[trigger] final(self).dblock(i, b) == old(self).dblock(i, b),
            forall|b: int| #[trigger] final(self).occupied(b) == old(self).occupied(b),
    {
        let ghost pre = *self;
        self.memory[k] = x;
        proof {
            Self::lemma_same_tables(pre, *self);
            assert forall|d: int| #[trigger] self.content(d) == pre.content(d) by {
                assert(self.content(d) =~= pre.content(d));
            }
            assert(self.wf_core() == pre.wf_core()) by {
                if pre.wf_core() {
                    assert forall|j: int| 0 <= j < OFT_SIZE implies #[trigger] self.entry_ok(j) by {
                        assert(pre.entry_ok(j));
                    }
                    assert forall|j1: int, j2: int|
                        0 <= j1 < OFT_SIZE && 0 <= j2 < OFT_SIZE && j1 != j2 && self.is_open(j1) && self.is_open(j2)
                            implies #[trigger] self.open_desc(j1) != #[trigger] self.open_desc(j2) by {
                        assert(pre.open_desc(j1) != pre.open_desc(j2));
                    }
                }
                if self.wf_core() {
                    Self::lemma_same_tables(*self, pre);
                    assert forall|j: int| 0 <= j < OFT_SIZE implies #[trigger] pre.entry_ok(j) by {
                        assert(self.entry_ok(j));
                    }
                    assert forall|j1: int, j2: int|
                        0 <= j1 < OFT_SIZE && 0 <= j2 < OFT_SIZE && j1 != j2 && pre.is_open(j1) && pre.is_open(j2)
                            implies #[trigger] pre.open_desc(j1) != #[trigger] pre.open_desc(j2) by {
                        assert(self.open_desc(j1) != self.open_desc(j2));
                    }
                }
            }
            assert(self.dir_ok() == pre.dir_ok()) by {
                if pre.dir_ok() {
                    Self::lemma_dir_ok_same(pre, *self);
                }
                if self.dir_ok() {
                    Self::lemma_dir_ok_same(*self, pre);
                }
            }
        }
    }
}

} // verus!
