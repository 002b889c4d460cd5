//! The directory: a file (descriptor 0, always open in entry 0 of the open
//! file table) of 8-byte entries, a 4-byte name padded with zeros and a 4-byte
//! descriptor index; index 0 marks a free entry. It is read and written
//! through the same buffered byte access as any file.
use vstd::prelude::*;
use crate::byte_utils::{i32_at, read_i32};
use crate::constants::{BLOCK_SIZE, DIR_ENTRY_SIZE, MAX_FILE_SIZE, NUM_BLOCKS, NUM_DESCRIPTORS, OFT_SIZE};
use crate::fs::{put_at, FileSystem};

verus! {

/// The descriptor index stored in directory entry `e` of `dir`.
pub open spec fn entry_index(dir: Seq<u8>, e: int) -> int {
    i32_at(dir, DIR_ENTRY_SIZE * e + 4)
}

/// The four name bytes stored in directory entry `e` of `dir`.
pub open spec fn entry_name(dir: Seq<u8>, e: int) -> Seq<u8> {
    dir.subrange(DIR_ENTRY_SIZE * e, DIR_ENTRY_SIZE * e + 4)
}

/// Whether directory entry `e` names a file.
pub open spec fn entry_used(dir: Seq<u8>, e: int) -> bool {
    entry_index(dir, e) != 0
}

/// Whether directory entry `e` names a file called `key` (zero-padded).
pub open spec fn entry_matches(dir: Seq<u8>, e: int, key: Seq<u8>) -> bool {
    entry_used(dir, e) && entry_name(dir, e) == key
}

/// Whether entry `e` is what a search wants: one that names `key` when
/// `want_used`, a free one otherwise.
pub open spec fn search_hit(dir: Seq<u8>, key: Seq<u8>, want_used: bool, e: int) -> bool {
    if want_used {
        entry_matches(dir, e, key)
    } else {
        !entry_used(dir, e)
    }
}

/// `c` with the bytes from `at` on replaced by `data`, growing it if needed.
pub open spec fn overwrite(c: Seq<u8>, at: int, data: Seq<u8>) -> Seq<u8> {
    let len = if c.len() < at + data.len() { at + data.len() } else { c.len() as int };
    Seq::new(len as nat, |k: int| if at <= k < at + data.len() { data[k - at] } else { c[k] })
}

/// Appending bytes one at a time is overwriting with their sequence.
pub(crate) proof fn lemma_overwrite_step(c: Seq<u8>, at: int, data: Seq<u8>, i: int)
    requires
        0 <= at <= c.len(),
        0 <= i < data.len(),
    ensures
        overwrite(c, at, data.take(i + 1)) == put_at(overwrite(c, at, data.take(i)), at + i, data[i]),
{
    assert(overwrite(c, at, data.take(i + 1)) =~= put_at(overwrite(c, at, data.take(i)), at + i, data[i]));
}

/// Whether an entry with these name bytes and index is what a search wants.
fn entry_hit(name: &[u8; 4], index: i32, key: &[u8; 4], want_used: bool) -> (hit: bool)
    ensures
        hit == if want_used { index != 0 && name@ == key@ } else { index == 0 },
{
    if want_used {
        let same = name[0] == key[0] && name[1] == key[1] && name[2] == key[2] && name[3] == key[3];
        proof {
            if same {
                assert(name@ =~= key@);
            }
        }
        index != 0 && same
    } else {
        index == 0
    }
}

/// Writing an 8-byte entry at entry `e` sets that entry's name and index and
/// keeps every other entry.
pub proof fn lemma_entry_written(dir: Seq<u8>, e: int, bytes: Seq<u8>, e2: int)
    requires
        0 <= e,
        DIR_ENTRY_SIZE * e <= dir.len(),
        bytes.len() == DIR_ENTRY_SIZE,
        0 <= e2,
        DIR_ENTRY_SIZE * e2 + DIR_ENTRY_SIZE <= overwrite(dir, DIR_ENTRY_SIZE * e, bytes).len(),
    ensures
        e2 == e ==> entry_index(overwrite(dir, DIR_ENTRY_SIZE * e, bytes), e2) == i32_at(bytes, 4),
        e2 == e ==> entry_name(overwrite(dir, DIR_ENTRY_SIZE * e, bytes), e2) == bytes.subrange(0, 4),
        e2 != e ==> entry_index(overwrite(dir, DIR_ENTRY_SIZE * e, bytes), e2) == entry_index(dir, e2),
        e2 != e ==> entry_name(overwrite(dir, DIR_ENTRY_SIZE * e, bytes), e2) == entry_name(dir, e2),
{
    let w = overwrite(dir, DIR_ENTRY_SIZE * e, bytes);
    if e2 == e {
        assert(entry_name(w, e2) =~= bytes.subrange(0, 4));
        assert(w[8 * e + 4] == bytes[4]);
        assert(w[8 * e + 5] == bytes[5]);
        assert(w[8 * e + 6] == bytes[6]);
        assert(w[8 * e + 7] == bytes[7]);
    } else {
        if e2 < e {
            assert(8 * e2 + 8 <= 8 * e);
        } else {
            assert(8 * e + 8 <= 8 * e2);
        }
        assert(entry_name(w, e2) =~= entry_name(dir, e2));
        assert(w[8 * e2 + 4] == dir[8 * e2 + 4]);
        assert(w[8 * e2 + 5] == dir[8 * e2 + 5]);
        assert(w[8 * e2 + 6] == dir[8 * e2 + 6]);
        assert(w[8 * e2 + 7] == dir[8 * e2 + 7]);
    }
}

impl FileSystem {
    /// Whether some directory entry names `key`.
    pub open spec fn name_taken(&self, key: Seq<u8>) -> bool {
        exists|e: int| 0 <= e < self.entry_count() && #[trigger] entry_matches(self.dir(), e, key)
    }

    /// Whether `e` is the first directory entry that names `key`.
    pub open spec fn is_first_match(&self, key: Seq<u8>, e: int) -> bool {
        &&& 0 <= e < self.entry_count()
        &&& entry_matches(self.dir(), e, key)
        &&& forall|e2: int| 0 <= e2 < e ==> !#[trigger] entry_matches(self.dir(), e2, key)
    }

    /// The first directory entry that names `key` (when one does).
    pub open spec fn first_match(&self, key: Seq<u8>) -> int {
        choose|e: int| self.is_first_match(key, e)
    }

    /// Whether some directory entry is free.
    pub open spec fn has_free_entry(&self) -> bool {
        exists|e: int| 0 <= e < self.entry_count() && !#[trigger] entry_used(self.dir(), e)
    }

    /// Whether `e` is the first free directory entry.
    pub open spec fn is_first_free_entry(&self, e: int) -> bool {
        &&& 0 <= e < self.entry_count()
        &&& !entry_used(self.dir(), e)
        &&& forall|e2: int| 0 <= e2 < e ==> #[trigger] entry_used(self.dir(), e2)
    }

    /// Where a new directory entry goes: the first free entry, or a new one at the end.
    pub open spec fn new_entry_slot(&self) -> int {
        if self.has_free_entry() {
            choose|e: int| self.is_first_free_entry(e)
        } else {
            self.entry_count()
        }
    }

    /// Whether some descriptor other than the directory's is free.
    pub open spec fn has_free_descriptor(&self) -> bool {
        exists|i: int| 1 <= i < NUM_DESCRIPTORS && #[trigger] self.dsize(i) == -1
    }

    /// Whether `d` is the first free descriptor.
    pub open spec fn is_first_free_descriptor(&self, d: int) -> bool {
        &&& 1 <= d < NUM_DESCRIPTORS
        &&& self.dsize(d) == -1
        &&& forall|c: int| 1 <= c < d ==> #[trigger] self.dsize(c) != -1
    }

    /// The first free descriptor (when one is).
    pub open spec fn first_free_descriptor(&self) -> int {
        choose|d: int| self.is_first_free_descriptor(d)
    }

    /// Reads directory entry `e`: its name bytes and its descriptor index.
    pub(crate) fn read_entry(&mut self, e: usize) -> (r: ([u8; 4], i32))
        requires
            old(self).wf_core(),
            DIR_ENTRY_SIZE * e + DIR_ENTRY_SIZE <= old(self).dsize(0),
        ensures
            r.0@ == entry_name(old(self).dir(), e as int),
            r.1 == entry_index(old(self).dir(), e as int),
            final(self).wf_core(),
            final(self).unchanged_from(*old(self)),
            final(self).reserved_cache == old(self).reserved_cache,
            final(self).memory == old(self).memory,
            forall|j: int| 1 <= j < OFT_SIZE ==> #[trigger] final(self).entry(j) == old(self).entry(j),
            forall|d: int| 0 <= d < NUM_DESCRIPTORS ==> #[trigger] final(self).content(d) == old(self).content(d),
            forall|i: int| #[trigger] final(self).dsize(i) == old(self).dsize(i),
            forall|i: int, b: int| #[trigger] final(self).dblock(i, b) == old(self).dblock(i, b),
            forall|b: int| #[trigger] final(self).occupied(b) == old(self).occupied(b),
    {
        let ghost pre = *self;
        let ghost dir = pre.dir();
        proof {
            pre.lemma_holder(0);
            assert(pre.entry_ok(0));
        }
        let start = DIR_ENTRY_SIZE * e;
        self.swap_to(0, start as i32);
        let mut bytes = [0u8; DIR_ENTRY_SIZE];
        let mut i: usize = 0;
        while i < DIR_ENTRY_SIZE
            invariant
                i <= DIR_ENTRY_SIZE,
                start == DIR_ENTRY_SIZE * e,
                start + DIR_ENTRY_SIZE <= pre.dsize(0),
                dir == pre.dir(),
                self.wf_core(),
                self.is_open(0),
                self.open_desc(0) == 0,
                self.pos(0) == start + i,
                self.reserved_cache == pre.reserved_cache,
                self.memory == pre.memory,
                forall|j: int| 1 <= j < OFT_SIZE ==> #[trigger] self.entry(j) == pre.entry(j),
                forall|d: int| 0 <= d < NUM_DESCRIPTORS ==> #[trigger] self.content(d) == pre.content(d),
                forall|x: int| #[trigger] self.dsize(x) == pre.dsize(x),
                forall|x: int, b: int| #[trigger] self.dblock(x, b) == pre.dblock(x, b),
                forall|b: int| #[trigger] self.occupied(b) == pre.occupied(b),
                forall|k: int| 0 <= k < i ==> #[trigger] bytes@[k] == dir[start + k],
            decreases DIR_ENTRY_SIZE - i,
        {
            proof {
                assert(self.entry_ok(0));
            }
            let ghost before = *self;
            let x = self.get_byte(0);
            proof {
                assert(before.content(0) == pre.content(0));
                assert(x == dir[start + i]);
            }
            bytes[i] = x;
            i = i + 1;
        }
        let name = [bytes[0], bytes[1], bytes[2], bytes[3]];
        let index = read_i32(&bytes, 4);
        proof {
            assert(name@ =~= entry_name(dir, e as int));
            assert(bytes@[4] == dir[start + 4]);
            assert(bytes@[5] == dir[start + 5]);
            assert(bytes@[6] == dir[start + 6]);
            assert(bytes@[7] == dir[start + 7]);
        }
        (name, index)
    }

    /// Writes the eight bytes of directory entry `e`, growing the directory by
    /// one entry when `e` is just past its end.
    pub(crate) fn write_entry(&mut self, e: usize, bytes: &[u8; DIR_ENTRY_SIZE])
        requires
            old(self).wf_core(),
            old(self).dsize(0) % DIR_ENTRY_SIZE as int == 0,
            DIR_ENTRY_SIZE * e <= old(self).dsize(0),
            DIR_ENTRY_SIZE * e + DIR_ENTRY_SIZE <= MAX_FILE_SIZE,
            DIR_ENTRY_SIZE * e < old(self).dsize(0) || old(self).dblock(0, (DIR_ENTRY_SIZE * e) as int / BLOCK_SIZE as int) != 0
                || old(self).has_free_block(),
        ensures
            final(self).wf_core(),
            final(self).dir() == overwrite(old(self).dir(), DIR_ENTRY_SIZE * e, bytes@),
            final(self).dsize(0) == if DIR_ENTRY_SIZE * e < old(self).dsize(0) { old(self).dsize(0) } else { old(self).dsize(0) + DIR_ENTRY_SIZE },
            final(self).memory == old(self).memory,
            forall|j: int| 1 <= j < OFT_SIZE ==> #[trigger] final(self).entry(j) == old(self).entry(j),
            forall|d: int| 1 <= d < NUM_DESCRIPTORS ==> #[trigger] final(self).content(d) == old(self).content(d),
            forall|i: int| 1 <= i < NUM_DESCRIPTORS ==> #[trigger] final(self).dsize(i) == old(self).dsize(i),
            forall|i: int, b: int| 1 <= i < NUM_DESCRIPTORS && 0 <= b < 3 ==> #[trigger] final(self).dblock(i, b) == old(self).dblock(i, b),
            final(self).bitmap_grown(*old(self), 0),
            final(self).blocks_grown(*old(self), 0),
            final(self).lowest_free_given(*old(self), 0),
    {
        let ghost pre = *self;
        let ghost dir = pre.dir();
        proof {
            pre.lemma_holder(0);
            assert(pre.entry_ok(0));
            assert(pre.block_ok(0, (DIR_ENTRY_SIZE * e) as int / BLOCK_SIZE as int));
        }
        let start = DIR_ENTRY_SIZE * e;
        self.swap_to(0, start as i32);
        let mut i: usize = 0;
        while i < DIR_ENTRY_SIZE
            invariant
                i <= DIR_ENTRY_SIZE,
                start == DIR_ENTRY_SIZE * e,
                start + DIR_ENTRY_SIZE <= MAX_FILE_SIZE,
                start <= pre.dsize(0),
                pre.dsize(0) % DIR_ENTRY_SIZE as int == 0,
                dir == pre.dir(),
                pre.wf_core(),
                self.wf_core(),
                self.is_open(0),
                self.open_desc(0) == 0,
                self.pos(0) == start + i,
                i > 0 || start < pre.dsize(0) || pre.dblock(0, start as int / BLOCK_SIZE as int) != 0 || pre.has_free_block(),
                i == 0 ==> self.occupied_same_as(pre),
                i > 0 ==> self.dblock(0, start as int / BLOCK_SIZE as int) != 0,
                self.dblock(0, start as int / BLOCK_SIZE as int) == pre.dblock(0, start as int / BLOCK_SIZE as int) || i > 0,
                self.dir() == overwrite(dir, start as int, bytes@.take(i as int)),
                self.dsize(0) == if start + i < pre.dsize(0) { pre.dsize(0) } else { start + i },
                self.bitmap_grown(pre, 0),
                self.blocks_grown(pre, 0),
                self.lowest_free_given(pre, 0),
                forall|k: int| 0 <= k < 3 && pre.dblock(0, k) == 0 && #[trigger] self.dblock(0, k) != 0 ==> k * BLOCK_SIZE
                    <= start + i,
                self.memory == pre.memory,
                forall|j: int| 1 <= j < OFT_SIZE ==> #[trigger] self.entry(j) == pre.entry(j),
                forall|d: int| 1 <= d < NUM_DESCRIPTORS ==> #[trigger] self.content(d) == pre.content(d),
                forall|x: int| 1 <= x < NUM_DESCRIPTORS ==> #[trigger] self.dsize(x) == pre.dsize(x),
                forall|x: int, b: int| 1 <= x < NUM_DESCRIPTORS && 0 <= b < 3 ==> #[trigger] self.dblock(x, b) == pre.dblock(x, b),
            decreases DIR_ENTRY_SIZE - i,
        {
            let ghost before = *self;
            proof {
                assert((start + i) as int / BLOCK_SIZE as int == start as int / BLOCK_SIZE as int);
                if i == 0 {
                    if start < pre.dsize(0) {
                        assert(pre.block_ok(0, start as int / BLOCK_SIZE as int));
                    }
                    if pre.has_free_block() {
                        let b = choose|b: int| 0 <= b < NUM_BLOCKS && !#[trigger] pre.occupied(b);
                        assert(!before.occupied(b));
                    }
                }
                lemma_overwrite_step(dir, start as int, bytes@, i as int);
                assert(bytes@.take(i as int + 1) == bytes@.take(i as int + 1));
            }
            let ok = self.put_byte(0, bytes[i]);
            proof {
                assert(ok);
                Self::lemma_grow_step(pre, before, *self, 0, (start + i) as int / BLOCK_SIZE as int);
                assert(self.block_ok(0, (start + i) as int / BLOCK_SIZE as int));
                Self::lemma_lowest_step(pre, before, *self, 0, (start + i) as int / BLOCK_SIZE as int, (start + i) as int);
            }
            i = i + 1;
        }
        proof {
            assert(bytes@.take(DIR_ENTRY_SIZE as int) =~= bytes@);
        }
    }

    /// The number of directory entries, free ones included.
    pub(crate) fn entry_count_exec(&self) -> (n: usize)
        requires
            self.wf_core(),
        ensures
            n == self.entry_count(),
            n * DIR_ENTRY_SIZE <= self.dsize(0),
            n <= MAX_FILE_SIZE / DIR_ENTRY_SIZE,
    {
        proof {
            assert(self.desc_ok(0));
        }
        let size = self.read_descriptor(0).size;
        (size as usize) / DIR_ENTRY_SIZE
    }

    /// The first directory entry that names `key` (`want_used`) or the first
    /// free entry (`!want_used`, `key` unused).
    pub(crate) fn search_entries(&mut self, key: &[u8; 4], want_used: bool) -> (found: Option<usize>)
        requires
            old(self).wf_core(),
        ensures
            match found {
                Some(e) => e < old(self).entry_count() && search_hit(old(self).dir(), key@, want_used, e as int)
                    && forall|e2: int| 0 <= e2 < e ==> !#[trigger] search_hit(old(self).dir(), key@, want_used, e2),
                None => forall|e2: int| 0 <= e2 < old(self).entry_count() ==> !#[trigger] search_hit(old(self).dir(), key@, want_used, e2),
            },
            final(self).wf_core(),
            final(self).unchanged_from(*old(self)),
    {
        let ghost pre = *self;
        let ghost dir = pre.dir();
        let n = self.entry_count_exec();
        let mut e: usize = 0;
        while e < n
            invariant
                e <= n,
                pre == *old(self),
                n == pre.entry_count(),
                n * DIR_ENTRY_SIZE <= pre.dsize(0),
                dir == pre.dir(),
                self.wf_core(),
                self.reserved_cache == pre.reserved_cache,
                self.memory == pre.memory,
                forall|j: int| 1 <= j < OFT_SIZE ==> #[trigger] self.entry(j) == pre.entry(j),
                forall|d: int| 0 <= d < NUM_DESCRIPTORS ==> #[trigger] self.content(d) == pre.content(d),
                forall|x: int| #[trigger] self.dsize(x) == pre.dsize(x),
                forall|x: int, b: int| #[trigger] self.dblock(x, b) == pre.dblock(x, b),
                forall|b: int| #[trigger] self.occupied(b) == pre.occupied(b),
                forall|e2: int| 0 <= e2 < e ==> !#[trigger] search_hit(dir, key@, want_used, e2),
            decreases n - e,
        {
            let ghost before = *self;
            let (name, index) = self.read_entry(e);
            proof {
                assert(before.dir() == dir);
            }
            let hit = entry_hit(&name, index, key, want_used);
            if hit {
                return Some(e);
            }
            e = e + 1;
        }
        None
    }

    /// Some free entry below `e` or `e` itself is the first free entry.
    proof fn lemma_first_free_entry_exists(&self, e: int)
        requires
            0 <= e < self.entry_count(),
            !entry_used(self.dir(), e),
        ensures
            exists|c: int| self.is_first_free_entry(c),
        decreases e,
    {
        if exists|c: int| 0 <= c < e && !#[trigger] entry_used(self.dir(), c) {
            let c = choose|c: int| 0 <= c < e && !#[trigger] entry_used(self.dir(), c);
            self.lemma_first_free_entry_exists(c);
        } else {
            assert(self.is_first_free_entry(e));
        }
    }

    /// A new entry goes to a free entry or right after the last one.
    pub(crate) proof fn lemma_new_entry_slot_range(&self)
        requires
            self.dsize(0) >= 0,
        ensures
            0 <= self.new_entry_slot() <= self.entry_count(),
            self.new_entry_slot() < self.entry_count() ==> !entry_used(self.dir(), self.new_entry_slot()),
    {
        if self.has_free_entry() {
            let e = choose|e: int| 0 <= e < self.entry_count() && !#[trigger] entry_used(self.dir(), e);
            self.lemma_first_free_entry_exists(e);
        }
    }

    /// The directory's invariant depends only on its contents and the descriptor sizes.
    pub(crate) proof fn lemma_dir_ok_same(pre: Self, post: Self)
        requires
            pre.dir_ok(),
            post.dir() == pre.dir(),
            forall|i: int| 0 <= i < NUM_DESCRIPTORS ==> #[trigger] post.dsize(i) == pre.dsize(i),
        ensures
            post.dir_ok(),
    {
        assert(post.dsize(0) == pre.dsize(0));
        assert forall|e: int| 0 <= e < post.entry_count() implies #[trigger] post.dir_entry_ok(e) by {
            assert(pre.dir_entry_ok(e));
            let x = entry_index(pre.dir(), e);
            if x != 0 {
                assert(post.dsize(x) == pre.dsize(x));
            }
        }
    }

    /// The directory's invariant stays when its contents stay and no file in use
    /// becomes free.
    pub(crate) proof fn lemma_dir_ok_keep(pre: Self, post: Self)
        requires
            pre.dir_ok(),
            post.dir() == pre.dir(),
            post.dsize(0) == pre.dsize(0),
            forall|i: int| 1 <= i < NUM_DESCRIPTORS && pre.dsize(i) >= 0 ==> #[trigger] post.dsize(i) >= 0,
        ensures
            post.dir_ok(),
    {
        assert forall|e: int| 0 <= e < post.entry_count() implies #[trigger] post.dir_entry_ok(e) by {
            assert(pre.dir_entry_ok(e));
            let x = entry_index(pre.dir(), e);
            if x != 0 {
                assert(pre.dsize(x) >= 0);
            }
        }
    }
}

} // verus!
