//! The file system's commands: create, destroy, open, close, read, write,
//! seek, directory listing, and reading and writing the user memory.
use vstd::prelude::*;
use vstd::string::{StrSliceExecFns, StringSliceAdditionalSpecFns};
use crate::byte_utils::{i32_at, i32_le_bytes, write_i32, lemma_i32_round_trip};
use crate::constants::{BLOCK_SIZE, DIR_ENTRY_SIZE, MAX_FILE_SIZE, MAX_NAME_LEN, NUM_DESCRIPTORS, OFT_SIZE};
use crate::directory::{entry_index, entry_matches, entry_name, entry_used, lemma_entry_written, overwrite};
use crate::fs::FileSystem;
use vstd::math::min;
use crate::text::{bytes_chars, string_of_bytes};

verus! {

/// Why a file system command failed.
#[derive(Debug, Clone, Copy, PartialEq, Eq)]
pub enum FsError {
    /// The name is empty, longer than four characters, or not plain ASCII.
    InvalidName,
    /// A file of that name exists.
    FileExists,
    /// Every descriptor is in use.
    NoFreeDescriptor,
    /// The directory has no free entry and is at the largest file size.
    DirectoryFull,
    /// A block was needed and none is free.
    DiskFull,
    /// No file has that name.
    FileNotFound,
    /// The file is open.
    FileOpen,
    /// Every entry of the open file table is in use.
    TooManyOpenFiles,
    /// The index is not that of a file's entry in the open file table.
    InvalidIndex,
    /// The entry of the open file table is free.
    NotOpen,
    /// The position is past the end of the file.
    InvalidPosition,
    /// The position is past the end of the memory.
    InvalidMemoryPosition,
}

/// Whether `name` is a legal file name: one to four ASCII characters, none NUL.
pub open spec fn valid_name(name: Seq<char>) -> bool {
    &&& 1 <= name.len() <= MAX_NAME_LEN
    &&& forall|i: int| 0 <= i < name.len() ==> 0 < #[trigger] (name[i] as u32) < 128
}

/// The four bytes a name is stored as: its characters, padded with zeros.
pub open spec fn name_key(name: Seq<char>) -> Seq<u8> {
    Seq::new(4, |i: int| if i < name.len() { name[i] as u32 as u8 } else { 0u8 })
}

/// The eight bytes of a directory entry for `key` and descriptor `d`.
pub open spec fn entry_bytes(key: Seq<u8>, d: int) -> Seq<u8> {
    key + i32_le_bytes(d)
}

/// The stored form of `name`, or `None` if it is not a legal name.
fn name_to_key(name: &str) -> (key: Option<[u8; 4]>)
    ensures
        key is Some <==> valid_name(name@),
        key is Some ==> key->0@ == name_key(name@),
{
    let n = name.unicode_len();
    if n == 0 || n > MAX_NAME_LEN {
        return None;
    }
    let mut key = [0u8; 4];
    let mut i: usize = 0;
    while i < n
        invariant
            n == name@.len(),
            1 <= n <= MAX_NAME_LEN,
            i <= n,
            forall|k: int| 0 <= k < i ==> 0 < #[trigger] (name@[k] as u32) < 128,
            forall|k: int| 0 <= k < i ==> #[trigger] key@[k] == name@[k] as u32 as u8,
            forall|k: int| i <= k < 4 ==> #[trigger] key@[k] == 0u8,
        decreases n - i,
    {
        let c = name.get_char(i);
        let code = c as u32;
        if code == 0 || code >= 128 {
            return None;
        }
        key[i] = code as u8;
        i = i + 1;
    }
    proof {
        assert(key@ =~= name_key(name@));
    }
    Some(key)
}

impl FileSystem {
    /// What `create(name)` does: `r` is its result, `post` the state it leaves.
    pub open spec fn create_post(pre: Self, post: Self, name: Seq<char>, r: Result<(), FsError>) -> bool {
        &&& (r == match pre.create_error(name) {
            Some(e) => Err(e),
            None => Ok(()),
        })
        &&& (r is Err ==> post.same_but_directory_cursor(pre))
        &&& (r == Err::<(), FsError>(FsError::InvalidName) ==> post == pre)
        &&& (r is Ok ==> {
            let d = pre.first_free_descriptor();
            let e = pre.new_entry_slot();
            &&& pre.is_first_free_descriptor(d)
            &&& post.dsize(d) == 0
            &&& post.content(d) == Seq::<u8>::empty()
            &&& post.dir() == overwrite(pre.dir(), DIR_ENTRY_SIZE * e, entry_bytes(name_key(name), d))
            &&& post.same_files_except(pre, d)
            &&& post.same_open_files(pre)
            &&& post.mem() == pre.mem()
            &&& post.bitmap_grown(pre, 0)
            &&& post.blocks_grown(pre, 0)
            &&& post.lowest_free_given(pre, 0)
            &&& forall|j: int| 1 <= j < OFT_SIZE ==> #[trigger] post.entry(j) == pre.entry(j)
        })
    }

    /// What `destroy(name)` does.
    pub open spec fn destroy_post(pre: Self, post: Self, name: Seq<char>, r: Result<(), FsError>) -> bool {
        &&& (r == match pre.destroy_error(name) {
            Some(e) => Err(e),
            None => Ok(()),
        })
        &&& (r is Err ==> post.same_but_directory_cursor(pre))
        &&& (r == Err::<(), FsError>(FsError::InvalidName) ==> post == pre)
        &&& (r is Ok ==> {
            let e = pre.first_match(name_key(name));
            let d = entry_index(pre.dir(), e);
            &&& pre.is_first_match(name_key(name), e)
            &&& post.dsize(d) == -1
            &&& post.dir() == overwrite(pre.dir(), DIR_ENTRY_SIZE * e, Seq::new(8, |i: int| 0u8))
            &&& post.same_files_except(pre, d)
            &&& post.same_open_files(pre)
            &&& post.mem() == pre.mem()
            &&& post.bitmap_freed(pre, d)
            &&& forall|k: int| 0 <= k < 3 ==> #[trigger] post.dblock(d, k) == 0
            &&& forall|i: int, k: int| 0 <= i < NUM_DESCRIPTORS && i != d && 0 <= k < 3 ==> #[trigger] post.dblock(i, k)
                == pre.dblock(i, k)
            &&& forall|j: int| 1 <= j < OFT_SIZE ==> #[trigger] post.entry(j) == pre.entry(j)
        })
    }

    /// What `open(name)` does.
    pub open spec fn open_post(pre: Self, post: Self, name: Seq<char>, r: Result<usize, FsError>) -> bool {
        &&& (match pre.open_error(name) {
            Some(e) => r == Err::<usize, FsError>(e),
            None => r is Ok,
        })
        &&& (r is Err ==> post.same_but_directory_cursor(pre))
        &&& (r == Err::<usize, FsError>(FsError::InvalidName) ==> post == pre)
        &&& (r is Ok ==> {
            let j = r->Ok_0 as int;
            let d = entry_index(pre.dir(), pre.first_match(name_key(name)));
            &&& pre.is_first_free_slot(j)
            &&& post.holds(j, d)
            &&& post.pos(j) == 0
            &&& post.same_files_except(pre, -1)
            &&& post.dsize(0) == pre.dsize(0)
            &&& post.dir() == pre.dir()
            &&& forall|j2: int| 1 <= j2 < OFT_SIZE && j2 != j ==> #[trigger] post.entry(j2) == pre.entry(j2)
            &&& post.mem() == pre.mem()
            &&& post.tables_same_as(pre)
        })
    }

    /// What `close(index)` does.
    pub open spec fn close_post(pre: Self, post: Self, index: usize, r: Result<(), FsError>) -> bool {
        &&& (r == match pre.index_error(index as int) {
            Some(e) => Err(e),
            None => Ok(()),
        })
        &&& (r is Err ==> post == pre)
        &&& (r is Ok ==> {
            &&& !post.is_open(index as int)
            &&& post.same_except_entry(pre, index as int)
            &&& post.tables_same_as(pre)
            &&& post.other_entries_same(pre, index as int)
        })
    }

    /// What `seek(index, pos)` does.
    pub open spec fn seek_post(pre: Self, post: Self, index: usize, pos: usize, r: Result<(), FsError>) -> bool {
        &&& (r == match pre.index_error(index as int) {
            Some(e) => Err(e),
            None => if pos > pre.dsize(pre.open_desc(index as int)) {
                Err(FsError::InvalidPosition)
            } else {
                Ok(())
            },
        })
        &&& (r is Err ==> post == pre)
        &&& (r is Ok ==> {
            &&& post.is_open(index as int)
            &&& post.open_desc(index as int) == pre.open_desc(index as int)
            &&& post.pos(index as int) == pos
            &&& post.same_except_entry(pre, index as int)
            &&& post.tables_same_as(pre)
            &&& post.other_entries_same(pre, index as int)
        })
    }

    /// What `read(index, mem_pos, count)` does.
    pub open spec fn read_post(pre: Self, post: Self, index: usize, mem_pos: usize, count: usize, r: Result<usize, FsError>) -> bool {
        &&& (match pre.transfer_error(index as int, mem_pos as int) {
            Some(e) => r == Err::<usize, FsError>(e),
            None => r is Ok,
        })
        &&& (r is Err ==> post == pre)
        &&& (r is Ok ==> {
            let n = r->Ok_0 as int;
            let d = pre.open_desc(index as int);
            let p = pre.pos(index as int);
            &&& post.tables_same_as(pre)
            &&& post.other_entries_same(pre, index as int)
            &&& n == min(min(count as int, pre.dsize(d) - p), BLOCK_SIZE - mem_pos)
            &&& post.mem() == overwrite(pre.mem(), mem_pos as int, pre.content(d).subrange(p, p + n))
            &&& post.is_open(index as int)
            &&& post.open_desc(index as int) == d
            &&& post.pos(index as int) == p + n
            &&& post.files_same_except_entry(pre, index as int)
        })
    }

    /// What `write(index, mem_pos, count)` does.
    pub open spec fn write_post(pre: Self, post: Self, index: usize, mem_pos: usize, count: usize, r: Result<usize, FsError>) -> bool {
        &&& (match pre.transfer_error(index as int, mem_pos as int) {
            Some(e) => r == Err::<usize, FsError>(e),
            None => r is Ok,
        })
        &&& (r is Err ==> post == pre)
        &&& (r is Ok ==> {
            let n = r->Ok_0 as int;
            let d = pre.open_desc(index as int);
            let p = pre.pos(index as int);
            let limit = min(min(count as int, BLOCK_SIZE - mem_pos), MAX_FILE_SIZE - p);
            &&& n <= limit
            &&& n < limit ==> {
                &&& (p + n) % BLOCK_SIZE as int == 0
                &&& post.dblock(d, (p + n) / BLOCK_SIZE as int) == 0
                &&& !post.has_free_block()
            }
            &&& post.content(d) == overwrite(pre.content(d), p, pre.mem().subrange(mem_pos as int, mem_pos + n))
            &&& post.dsize(d) == post.content(d).len()
            &&& post.bitmap_grown(pre, d)
            &&& post.blocks_grown(pre, d)
            &&& post.lowest_free_given(pre, d)
            &&& forall|j: int| 0 <= j < OFT_SIZE && j != index ==> #[trigger] post.entry(j) == pre.entry(j)
            &&& post.is_open(index as int)
            &&& post.open_desc(index as int) == d
            &&& post.pos(index as int) == p + n
            &&& forall|i: int| 1 <= i < NUM_DESCRIPTORS && i != d ==> #[trigger] post.dsize(i) == pre.dsize(i)
            &&& forall|i: int| 1 <= i < NUM_DESCRIPTORS && i != d ==> #[trigger] post.content(i) == pre.content(i)
            &&& post.dsize(0) == pre.dsize(0)
            &&& post.dir() == pre.dir()
            &&& forall|j2: int| 1 <= j2 < OFT_SIZE && j2 != index ==> (#[trigger] post.is_open(j2) == pre.is_open(j2)
                && (post.is_open(j2) ==> post.open_desc(j2) == pre.open_desc(j2) && post.pos(j2) == pre.pos(j2)))
            &&& post.mem() == pre.mem()
        })
    }

    /// What `write_memory(mem_pos, data)` does, `data` being the bytes written.
    pub open spec fn write_memory_post(pre: Self, post: Self, mem_pos: usize, data: Seq<u8>, r: Result<usize, FsError>) -> bool {
        &&& (mem_pos >= BLOCK_SIZE <==> r == Err::<usize, FsError>(FsError::InvalidMemoryPosition))
        &&& (mem_pos < BLOCK_SIZE <==> r is Ok)
        &&& (r is Err ==> post == pre)
        &&& (r is Ok ==> {
            let n = r->Ok_0 as int;
            &&& post.tables_same_as(pre)
            &&& post.same_but_memory(pre)
            &&& n == min(data.len() as int, BLOCK_SIZE - mem_pos)
            &&& post.mem() == overwrite(pre.mem(), mem_pos as int, data.subrange(0, n))
            &&& post.files_same_except_entry(pre, -1)
        })
    }

    /// The first free descriptor is the one found.
    proof fn lemma_first_free_descriptor(&self, d: int)
        requires
            self.is_first_free_descriptor(d),
        ensures
            self.first_free_descriptor() == d,
            self.has_free_descriptor(),
    {
        let c = self.first_free_descriptor();
        assert(self.is_first_free_descriptor(c));
        if c < d {
            assert(self.dsize(c) != -1);
        } else if c > d {
            assert(self.dsize(d) != -1);
        }
    }

    /// The first free directory entry is where a new entry goes.
    proof fn lemma_first_free_entry(&self, e: int)
        requires
            self.is_first_free_entry(e),
        ensures
            self.new_entry_slot() == e,
            self.has_free_entry(),
    {
        assert(!entry_used(self.dir(), e));
        let c = choose|c: int| self.is_first_free_entry(c);
        assert(self.is_first_free_entry(c));
        if c < e {
            assert(entry_used(self.dir(), c));
        } else if c > e {
            assert(entry_used(self.dir(), e));
        }
    }

    /// Writing a new entry for the free descriptor `d` keeps the directory's invariant.
    proof fn lemma_create_dir_ok(pre: Self, post: Self, e: int, key: Seq<u8>, d: int)
        requires
            pre.dir_ok(),
            pre.wf_core(),
            key.len() == 4,
            1 <= d < NUM_DESCRIPTORS,
            pre.dsize(d) == -1,
            post.dsize(d) == 0,
            forall|i: int| 1 <= i < NUM_DESCRIPTORS && i != d ==> #[trigger] post.dsize(i) == pre.dsize(i),
            0 <= e <= pre.entry_count(),
            post.dir() == overwrite(pre.dir(), DIR_ENTRY_SIZE * e, entry_bytes(key, d)),
            post.dsize(0) == if DIR_ENTRY_SIZE * e < pre.dsize(0) { pre.dsize(0) } else { pre.dsize(0) + DIR_ENTRY_SIZE },
            !pre.name_taken(key),
            e < pre.entry_count() ==> !entry_used(pre.dir(), e),
        ensures
            post.dir_ok(),
    {
        let bytes = entry_bytes(key, d);
        assert(bytes.subrange(4, 8) =~= i32_le_bytes(d));
        lemma_i32_round_trip(bytes, 4, d);
        assert forall|e2: int| 0 <= e2 < post.entry_count() implies #[trigger] post.dir_entry_ok(e2) by {
            lemma_entry_written(pre.dir(), e, bytes, e2);
            if e2 != e {
                assert(pre.dir_entry_ok(e2));
                let x = entry_index(pre.dir(), e2);
                if x != 0 {
                    assert(x != d);
                    assert(post.dsize(x) == pre.dsize(x));
                }
            }
        }
        assert forall|e1: int, e2: int|
            0 <= e1 < post.entry_count() && 0 <= e2 < post.entry_count() && e1 != e2 && entry_index(post.dir(), e1) != 0
                implies #[trigger] entry_index(post.dir(), e1) != #[trigger] entry_index(post.dir(), e2) by {
            lemma_entry_written(pre.dir(), e, bytes, e1);
            lemma_entry_written(pre.dir(), e, bytes, e2);
            if e1 == e {
                assert(pre.dir_entry_ok(e2));
            } else if e2 == e {
                assert(pre.dir_entry_ok(e1));
            } else {
                assert(entry_index(pre.dir(), e1) != entry_index(pre.dir(), e2));
            }
        }
        assert(bytes.subrange(0, 4) =~= key);
        assert forall|e1: int, e2: int|
            0 <= e1 < post.entry_count() && 0 <= e2 < post.entry_count() && e1 != e2 && entry_index(post.dir(), e1) != 0
                && entry_index(post.dir(), e2) != 0 implies #[trigger] entry_name(post.dir(), e1) != #[trigger] entry_name(post.dir(), e2) by {
            lemma_entry_written(pre.dir(), e, bytes, e1);
            lemma_entry_written(pre.dir(), e, bytes, e2);
            if e1 == e {
                assert(!entry_matches(pre.dir(), e2, key));
            } else if e2 == e {
                assert(!entry_matches(pre.dir(), e1, key));
            } else {
                assert(entry_name(pre.dir(), e1) != entry_name(pre.dir(), e2));
            }
        }
    }

    /// Why creating a file stored as `key` fails, once the name is legal.
    pub open spec fn create_key_error(&self, key: Seq<u8>) -> Option<FsError> {
        if self.name_taken(key) {
            Some(FsError::FileExists)
        } else if !self.has_free_descriptor() {
            Some(FsError::NoFreeDescriptor)
        } else if !self.has_free_entry() && self.entry_count() >= MAX_FILE_SIZE / DIR_ENTRY_SIZE {
            Some(FsError::DirectoryFull)
        } else if !self.has_free_entry() && self.dblock(0, self.dsize(0) / BLOCK_SIZE as int) == 0
            && !self.has_free_block() {
            Some(FsError::DiskFull)
        } else {
            None
        }
    }

    /// Why `create(name)` fails, or `None` when it succeeds.
    pub open spec fn create_error(&self, name: Seq<char>) -> Option<FsError> {
        if !valid_name(name) {
            Some(FsError::InvalidName)
        } else {
            self.create_key_error(name_key(name))
        }
    }

    /// Checks whether a file stored as `key` can be created and, if so, finds
    /// its descriptor and the directory entry that will name it.
    fn create_plan(&mut self, key: &[u8; 4]) -> (r: Result<(usize, usize), FsError>)
        requires
            old(self).wf(),
        ensures
            final(self).wf(),
            final(self).unchanged_from(*old(self)),
            match r {
                Ok((d, e)) => {
                    &&& old(self).create_key_error(key@) is None
                    &&& !old(self).name_taken(key@)
                    &&& (e < old(self).entry_count() ==> !entry_used(old(self).dir(), e as int))
                    &&& d == old(self).first_free_descriptor()
                    &&& old(self).is_first_free_descriptor(d as int)
                    &&& e == old(self).new_entry_slot()
                    &&& e <= old(self).entry_count()
                    &&& DIR_ENTRY_SIZE * e + DIR_ENTRY_SIZE <= MAX_FILE_SIZE
                    &&& (DIR_ENTRY_SIZE * e < old(self).dsize(0) || old(self).dblock(0, (DIR_ENTRY_SIZE * e) as int / BLOCK_SIZE as int) != 0
                        || old(self).has_free_block())
                },
                Err(err) => old(self).create_key_error(key@) == Some(err),
            },
    {
        let ghost pre = *self;
        if self.search_entries(key, true).is_some() {
            proof {
                self.lemma_unchanged(pre);
            }
            return Err(FsError::FileExists);
        }
        let ghost searched = *self;
        proof {
            assert forall|e: int| 0 <= e < pre.entry_count() implies !#[trigger] entry_matches(pre.dir(), e, key@) by {
                assert(!crate::directory::search_hit(pre.dir(), key@, true, e));
            }
            self.lemma_unchanged(pre);
            assert(searched.dir() == pre.dir());
        }
        let d = match self.find_free_descriptor() {
            Some(d) => d,
            None => {
                proof {
                    assert forall|i: int| 1 <= i < NUM_DESCRIPTORS implies #[trigger] pre.dsize(i) != -1 by {
                        assert(searched.dsize(i) != -1);
                    }
                }
                return Err(FsError::NoFreeDescriptor);
            },
        };
        proof {
            assert forall|c: int| 1 <= c < d implies #[trigger] pre.dsize(c) != -1 by {
                assert(searched.dsize(c) != -1);
            }
            assert(pre.is_first_free_descriptor(d as int));
            pre.lemma_first_free_descriptor(d as int);
        }
        let slot = match self.search_entries(key, false) {
            Some(e) => {
                proof {
                    assert forall|e2: int| 0 <= e2 < e implies #[trigger] entry_used(pre.dir(), e2) by {
                        assert(!crate::directory::search_hit(pre.dir(), key@, false, e2));
                    }
                    assert(pre.is_first_free_entry(e as int));
                    pre.lemma_first_free_entry(e as int);
                    assert(pre.dsize(0) % 8 == 0);
                    assert(pre.desc_ok(0));
                    assert(DIR_ENTRY_SIZE * e + DIR_ENTRY_SIZE <= DIR_ENTRY_SIZE * pre.entry_count());
                    assert(DIR_ENTRY_SIZE * e < pre.dsize(0));
                }
                e
            },
            None => {
                proof {
                    assert forall|e2: int| 0 <= e2 < pre.entry_count() implies #[trigger] entry_used(pre.dir(), e2) by {
                        assert(!crate::directory::search_hit(pre.dir(), key@, false, e2));
                    }
                    assert(!pre.has_free_entry());
                    self.lemma_unchanged(pre);
                }
                let n = self.entry_count_exec();
                if n >= MAX_FILE_SIZE / DIR_ENTRY_SIZE {
                    return Err(FsError::DirectoryFull);
                }
                let desc0 = self.read_descriptor(0);
                let blk = (desc0.size as usize) / BLOCK_SIZE;
                if desc0.blocks[blk] == 0 && !self.has_free_block_exec() {
                    proof {
                        assert forall|b: int| 0 <= b < 64 implies #[trigger] pre.occupied(b) by {
                            assert(self.occupied(b));
                        }
                    }
                    return Err(FsError::DiskFull);
                }
                proof {
                    assert(pre.dsize(0) % 8 == 0);
                    if self.has_free_block() {
                        let b = choose|b: int| 0 <= b < 64 && !#[trigger] self.occupied(b);
                        assert(!pre.occupied(b));
                    }
                }
                n
            },
        };
        proof {
            self.lemma_unchanged(pre);
        }
        Ok((d, slot))
    }

    /// Creates an empty file called `name`: the first free descriptor becomes
    /// its descriptor, and the first free directory entry (or a new one at the
    /// end of the directory) names it.
    pub fn create(&mut self, name: &str) -> (r: Result<(), FsError>)
        requires
            old(self).wf(),
        ensures
            final(self).wf(),
            Self::create_post(*old(self), *final(self), name@, r),
    {
        let ghost pre = *self;
        let key = match name_to_key(name) {
            Some(k) => k,
            None => {
                proof {
                    self.lemma_same_files(pre);
                }
                return Err(FsError::InvalidName);
            },
        };
        let (d, slot) = match self.create_plan(&key) {
            Ok(plan) => plan,
            Err(e) => {
                proof {
                    self.lemma_unchanged_frame(pre);
                }
                return Err(e);
            },
        };
        let ghost planned = *self;
        proof {
            self.lemma_unchanged(pre);
        }
        self.new_file(d);
        let mut entry = [0u8; DIR_ENTRY_SIZE];
        entry[0] = key[0];
        entry[1] = key[1];
        entry[2] = key[2];
        entry[3] = key[3];
        write_i32(&mut entry, 4, d as i32);
        proof {
            assert(entry@ =~= entry_bytes(key@, d as int));
            assert(self.dsize(0) == pre.dsize(0));
            assert(self.dblock(0, (DIR_ENTRY_SIZE * slot) as int / BLOCK_SIZE as int) == pre.dblock(0, (DIR_ENTRY_SIZE * slot) as int / BLOCK_SIZE as int));
            if pre.has_free_block() {
                let b = choose|b: int| 0 <= b < 64 && !#[trigger] pre.occupied(b);
                assert(!self.occupied(b));
            }
        }
        let ghost made = *self;
        self.write_entry(slot, &entry);
        proof {
            assert(made.dir() == pre.dir());
            Self::lemma_create_dir_ok(pre, *self, slot as int, key@, d as int);
            self.lemma_same_mem(pre);
            assert forall|k: int| 0 <= k < 3 implies #[trigger] made.dblock(0, k) == pre.dblock(0, k) by {
                assert(planned.dblock(0, k) == pre.dblock(0, k));
            }
            assert forall|k: int| 0 <= k < 3 implies #[trigger] pre.dblock(d as int, k) == 0 by {
                assert(pre.block_ok(d as int, k));
            }
            assert forall|b: int| #[trigger] made.occupied(b) == pre.occupied(b) by {
                assert(planned.occupied(b) == pre.occupied(b));
            }
            assert(self.lowest_free_given(made, 0));
            assert forall|k: int| 0 <= k < 3 && pre.dblock(0, k) == 0 && #[trigger] self.dblock(0, k) != 0 implies {
                &&& !pre.occupied(self.dblock(0, k))
                &&& forall|c: int|
                    0 <= c < self.dblock(0, k) ==> #[trigger] pre.occupied(c) || (0 < k && pre.dblock(0, 0) == 0
                        && self.dblock(0, 0) == c) || (1 < k && pre.dblock(0, 1) == 0 && self.dblock(0, 1) == c)
            } by {
                assert(made.dblock(0, k) == pre.dblock(0, k));
                assert(made.dblock(0, 0) == pre.dblock(0, 0));
                assert(made.dblock(0, 1) == pre.dblock(0, 1));
                assert(!made.occupied(self.dblock(0, k)));
                assert forall|c: int| 0 <= c < self.dblock(0, k) implies #[trigger] pre.occupied(c) || (0 < k && pre.dblock(0, 0)
                    == 0 && self.dblock(0, 0) == c) || (1 < k && pre.dblock(0, 1) == 0 && self.dblock(0, 1) == c) by {
                    assert(made.occupied(c) == pre.occupied(c));
                }
            }
            assert forall|i: int, k: int| 0 <= i < NUM_DESCRIPTORS && i != 0 && 0 <= k < 3 implies #[trigger] self.dblock(i, k)
                == pre.dblock(i, k) by {
                assert(made.dblock(i, k) == planned.dblock(i, k) || i == d);
                assert(planned.dblock(i, k) == pre.dblock(i, k));
            }
            assert forall|j: int| 1 <= j < OFT_SIZE implies #[trigger] self.entry(j) == pre.entry(j) by {
                assert(made.entry(j) == planned.entry(j));
                assert(planned.entry(j) == pre.entry(j));
            }
        }
        Ok(())
    }

    /// Why `destroy(name)` fails, or `None` when it succeeds.
    pub open spec fn destroy_error(&self, name: Seq<char>) -> Option<FsError> {
        if !valid_name(name) {
            Some(FsError::InvalidName)
        } else if !self.name_taken(name_key(name)) {
            Some(FsError::FileNotFound)
        } else if self.holder(entry_index(self.dir(), self.first_match(name_key(name)))) != -1 {
            Some(FsError::FileOpen)
        } else {
            None
        }
    }

    /// The first match is the one found.
    proof fn lemma_first_match(&self, key: Seq<u8>, e: int)
        requires
            self.is_first_match(key, e),
        ensures
            self.first_match(key) == e,
            self.name_taken(key),
    {
        let c = self.first_match(key);
        assert(self.is_first_match(key, c));
        if c < e {
            assert(!entry_matches(self.dir(), c, key));
        } else if c > e {
            assert(!entry_matches(self.dir(), e, key));
        }
    }

    /// Clearing the entry that names the freed descriptor `d` keeps the
    /// directory's invariant.
    proof fn lemma_destroy_dir_ok(pre: Self, post: Self, e: int, d: int)
        requires
            pre.dir_ok(),
            pre.wf_core(),
            0 <= e < pre.entry_count(),
            d == entry_index(pre.dir(), e),
            1 <= d < NUM_DESCRIPTORS,
            forall|i: int| 1 <= i < NUM_DESCRIPTORS && i != d ==> #[trigger] post.dsize(i) == pre.dsize(i),
            post.dir() == overwrite(pre.dir(), DIR_ENTRY_SIZE * e, Seq::new(8, |i: int| 0u8)),
            post.dsize(0) == pre.dsize(0),
        ensures
            post.dir_ok(),
    {
        let bytes = Seq::new(8, |i: int| 0u8);
        assert(i32_at(bytes, 4) == 0);
        assert forall|e2: int| 0 <= e2 < post.entry_count() implies #[trigger] post.dir_entry_ok(e2) by {
            lemma_entry_written(pre.dir(), e, bytes, e2);
            if e2 != e {
                assert(pre.dir_entry_ok(e2));
                let x = entry_index(pre.dir(), e2);
                if x != 0 {
                    assert(x != d);
                    assert(post.dsize(x) == pre.dsize(x));
                }
            }
        }
        assert forall|e1: int, e2: int|
            0 <= e1 < post.entry_count() && 0 <= e2 < post.entry_count() && e1 != e2 && entry_index(post.dir(), e1) != 0
                implies #[trigger] entry_index(post.dir(), e1) != #[trigger] entry_index(post.dir(), e2) by {
            lemma_entry_written(pre.dir(), e, bytes, e1);
            lemma_entry_written(pre.dir(), e, bytes, e2);
            if e1 != e && e2 != e {
                assert(entry_index(pre.dir(), e1) != entry_index(pre.dir(), e2));
            }
        }
        assert forall|e1: int, e2: int|
            0 <= e1 < post.entry_count() && 0 <= e2 < post.entry_count() && e1 != e2 && entry_index(post.dir(), e1) != 0
                && entry_index(post.dir(), e2) != 0 implies #[trigger] entry_name(post.dir(), e1) != #[trigger] entry_name(post.dir(), e2) by {
            lemma_entry_written(pre.dir(), e, bytes, e1);
            lemma_entry_written(pre.dir(), e, bytes, e2);
            if e1 != e && e2 != e {
                assert(entry_name(pre.dir(), e1) != entry_name(pre.dir(), e2));
            }
        }
    }

    /// Finds the directory entry that names `key` and the descriptor it names,
    /// checking that the file is not open.
    fn locate_closed_file(&mut self, key: &[u8; 4]) -> (r: Result<(usize, usize), FsError>)
        requires
            old(self).wf(),
        ensures
            final(self).wf(),
            final(self).unchanged_from(*old(self)),
            match r {
                Ok((e, d)) => {
                    &&& old(self).name_taken(key@)
                    &&& e == old(self).first_match(key@)
                    &&& old(self).is_first_match(key@, e as int)
                    &&& d == entry_index(old(self).dir(), e as int)
                    &&& 1 <= d < NUM_DESCRIPTORS
                    &&& old(self).dsize(d as int) >= 0
                    &&& old(self).holder(d as int) == -1
                },
                Err(err) => {
                    ||| (err == FsError::FileNotFound && !old(self).name_taken(key@))
                    ||| (err == FsError::FileOpen && old(self).name_taken(key@) && old(self).holder(
                        entry_index(old(self).dir(), old(self).first_match(key@)),
                    ) != -1)
                },
            },
    {
        let ghost pre = *self;
        let e = match self.search_entries(key, true) {
            Some(e) => e,
            None => {
                proof {
                    self.lemma_unchanged(pre);
                    assert forall|e2: int| 0 <= e2 < pre.entry_count() implies !#[trigger] entry_matches(pre.dir(), e2, key@) by {
                        assert(!crate::directory::search_hit(pre.dir(), key@, true, e2));
                    }
                }
                return Err(FsError::FileNotFound);
            },
        };
        let ghost searched = *self;
        proof {
            self.lemma_unchanged(pre);
            assert forall|e2: int| 0 <= e2 < e implies !#[trigger] entry_matches(pre.dir(), e2, key@) by {
                assert(!crate::directory::search_hit(pre.dir(), key@, true, e2));
            }
            pre.lemma_first_match(key@, e as int);
            assert(pre.dir_entry_ok(e as int));
            assert(pre.desc_ok(0));
        }
        let (_, index) = self.read_entry(e);
        let d = index as usize;
        proof {
            Self::lemma_unchanged_trans(pre, searched, *self);
            self.lemma_unchanged(pre);
            assert(self.holder(d as int) == pre.holder(d as int)) by {
                assert(self.holds(1, d as int) == pre.holds(1, d as int));
                assert(self.holds(2, d as int) == pre.holds(2, d as int));
                assert(self.holds(3, d as int) == pre.holds(3, d as int));
                assert(!self.holds(0, d as int) && !pre.holds(0, d as int)) by {
                    assert(self.entry_ok(0));
                    assert(pre.entry_ok(0));
                }
            }
        }
        if self.is_held_open(d) {
            return Err(FsError::FileOpen);
        }
        Ok((e, d))
    }

    /// Destroys the file called `name`: its directory entry is cleared, and
    /// its descriptor and blocks are freed. An open file is not destroyed.
    pub fn destroy(&mut self, name: &str) -> (r: Result<(), FsError>)
        requires
            old(self).wf(),
        ensures
            final(self).wf(),
            Self::destroy_post(*old(self), *final(self), name@, r),
    {
        let ghost pre = *self;
        let key = match name_to_key(name) {
            Some(k) => k,
            None => {
                proof {
                    self.lemma_same_files(pre);
                }
                return Err(FsError::InvalidName);
            },
        };
        let (e, d) = match self.locate_closed_file(&key) {
            Ok(plan) => plan,
            Err(err) => {
                proof {
                    self.lemma_unchanged_frame(pre);
                }
                return Err(err);
            },
        };
        let ghost planned = *self;
        proof {
            self.lemma_unchanged(pre);
            assert(pre.desc_ok(0));
        }
        self.free_file(d);
        let ghost freed = *self;
        let zeros = [0u8; DIR_ENTRY_SIZE];
        proof {
            assert(self.dsize(0) == pre.dsize(0));
        }
        self.write_entry(e, &zeros);
        proof {
            assert(zeros@ =~= Seq::new(8, |i: int| 0u8));
            assert(freed.dir() == pre.dir());
            Self::lemma_destroy_dir_ok(pre, *self, e as int, d as int);
            self.lemma_same_mem(pre);
            assert forall|k: int| 0 <= k < 3 implies #[trigger] self.dblock(0, k) == freed.dblock(0, k) by {
                assert(freed.block_ok(0, k));
            }
            assert forall|b: int| 0 <= b < 8 * BLOCK_SIZE implies #[trigger] self.occupied(b) == (pre.occupied(b)
                && !pre.owns_block(d as int, b)) by {
                assert(planned.occupied(b) == pre.occupied(b));
                assert(freed.occupied(b) == (planned.occupied(b) && !planned.owns_block(d as int, b)));
                assert(self.occupied(b) == (freed.occupied(b) || self.newly_given(freed, 0, b)));
            }
            assert forall|i: int, k: int| 0 <= i < NUM_DESCRIPTORS && i != d && 0 <= k < 3 implies #[trigger] self.dblock(i, k)
                == pre.dblock(i, k) by {
                assert(freed.dblock(i, k) == planned.dblock(i, k));
                assert(planned.dblock(i, k) == pre.dblock(i, k));
            }
            assert forall|j: int| 1 <= j < OFT_SIZE implies #[trigger] self.entry(j) == pre.entry(j) by {
                assert(freed.entry(j) == planned.entry(j));
                assert(planned.entry(j) == pre.entry(j));
            }
        }
        Ok(())
    }

    /// Whether `j` is the first free entry of the open file table from entry 1 on.
    pub open spec fn is_first_free_slot(&self, j: int) -> bool {
        &&& 1 <= j < OFT_SIZE
        &&& !self.is_open(j)
        &&& forall|k: int| 1 <= k < j ==> #[trigger] self.is_open(k)
    }

    /// Why `open(name)` fails, or `None` when it succeeds.
    pub open spec fn open_error(&self, name: Seq<char>) -> Option<FsError> {
        if !valid_name(name) {
            Some(FsError::InvalidName)
        } else if !self.name_taken(name_key(name)) {
            Some(FsError::FileNotFound)
        } else if self.holder(entry_index(self.dir(), self.first_match(name_key(name)))) != -1 {
            Some(FsError::FileOpen)
        } else if forall|j: int| 1 <= j < OFT_SIZE ==> #[trigger] self.is_open(j) {
            Some(FsError::TooManyOpenFiles)
        } else {
            None
        }
    }

    /// Opens the file called `name` in the first free entry of the open file
    /// table, at position 0, and returns that entry's index.
    pub fn open(&mut self, name: &str) -> (r: Result<usize, FsError>)
        requires
            old(self).wf(),
        ensures
            final(self).wf(),
            Self::open_post(*old(self), *final(self), name@, r),
    {
        let ghost pre = *self;
        let key = match name_to_key(name) {
            Some(k) => k,
            None => {
                proof {
                    self.lemma_same_files(pre);
                }
                return Err(FsError::InvalidName);
            },
        };
        let (_e, d) = match self.locate_closed_file(&key) {
            Ok(plan) => plan,
            Err(err) => {
                proof {
                    self.lemma_unchanged_frame(pre);
                }
                return Err(err);
            },
        };
        let ghost located = *self;
        proof {
            self.lemma_unchanged(pre);
        }
        let j = match self.free_slot() {
            Some(j) => j,
            None => {
                proof {
                    assert forall|j: int| 1 <= j < OFT_SIZE implies #[trigger] pre.is_open(j) by {
                        assert(self.is_open(j));
                        assert(self.entry(j) == pre.entry(j));
                    }
                    self.lemma_unchanged_frame(pre);
                }
                return Err(FsError::TooManyOpenFiles);
            },
        };
        proof {
            assert forall|k: int| 1 <= k < j implies #[trigger] pre.is_open(k) by {
                assert(self.is_open(k));
                assert(self.entry(k) == pre.entry(k));
            }
            assert(self.entry(j as int) == pre.entry(j as int));
        }
        self.open_entry(j, d);
        proof {
            self.lemma_same_mem(pre);
            Self::lemma_same_tables(located, *self);
            assert forall|x: int| 0 <= x < NUM_DESCRIPTORS implies #[trigger] self.content(x) == pre.content(x) by {
                assert(located.content(x) == pre.content(x));
            }
            assert forall|i: int| #[trigger] self.dsize(i) == pre.dsize(i) by {
                assert(located.dsize(i) == pre.dsize(i));
            }
            Self::lemma_dir_ok_same(pre, *self);
            assert forall|j2: int| 1 <= j2 < OFT_SIZE && j2 != j implies #[trigger] self.entry(j2) == pre.entry(j2) by {
                assert(located.entry(j2) == pre.entry(j2));
            }
            Self::lemma_tables_same(pre, *self);
        }
        Ok(j)
    }

    /// Why a command on entry `index` of the open file table fails: entry 0
    /// (the directory) and indices past the table are not files' entries.
    pub open spec fn index_error(&self, index: int) -> Option<FsError> {
        if index == 0 || index >= OFT_SIZE {
            Some(FsError::InvalidIndex)
        } else if !self.is_open(index) {
            Some(FsError::NotOpen)
        } else {
            None
        }
    }

    /// Whether every file, the directory and every open file other than the
    /// one in entry `j` are as in `other`.
    pub open spec fn files_same_except_entry(&self, other: Self, j: int) -> bool {
        &&& self.same_files_except(other, -1)
        &&& self.dsize(0) == other.dsize(0)
        &&& self.dir() == other.dir()
        &&& forall|j2: int| 1 <= j2 < OFT_SIZE && j2 != j ==> (#[trigger] self.is_open(j2) == other.is_open(j2)
            && (self.is_open(j2) ==> self.open_desc(j2) == other.open_desc(j2) && self.pos(j2) == other.pos(j2)))
    }

    /// Whether every file, the directory and every open file other than the
    /// one in entry `j` are as in `other`, and the memory too.
    pub open spec fn same_except_entry(&self, other: Self, j: int) -> bool {
        &&& self.files_same_except_entry(other, j)
        &&& self.mem() == other.mem()
    }

    /// Closes the file in entry `index`: its buffer goes back to the disk and
    /// the entry is freed.
    pub fn close(&mut self, index: usize) -> (r: Result<(), FsError>)
        requires
            old(self).wf(),
        ensures
            final(self).wf(),
            Self::close_post(*old(self), *final(self), index, r),
    {
        let ghost pre = *self;
        proof {
            self.lemma_same_files(pre);
        }
        if index == 0 || index >= OFT_SIZE {
            return Err(FsError::InvalidIndex);
        }
        if !self.entry_is_open(index) {
            return Err(FsError::NotOpen);
        }
        self.close_entry(index);
        proof {
            Self::lemma_tables_same(pre, *self);
            self.lemma_same_mem(pre);
            Self::lemma_same_tables(pre, *self);
            Self::lemma_dir_ok_same(pre, *self);
            assert forall|j2: int| 1 <= j2 < OFT_SIZE && j2 != index implies #[trigger] self.entry(j2) == pre.entry(j2) by {
            }
        }
        Ok(())
    }

    /// Moves the position of the file in entry `index` to `pos`, which may not
    /// be past the end of the file.
    pub fn seek(&mut self, index: usize, pos: usize) -> (r: Result<(), FsError>)
        requires
            old(self).wf(),
        ensures
            final(self).wf(),
            Self::seek_post(*old(self), *final(self), index, pos, r),
    {
        let ghost pre = *self;
        proof {
            self.lemma_same_files(pre);
        }
        if index == 0 || index >= OFT_SIZE {
            return Err(FsError::InvalidIndex);
        }
        if !self.entry_is_open(index) {
            return Err(FsError::NotOpen);
        }
        let d = self.entry_descriptor(index);
        let size = self.read_descriptor(d).size;
        if pos > size as usize {
            return Err(FsError::InvalidPosition);
        }
        proof {
            assert(self.desc_ok(d as int));
        }
        self.swap_to(index, pos as i32);
        proof {
            Self::lemma_tables_same(pre, *self);
            self.lemma_same_mem(pre);
            Self::lemma_dir_ok_same(pre, *self);
        }
        Ok(())
    }

    /// Why `read` or `write` on entry `index` with memory position `mem_pos` fails.
    pub open spec fn transfer_error(&self, index: int, mem_pos: int) -> Option<FsError> {
        match self.index_error(index) {
            Some(e) => Some(e),
            None => if mem_pos >= BLOCK_SIZE {
                Some(FsError::InvalidMemoryPosition)
            } else {
                None
            },
        }
    }

    /// Reads up to `count` bytes of the file in entry `index`, from its
    /// position on, into the memory from `mem_pos` on; stops at the end of the
    /// file and at the end of the memory. Returns the number of bytes read.
    pub fn read(&mut self, index: usize, mem_pos: usize, count: usize) -> (r: Result<usize, FsError>)
        requires
            old(self).wf(),
        ensures
            final(self).wf(),
            Self::read_post(*old(self), *final(self), index, mem_pos, count, r),
    {
        let ghost pre = *self;
        proof {
            self.lemma_same_files(pre);
        }
        if index == 0 || index >= OFT_SIZE {
            return Err(FsError::InvalidIndex);
        }
        if !self.entry_is_open(index) {
            return Err(FsError::NotOpen);
        }
        if mem_pos >= BLOCK_SIZE {
            return Err(FsError::InvalidMemoryPosition);
        }
        let d = self.entry_descriptor(index);
        let p = self.entry_position(index);
        let size = self.read_descriptor(d).size as usize;
        let mut n = count;
        if size - p < n {
            n = size - p;
        }
        if BLOCK_SIZE - mem_pos < n {
            n = BLOCK_SIZE - mem_pos;
        }
        let ghost c = pre.content(d as int);
        proof {
            pre.lemma_mem();
            assert(overwrite(pre.mem(), mem_pos as int, c.subrange(p as int, p as int)) =~= pre.mem());
        }
        let mut i: usize = 0;
        while i < n
            invariant
                i <= n,
                d < NUM_DESCRIPTORS,
                pre.mem().len() == BLOCK_SIZE,
                p + n <= size,
                mem_pos + n <= BLOCK_SIZE,
                size == pre.dsize(d as int),
                p == pre.pos(index as int),
                c == pre.content(d as int),
                1 <= index < OFT_SIZE,
                self.wf_core(),
                self.dir_ok(),
                self.is_open(index as int),
                self.open_desc(index as int) == d,
                self.pos(index as int) == p + i,
                self.mem() == overwrite(pre.mem(), mem_pos as int, c.subrange(p as int, p + i)),
                self.reserved_cache == pre.reserved_cache,
                forall|j: int| 0 <= j < OFT_SIZE && j != index ==> #[trigger] self.entry(j) == pre.entry(j),
                forall|x: int| 0 <= x < NUM_DESCRIPTORS ==> #[trigger] self.content(x) == pre.content(x),
                forall|x: int| #[trigger] self.dsize(x) == pre.dsize(x),
            decreases n - i,
        {
            let ghost before = *self;
            let x = self.get_byte(index);
            proof {
                assert(before.content(d as int) == c);
                assert(x == c[p + i]);
                Self::lemma_dir_ok_same(before, *self);
                self.lemma_same_mem(before);
            }
            self.set_mem(mem_pos + i, x);
            proof {
                assert(self.mem() =~= overwrite(pre.mem(), mem_pos as int, c.subrange(p as int, p + i + 1)));
            }
            i = i + 1;
        }
        proof {
            self.lemma_same_mem(*self);
            Self::lemma_tables_same(pre, *self);
        }
        Ok(n)
    }

    /// Writes up to `count` bytes from the memory, from `mem_pos` on, into the
    /// file in entry `index` from its position on, growing the file as needed;
    /// stops at the end of the memory, at the largest file size, and when a
    /// block is needed and the disk is full. Returns the number of bytes written.
    pub fn write(&mut self, index: usize, mem_pos: usize, count: usize) -> (r: Result<usize, FsError>)
        requires
            old(self).wf(),
        ensures
            final(self).wf(),
            Self::write_post(*old(self), *final(self), index, mem_pos, count, r),
    {
        let ghost pre = *self;
        proof {
            self.lemma_same_files(pre);
        }
        if index == 0 || index >= OFT_SIZE {
            return Err(FsError::InvalidIndex);
        }
        if !self.entry_is_open(index) {
            return Err(FsError::NotOpen);
        }
        if mem_pos >= BLOCK_SIZE {
            return Err(FsError::InvalidMemoryPosition);
        }
        let d = self.entry_descriptor(index);
        let p = self.entry_position(index);
        proof {
            assert(self.desc_ok(d as int));
        }
        let mut limit = count;
        if BLOCK_SIZE - mem_pos < limit {
            limit = BLOCK_SIZE - mem_pos;
        }
        if MAX_FILE_SIZE - p < limit {
            limit = MAX_FILE_SIZE - p;
        }
        let ghost c = pre.content(d as int);
        let ghost data = pre.mem().subrange(mem_pos as int, mem_pos + limit);
        proof {
            pre.lemma_mem();
            assert(overwrite(c, p as int, data.take(0)) =~= c);
            assert(d >= 1) by {
                assert(self.entry_ok(index as int));
            }
        }
        let mut i: usize = 0;
        let mut full = false;
        while i < limit && !full
            invariant
                i <= limit,
                1 <= d < NUM_DESCRIPTORS,
                1 <= index < OFT_SIZE,
                p + limit <= MAX_FILE_SIZE,
                mem_pos + limit <= BLOCK_SIZE,
                p == pre.pos(index as int),
                c == pre.content(d as int),
                data == pre.mem().subrange(mem_pos as int, mem_pos + limit),
                p <= c.len(),
                self.wf_core(),
                self.is_open(index as int),
                self.open_desc(index as int) == d,
                self.pos(index as int) == p + i,
                self.content(d as int) == overwrite(c, p as int, data.take(i as int)),
                self.dsize(d as int) == self.content(d as int).len(),
                full ==> !self.has_free_block(),
                full ==> self.dblock(d as int, (p + i) / BLOCK_SIZE as int) == 0,
                full ==> i < limit,
                self.memory == pre.memory,
                self.bitmap_grown(pre, d as int),
                self.blocks_grown(pre, d as int),
                self.lowest_free_given(pre, d as int),
                forall|k: int| 0 <= k < 3 && pre.dblock(d as int, k) == 0 && #[trigger] self.dblock(d as int, k) != 0 ==> k
                    * BLOCK_SIZE <= p + i,
                self.dsize(d as int) >= pre.dsize(d as int),
                forall|j: int| 0 <= j < OFT_SIZE && j != index ==> #[trigger] self.entry(j) == pre.entry(j),
                forall|x: int| 0 <= x < NUM_DESCRIPTORS && x != d ==> #[trigger] self.content(x) == pre.content(x),
                forall|x: int| 0 <= x < NUM_DESCRIPTORS && x != d ==> #[trigger] self.dsize(x) == pre.dsize(x),
            decreases limit - i, if full { 0int } else { 1int },
        {
            let ghost before = *self;
            proof {
                pre.lemma_mem();
                assert(self.entry_ok(index as int));
                assert(data[i as int] == self.memory@[mem_pos + i]);
            }
            let x = self.memory[mem_pos + i];
            let ok = self.put_byte(index, x);
            if ok {
                proof {
                    crate::directory::lemma_overwrite_step(c, p as int, data, i as int);
                    Self::lemma_grow_step(pre, before, *self, d as int, (p + i) / BLOCK_SIZE as int);
                    assert(self.block_ok(d as int, (p + i) / BLOCK_SIZE as int));
                    Self::lemma_lowest_step(pre, before, *self, d as int, (p + i) / BLOCK_SIZE as int, (p + i) as int);
                }
                i = i + 1;
            } else {
                full = true;
            }
        }
        proof {
            self.lemma_same_mem(pre);
            assert(data.take(i as int) =~= pre.mem().subrange(mem_pos as int, mem_pos + i));
            Self::lemma_dir_ok_keep(pre, *self);
            if full {
                let k = (p + i) / BLOCK_SIZE as int;
                assert(0 <= k < 3);
                assert(self.block_ok(d as int, k));
                assert(self.content(d as int).len() >= p + i);
            }
        }
        Ok(i)
    }

    /// Returns the characters whose codes are the memory bytes from `mem_pos`
    /// on, `count` of them or up to the end of the memory.
    pub fn read_memory(&self, mem_pos: usize, count: usize) -> (r: Result<String, FsError>)
        ensures
            mem_pos >= BLOCK_SIZE <==> r == Err::<String, FsError>(FsError::InvalidMemoryPosition),
            mem_pos < BLOCK_SIZE <==> r is Ok,
            r is Ok ==> r->Ok_0@ == bytes_chars(self.mem().subrange(mem_pos as int, mem_pos + min(count as int, BLOCK_SIZE - mem_pos))),
    {
        if mem_pos >= BLOCK_SIZE {
            return Err(FsError::InvalidMemoryPosition);
        }
        let mut n = count;
        if BLOCK_SIZE - mem_pos < n {
            n = BLOCK_SIZE - mem_pos;
        }
        proof {
            self.lemma_mem();
        }
        Ok(string_of_bytes(&self.memory, mem_pos, mem_pos + n))
    }

    /// Writes the bytes of `data` into the memory from `mem_pos` on, up to the
    /// end of the memory, and returns how many it wrote.
    pub fn write_memory(&mut self, mem_pos: usize, data: &str) -> (r: Result<usize, FsError>)
        requires
            old(self).wf(),
        ensures
            final(self).wf(),
            Self::write_memory_post(*old(self), *final(self), mem_pos, data.spec_bytes(), r),
    {
        let ghost pre = *self;
        proof {
            self.lemma_same_files(pre);
        }
        if mem_pos >= BLOCK_SIZE {
            return Err(FsError::InvalidMemoryPosition);
        }
        let bytes = data.as_bytes();
        let mut n = bytes.len();
        if BLOCK_SIZE - mem_pos < n {
            n = BLOCK_SIZE - mem_pos;
        }
        proof {
            pre.lemma_mem();
            assert(overwrite(pre.mem(), mem_pos as int, bytes@.subrange(0, 0)) =~= pre.mem());
        }
        let mut i: usize = 0;
        while i < n
            invariant
                i <= n,
                n <= bytes@.len(),
                mem_pos + n <= BLOCK_SIZE,
                pre.mem().len() == BLOCK_SIZE,
                self.wf(),
                self.mem() == overwrite(pre.mem(), mem_pos as int, bytes@.subrange(0, i as int)),
                self.reserved_cache == pre.reserved_cache,
                self.disk == pre.disk,
                self.oft == pre.oft,
                forall|j: int| #[trigger] self.entry(j) == pre.entry(j),
                forall|x: int| #[trigger] self.content(x) == pre.content(x),
                forall|x: int| #[trigger] self.dsize(x) == pre.dsize(x),
            decreases n - i,
        {
            self.set_mem(mem_pos + i, bytes[i]);
            proof {
                assert(self.mem() =~= overwrite(pre.mem(), mem_pos as int, bytes@.subrange(0, i + 1)));
            }
            i = i + 1;
        }
        proof {
            Self::lemma_tables_same(pre, *self);
            Self::lemma_same_but_memory(pre, *self);
        }
        Ok(n)
    }

    /// The displayed name of a stored name: its bytes up to the first zero.
    pub open spec fn name_of_key(key: Seq<u8>) -> Seq<char> {
        let len = if key[0] == 0 {
            0
        } else if key[1] == 0 {
            1
        } else if key[2] == 0 {
            2
        } else if key[3] == 0 {
            3
        } else {
            4int
        };
        bytes_chars(key.take(len))
    }

    /// The (name, size) pairs of the files named in directory entries before `e`, in order.
    pub open spec fn listing_upto(&self, e: int) -> Seq<(Seq<char>, int)>
        decreases e,
    {
        if e <= 0 {
            Seq::empty()
        } else {
            let prev = self.listing_upto(e - 1);
            if entry_used(self.dir(), e - 1) {
                prev.push((Self::name_of_key(entry_name(self.dir(), e - 1)), self.dsize(entry_index(self.dir(), e - 1))))
            } else {
                prev
            }
        }
    }

    /// The (name, size) pairs of all files, in directory order.
    pub open spec fn listing(&self) -> Seq<(Seq<char>, int)> {
        self.listing_upto(self.entry_count())
    }

    /// Lists every file's name and size, in directory order.
    pub fn directory(&mut self) -> (files: Vec<(String, usize)>)
        requires
            old(self).wf(),
        ensures
            final(self).wf(),
            final(self).same_but_directory_cursor(*old(self)),
            files@.len() == old(self).listing().len(),
            forall|i: int| 0 <= i < files@.len() ==> #[trigger] files@[i].0@ == old(self).listing()[i].0
                && files@[i].1 == old(self).listing()[i].1,
    {
        let ghost pre = *self;
        let n = self.entry_count_exec();
        let mut files: Vec<(String, usize)> = Vec::new();
        let mut e: usize = 0;
        while e < n
            invariant
                e <= n,
                n == pre.entry_count(),
                n * DIR_ENTRY_SIZE <= pre.dsize(0),
                pre.wf(),
                self.wf(),
                self.unchanged_from(pre),
                files@.len() == pre.listing_upto(e as int).len(),
                forall|i: int| 0 <= i < files@.len() ==> #[trigger] files@[i].0@ == pre.listing_upto(e as int)[i].0
                    && files@[i].1 == pre.listing_upto(e as int)[i].1,
            decreases n - e,
        {
            let ghost before = *self;
            proof {
                self.lemma_unchanged(pre);
            }
            let ghost old_files = files@;
            let (name, index) = self.read_entry(e);
            proof {
                Self::lemma_unchanged_trans(pre, before, *self);
                self.lemma_unchanged(pre);
            }
            if index != 0 {
                proof {
                    assert(pre.dir_entry_ok(e as int));
                }
                let size = self.read_descriptor(index as usize).size;
                let len: usize = if name[0] == 0 {
                    0
                } else if name[1] == 0 {
                    1
                } else if name[2] == 0 {
                    2
                } else if name[3] == 0 {
                    3
                } else {
                    4
                };
                let s = string_of_bytes(&name, 0, len);
                proof {
                    assert(name@.subrange(0, len as int) =~= name@.take(len as int));
                }
                files.push((s, size as usize));
            }
            proof {
                let prev = pre.listing_upto(e as int);
                let next = pre.listing_upto(e + 1);
                if index != 0 {
                    assert(next == prev.push((Self::name_of_key(entry_name(pre.dir(), e as int)), pre.dsize(entry_index(pre.dir(), e as int)))));
                } else {
                    assert(next == prev);
                }
                assert forall|i: int| 0 <= i < files@.len() implies #[trigger] files@[i].0@ == next[i].0
                    && files@[i].1 == next[i].1 by {
                    if i < old_files.len() {
                        assert(files@[i] == old_files[i]);
                        assert(next[i] == prev[i]);
                    }
                }
            }
            e = e + 1;
        }
        proof {
            self.lemma_unchanged_frame(pre);
            assert(pre.listing() == pre.listing_upto(n as int));
        }
        files
    }
}

} // verus!
