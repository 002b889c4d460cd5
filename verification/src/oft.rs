//! The open file table: one entry per open file with a one-block buffer, the
//! current position, the file size and the descriptor index.
use vstd::prelude::*;
use crate::constants::{BLOCK_SIZE, OFT_SIZE};

verus! {

/// An entry of the open file table; a current position of -1 marks it free.
#[derive(Clone)]
pub struct OFTEntry {
    /// The block of the file that holds the current position.
    pub buffer: [u8; BLOCK_SIZE],
    pub current_pos: i32,
    pub size: i32,
    pub descriptor_index: i32,
}

impl OFTEntry {
    /// Whether the entry is free.
    pub open spec fn spec_is_free(&self) -> bool {
        self.current_pos == -1
    }

    /// A free entry: zeroed buffer, position -1, size 0, descriptor 0.
    pub fn new_free() -> (e: Self)
        ensures
            e.buffer@ == Seq::new(BLOCK_SIZE as nat, |i: int| 0u8),
            e.current_pos == -1,
            e.size == 0,
            e.descriptor_index == 0,
    {
        let e = OFTEntry { buffer: [0u8; BLOCK_SIZE], current_pos: -1, size: 0, descriptor_index: 0 };
        assert(e.buffer@ =~= Seq::new(BLOCK_SIZE as nat, |i: int| 0u8));
        e
    }

    /// Whether the entry is free.
    #[verifier::when_used_as_spec(spec_is_free)]
    pub fn is_free(&self) -> (free: bool)
        ensures
            free == self.spec_is_free(),
    {
        self.current_pos == -1
    }

    /// Which block of the file holds the current position (0 for a free entry).
    pub fn current_block(&self) -> (block: usize)
        ensures
            block == if self.current_pos < 0 { 0 } else { self.current_pos as int / BLOCK_SIZE as int },
    {
        if self.current_pos < 0 {
            0
        } else {
            (self.current_pos as usize) / BLOCK_SIZE
        }
    }

    /// Offset of the current position within the buffer (0 for a free entry).
    pub fn buffer_offset(&self) -> (offset: usize)
        ensures
            offset == if self.current_pos < 0 { 0 } else { self.current_pos as int % BLOCK_SIZE as int },
    {
        if self.current_pos < 0 {
            0
        } else {
            (self.current_pos as usize) % BLOCK_SIZE
        }
    }
}

/// The open file table.
pub struct OFT {
    entries: [OFTEntry; OFT_SIZE],
}

impl View for OFT {
    type V = Seq<OFTEntry>;

    closed spec fn view(&self) -> Seq<OFTEntry> {
        self.entries@
    }
}

impl OFT {
    /// A table whose entries are all free.
    pub fn new() -> (t: Self)
        ensures
            t@.len() == OFT_SIZE,
            forall|i: int| 0 <= i < OFT_SIZE ==> #[trigger] t@[i].current_pos == -1 && t@[i].size == 0
                && t@[i].descriptor_index == 0 && t@[i].buffer@ == Seq::new(BLOCK_SIZE as nat, |k: int| 0u8),
    {
        OFT { entries: [OFTEntry::new_free(), OFTEntry::new_free(), OFTEntry::new_free(), OFTEntry::new_free()] }
    }

    /// The entry at `index`, or `None` past the table.
    pub fn get(&self, index: usize) -> (e: Option<&OFTEntry>)
        ensures
            self@.len() == OFT_SIZE,
            index < OFT_SIZE ==> e == Some(&self@[index as int]),
            index >= OFT_SIZE ==> e is None,
    {
        proof { self.lemma_len(); }
        if index < OFT_SIZE {
            Some(&self.entries[index])
        } else {
            None
        }
    }

    /// The entry at `index` for changing, or `None` past the table.
    pub fn get_mut(&mut self, index: usize) -> (e: Option<&mut OFTEntry>)
        ensures
            old(self)@.len() == OFT_SIZE,
            index < OFT_SIZE ==> e is Some && *e->0 == old(self)@[index as int] && final(self)@ == old(self)@.update(index as int, *final(e->0)),
            index >= OFT_SIZE ==> e is None && final(self)@ == old(self)@,
    {
        proof { old(self).lemma_len(); }
        if index < OFT_SIZE {
            Some(&mut self.entries[index])
        } else {
            None
        }
    }

    /// The lowest free entry from index 1 on (entry 0 belongs to the directory).
    pub fn find_free(&self) -> (found: Option<usize>)
        ensures
            self@.len() == OFT_SIZE,
            match found {
                Some(i) => 1 <= i < OFT_SIZE && self@[i as int].current_pos == -1 && forall|j: int|
                    1 <= j < i ==> #[trigger] self@[j].current_pos != -1,
                None => forall|j: int| 1 <= j < OFT_SIZE ==> #[trigger] self@[j].current_pos != -1,
            },
    {
        proof { self.lemma_len(); }
        let mut i: usize = 1;
        while i < OFT_SIZE
            invariant
                1 <= i <= OFT_SIZE,
                self@.len() == OFT_SIZE,
                forall|j: int| 1 <= j < i ==> #[trigger] self@[j].current_pos != -1,
            decreases OFT_SIZE - i,
        {
            if self.entries[i].is_free() {
                return Some(i);
            }
            i = i + 1;
        }
        None
    }

    /// Two tables with the same entries are the same table.
    pub proof fn lemma_ext(a: Self, b: Self)
        requires
            a@ == b@,
        ensures
            a == b,
    {
        assert forall|i: int| 0 <= i < OFT_SIZE implies a.entries[i] == b.entries[i] by {
            assert(a@[i] == b@[i]);
        }
        assert(a.entries =~= b.entries);
    }

    /// The table always has `OFT_SIZE` entries.
    pub proof fn lemma_len(&self)
        ensures
            self@.len() == OFT_SIZE,
    {
    }
}

} // verus!
