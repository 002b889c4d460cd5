//! Text reports on the file system's state: the bitmap, the directory's
//! descriptor and the open file table, in the form a person reads.
use vstd::prelude::*;
use crate::constants::OFT_SIZE;
use crate::fs::FileSystem;
use crate::text::{append_decimal, append_signed, append_str, decimal, signed_decimal};

verus! {

/// The character that shows a block as occupied ('1') or free ('0').
pub open spec fn bit_char(occupied: bool) -> char {
    if occupied {
        '1'
    } else {
        '0'
    }
}

impl FileSystem {
    /// Blocks 0 to `n - 1` as '1' (occupied) or '0' (free), in order.
    pub open spec fn bitmap_bits(&self, n: int) -> Seq<char> {
        Seq::new(n as nat, |b: int| bit_char(self.occupied(b)))
    }

    /// The bitmap report: its label, then the first 16 blocks' bits.
    pub open spec fn bitmap_report_text(&self) -> Seq<char> {
        "Bitmap (blocks 0-15): "@ + self.bitmap_bits(16)
    }

    /// The directory descriptor report: descriptor 0's size and its three block numbers.
    pub open spec fn directory_descriptor_text(&self) -> Seq<char> {
        "Descriptor 0 (directory): size="@ + signed_decimal(self.dsize(0)) + ", blocks=["@ + signed_decimal(
            self.dblock(0, 0),
        ) + ", "@ + signed_decimal(self.dblock(0, 1)) + ", "@ + signed_decimal(self.dblock(0, 2)) + "]"@
    }

    /// The line of the open file table report for entry `j`.
    pub open spec fn oft_line(&self, j: int) -> Seq<char> {
        let e = self.entry(j);
        "  ["@ + decimal(j as nat) + "] "@ + (if e.current_pos == -1 {
            "free"@
        } else {
            "in use"@
        }) + " - pos="@ + signed_decimal(e.current_pos as int) + ", size="@ + signed_decimal(e.size as int)
            + ", desc="@ + signed_decimal(e.descriptor_index as int)
    }

    /// The open file table report's heading and the lines of entries before `n`,
    /// each on a line of its own.
    pub open spec fn oft_report_upto(&self, n: int) -> Seq<char>
        decreases n,
    {
        if n <= 0 {
            "Open File Table:"@
        } else {
            self.oft_report_upto(n - 1) + seq!['\n'] + self.oft_line(n - 1)
        }
    }

    /// The open file table report: a heading and one line per entry.
    pub open spec fn oft_report_text(&self) -> Seq<char> {
        self.oft_report_upto(OFT_SIZE as int)
    }

    /// Reports which of blocks 0-15 are occupied.
    pub fn bitmap_report(&self) -> (s: String)
        ensures
            s@ == self.bitmap_report_text(),
    {
        let mut s = String::new();
        append_str(&mut s, "Bitmap (blocks 0-15): ");
        let mut b: usize = 0;
        while b < 16
            invariant
                b <= 16,
                s@ == "Bitmap (blocks 0-15): "@ + self.bitmap_bits(b as int),
            decreases 16 - b,
        {
            let ghost before = s@;
            if self.is_block_occupied(b) {
                s.push('1');
            } else {
                s.push('0');
            }
            proof {
                assert(self.bitmap_bits(b + 1) =~= self.bitmap_bits(b as int).push(bit_char(self.occupied(b as int))));
                assert(s@ =~= "Bitmap (blocks 0-15): "@ + self.bitmap_bits(b + 1));
            }
            b = b + 1;
        }
        s
    }

    /// Reports the directory's descriptor: its size and block numbers.
    pub fn directory_descriptor_report(&self) -> (s: String)
        ensures
            s@ == self.directory_descriptor_text(),
    {
        let desc = self.read_descriptor(0);
        let mut s = String::new();
        append_str(&mut s, "Descriptor 0 (directory): size=");
        append_signed(&mut s, desc.size);
        append_str(&mut s, ", blocks=[");
        append_signed(&mut s, desc.blocks[0]);
        append_str(&mut s, ", ");
        append_signed(&mut s, desc.blocks[1]);
        append_str(&mut s, ", ");
        append_signed(&mut s, desc.blocks[2]);
        append_str(&mut s, "]");
        proof {
            assert(desc.blocks[0] == self.dblock(0, 0));
            assert(desc.blocks[1] == self.dblock(0, 1));
            assert(desc.blocks[2] == self.dblock(0, 2));
            assert(s@ =~= self.directory_descriptor_text());
        }
        s
    }

    /// Reports every entry of the open file table: free or in use, position,
    /// size and descriptor index.
    pub fn oft_report(&self) -> (s: String)
        ensures
            s@ == self.oft_report_text(),
    {
        let mut s = String::new();
        append_str(&mut s, "Open File Table:");
        let mut j: usize = 0;
        while j < OFT_SIZE
            invariant
                j <= OFT_SIZE,
                s@ == self.oft_report_upto(j as int),
            decreases OFT_SIZE - j,
        {
            let ghost before = s@;
            let (pos, size, desc) = self.entry_fields(j);
            s.push('\n');
            append_str(&mut s, "  [");
            append_decimal(&mut s, j);
            append_str(&mut s, "] ");
            if pos == -1 {
                append_str(&mut s, "free");
            } else {
                append_str(&mut s, "in use");
            }
            append_str(&mut s, " - pos=");
            append_signed(&mut s, pos);
            append_str(&mut s, ", size=");
            append_signed(&mut s, size);
            append_str(&mut s, ", desc=");
            append_signed(&mut s, desc);
            proof {
                assert(s@ =~= before + seq!['\n'] + self.oft_line(j as int));
            }
            j = j + 1;
        }
        s
    }
}

} // verus!
