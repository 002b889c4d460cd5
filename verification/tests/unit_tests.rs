use lib::bitmap::{find_free_block, is_block_occupied, set_block_free, set_block_occupied};
use lib::byte_utils::{read_i32, write_i32};
use lib::constants::{BLOCK_SIZE, NUM_BLOCKS};
use lib::descriptor::{descriptor_block, read_descriptor, write_descriptor, FileDescriptor};
use lib::disk::{Disk, DiskError};
use lib::oft::{OFTEntry, OFT};

#[test]
fn i32_little_endian_layout() {
    let mut data = [0xAAu8; 8];
    write_i32(&mut data, 2, 0x1234_5678);
    assert_eq!(data, [0xAA, 0xAA, 0x78, 0x56, 0x34, 0x12, 0xAA, 0xAA]);
    assert_eq!(read_i32(&data, 2), 0x1234_5678);
}

#[test]
fn i32_round_trip_extremes() {
    let mut data = [0u8; 4];
    for v in [0, 1, -1, i32::MIN, i32::MAX, -123456, 7] {
        write_i32(&mut data, 0, v);
        assert_eq!(read_i32(&data, 0), v);
    }
    write_i32(&mut data, 0, -1);
    assert_eq!(data, [0xFF; 4]);
    write_i32(&mut data, 0, i32::MIN);
    assert_eq!(data, [0, 0, 0, 0x80]);
}

#[test]
fn bitmap_set_query_free() {
    let mut bits = [0u8; 8];
    assert!(!is_block_occupied(&bits, 10));
    set_block_occupied(&mut bits, 10);
    assert!(is_block_occupied(&bits, 10));
    assert_eq!(bits[1], 0b0000_0100);
    assert!(!is_block_occupied(&bits, 11));
    set_block_free(&mut bits, 10);
    assert!(!is_block_occupied(&bits, 10));
    assert_eq!(bits, [0u8; 8]);
}

#[test]
fn bitmap_out_of_range_block() {
    let mut bits = [0u8; 8];
    assert!(is_block_occupied(&bits, NUM_BLOCKS));
    set_block_occupied(&mut bits, 100);
    assert_eq!(bits, [0u8; 8]);
    bits = [0xFF; 8];
    set_block_free(&mut bits, 64);
    assert_eq!(bits, [0xFF; 8]);
}

#[test]
fn bitmap_find_free() {
    let mut bits = [0u8; 8];
    assert_eq!(find_free_block(&bits), Some(0));
    for b in 0..8 {
        set_block_occupied(&mut bits, b);
    }
    assert_eq!(find_free_block(&bits), Some(8));
    bits = [0xFF; 8];
    assert_eq!(find_free_block(&bits), None);
    set_block_free(&mut bits, 63);
    assert_eq!(find_free_block(&bits), Some(63));
}

#[test]
fn bitmap_set_then_free_restores() {
    let mut bits = [0x5Au8; 8];
    let before = bits;
    set_block_occupied(&mut bits, 5);
    set_block_free(&mut bits, 5);
    assert_eq!(bits, before);
}

#[test]
fn descriptor_constructors() {
    let free = FileDescriptor::new_free();
    assert_eq!(free.size, -1);
    assert_eq!(free.blocks, [0, 0, 0]);
    assert!(free.is_free());
    let empty = FileDescriptor::new_empty();
    assert_eq!(empty.size, 0);
    assert!(!empty.is_free());
}

#[test]
fn descriptor_block_numbers() {
    assert_eq!(descriptor_block(0), 1);
    assert_eq!(descriptor_block(31), 1);
    assert_eq!(descriptor_block(32), 2);
    assert_eq!(descriptor_block(191), 6);
}

#[test]
fn descriptor_write_then_read() {
    let mut block = [0u8; BLOCK_SIZE];
    let d = FileDescriptor { size: 700, blocks: [9, 10, -3] };
    write_descriptor(&mut block, 5, &d);
    let back = read_descriptor(&block, 5);
    assert_eq!(back.size, 700);
    assert_eq!(back.blocks, [9, 10, -3]);
    // its 16 bytes sit at slot 5, the rest is untouched
    assert_eq!(&block[80..84], &[0xBC, 0x02, 0, 0]);
    assert!(block[..80].iter().all(|b| *b == 0));
    assert!(block[96..].iter().all(|b| *b == 0));
    let other = read_descriptor(&block, 4);
    assert_eq!(other.size, 0);
}

#[test]
fn oft_entry_positions() {
    let mut e = OFTEntry::new_free();
    assert!(e.is_free());
    assert_eq!(e.current_block(), 0);
    assert_eq!(e.buffer_offset(), 0);
    e.current_pos = 1000;
    assert!(!e.is_free());
    assert_eq!(e.current_block(), 1);
    assert_eq!(e.buffer_offset(), 488);
    e.current_pos = 1536;
    assert_eq!(e.current_block(), 3);
    assert_eq!(e.buffer_offset(), 0);
}

#[test]
fn oft_table_access() {
    let mut t = OFT::new();
    assert!(t.get(4).is_none());
    assert!(t.get_mut(7).is_none());
    assert!(t.get(0).unwrap().is_free());
    assert_eq!(t.find_free(), Some(1));
    t.get_mut(1).unwrap().current_pos = 0;
    assert_eq!(t.find_free(), Some(2));
    t.get_mut(2).unwrap().current_pos = 5;
    t.get_mut(3).unwrap().current_pos = 7;
    assert_eq!(t.find_free(), None);
    // entry 0 is never handed out
    t.get_mut(0).unwrap().current_pos = -1;
    assert_eq!(t.find_free(), None);
}

#[test]
fn disk_write_then_read_block() {
    let mut d = Disk::new();
    d.output_buffer = [9u8; BLOCK_SIZE];
    assert_eq!(d.write_block(12), Ok(()));
    d.output_buffer = [1u8; BLOCK_SIZE];
    assert_eq!(d.write_block(13), Ok(()));
    assert_eq!(d.read_block(12), Ok(()));
    assert_eq!(d.input_buffer, [9u8; BLOCK_SIZE]);
    assert_eq!(d.read_block(14), Ok(()));
    assert_eq!(d.input_buffer, [0u8; BLOCK_SIZE]);
    assert_eq!(d.read_block(64), Err(DiskError::BlockOutOfRange));
    assert_eq!(d.write_block(64), Err(DiskError::BlockOutOfRange));
}

#[test]
fn bitmap_short_data_and_far_blocks() {
    assert!(is_block_occupied(&[], 100));
    assert!(is_block_occupied(&[0xFF], 3));
    assert!(!is_block_occupied(&[0x00, 0x00], 9));
    let mut short = [0u8; 1];
    set_block_occupied(&mut short, 70);
    set_block_free(&mut short, 70);
    assert_eq!(short, [0u8; 1]);
    set_block_occupied(&mut short, 2);
    assert_eq!(short, [4u8]);
    assert_eq!(find_free_block(&[0xFF, 0x01]), Some(9));
}
