use lib::constants::{BLOCK_SIZE, MAX_FILE_SIZE};
use lib::file_ops::FsError;
use lib::fs::FileSystem;

fn fill_memory(fs: &mut FileSystem, seed: u8) {
    for i in 0..BLOCK_SIZE {
        fs.memory[i] = seed.wrapping_add(i as u8);
    }
}

#[test]
fn new_file_system_is_empty() {
    let mut fs = FileSystem::new();
    assert!(fs.directory().is_empty());
    assert!(fs.memory.iter().all(|b| *b == 0));
}

#[test]
fn create_open_write_seek_read_round_trip() {
    let mut fs = FileSystem::new();
    assert_eq!(fs.create("data"), Ok(()));
    let j = fs.open("data").unwrap();
    assert_eq!(j, 1);
    fill_memory(&mut fs, 7);
    assert_eq!(fs.write(j, 0, 300), Ok(300));
    assert_eq!(fs.seek(j, 0), Ok(()));
    let before: Vec<u8> = fs.memory[0..300].to_vec();
    for b in fs.memory.iter_mut() {
        *b = 0;
    }
    assert_eq!(fs.read(j, 0, 300), Ok(300));
    assert_eq!(fs.memory[0..300].to_vec(), before);
}

#[test]
fn write_across_block_boundaries_reads_back() {
    let mut fs = FileSystem::new();
    fs.create("big").unwrap();
    let j = fs.open("big").unwrap();
    // three writes of 512 bytes fill the three blocks
    for k in 0..3u8 {
        fill_memory(&mut fs, 40 * k);
        assert_eq!(fs.write(j, 0, BLOCK_SIZE), Ok(BLOCK_SIZE));
    }
    // the file is full
    assert_eq!(fs.write(j, 0, 10), Ok(0));
    assert_eq!(fs.directory(), vec![("big".to_string(), MAX_FILE_SIZE)]);
    // read the middle of the second and third blocks
    fs.seek(j, 1000).unwrap();
    assert_eq!(fs.read(j, 0, 100), Ok(100));
    for i in 0..100usize {
        let pos = 1000 + i;
        let block = (pos / BLOCK_SIZE) as u8;
        let offset = pos % BLOCK_SIZE;
        assert_eq!(fs.memory[i], (40 * block).wrapping_add(offset as u8));
    }
}

#[test]
fn overwrite_in_the_middle_keeps_the_rest() {
    let mut fs = FileSystem::new();
    fs.create("m").unwrap();
    let j = fs.open("m").unwrap();
    fs.write_memory(0, "abcdefghij").unwrap();
    fs.write(j, 0, 10).unwrap();
    fs.write_memory(0, "XY").unwrap();
    fs.seek(j, 4).unwrap();
    assert_eq!(fs.write(j, 0, 2), Ok(2));
    fs.seek(j, 0).unwrap();
    assert_eq!(fs.read(j, 20, 50), Ok(10));
    assert_eq!(fs.read_memory(20, 10), Ok("abcdXYghij".to_string()));
    assert_eq!(fs.directory(), vec![("m".to_string(), 10)]);
}

#[test]
fn contents_survive_close_and_reopen() {
    let mut fs = FileSystem::new();
    fs.create("keep").unwrap();
    let j = fs.open("keep").unwrap();
    fill_memory(&mut fs, 3);
    fs.write(j, 0, 512).unwrap();
    fs.write(j, 0, 100).unwrap();
    assert_eq!(fs.close(j), Ok(()));
    let k = fs.open("keep").unwrap();
    assert_eq!(fs.read(k, 0, 512), Ok(512));
    assert_eq!(fs.memory[5], 3u8.wrapping_add(5));
    assert_eq!(fs.read(k, 0, 512), Ok(100));
    assert_eq!(fs.memory[99], 3u8.wrapping_add(99));
    assert_eq!(fs.read(k, 0, 512), Ok(0));
}

#[test]
fn read_stops_at_end_of_memory() {
    let mut fs = FileSystem::new();
    fs.create("r").unwrap();
    let j = fs.open("r").unwrap();
    fill_memory(&mut fs, 1);
    fs.write(j, 0, 100).unwrap();
    fs.seek(j, 0).unwrap();
    assert_eq!(fs.read(j, 500, 100), Ok(12));
    assert_eq!(fs.write(j, 505, 100), Ok(7));
}

#[test]
fn write_memory_truncates_at_end() {
    let mut fs = FileSystem::new();
    assert_eq!(fs.write_memory(508, "abcdef"), Ok(4));
    assert_eq!(fs.read_memory(508, 10), Ok("abcd".to_string()));
    assert_eq!(fs.read_memory(0, 0), Ok(String::new()));
}

#[test]
fn error_invalid_name() {
    let mut fs = FileSystem::new();
    assert_eq!(fs.create(""), Err(FsError::InvalidName));
    assert_eq!(fs.create("abcde"), Err(FsError::InvalidName));
    assert_eq!(fs.create("é"), Err(FsError::InvalidName));
    assert_eq!(fs.open("toolong"), Err(FsError::InvalidName));
    assert_eq!(fs.destroy(""), Err(FsError::InvalidName));
    assert_eq!(fs.create("abcd"), Ok(()));
}

#[test]
fn error_file_exists() {
    let mut fs = FileSystem::new();
    fs.create("x").unwrap();
    assert_eq!(fs.create("x"), Err(FsError::FileExists));
}

#[test]
fn error_no_free_descriptor() {
    let mut fs = FileSystem::new();
    for i in 0..191 {
        let name = format!("f{}", i);
        assert_eq!(fs.create(&name), Ok(()), "creating {}", name);
    }
    assert_eq!(fs.create("last"), Err(FsError::NoFreeDescriptor));
    assert_eq!(fs.directory().len(), 191);
}

#[test]
fn error_file_not_found() {
    let mut fs = FileSystem::new();
    assert_eq!(fs.open("none"), Err(FsError::FileNotFound));
    assert_eq!(fs.destroy("none"), Err(FsError::FileNotFound));
}

#[test]
fn error_file_open() {
    let mut fs = FileSystem::new();
    fs.create("o").unwrap();
    fs.open("o").unwrap();
    assert_eq!(fs.open("o"), Err(FsError::FileOpen));
    assert_eq!(fs.destroy("o"), Err(FsError::FileOpen));
}

#[test]
fn error_too_many_open_files() {
    let mut fs = FileSystem::new();
    for name in ["a", "b", "c", "d"] {
        fs.create(name).unwrap();
    }
    assert_eq!(fs.open("a"), Ok(1));
    assert_eq!(fs.open("b"), Ok(2));
    assert_eq!(fs.open("c"), Ok(3));
    assert_eq!(fs.open("d"), Err(FsError::TooManyOpenFiles));
    fs.close(2).unwrap();
    assert_eq!(fs.open("d"), Ok(2));
}

#[test]
fn error_invalid_index_and_not_open() {
    let mut fs = FileSystem::new();
    assert_eq!(fs.close(0), Err(FsError::InvalidIndex));
    assert_eq!(fs.close(4), Err(FsError::InvalidIndex));
    assert_eq!(fs.close(1), Err(FsError::NotOpen));
    assert_eq!(fs.read(0, 0, 1), Err(FsError::InvalidIndex));
    assert_eq!(fs.write(2, 0, 1), Err(FsError::NotOpen));
    assert_eq!(fs.seek(3, 0), Err(FsError::NotOpen));
}

#[test]
fn error_invalid_position() {
    let mut fs = FileSystem::new();
    fs.create("p").unwrap();
    let j = fs.open("p").unwrap();
    assert_eq!(fs.seek(j, 1), Err(FsError::InvalidPosition));
    fs.write_memory(0, "abc").unwrap();
    fs.write(j, 0, 3).unwrap();
    assert_eq!(fs.seek(j, 3), Ok(()));
    assert_eq!(fs.seek(j, 4), Err(FsError::InvalidPosition));
}

#[test]
fn error_invalid_memory_position() {
    let mut fs = FileSystem::new();
    fs.create("q").unwrap();
    let j = fs.open("q").unwrap();
    assert_eq!(fs.read(j, BLOCK_SIZE, 1), Err(FsError::InvalidMemoryPosition));
    assert_eq!(fs.write(j, BLOCK_SIZE, 1), Err(FsError::InvalidMemoryPosition));
    assert_eq!(fs.read_memory(BLOCK_SIZE, 1), Err(FsError::InvalidMemoryPosition));
    assert_eq!(fs.write_memory(BLOCK_SIZE, "a"), Err(FsError::InvalidMemoryPosition));
}

/// Fills every free data block: 18 files of three blocks and one of two.
fn fill_disk(fs: &mut FileSystem) {
    for i in 0..19 {
        let name = format!("z{}", i);
        fs.create(&name).unwrap();
        let j = fs.open(&name).unwrap();
        let blocks = if i < 18 { 3 } else { 2 };
        for _ in 0..blocks {
            assert_eq!(fs.write(j, 0, BLOCK_SIZE), Ok(BLOCK_SIZE));
        }
        fs.close(j).unwrap();
    }
}

#[test]
fn error_disk_full_on_write_and_create() {
    let mut fs = FileSystem::new();
    // 64 entries fill the directory's first block exactly
    for i in 0..45 {
        fs.create(&format!("e{}", i)).unwrap();
    }
    fill_disk(&mut fs);
    assert_eq!(fs.directory().len(), 64);
    // a write that needs a block gets nothing
    let j = fs.open("e0").unwrap();
    assert_eq!(fs.write(j, 0, 10), Ok(0));
    fs.close(j).unwrap();
    // the directory needs a new block for a 65th entry
    assert_eq!(fs.create("new"), Err(FsError::DiskFull));
    // freeing a file makes room
    fs.destroy("z0").unwrap();
    assert_eq!(fs.create("new"), Ok(()));
}

#[test]
fn destroy_frees_blocks_for_reuse() {
    let mut fs = FileSystem::new();
    fill_disk(&mut fs);
    fs.create("w").unwrap();
    let j = fs.open("w").unwrap();
    assert_eq!(fs.write(j, 0, 1), Ok(0));
    fs.close(j).unwrap();
    fs.destroy("z3").unwrap();
    let j = fs.open("w").unwrap();
    assert_eq!(fs.write(j, 0, BLOCK_SIZE), Ok(BLOCK_SIZE));
    assert_eq!(fs.write(j, 0, BLOCK_SIZE), Ok(BLOCK_SIZE));
    assert_eq!(fs.write(j, 0, BLOCK_SIZE), Ok(BLOCK_SIZE));
    assert_eq!(fs.write(j, 0, 1), Ok(0));
}

#[test]
fn destroyed_name_is_gone_and_descriptor_reused() {
    let mut fs = FileSystem::new();
    fs.create("a").unwrap();
    fs.create("b").unwrap();
    fs.destroy("a").unwrap();
    assert_eq!(fs.open("a"), Err(FsError::FileNotFound));
    assert_eq!(fs.directory(), vec![("b".to_string(), 0)]);
    fs.create("a").unwrap();
    assert_eq!(fs.directory(), vec![("a".to_string(), 0), ("b".to_string(), 0)]);
}

#[test]
fn init_resets_files_and_memory() {
    let mut fs = FileSystem::new();
    fs.create("a").unwrap();
    fs.open("a").unwrap();
    fs.write_memory(0, "hi").unwrap();
    fs.init();
    assert!(fs.directory().is_empty());
    assert_eq!(fs.memory[0], 0);
    assert_eq!(fs.close(1), Err(FsError::NotOpen));
}
