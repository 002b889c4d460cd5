use lib::file_ops::FsError;
use lib::fs::FileSystem;

#[test]
fn write_seek_read_gives_back_the_written_bytes() {
    let mut fs = FileSystem::new();
    fs.create("law").unwrap();
    let j = fs.open("law").unwrap();
    fs.write_memory(0, "abcdefgh").unwrap();
    assert_eq!(fs.write(j, 2, 5), Ok(5));
    assert_eq!(fs.seek(j, 0), Ok(()));
    assert_eq!(fs.read(j, 100, 5), Ok(5));
    assert_eq!(fs.read_memory(100, 5), Ok("cdefg".to_string()));
}

#[test]
fn created_name_is_taken_and_listed() {
    let mut fs = FileSystem::new();
    assert_eq!(fs.create("abc"), Ok(()));
    assert_eq!(fs.create("abc"), Err(FsError::FileExists));
    let files = fs.directory();
    assert_eq!(files, vec![("abc".to_string(), 0usize)]);
}

#[test]
fn destroyed_name_cannot_be_opened_or_destroyed() {
    let mut fs = FileSystem::new();
    fs.create("gone").unwrap();
    assert_eq!(fs.destroy("gone"), Ok(()));
    assert_eq!(fs.open("gone"), Err(FsError::FileNotFound));
    assert_eq!(fs.destroy("gone"), Err(FsError::FileNotFound));
}

#[test]
fn names_stay_distinct_after_reuse_of_entries() {
    let mut fs = FileSystem::new();
    fs.create("a").unwrap();
    fs.create("b").unwrap();
    fs.destroy("a").unwrap();
    fs.create("b2").unwrap();
    assert_eq!(fs.create("b"), Err(FsError::FileExists));
    let names: Vec<String> = fs.directory().into_iter().map(|(n, _)| n).collect();
    assert_eq!(names, vec!["b2".to_string(), "b".to_string()]);
}

#[test]
fn closed_entry_refuses_transfers() {
    let mut fs = FileSystem::new();
    fs.create("c").unwrap();
    let j = fs.open("c").unwrap();
    assert_eq!(fs.close(j), Ok(()));
    assert_eq!(fs.read(j, 0, 1), Err(FsError::NotOpen));
    assert_eq!(fs.write(j, 0, 1), Err(FsError::NotOpen));
    assert_eq!(fs.seek(j, 0), Err(FsError::NotOpen));
    assert_eq!(fs.close(j), Err(FsError::NotOpen));
}

#[test]
fn initial_bitmap_report() {
    let fs = FileSystem::new();
    assert_eq!(fs.bitmap_report(), "Bitmap (blocks 0-15): 1111111100000000");
}

#[test]
fn bitmap_report_after_a_block_is_taken() {
    let mut fs = FileSystem::new();
    fs.create("x").unwrap();
    let j = fs.open("x").unwrap();
    fs.write_memory(0, "x").unwrap();
    fs.write(j, 0, 1).unwrap();
    assert_eq!(fs.bitmap_report(), "Bitmap (blocks 0-15): 1111111110000000");
}

#[test]
fn directory_descriptor_report_tracks_size() {
    let mut fs = FileSystem::new();
    assert_eq!(fs.directory_descriptor_report(), "Descriptor 0 (directory): size=0, blocks=[7, 0, 0]");
    fs.create("one").unwrap();
    fs.create("two").unwrap();
    assert_eq!(fs.directory_descriptor_report(), "Descriptor 0 (directory): size=16, blocks=[7, 0, 0]");
}

#[test]
fn oft_report_shows_free_and_used_entries() {
    let mut fs = FileSystem::new();
    assert_eq!(
        fs.oft_report(),
        "Open File Table:\n  [0] in use - pos=0, size=0, desc=0\n  [1] free - pos=-1, size=0, desc=0\n  [2] free - pos=-1, size=0, desc=0\n  [3] free - pos=-1, size=0, desc=0"
    );
    fs.create("f").unwrap();
    fs.open("f").unwrap();
    fs.write_memory(0, "hey").unwrap();
    fs.write(1, 0, 3).unwrap();
    assert_eq!(
        fs.oft_report(),
        "Open File Table:\n  [0] in use - pos=8, size=8, desc=0\n  [1] in use - pos=3, size=3, desc=1\n  [2] free - pos=-1, size=0, desc=0\n  [3] free - pos=-1, size=0, desc=0"
    );
}

#[test]
fn destroy_gives_blocks_back() {
    let mut fs = FileSystem::new();
    fs.create("big").unwrap();
    let j = fs.open("big").unwrap();
    fs.write(j, 0, 512).unwrap();
    fs.write(j, 0, 100).unwrap();
    assert_eq!(fs.bitmap_report(), "Bitmap (blocks 0-15): 1111111111000000");
    fs.close(j).unwrap();
    fs.destroy("big").unwrap();
    assert_eq!(fs.bitmap_report(), "Bitmap (blocks 0-15): 1111111100000000");
}

#[test]
fn writes_take_the_lowest_free_block() {
    let mut fs = FileSystem::new();
    fs.create("a").unwrap();
    fs.create("b").unwrap();
    let ja = fs.open("a").unwrap();
    let jb = fs.open("b").unwrap();
    fs.write(ja, 0, 1).unwrap();
    fs.write(jb, 0, 1).unwrap();
    fs.write(ja, 0, 1).unwrap();
    assert_eq!(fs.bitmap_report(), "Bitmap (blocks 0-15): 1111111111000000");
    fs.close(ja).unwrap();
    fs.destroy("a").unwrap();
    assert_eq!(fs.bitmap_report(), "Bitmap (blocks 0-15): 1111111101000000");
    // b's second block is the lowest free one, block 8
    assert_eq!(fs.write(jb, 0, 600), Ok(512));
    assert_eq!(fs.write(jb, 0, 5), Ok(5));
    assert_eq!(fs.bitmap_report(), "Bitmap (blocks 0-15): 1111111111000000");
}

#[test]
fn failed_commands_leave_the_bitmap() {
    let mut fs = FileSystem::new();
    fs.create("f").unwrap();
    let before = fs.bitmap_report();
    assert_eq!(fs.create("toolong"), Err(FsError::InvalidName));
    assert_eq!(fs.create("f"), Err(FsError::FileExists));
    assert_eq!(fs.open("zz"), Err(FsError::FileNotFound));
    assert_eq!(fs.write(2, 0, 5), Err(FsError::NotOpen));
    assert_eq!(fs.bitmap_report(), before);
    assert_eq!(fs.directory_descriptor_report(), "Descriptor 0 (directory): size=8, blocks=[7, 0, 0]");
}

#[test]
fn init_twice_equals_new() {
    let mut fs = FileSystem::new();
    fs.create("x").unwrap();
    fs.open("x").unwrap();
    fs.write_memory(0, "data").unwrap();
    fs.write(1, 0, 4).unwrap();
    fs.init();
    fs.init();
    let fresh = FileSystem::new();
    assert_eq!(fs.bitmap_report(), fresh.bitmap_report());
    assert_eq!(fs.directory_descriptor_report(), fresh.directory_descriptor_report());
    assert_eq!(fs.oft_report(), fresh.oft_report());
    assert_eq!(fs.memory, fresh.memory);
}
