//! What holds of the file system across its operations.
use vstd::prelude::*;
use vstd::math::min;
use crate::byte_utils::{i32_at, lemma_i32_round_trip};
use crate::constants::{BLOCK_SIZE, DIR_ENTRY_SIZE, MAX_FILE_SIZE, NUM_BLOCKS, NUM_DESCRIPTORS};
use crate::directory::{entry_index, entry_matches, entry_name, entry_used, lemma_entry_written, overwrite};
use crate::file_ops::{entry_bytes, name_key, valid_name, FsError};
use crate::fs::FileSystem;
use crate::text::{
    byte_char, bytes_chars, decimal, is_white_space, law_decimal_reads_back, lemma_decimal_is_word, lemma_words_of_append,
    lemma_words_of_concat, lemma_words_of_word, parse_usize_spec, word_ok, words_of,
};
use crate::shell::{
    close_cmd_post, directory_cmd_post, error_text, read_memory_cmd_post, join_spaces, open_cmd_post, render_listing, seek_cmd_post, transfer_cmd_post,
    write_memory_cmd_post,
};

verus! {

/// A write changes its file only in the bytes it writes: those before the
/// position it starts at and those past the written ones stay as they were.
pub proof fn law_write_keeps_other_bytes(
    pre: FileSystem,
    post: FileSystem,
    index: usize,
    mem_pos: usize,
    count: usize,
    written: usize,
    k: int,
)
    requires
        pre.wf(),
        FileSystem::write_post(pre, post, index, mem_pos, count, Ok(written)),
        0 <= k < pre.content(pre.open_desc(index as int)).len(),
        !(pre.pos(index as int) <= k < pre.pos(index as int) + written),
    ensures
        post.content(pre.open_desc(index as int))[k] == pre.content(pre.open_desc(index as int))[k],
{
    let d = pre.open_desc(index as int);
    let p = pre.pos(index as int);
    let data = pre.mem().subrange(mem_pos as int, mem_pos + written);
    pre.lemma_mem();
    assert(pre.entry_ok(index as int));
    assert(data.len() == written);
    assert(post.content(d) == overwrite(pre.content(d), p, data));
}

/// What `write_memory` puts into the memory, the memory then holds where it
/// was put, and the rest of the memory stays.
pub proof fn law_memory_read_back(pre: FileSystem, post: FileSystem, mem_pos: usize, data: Seq<u8>, written: usize)
    requires
        FileSystem::write_memory_post(pre, post, mem_pos, data, Ok(written)),
        pre.mem().len() == BLOCK_SIZE,
    ensures
        written == min(data.len() as int, BLOCK_SIZE - mem_pos),
        post.mem().subrange(mem_pos as int, mem_pos + written) == data.subrange(0, written as int),
        forall|k: int| 0 <= k < BLOCK_SIZE && !(mem_pos <= k < mem_pos + written) ==> post.mem()[k] == pre.mem()[k],
{
    assert(post.mem().subrange(mem_pos as int, mem_pos + written) =~= data.subrange(0, written as int));
}

/// The entry that `create` writes names the new file: it is in use, holds the
/// name, and points at the new descriptor.
pub proof fn law_created_entry_names_file(dir: Seq<u8>, e: int, key: Seq<u8>, d: int)
    requires
        0 <= e,
        DIR_ENTRY_SIZE * e <= dir.len(),
        key.len() == 4,
        1 <= d < NUM_DESCRIPTORS,
    ensures
        entry_matches(overwrite(dir, DIR_ENTRY_SIZE * e, entry_bytes(key, d)), e, key),
        entry_index(overwrite(dir, DIR_ENTRY_SIZE * e, entry_bytes(key, d)), e) == d,
{
    let bytes = entry_bytes(key, d);
    assert(bytes.subrange(4, 8) =~= crate::byte_utils::i32_le_bytes(d));
    lemma_i32_round_trip(bytes, 4, d);
    lemma_entry_written(dir, e, bytes, e);
    assert(bytes.subrange(0, 4) =~= key);
}

/// The entry that `destroy` clears names no file any more.
pub proof fn law_destroyed_entry_is_free(dir: Seq<u8>, e: int)
    requires
        0 <= e,
        DIR_ENTRY_SIZE * e + DIR_ENTRY_SIZE <= dir.len(),
    ensures
        !entry_used(overwrite(dir, DIR_ENTRY_SIZE * e, Seq::new(8, |i: int| 0u8)), e),
{
    let bytes = Seq::new(8, |i: int| 0u8);
    lemma_entry_written(dir, e, bytes, e);
    assert(i32_at(bytes, 4) == 0);
}

/// In a consistent file system no file is longer than the largest file size,
/// and the directory holds at most one entry per descriptor.
pub proof fn law_file_size_bound(fs: FileSystem, d: int)
    requires
        fs.wf(),
        0 <= d < NUM_DESCRIPTORS,
    ensures
        fs.content(d).len() <= MAX_FILE_SIZE,
        fs.entry_count() <= MAX_FILE_SIZE / DIR_ENTRY_SIZE,
{
    assert(fs.desc_ok(d));
    assert(fs.desc_ok(0));
}

/// A freshly initialised file system lists no files.
pub proof fn law_initial_directory_empty(fs: FileSystem)
    requires
        fs.is_initial(),
    ensures
        fs.listing() == Seq::<(Seq<char>, int)>::empty(),
        fs.entry_count() == 0,
{
    assert(fs.initial_descriptor(0));
}

/// What `write` put into a file, a `seek` back to where the write began and a
/// `read` of as many bytes gives back: the read reads them all, and the memory
/// it reads into then holds the bytes that the write took from the memory.
pub proof fn law_write_seek_read(
    s0: FileSystem,
    s1: FileSystem,
    s2: FileSystem,
    s3: FileSystem,
    index: usize,
    write_at: usize,
    write_count: usize,
    written: usize,
    start: usize,
    read_at: usize,
    read: usize,
)
    requires
        s0.wf(),
        FileSystem::write_post(s0, s1, index, write_at, write_count, Ok(written)),
        start == s0.pos(index as int),
        FileSystem::seek_post(s1, s2, index, start, Ok(())),
        FileSystem::read_post(s2, s3, index, read_at, written, Ok(read)),
        read_at + written <= BLOCK_SIZE,
    ensures
        read == written,
        s3.mem().subrange(read_at as int, read_at + written) == s0.mem().subrange(write_at as int, write_at + written),
{
    let j = index as int;
    let d = s0.open_desc(j);
    let p = start as int;
    let n = written as int;
    s0.lemma_mem();
    let data = s0.mem().subrange(write_at as int, write_at + n);
    assert(s0.entry_ok(j));
    assert(s0.desc_ok(d));
    assert(s0.content(d).len() == s0.dsize(d));
    let c1 = overwrite(s0.content(d), p, data);
    assert(s1.content(d) == c1);
    assert(c1.len() >= p + n);
    assert(s2.content(d) == s1.content(d));
    assert(s2.dsize(d) == s1.dsize(d));
    assert(c1.subrange(p, p + n) =~= data);
    assert(overwrite(s2.mem(), read_at as int, data).subrange(read_at as int, read_at + n) =~= data);
}

/// Once `create(name)` has succeeded, the name is taken: creating it again
/// fails with `FileExists`, and the listing shows the new file, empty.
pub proof fn law_create_then_exists(pre: FileSystem, post: FileSystem, name: Seq<char>)
    requires
        pre.wf(),
        post.wf(),
        FileSystem::create_post(pre, post, name, Ok(())),
    ensures
        post.name_taken(name_key(name)),
        post.create_error(name) == Some(FsError::FileExists),
        post.listing().contains((name, 0int)),
{
    let key = name_key(name);
    let d = pre.first_free_descriptor();
    let e = pre.new_entry_slot();
    assert(valid_name(name));
    pre.lemma_new_entry_slot_range();
    assert(pre.desc_ok(0));
    assert(pre.dir().len() == pre.dsize(0));
    law_created_entry_names_file(pre.dir(), e, key, d);
    assert(post.desc_ok(0));
    assert(post.dir().len() == post.dsize(0));
    assert(post.dir().len() >= DIR_ENTRY_SIZE * e + DIR_ENTRY_SIZE);
    assert(e < post.entry_count());
    assert(entry_matches(post.dir(), e, key));
    assert(entry_name(post.dir(), e) == key);
    lemma_listed(post, e, post.entry_count());
    lemma_name_round_trip(name);
}

/// Once `destroy(name)` has succeeded, no file has the name any more:
/// opening or destroying it fails with `FileNotFound`.
pub proof fn law_destroy_then_gone(pre: FileSystem, post: FileSystem, name: Seq<char>)
    requires
        pre.wf(),
        post.wf(),
        FileSystem::destroy_post(pre, post, name, Ok(())),
    ensures
        !post.name_taken(name_key(name)),
        post.open_error(name) == Some(FsError::FileNotFound),
        post.destroy_error(name) == Some(FsError::FileNotFound),
{
    let key = name_key(name);
    let e = pre.first_match(key);
    let zeros = Seq::new(8, |i: int| 0u8);
    assert(pre.desc_ok(0));
    assert(post.desc_ok(0));
    assert(pre.dir().len() == pre.dsize(0));
    assert(post.dir().len() == post.dsize(0));
    assert(post.dsize(0) == pre.dsize(0));
    assert forall|e2: int| 0 <= e2 < post.entry_count() implies !#[trigger] entry_matches(post.dir(), e2, key) by {
        lemma_entry_written(pre.dir(), e, zeros, e2);
        if e2 == e {
            law_destroyed_entry_is_free(pre.dir(), e);
        } else if entry_matches(pre.dir(), e2, key) {
            assert(entry_name(pre.dir(), e2) == entry_name(pre.dir(), e));
        }
    }
}

/// `destroy(name)` gives the file's blocks back: each of them is free
/// afterwards, and no other block changes between free and occupied.
pub proof fn law_destroy_frees_blocks(pre: FileSystem, post: FileSystem, name: Seq<char>, b: int)
    requires
        pre.wf(),
        FileSystem::destroy_post(pre, post, name, Ok(())),
        0 <= b < NUM_BLOCKS,
    ensures
        ({
            let d = entry_index(pre.dir(), pre.first_match(name_key(name)));
            &&& pre.owns_block(d, b) ==> !post.occupied(b)
            &&& !pre.owns_block(d, b) ==> post.occupied(b) == pre.occupied(b)
        }),
{
}

/// A failed command on a file leaves the tables (bitmap and descriptors), the
/// files, the memory and the other open files as they were; one that fails
/// before it reads the directory leaves everything as it was.
pub proof fn law_failed_create_changes_nothing(pre: FileSystem, post: FileSystem, name: Seq<char>, e: FsError)
    requires
        FileSystem::create_post(pre, post, name, Err(e)),
    ensures
        post.same_but_directory_cursor(pre),
        post.tables_same_as(pre),
        !valid_name(name) ==> post == pre,
{
}

/// No two directory entries in use name the same file.
pub proof fn law_directory_names_distinct(fs: FileSystem, e1: int, e2: int)
    requires
        fs.wf(),
        0 <= e1 < fs.entry_count(),
        0 <= e2 < fs.entry_count(),
        e1 != e2,
        entry_used(fs.dir(), e1),
        entry_used(fs.dir(), e2),
    ensures
        entry_name(fs.dir(), e1) != entry_name(fs.dir(), e2),
        entry_index(fs.dir(), e1) != entry_index(fs.dir(), e2),
{
}

/// Once `close(index)` has succeeded, the entry is free: reading, writing or
/// seeking through it fails with `NotOpen`.
pub proof fn law_close_then_not_open(pre: FileSystem, post: FileSystem, index: usize)
    requires
        FileSystem::close_post(pre, post, index, Ok(())),
    ensures
        post.index_error(index as int) == Some(FsError::NotOpen),
{
}

/// A directory entry in use appears in the listing with its file's name and size.
proof fn lemma_listed(fs: FileSystem, e: int, upto: int)
    requires
        0 <= e < upto,
        entry_used(fs.dir(), e),
    ensures
        fs.listing_upto(upto).contains(
            (FileSystem::name_of_key(entry_name(fs.dir(), e)), fs.dsize(entry_index(fs.dir(), e))),
        ),
    decreases upto,
{
    let item = (FileSystem::name_of_key(entry_name(fs.dir(), e)), fs.dsize(entry_index(fs.dir(), e)));
    let prev = fs.listing_upto(upto - 1);
    if e == upto - 1 {
        assert(fs.listing_upto(upto) == prev.push(item));
        assert(fs.listing_upto(upto)[prev.len() as int] == item);
    } else {
        lemma_listed(fs, e, upto - 1);
        let i = choose|i: int| 0 <= i < prev.len() && prev[i] == item;
        if entry_used(fs.dir(), upto - 1) {
            let next = fs.listing_upto(upto);
            assert(next[i] == prev[i]);
        }
    }
}

/// A legal name reads back from its stored form.
proof fn lemma_name_round_trip(name: Seq<char>)
    requires
        valid_name(name),
    ensures
        FileSystem::name_of_key(name_key(name)) == name,
{
    let key = name_key(name);
    assert forall|i: int| 0 <= i < name.len() implies key[i] != 0 && byte_char(#[trigger] key[i]) == name[i] by {
        let c = name[i];
        let x = c as u32;
        assert(0 < x < 128);
        let b = x as u8;
        assert(b == x);
        assert(key[i] == b);
        vstd::utf8::char_u32_cast(c, x);
        assert(b as char == c);
    }
    assert(bytes_chars(key.take(name.len() as int)) =~= name);
}

/// The total number of characters in the words `ws`.
pub open spec fn total_len(ws: Seq<Seq<char>>) -> nat
    decreases ws.len(),
{
    if ws.len() == 0 {
        0
    } else {
        total_len(ws.drop_last()) + ws.last().len()
    }
}

/// Joining words puts exactly one character between consecutive words and
/// none at the ends: the joined text is as long as the words together plus one
/// for each gap.
pub proof fn law_join_spaces_length(ws: Seq<Seq<char>>)
    requires
        ws.len() > 0,
    ensures
        join_spaces(ws).len() == total_len(ws) + ws.len() - 1,
    decreases ws.len(),
{
    if ws.len() > 1 {
        law_join_spaces_length(ws.drop_last());
    } else {
        assert(total_len(ws.drop_last()) == 0);
        assert(ws.last() == ws[0]);
    }
}

/// Joining two runs of words is joining each and putting one space between:
/// every gap between consecutive words is a single space.
pub proof fn law_join_spaces_concat(a: Seq<Seq<char>>, b: Seq<Seq<char>>)
    requires
        a.len() > 0,
        b.len() > 0,
    ensures
        join_spaces(a + b) == join_spaces(a) + seq![' '] + join_spaces(b),
    decreases b.len(),
{
    if b.len() == 1 {
        assert((a + b).drop_last() =~= a);
        assert((a + b).last() == b[0]);
    } else {
        let front = b.drop_last();
        law_join_spaces_concat(a, front);
        assert((a + b).drop_last() =~= a + front);
        assert((a + b).last() == b.last());
        assert(join_spaces(a) + seq![' '] + join_spaces(front) + seq![' '] + b.last() =~= join_spaces(a) + seq![' '] + (
        join_spaces(front) + seq![' '] + b.last()));
    }
}

/// The words of `name size` pairs separated by spaces, for a listing whose
/// names are words.
#[verifier::spinoff_prover]
proof fn lemma_listing_words(items: Seq<(Seq<char>, int)>)
    requires
        forall|k: int| 0 <= k < items.len() ==> #[trigger] word_ok(items[k].0),
        forall|k: int| 0 <= k < items.len() ==> 0 <= #[trigger] items[k].1,
    ensures
        words_of(render_listing(items)).len() == 2 * items.len(),
        forall|k: int| 0 <= k < items.len() ==> #[trigger] words_of(render_listing(items))[2 * k] == items[k].0
            && words_of(render_listing(items))[2 * k + 1] == decimal(items[k].1 as nat),
    decreases items.len(),
{
    if items.len() > 0 {
        let front = items.drop_last();
        let item = items.last();
        let name = item.0;
        let dec = decimal(item.1 as nat);
        assert(word_ok(items[items.len() - 1].0));
        assert(0 <= items[items.len() - 1].1);
        lemma_decimal_is_word(item.1 as nat);
        assert(is_white_space(' '));
        assert forall|k: int| 0 <= k < front.len() implies #[trigger] word_ok(front[k].0) by {
            assert(front[k] == items[k]);
        }
        assert forall|k: int| 0 <= k < front.len() implies 0 <= #[trigger] front[k].1 by {
            assert(front[k] == items[k]);
        }
        lemma_listing_words(front);
        let prev = words_of(render_listing(front));
        // `name ` then `size`, after what came before
        let t0 = if items.len() == 1 { Seq::<char>::empty() } else { render_listing(front) + seq![' '] };
        let t1 = t0 + name + seq![' '];
        if items.len() == 1 {
            assert(t1.drop_last() =~= name);
            lemma_words_of_word(name);
            assert(words_of(t1) == seq![name]);
            assert(render_listing(items) =~= t1 + dec);
        } else {
            assert(t0.drop_last() =~= render_listing(front));
            assert(words_of(t0) == prev);
            lemma_words_of_append(t0, name);
            assert(t1.drop_last() =~= t0 + name);
            assert(words_of(t1) == prev.push(name));
            assert(render_listing(items) =~= t1 + dec);
        }
        lemma_words_of_append(t1, dec);
        assert(words_of(render_listing(items)) == words_of(t1).push(dec));
        if items.len() == 1 {
            assert(prev =~= Seq::<Seq<char>>::empty());
        }
        let all = words_of(render_listing(items));
        assert(all == prev.push(name).push(dec));
        assert(prev.len() == 2 * front.len());
        assert forall|k: int| 0 <= k < items.len() implies #[trigger] words_of(render_listing(items))[2 * k] == items[k].0
            && words_of(render_listing(items))[2 * k + 1] == decimal(items[k].1 as nat) by {
            if k < front.len() {
                assert(front[k] == items[k]);
                assert(prev[2 * k] == front[k].0);
                assert(prev[2 * k + 1] == decimal(front[k].1 as nat));
                assert(all[2 * k] == prev[2 * k]);
                assert(all[2 * k + 1] == prev[2 * k + 1]);
            } else {
                assert(k == front.len());
                assert(all[2 * k] == name);
                assert(all[2 * k + 1] == dec);
            }
        }
    }
}

/// Reading the `dr` answer back gives the listing: for listed names that are
/// words, the answer splits into name and size for each file in turn, and each
/// size reads back as that file's size.
pub proof fn law_directory_answer_reads_back(items: Seq<(Seq<char>, int)>)
    requires
        forall|k: int| 0 <= k < items.len() ==> #[trigger] word_ok(items[k].0),
        forall|k: int| 0 <= k < items.len() ==> 0 <= #[trigger] items[k].1 <= usize::MAX,
    ensures
        words_of(render_listing(items)).len() == 2 * items.len(),
        forall|k: int| 0 <= k < items.len() ==> #[trigger] words_of(render_listing(items))[2 * k] == items[k].0,
        forall|k: int| 0 <= k < items.len() ==> #[trigger] parse_usize_spec(words_of(render_listing(items))[2 * k + 1])
            == Some(items[k].1 as usize),
{
    lemma_listing_words(items);
    assert forall|k: int| 0 <= k < items.len() implies #[trigger] parse_usize_spec(words_of(render_listing(items))[2 * k
        + 1]) == Some(items[k].1 as usize) by {
        assert(words_of(render_listing(items))[2 * k] == items[k].0);
        law_decimal_reads_back(items[k].1 as usize);
    }
}

/// When `op` succeeds, the number that ends its answer is the entry of the
/// open file table that now holds the file: the first free entry, one that
/// `cl`, `rd`, `wr` and `sk` accept, whatever descriptor the file has.
pub proof fn law_open_answer_names_entry(pre: FileSystem, post: FileSystem, args: Seq<Seq<char>>, out: Seq<char>)
    requires
        open_cmd_post(pre, post, args, out),
        out != error_text(),
    ensures
        args.len() == 1,
        ({
            let n = parse_usize_spec(words_of(out).last());
            &&& n is Some
            &&& pre.is_first_free_slot(n->0 as int)
            &&& post.index_error(n->0 as int) is None
            &&& post.holds(n->0 as int, entry_index(pre.dir(), pre.first_match(name_key(args[0]))))
        }),
{
    let r = choose|r: Result<usize, FsError>| FileSystem::open_post(pre, post, args[0], r) && out == match r {
        Ok(j) => args[0] + seq![' ', 'o', 'p', 'e', 'n', 'e', 'd', ' '] + decimal(j as nat),
        Err(_) => error_text(),
    };
    let j = r->Ok_0;
    let t = args[0] + seq![' ', 'o', 'p', 'e', 'n', 'e', 'd', ' '];
    assert(is_white_space(t.last()));
    lemma_decimal_is_word(j as nat);
    lemma_words_of_append(t, decimal(j as nat));
    law_decimal_reads_back(j);
}

/// Any name of one to four ASCII characters other than NUL is a legal name,
/// upper and lower case, digits, punctuation and all.
pub proof fn law_short_ascii_names_are_valid(name: Seq<char>)
    requires
        1 <= name.len() <= 4,
        forall|i: int| 0 <= i < name.len() ==> 1 <= #[trigger] (name[i] as u32) <= 127,
    ensures
        valid_name(name),
{
}

/// On a freshly initialised file system, creating a file with any name of one
/// to four ASCII characters other than NUL succeeds, and the listing then
/// shows that exact name with size 0.
pub proof fn law_create_short_ascii_name(pre: FileSystem, post: FileSystem, name: Seq<char>, r: Result<(), FsError>)
    requires
        pre.wf(),
        pre.is_initial(),
        post.wf(),
        1 <= name.len() <= 4,
        forall|i: int| 0 <= i < name.len() ==> 1 <= #[trigger] (name[i] as u32) <= 127,
        FileSystem::create_post(pre, post, name, r),
    ensures
        r == Ok::<(), FsError>(()),
        post.listing().contains((name, 0int)),
{
    law_short_ascii_names_are_valid(name);
    assert(pre.initial_descriptor(0));
    assert(pre.entry_count() == 0);
    assert(!pre.name_taken(name_key(name)));
    assert(pre.initial_descriptor(1));
    assert(pre.dsize(1) == -1);
    assert(pre.has_free_descriptor());
    assert(pre.dblock(0, pre.dsize(0) / BLOCK_SIZE as int) != 0);
    assert(pre.create_error(name) is None);
    law_create_then_exists(pre, post, name);
}

/// The first word of a number printed in decimal and then text that starts
/// with a space is that number.
proof fn lemma_number_first(n: nat, rest: Seq<char>)
    requires
        rest.len() > 0,
        rest[0] == ' ',
    ensures
        words_of(decimal(n) + rest).len() > 0,
        words_of(decimal(n) + rest)[0] == decimal(n),
{
    assert(is_white_space(' '));
    lemma_decimal_is_word(n);
    lemma_words_of_concat(decimal(n), rest);
    lemma_words_of_word(decimal(n));
}

/// The last word of text that ends in a space followed by a number printed in
/// decimal is that number.
proof fn lemma_number_last(t: Seq<char>, n: nat)
    requires
        t.len() > 0,
        t.last() == ' ',
    ensures
        words_of(t + decimal(n)).len() > 0,
        words_of(t + decimal(n)).last() == decimal(n),
{
    assert(is_white_space(' '));
    lemma_decimal_is_word(n);
    lemma_words_of_append(t, decimal(n));
}

/// When `cl` succeeds, its answer starts with the number of the entry it
/// closed, as `cl` read it, and that entry is free afterwards.
pub proof fn law_close_answer(pre: FileSystem, post: FileSystem, args: Seq<Seq<char>>, out: Seq<char>)
    requires
        close_cmd_post(pre, post, args, out),
        out != error_text(),
    ensures
        args.len() == 1,
        parse_usize_spec(args[0]) is Some,
        parse_usize_spec(words_of(out)[0]) == parse_usize_spec(args[0]),
        !post.is_open(parse_usize_spec(args[0])->0 as int),
{
    let index = parse_usize_spec(args[0])->0;
    lemma_number_first(index as nat, seq![' ', 'c', 'l', 'o', 's', 'e', 'd']);
    law_decimal_reads_back(index);
}

/// When `sk` succeeds, its answer ends with the position it moved to, as `sk`
/// read it, and the file's position is that number afterwards.
pub proof fn law_seek_answer(pre: FileSystem, post: FileSystem, args: Seq<Seq<char>>, out: Seq<char>)
    requires
        seek_cmd_post(pre, post, args, out),
        out != error_text(),
    ensures
        args.len() == 2,
        parse_usize_spec(args[0]) is Some,
        parse_usize_spec(args[1]) is Some,
        parse_usize_spec(words_of(out).last()) == parse_usize_spec(args[1]),
        post.pos(parse_usize_spec(args[0])->0 as int) == parse_usize_spec(args[1])->0,
{
    let pos = parse_usize_spec(args[1])->0;
    lemma_number_last(seq!['p', 'o', 's', 'i', 't', 'i', 'o', 'n', ' ', 'i', 's', ' '], pos as nat);
    law_decimal_reads_back(pos);
}

/// When `rd` or `wr` succeeds, its answer starts with the number of bytes
/// moved, which is how far the file's position moved, and ends with the entry
/// of the open file table, as the command read it.
pub proof fn law_transfer_answer(pre: FileSystem, post: FileSystem, args: Seq<Seq<char>>, out: Seq<char>, reading: bool)
    requires
        transfer_cmd_post(pre, post, args, out, reading),
        out != error_text(),
    ensures
        args.len() == 3,
        parse_usize_spec(args[0]) is Some,
        parse_usize_spec(args[1]) is Some,
        parse_usize_spec(args[2]) is Some,
        parse_usize_spec(words_of(out).last()) == parse_usize_spec(args[0]),
        ({
            let index = parse_usize_spec(args[0])->0 as int;
            let n = parse_usize_spec(words_of(out)[0]);
            n is Some && post.pos(index) == pre.pos(index) + n->0
        }),
{
    let index = parse_usize_spec(args[0])->0;
    let mem_pos = parse_usize_spec(args[1])->0;
    let count = parse_usize_spec(args[2])->0;
    let r = choose|r: Result<usize, FsError>| (if reading {
        FileSystem::read_post(pre, post, index, mem_pos, count, r)
    } else {
        FileSystem::write_post(pre, post, index, mem_pos, count, r)
    }) && out == match r {
        Ok(n) => decimal(n as nat) + (if reading {
            seq![' ', 'b', 'y', 't', 'e', 's', ' ', 'r', 'e', 'a', 'd', ' ', 'f', 'r', 'o', 'm', ' ']
        } else {
            seq![' ', 'b', 'y', 't', 'e', 's', ' ', 'w', 'r', 'i', 't', 't', 'e', 'n', ' ', 't', 'o', ' ']
        }) + decimal(index as nat),
        Err(_) => error_text(),
    };
    let n = r->Ok_0;
    let middle = if reading {
        seq![' ', 'b', 'y', 't', 'e', 's', ' ', 'r', 'e', 'a', 'd', ' ', 'f', 'r', 'o', 'm', ' ']
    } else {
        seq![' ', 'b', 'y', 't', 'e', 's', ' ', 'w', 'r', 'i', 't', 't', 'e', 'n', ' ', 't', 'o', ' ']
    };
    let t = decimal(n as nat) + middle;
    assert(t.last() == ' ');
    lemma_number_last(t, index as nat);
    law_decimal_reads_back(index);
    assert(out =~= decimal(n as nat) + (middle + decimal(index as nat)));
    lemma_number_first(n as nat, middle + decimal(index as nat));
    law_decimal_reads_back(n);
}

/// When `wm` succeeds, its answer starts with the number of bytes written:
/// as many bytes of the text (its words joined by single spaces) as fit from
/// the position to the end of the memory, and the memory then holds them there.
pub proof fn law_write_memory_answer(pre: FileSystem, post: FileSystem, args: Seq<Seq<char>>, out: Seq<char>)
    requires
        write_memory_cmd_post(pre, post, args, out),
        out != error_text(),
    ensures
        args.len() >= 2,
        parse_usize_spec(args[0]) is Some,
        ({
            let mem_pos = parse_usize_spec(args[0])->0 as int;
            let data = vstd::utf8::encode_utf8(join_spaces(args.drop_first()));
            let n = parse_usize_spec(words_of(out)[0]);
            &&& n is Some
            &&& n->0 == min(data.len() as int, BLOCK_SIZE - mem_pos)
            &&& post.mem().subrange(mem_pos, mem_pos + n->0) == data.subrange(0, n->0 as int)
        }),
{
    let mem_pos = parse_usize_spec(args[0])->0;
    let data = vstd::utf8::encode_utf8(join_spaces(args.drop_first()));
    let r = choose|r: Result<usize, FsError>| FileSystem::write_memory_post(pre, post, mem_pos, data, r) && out == match r {
        Ok(n) => decimal(n as nat) + seq![' ', 'b', 'y', 't', 'e', 's', ' ', 'w', 'r', 'i', 't', 't', 'e', 'n', ' ', 't', 'o', ' ', 'M'],
        Err(_) => error_text(),
    };
    let n = r->Ok_0;
    lemma_number_first(n as nat, seq![' ', 'b', 'y', 't', 'e', 's', ' ', 'w', 'r', 'i', 't', 't', 'e', 'n', ' ', 't', 'o', ' ', 'M']);
    law_decimal_reads_back(n);
    assert(post.mem().subrange(mem_pos as int, mem_pos + n) =~= data.subrange(0, n as int));
}

/// Reading the `dr` answer back gives the listing of the state it ran on: when
/// the names are words, the answer splits into each file's name and size in
/// directory order, and each size reads back as that file's size.
pub proof fn law_directory_answer(pre: FileSystem, post: FileSystem, out: Seq<char>)
    requires
        directory_cmd_post(pre, post, out),
        forall|k: int| 0 <= k < pre.listing().len() ==> #[trigger] word_ok(pre.listing()[k].0),
        forall|k: int| 0 <= k < pre.listing().len() ==> 0 <= #[trigger] pre.listing()[k].1 <= usize::MAX,
    ensures
        words_of(out).len() == 2 * pre.listing().len(),
        forall|k: int| 0 <= k < pre.listing().len() ==> #[trigger] words_of(out)[2 * k] == pre.listing()[k].0,
        forall|k: int| 0 <= k < pre.listing().len() ==> #[trigger] parse_usize_spec(words_of(out)[2 * k + 1]) == Some(
            pre.listing()[k].1 as usize,
        ),
{
    law_directory_answer_reads_back(pre.listing());
}

/// The `rm` answer shows the memory from the position on: as many characters
/// as bytes read (the count, or up to the end of the memory), each character's
/// code being the byte in that place, and the state stays as it was.
pub proof fn law_read_memory_answer(pre: FileSystem, post: FileSystem, args: Seq<Seq<char>>, out: Seq<char>)
    requires
        pre.mem().len() == BLOCK_SIZE,
        read_memory_cmd_post(pre, post, args, out),
        out != error_text(),
    ensures
        post == pre,
        args.len() == 2,
        parse_usize_spec(args[0]) is Some,
        parse_usize_spec(args[1]) is Some,
        ({
            let mem_pos = parse_usize_spec(args[0])->0 as int;
            let count = parse_usize_spec(args[1])->0 as int;
            &&& out.len() == min(count, BLOCK_SIZE - mem_pos)
            &&& forall|i: int| 0 <= i < out.len() ==> #[trigger] (out[i] as u32) == pre.mem()[mem_pos + i] as u32
        }),
{
    let mem_pos = parse_usize_spec(args[0])->0 as int;
    assert forall|i: int| 0 <= i < out.len() implies #[trigger] (out[i] as u32) == pre.mem()[mem_pos + i] as u32 by {
        let b = pre.mem()[mem_pos + i];
        assert(out[i] == byte_char(b));
        assert((b as char) as u32 == b as u32);
    }
}

} // verus!
