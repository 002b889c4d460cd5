//! What the commands' contracts fix: from one state, a command with the same
//! arguments gives one answer and one view of the file system (files,
//! directory, open files, memory and tables).
use vstd::prelude::*;
use crate::constants::{BLOCK_SIZE, NUM_BLOCKS, NUM_DESCRIPTORS, OFT_SIZE};
use crate::file_ops::FsError;
use crate::fs::FileSystem;
use crate::shell::{
    args_of, close_cmd_post, command_post, join_spaces, line_post, open_cmd_post, seek_cmd_post, transfer_cmd_post,
    write_memory_cmd_post,
};
use crate::text::{is_white_space, lemma_words_are_words, lemma_words_of_append, lemma_words_of_word, word_ok, words_of};

verus! {

/// A view that is `b`'s, and another that is `b`'s too, are the same view.
pub proof fn lemma_view_trans(a: FileSystem, b: FileSystem, c: FileSystem)
    requires
        a.same_view(b),
        c.same_view(b),
    ensures
        a.same_view(c),
{
    assert forall|j: int| 1 <= j < OFT_SIZE implies (#[trigger] a.is_open(j) == c.is_open(j) && (a.is_open(j)
        ==> a.open_desc(j) == c.open_desc(j) && a.pos(j) == c.pos(j))) by {
        assert(a.is_open(j) == b.is_open(j));
        assert(c.is_open(j) == b.is_open(j));
    }
    assert forall|i: int| 1 <= i < NUM_DESCRIPTORS implies #[trigger] a.content(i) == c.content(i) by {
        assert(a.content(i) == b.content(i));
        assert(c.content(i) == b.content(i));
    }
}

/// A state that differs from `pre` at most in the directory's cursor shows
/// `pre`'s view.
pub proof fn lemma_view_of_cursor_move(pre: FileSystem, post: FileSystem)
    requires
        post.same_but_directory_cursor(pre),
    ensures
        post.same_view(pre),
{
    assert forall|i: int| 0 <= i < NUM_DESCRIPTORS implies #[trigger] post.dsize(i) == pre.dsize(i) by {
        assert(post.cache(1 + i / 32) == pre.cache(1 + i / 32));
    }
    assert forall|i: int, k: int| 0 <= i < NUM_DESCRIPTORS && 0 <= k < 3 implies #[trigger] post.dblock(i, k) == pre.dblock(
        i,
        k,
    ) by {
        assert(post.cache(1 + i / 32) == pre.cache(1 + i / 32));
    }
}

/// The same tables byte for byte say the same.
pub proof fn lemma_same_tables_of_bytes(pre: FileSystem, post: FileSystem)
    requires
        post.tables_same_as(pre),
    ensures
        post.same_tables(pre),
{
    assert forall|i: int| 0 <= i < NUM_DESCRIPTORS implies #[trigger] post.dsize(i) == pre.dsize(i) by {
        assert(post.cache(1 + i / 32) == pre.cache(1 + i / 32));
    }
    assert forall|i: int, k: int| 0 <= i < NUM_DESCRIPTORS && 0 <= k < 3 implies #[trigger] post.dblock(i, k) == pre.dblock(
        i,
        k,
    ) by {
        assert(post.cache(1 + i / 32) == pre.cache(1 + i / 32));
    }
}

/// Two states that gave descriptor `d` the lowest free blocks since `pre`, and
/// filled the same slots below `upto`, gave the same blocks there.
proof fn lemma_same_given_blocks(pre: FileSystem, a: FileSystem, b: FileSystem, d: int, upto: int)
    requires
        a.wf(),
        b.wf(),
        0 <= d < NUM_DESCRIPTORS,
        0 <= upto <= 3,
        a.blocks_grown(pre, d),
        b.blocks_grown(pre, d),
        a.lowest_free_given(pre, d),
        b.lowest_free_given(pre, d),
        forall|k: int| 0 <= k < upto ==> (#[trigger] a.dblock(d, k) != pre.dblock(d, k)) == (b.dblock(d, k) != pre.dblock(d, k)),
    ensures
        forall|k: int| 0 <= k < upto ==> #[trigger] a.dblock(d, k) == b.dblock(d, k),
    decreases upto,
{
    if upto > 0 {
        lemma_same_given_blocks(pre, a, b, d, upto - 1);
        let k = upto - 1;
        assert(a.dblock(d, k) != pre.dblock(d, k) <==> b.dblock(d, k) != pre.dblock(d, k));
        if a.dblock(d, k) != pre.dblock(d, k) {
            let x = a.dblock(d, k);
            let y = b.dblock(d, k);
            assert(pre.dblock(d, k) == 0);
            assert(a.block_ok(d, k));
            assert(b.block_ok(d, k));
            if x < y {
                assert(pre.occupied(x) || (0 < k && pre.dblock(d, 0) == 0 && b.dblock(d, 0) == x) || (1 < k && pre.dblock(
                    d,
                    1,
                ) == 0 && b.dblock(d, 1) == x));
                if 0 < k && b.dblock(d, 0) == x {
                    assert(a.dblock(d, 0) == b.dblock(d, 0));
                    assert(a.dblock(d, 0) != a.dblock(d, k));
                }
                if 1 < k && b.dblock(d, 1) == x {
                    assert(a.dblock(d, 1) == b.dblock(d, 1));
                    assert(a.dblock(d, 1) != a.dblock(d, k));
                }
            } else if y < x {
                assert(pre.occupied(y) || (0 < k && pre.dblock(d, 0) == 0 && a.dblock(d, 0) == y) || (1 < k && pre.dblock(
                    d,
                    1,
                ) == 0 && a.dblock(d, 1) == y));
                if 0 < k && a.dblock(d, 0) == y {
                    assert(a.dblock(d, 0) == b.dblock(d, 0));
                    assert(b.dblock(d, 0) != b.dblock(d, k));
                }
                if 1 < k && a.dblock(d, 1) == y {
                    assert(a.dblock(d, 1) == b.dblock(d, 1));
                    assert(b.dblock(d, 1) != b.dblock(d, k));
                }
            }
        }
    }
}

/// Two states grown from `pre` for descriptor `d` with the same size of `d`
/// have the same tables.
proof fn lemma_same_growth(pre: FileSystem, a: FileSystem, b: FileSystem, d: int)
    requires
        pre.wf(),
        a.wf(),
        b.wf(),
        0 <= d < NUM_DESCRIPTORS,
        a.blocks_grown(pre, d),
        b.blocks_grown(pre, d),
        a.lowest_free_given(pre, d),
        b.lowest_free_given(pre, d),
        a.bitmap_grown(pre, d),
        b.bitmap_grown(pre, d),
        a.dsize(d) == b.dsize(d),
        forall|i: int| 0 <= i < NUM_DESCRIPTORS && i != d ==> #[trigger] a.dsize(i) == b.dsize(i),
    ensures
        a.same_tables(b),
{
    assert forall|k: int| 0 <= k < 3 implies (#[trigger] a.dblock(d, k) != pre.dblock(d, k)) == (b.dblock(d, k) != pre.dblock(
        d,
        k,
    )) by {
        assert(a.block_ok(d, k));
        assert(b.block_ok(d, k));
    }
    lemma_same_given_blocks(pre, a, b, d, 3);
    assert(a.dblock(d, 0) == b.dblock(d, 0));
    assert(a.dblock(d, 1) == b.dblock(d, 1));
    assert(a.dblock(d, 2) == b.dblock(d, 2));
    assert forall|c: int| 0 <= c < 8 * BLOCK_SIZE implies #[trigger] a.occupied(c) == b.occupied(c) by {
        assert(a.occupied(c) == (pre.occupied(c) || a.newly_given(pre, d, c)));
        assert(b.occupied(c) == (pre.occupied(c) || b.newly_given(pre, d, c)));
    }
    assert forall|i: int, k: int| 0 <= i < NUM_DESCRIPTORS && 0 <= k < 3 implies #[trigger] a.dblock(i, k) == b.dblock(i, k) by {
        if i != d {
            assert(a.dblock(i, k) == pre.dblock(i, k));
            assert(b.dblock(i, k) == pre.dblock(i, k));
        }
    }
}

/// Of two writes that follow the contract from one state, the second writes no
/// more than the first: when a write stops short, no block was left for more.
proof fn lemma_write_count_unique(
    pre: FileSystem,
    a: FileSystem,
    b: FileSystem,
    index: usize,
    mem_pos: usize,
    count: usize,
    n1: usize,
    n2: usize,
)
    requires
        pre.wf(),
        a.wf(),
        b.wf(),
        FileSystem::write_post(pre, a, index, mem_pos, count, Ok(n1)),
        FileSystem::write_post(pre, b, index, mem_pos, count, Ok(n2)),
    ensures
        n2 <= n1,
{
    if n1 < n2 {
        lemma_write_stops_only_when_full(pre, a, b, index, mem_pos, count, n1, n2);
    }
}

/// The reason behind `lemma_write_count_unique`, for a first write shorter than the second.
proof fn lemma_write_stops_only_when_full(
    pre: FileSystem,
    a: FileSystem,
    b: FileSystem,
    index: usize,
    mem_pos: usize,
    count: usize,
    n1: usize,
    n2: usize,
)
    requires
        pre.wf(),
        a.wf(),
        b.wf(),
        FileSystem::write_post(pre, a, index, mem_pos, count, Ok(n1)),
        FileSystem::write_post(pre, b, index, mem_pos, count, Ok(n2)),
        n1 < n2,
    ensures
        n2 <= n1,
{
    let j = index as int;
    let d = pre.open_desc(j);
    let p = pre.pos(j);
    pre.lemma_mem();
    assert(pre.entry_ok(j));
    assert(pre.desc_ok(d));
    let q = (p + n1) / BLOCK_SIZE as int;
    assert(0 <= q < 3);
    assert(pre.dblock(d, q) == 0) by {
        assert(a.dblock(d, q) == 0);
    }
    assert(pre.dsize(d) <= q * BLOCK_SIZE) by {
        assert(pre.block_ok(d, q));
    }
    assert(a.dsize(d) == q * BLOCK_SIZE);
    assert(b.dsize(d) >= p + n2);
    assert(b.block_ok(d, q));
    let y = b.dblock(d, q);
    assert(y != 0);
    assert forall|k: int| 0 <= k < q implies (#[trigger] a.dblock(d, k) != pre.dblock(d, k)) == (b.dblock(d, k) != pre.dblock(
        d,
        k,
    )) by {
        assert(a.block_ok(d, k));
        assert(b.block_ok(d, k));
    }
    lemma_same_given_blocks(pre, a, b, d, q);
    assert(!pre.occupied(y));
    assert(a.occupied(y)) by {
        if !a.occupied(y) {
            assert(a.has_free_block());
        }
    }
    assert(a.occupied(y) == (pre.occupied(y) || a.newly_given(pre, d, y)));
    if pre.dblock(d, 0) == 0 && a.dblock(d, 0) == y {
        assert(b.dblock(d, 0) == y);
        assert(b.dblock(d, 0) != b.dblock(d, q));
    } else if pre.dblock(d, 1) == 0 && a.dblock(d, 1) == y {
        assert(b.dblock(d, 1) == y);
        assert(b.dblock(d, 1) != b.dblock(d, q));
    } else {
        assert(pre.dblock(d, 2) == 0 && a.dblock(d, 2) == y);
        assert(b.dblock(d, 2) == y);
        assert(b.dblock(d, 2) != b.dblock(d, q));
    }
}

/// From one state, `write` with the same arguments gives one result and one view.
pub proof fn law_write_determined(
    pre: FileSystem,
    a: FileSystem,
    b: FileSystem,
    index: usize,
    mem_pos: usize,
    count: usize,
    r1: Result<usize, FsError>,
    r2: Result<usize, FsError>,
)
    requires
        pre.wf(),
        a.wf(),
        b.wf(),
        FileSystem::write_post(pre, a, index, mem_pos, count, r1),
        FileSystem::write_post(pre, b, index, mem_pos, count, r2),
    ensures
        r1 == r2,
        a.same_view(b),
{
    if r1 is Ok {
        let n1 = r1->Ok_0;
        let n2 = r2->Ok_0;
        lemma_write_count_unique(pre, a, b, index, mem_pos, count, n1, n2);
        lemma_write_count_unique(pre, b, a, index, mem_pos, count, n2, n1);
        let d = pre.open_desc(index as int);
        assert(pre.entry_ok(index as int));
        assert(a.dsize(d) == b.dsize(d));
        lemma_same_growth(pre, a, b, d);
        assert forall|i: int| 1 <= i < NUM_DESCRIPTORS implies #[trigger] a.content(i) == b.content(i) by {
            if i != d {
                assert(a.content(i) == pre.content(i));
            }
        }
        assert forall|j: int| 1 <= j < OFT_SIZE implies (#[trigger] a.is_open(j) == b.is_open(j) && (a.is_open(j)
            ==> a.open_desc(j) == b.open_desc(j) && a.pos(j) == b.pos(j))) by {
            if j != index {
                assert(a.is_open(j) == pre.is_open(j));
                assert(b.is_open(j) == pre.is_open(j));
            }
        }
    }
}

/// From one state, `create(name)` gives one result and one view.
pub proof fn law_create_determined(
    pre: FileSystem,
    a: FileSystem,
    b: FileSystem,
    name: Seq<char>,
    r1: Result<(), FsError>,
    r2: Result<(), FsError>,
)
    requires
        pre.wf(),
        a.wf(),
        b.wf(),
        FileSystem::create_post(pre, a, name, r1),
        FileSystem::create_post(pre, b, name, r2),
    ensures
        r1 == r2,
        a.same_view(b),
{
    if r1 is Err {
        lemma_view_of_cursor_move(pre, a);
        lemma_view_of_cursor_move(pre, b);
        lemma_view_trans(a, pre, b);
    } else {
        let d = pre.first_free_descriptor();
        assert(a.desc_ok(0));
        assert(b.desc_ok(0));
        assert(a.dir() == b.dir());
        assert(a.dir().len() == a.dsize(0));
        assert(b.dir().len() == b.dsize(0));
        assert(a.dsize(0) == b.dsize(0));
        assert forall|i: int| 0 <= i < NUM_DESCRIPTORS && i != 0 implies #[trigger] a.dsize(i) == b.dsize(i) by {
            if i != d {
                assert(a.dsize(i) == pre.dsize(i));
                assert(b.dsize(i) == pre.dsize(i));
            }
        }
        lemma_same_growth(pre, a, b, 0);
        assert forall|i: int| 1 <= i < NUM_DESCRIPTORS implies #[trigger] a.content(i) == b.content(i) by {
            if i != d {
                assert(a.content(i) == pre.content(i));
                assert(b.content(i) == pre.content(i));
            }
        }
        assert forall|j: int| 1 <= j < OFT_SIZE implies (#[trigger] a.is_open(j) == b.is_open(j) && (a.is_open(j)
            ==> a.open_desc(j) == b.open_desc(j) && a.pos(j) == b.pos(j))) by {
            assert(a.is_open(j) == pre.is_open(j));
            assert(b.is_open(j) == pre.is_open(j));
        }
    }
}

/// From one state, `destroy(name)` gives one result and one view.
pub proof fn law_destroy_determined(
    pre: FileSystem,
    a: FileSystem,
    b: FileSystem,
    name: Seq<char>,
    r1: Result<(), FsError>,
    r2: Result<(), FsError>,
)
    requires
        pre.wf(),
        a.wf(),
        b.wf(),
        FileSystem::destroy_post(pre, a, name, r1),
        FileSystem::destroy_post(pre, b, name, r2),
    ensures
        r1 == r2,
        a.same_view(b),
{
    if r1 is Err {
        lemma_view_of_cursor_move(pre, a);
        lemma_view_of_cursor_move(pre, b);
        lemma_view_trans(a, pre, b);
    } else {
        assert(a.desc_ok(0));
        assert(b.desc_ok(0));
        assert(a.dir() == b.dir());
        assert(a.dir().len() == a.dsize(0));
        assert(b.dir().len() == b.dsize(0));
        assert(a.dsize(0) == b.dsize(0));
        assert forall|i: int| 1 <= i < NUM_DESCRIPTORS implies #[trigger] a.content(i) == b.content(i) by {
            assert(a.content(i) =~= b.content(i));
        }
        assert forall|j: int| 1 <= j < OFT_SIZE implies (#[trigger] a.is_open(j) == b.is_open(j) && (a.is_open(j)
            ==> a.open_desc(j) == b.open_desc(j) && a.pos(j) == b.pos(j))) by {
            assert(a.is_open(j) == pre.is_open(j));
            assert(b.is_open(j) == pre.is_open(j));
        }
    }
}

/// From one state, `open(name)` gives one result and one view.
pub proof fn law_open_determined(
    pre: FileSystem,
    a: FileSystem,
    b: FileSystem,
    name: Seq<char>,
    r1: Result<usize, FsError>,
    r2: Result<usize, FsError>,
)
    requires
        FileSystem::open_post(pre, a, name, r1),
        FileSystem::open_post(pre, b, name, r2),
    ensures
        r1 == r2,
        a.same_view(b),
{
    if r1 is Err {
        lemma_view_of_cursor_move(pre, a);
        lemma_view_of_cursor_move(pre, b);
        lemma_view_trans(a, pre, b);
    } else {
        let j1 = r1->Ok_0 as int;
        let j2 = r2->Ok_0 as int;
        if j1 < j2 {
            assert(pre.is_open(j1));
        } else if j2 < j1 {
            assert(pre.is_open(j2));
        }
        lemma_same_tables_of_bytes(pre, a);
        lemma_same_tables_of_bytes(pre, b);
        assert forall|j: int| 1 <= j < OFT_SIZE implies (#[trigger] a.is_open(j) == b.is_open(j) && (a.is_open(j)
            ==> a.open_desc(j) == b.open_desc(j) && a.pos(j) == b.pos(j))) by {
            if j != j1 {
                assert(a.entry(j) == pre.entry(j));
                assert(b.entry(j) == pre.entry(j));
            }
        }
        assert forall|i: int| 1 <= i < NUM_DESCRIPTORS implies #[trigger] a.content(i) == b.content(i) by {
            assert(a.content(i) == pre.content(i));
            assert(b.content(i) == pre.content(i));
        }
    }
}

/// From one state, `close(index)` gives one result and one view.
pub proof fn law_close_determined(
    pre: FileSystem,
    a: FileSystem,
    b: FileSystem,
    index: usize,
    r1: Result<(), FsError>,
    r2: Result<(), FsError>,
)
    requires
        FileSystem::close_post(pre, a, index, r1),
        FileSystem::close_post(pre, b, index, r2),
    ensures
        r1 == r2,
        a.same_view(b),
{
    if r1 is Ok {
        lemma_same_tables_of_bytes(pre, a);
        lemma_same_tables_of_bytes(pre, b);
        assert forall|j: int| 1 <= j < OFT_SIZE implies (#[trigger] a.is_open(j) == b.is_open(j) && (a.is_open(j)
            ==> a.open_desc(j) == b.open_desc(j) && a.pos(j) == b.pos(j))) by {
            if j != index {
                assert(a.is_open(j) == pre.is_open(j));
                assert(b.is_open(j) == pre.is_open(j));
            }
        }
        assert forall|i: int| 1 <= i < NUM_DESCRIPTORS implies #[trigger] a.content(i) == b.content(i) by {
            assert(a.content(i) == pre.content(i));
            assert(b.content(i) == pre.content(i));
        }
    }
}

/// From one state, `seek(index, pos)` gives one result and one view.
pub proof fn law_seek_determined(
    pre: FileSystem,
    a: FileSystem,
    b: FileSystem,
    index: usize,
    pos: usize,
    r1: Result<(), FsError>,
    r2: Result<(), FsError>,
)
    requires
        FileSystem::seek_post(pre, a, index, pos, r1),
        FileSystem::seek_post(pre, b, index, pos, r2),
    ensures
        r1 == r2,
        a.same_view(b),
{
    if r1 is Ok {
        lemma_same_tables_of_bytes(pre, a);
        lemma_same_tables_of_bytes(pre, b);
        assert forall|j: int| 1 <= j < OFT_SIZE implies (#[trigger] a.is_open(j) == b.is_open(j) && (a.is_open(j)
            ==> a.open_desc(j) == b.open_desc(j) && a.pos(j) == b.pos(j))) by {
            if j != index {
                assert(a.is_open(j) == pre.is_open(j));
                assert(b.is_open(j) == pre.is_open(j));
            }
        }
        assert forall|i: int| 1 <= i < NUM_DESCRIPTORS implies #[trigger] a.content(i) == b.content(i) by {
            assert(a.content(i) == pre.content(i));
            assert(b.content(i) == pre.content(i));
        }
    }
}

/// From one state, `read(index, mem_pos, count)` gives one result and one view.
pub proof fn law_read_determined(
    pre: FileSystem,
    a: FileSystem,
    b: FileSystem,
    index: usize,
    mem_pos: usize,
    count: usize,
    r1: Result<usize, FsError>,
    r2: Result<usize, FsError>,
)
    requires
        FileSystem::read_post(pre, a, index, mem_pos, count, r1),
        FileSystem::read_post(pre, b, index, mem_pos, count, r2),
    ensures
        r1 == r2,
        a.same_view(b),
{
    if r1 is Ok {
        lemma_same_tables_of_bytes(pre, a);
        lemma_same_tables_of_bytes(pre, b);
        assert forall|j: int| 1 <= j < OFT_SIZE implies (#[trigger] a.is_open(j) == b.is_open(j) && (a.is_open(j)
            ==> a.open_desc(j) == b.open_desc(j) && a.pos(j) == b.pos(j))) by {
            if j != index {
                assert(a.is_open(j) == pre.is_open(j));
                assert(b.is_open(j) == pre.is_open(j));
            }
        }
        assert forall|i: int| 1 <= i < NUM_DESCRIPTORS implies #[trigger] a.content(i) == b.content(i) by {
            assert(a.content(i) == pre.content(i));
            assert(b.content(i) == pre.content(i));
        }
    }
}

/// From one state, `write_memory(mem_pos, data)` gives one result and one
/// state, equal in every field.
pub proof fn law_write_memory_determined(
    pre: FileSystem,
    a: FileSystem,
    b: FileSystem,
    mem_pos: usize,
    data: Seq<u8>,
    r1: Result<usize, FsError>,
    r2: Result<usize, FsError>,
)
    requires
        FileSystem::write_memory_post(pre, a, mem_pos, data, r1),
        FileSystem::write_memory_post(pre, b, mem_pos, data, r2),
    ensures
        r1 == r2,
        a == b,
{
    if r1 is Ok {
        assert forall|x: int| 0 <= x < NUM_BLOCKS implies #[trigger] a.disk_block(x) == b.disk_block(x) by {
            assert(a.disk_block(x) == pre.disk_block(x));
            assert(b.disk_block(x) == pre.disk_block(x));
        }
        assert forall|x: int| 0 <= x < 7 implies #[trigger] a.cache(x) == b.cache(x) by {
            assert(a.cache(x) == pre.cache(x));
            assert(b.cache(x) == pre.cache(x));
        }
        assert forall|j: int| 0 <= j < OFT_SIZE implies #[trigger] a.entry(j) == b.entry(j) by {
            assert(a.entry(j) == pre.entry(j));
            assert(b.entry(j) == pre.entry(j));
        }
        FileSystem::lemma_same_but_memory_ext(a, b);
    }
}

/// `wm` whose text words are joined by single spaces into one word does what
/// `wm` with the words does: the same answer and the same state.
pub proof fn law_write_memory_joined_words(
    pre: FileSystem,
    a: FileSystem,
    b: FileSystem,
    args: Seq<Seq<char>>,
    out1: Seq<char>,
    out2: Seq<char>,
)
    requires
        args.len() >= 2,
        write_memory_cmd_post(pre, a, args, out1),
        write_memory_cmd_post(pre, b, seq![args[0], join_spaces(args.drop_first())], out2),
    ensures
        out1 == out2,
        a == b,
{
    let joined = seq![args[0], join_spaces(args.drop_first())];
    assert(joined.drop_first() =~= seq![join_spaces(args.drop_first())]);
    assert(join_spaces(joined.drop_first()) == join_spaces(args.drop_first()));
    if crate::text::parse_usize_spec(args[0]) is Some {
        let mem_pos = crate::text::parse_usize_spec(args[0])->0;
        let data = vstd::utf8::encode_utf8(join_spaces(args.drop_first()));
        let r1 = choose|r: Result<usize, FsError>|
            FileSystem::write_memory_post(pre, a, mem_pos, data, r) && out1 == match r {
                Ok(n) => crate::text::decimal(n as nat) + seq![' ', 'b', 'y', 't', 'e', 's', ' ', 'w', 'r', 'i', 't', 't', 'e', 'n', ' ', 't', 'o', ' ', 'M'],
                Err(_) => crate::shell::error_text(),
            };
        let r2 = choose|r: Result<usize, FsError>|
            FileSystem::write_memory_post(pre, b, mem_pos, data, r) && out2 == match r {
                Ok(n) => crate::text::decimal(n as nat) + seq![' ', 'b', 'y', 't', 'e', 's', ' ', 'w', 'r', 'i', 't', 't', 'e', 'n', ' ', 't', 'o', ' ', 'M'],
                Err(_) => crate::shell::error_text(),
            };
        law_write_memory_determined(pre, a, b, mem_pos, data, r1, r2);
    }
}

/// What one command does from one state is one answer and one view.
proof fn lemma_command_determined(
    pre: FileSystem,
    a: FileSystem,
    b: FileSystem,
    words: Seq<Seq<char>>,
    out1: Seq<char>,
    out2: Seq<char>,
)
    requires
        pre.wf(),
        a.wf(),
        b.wf(),
        words.len() > 0,
        command_post(pre, a, words, out1),
        command_post(pre, b, words, out2),
    ensures
        out1 == out2,
        a.same_view(b),
{
    let cmd = words[0];
    let args = args_of(words);
    if cmd == seq!['i', 'n'] {
        FileSystem::law_initial_state_unique(a, b);
        lemma_view_refl(a);
    } else if cmd == seq!['c', 'r'] {
        if args.len() == 1 {
            let r1 = choose|r: Result<(), FsError>| FileSystem::create_post(pre, a, args[0], r) && out1 == if r is Ok {
                args[0] + seq![' ', 'c', 'r', 'e', 'a', 't', 'e', 'd']
            } else {
                crate::shell::error_text()
            };
            let r2 = choose|r: Result<(), FsError>| FileSystem::create_post(pre, b, args[0], r) && out2 == if r is Ok {
                args[0] + seq![' ', 'c', 'r', 'e', 'a', 't', 'e', 'd']
            } else {
                crate::shell::error_text()
            };
            law_create_determined(pre, a, b, args[0], r1, r2);
        } else {
            lemma_view_refl(a);
        }
    } else if cmd == seq!['d', 'e'] {
        if args.len() == 1 {
            let r1 = choose|r: Result<(), FsError>| FileSystem::destroy_post(pre, a, args[0], r) && out1 == if r is Ok {
                args[0] + seq![' ', 'd', 'e', 's', 't', 'r', 'o', 'y', 'e', 'd']
            } else {
                crate::shell::error_text()
            };
            let r2 = choose|r: Result<(), FsError>| FileSystem::destroy_post(pre, b, args[0], r) && out2 == if r is Ok {
                args[0] + seq![' ', 'd', 'e', 's', 't', 'r', 'o', 'y', 'e', 'd']
            } else {
                crate::shell::error_text()
            };
            law_destroy_determined(pre, a, b, args[0], r1, r2);
        } else {
            lemma_view_refl(a);
        }
    } else if cmd == seq!['o', 'p'] {
        lemma_open_command(pre, a, b, args, out1, out2);
    } else if cmd == seq!['c', 'l'] {
        lemma_close_command(pre, a, b, args, out1, out2);
    } else if cmd == seq!['r', 'd'] {
        lemma_transfer_command(pre, a, b, args, out1, out2, true);
    } else if cmd == seq!['w', 'r'] {
        lemma_transfer_command(pre, a, b, args, out1, out2, false);
    } else if cmd == seq!['s', 'k'] {
        lemma_seek_command(pre, a, b, args, out1, out2);
    } else if cmd == seq!['d', 'r'] {
        lemma_view_of_cursor_move(pre, a);
        lemma_view_of_cursor_move(pre, b);
        lemma_view_trans(a, pre, b);
    } else if cmd == seq!['r', 'm'] {
        lemma_view_refl(a);
    } else if cmd == seq!['w', 'm'] {
        if args.len() >= 2 && crate::text::parse_usize_spec(args[0]) is Some {
            let mem_pos = crate::text::parse_usize_spec(args[0])->0;
            let data = vstd::utf8::encode_utf8(join_spaces(args.drop_first()));
            let r1 = choose|r: Result<usize, FsError>|
                FileSystem::write_memory_post(pre, a, mem_pos, data, r) && out1 == match r {
                    Ok(n) => crate::text::decimal(n as nat) + seq![' ', 'b', 'y', 't', 'e', 's', ' ', 'w', 'r', 'i', 't', 't', 'e', 'n', ' ', 't', 'o', ' ', 'M'],
                    Err(_) => crate::shell::error_text(),
                };
            let r2 = choose|r: Result<usize, FsError>|
                FileSystem::write_memory_post(pre, b, mem_pos, data, r) && out2 == match r {
                    Ok(n) => crate::text::decimal(n as nat) + seq![' ', 'b', 'y', 't', 'e', 's', ' ', 'w', 'r', 'i', 't', 't', 'e', 'n', ' ', 't', 'o', ' ', 'M'],
                    Err(_) => crate::shell::error_text(),
                };
            law_write_memory_determined(pre, a, b, mem_pos, data, r1, r2);
        }
        lemma_view_refl(a);
    } else {
        lemma_view_refl(a);
    }
}

/// Every state shows its own view.
proof fn lemma_view_refl(a: FileSystem)
    ensures
        a.same_view(a),
{
}

/// `op` from one state gives one answer and one view.
proof fn lemma_open_command(pre: FileSystem, a: FileSystem, b: FileSystem, args: Seq<Seq<char>>, out1: Seq<char>, out2: Seq<char>)
    requires
        open_cmd_post(pre, a, args, out1),
        open_cmd_post(pre, b, args, out2),
    ensures
        out1 == out2,
        a.same_view(b),
{
    if args.len() == 1 {
        let r1 = choose|r: Result<usize, FsError>| FileSystem::open_post(pre, a, args[0], r) && out1 == match r {
            Ok(j) => args[0] + seq![' ', 'o', 'p', 'e', 'n', 'e', 'd', ' '] + crate::text::decimal(j as nat),
            Err(_) => crate::shell::error_text(),
        };
        let r2 = choose|r: Result<usize, FsError>| FileSystem::open_post(pre, b, args[0], r) && out2 == match r {
            Ok(j) => args[0] + seq![' ', 'o', 'p', 'e', 'n', 'e', 'd', ' '] + crate::text::decimal(j as nat),
            Err(_) => crate::shell::error_text(),
        };
        law_open_determined(pre, a, b, args[0], r1, r2);
    } else {
        lemma_view_refl(a);
    }
}

/// `cl` from one state gives one answer and one view.
proof fn lemma_close_command(pre: FileSystem, a: FileSystem, b: FileSystem, args: Seq<Seq<char>>, out1: Seq<char>, out2: Seq<char>)
    requires
        close_cmd_post(pre, a, args, out1),
        close_cmd_post(pre, b, args, out2),
    ensures
        out1 == out2,
        a.same_view(b),
{
    if args.len() == 1 && crate::text::parse_usize_spec(args[0]) is Some {
        let index = crate::text::parse_usize_spec(args[0])->0;
        let r1 = choose|r: Result<(), FsError>| FileSystem::close_post(pre, a, index, r) && out1 == if r is Ok {
            crate::text::decimal(index as nat) + seq![' ', 'c', 'l', 'o', 's', 'e', 'd']
        } else {
            crate::shell::error_text()
        };
        let r2 = choose|r: Result<(), FsError>| FileSystem::close_post(pre, b, index, r) && out2 == if r is Ok {
            crate::text::decimal(index as nat) + seq![' ', 'c', 'l', 'o', 's', 'e', 'd']
        } else {
            crate::shell::error_text()
        };
        law_close_determined(pre, a, b, index, r1, r2);
    } else {
        lemma_view_refl(a);
    }
}

/// `sk` from one state gives one answer and one view.
proof fn lemma_seek_command(pre: FileSystem, a: FileSystem, b: FileSystem, args: Seq<Seq<char>>, out1: Seq<char>, out2: Seq<char>)
    requires
        seek_cmd_post(pre, a, args, out1),
        seek_cmd_post(pre, b, args, out2),
    ensures
        out1 == out2,
        a.same_view(b),
{
    if args.len() == 2 && crate::text::parse_usize_spec(args[0]) is Some && crate::text::parse_usize_spec(args[1]) is Some {
        let index = crate::text::parse_usize_spec(args[0])->0;
        let pos = crate::text::parse_usize_spec(args[1])->0;
        let r1 = choose|r: Result<(), FsError>| FileSystem::seek_post(pre, a, index, pos, r) && out1 == if r is Ok {
            seq!['p', 'o', 's', 'i', 't', 'i', 'o', 'n', ' ', 'i', 's', ' '] + crate::text::decimal(pos as nat)
        } else {
            crate::shell::error_text()
        };
        let r2 = choose|r: Result<(), FsError>| FileSystem::seek_post(pre, b, index, pos, r) && out2 == if r is Ok {
            seq!['p', 'o', 's', 'i', 't', 'i', 'o', 'n', ' ', 'i', 's', ' '] + crate::text::decimal(pos as nat)
        } else {
            crate::shell::error_text()
        };
        law_seek_determined(pre, a, b, index, pos, r1, r2);
    } else {
        lemma_view_refl(a);
    }
}

/// `rd` or `wr` from one state gives one answer and one view.
proof fn lemma_transfer_command(
    pre: FileSystem,
    a: FileSystem,
    b: FileSystem,
    args: Seq<Seq<char>>,
    out1: Seq<char>,
    out2: Seq<char>,
    reading: bool,
)
    requires
        pre.wf(),
        a.wf(),
        b.wf(),
        transfer_cmd_post(pre, a, args, out1, reading),
        transfer_cmd_post(pre, b, args, out2, reading),
    ensures
        out1 == out2,
        a.same_view(b),
{
    if args.len() == 3 && crate::text::parse_usize_spec(args[0]) is Some && crate::text::parse_usize_spec(args[1]) is Some
        && crate::text::parse_usize_spec(args[2]) is Some {
        let index = crate::text::parse_usize_spec(args[0])->0;
        let mem_pos = crate::text::parse_usize_spec(args[1])->0;
        let count = crate::text::parse_usize_spec(args[2])->0;
        let r1 = choose|r: Result<usize, FsError>| (if reading {
            FileSystem::read_post(pre, a, index, mem_pos, count, r)
        } else {
            FileSystem::write_post(pre, a, index, mem_pos, count, r)
        }) && out1 == match r {
            Ok(n) => crate::text::decimal(n as nat) + (if reading {
                seq![' ', 'b', 'y', 't', 'e', 's', ' ', 'r', 'e', 'a', 'd', ' ', 'f', 'r', 'o', 'm', ' ']
            } else {
                seq![' ', 'b', 'y', 't', 'e', 's', ' ', 'w', 'r', 'i', 't', 't', 'e', 'n', ' ', 't', 'o', ' ']
            }) + crate::text::decimal(index as nat),
            Err(_) => crate::shell::error_text(),
        };
        let r2 = choose|r: Result<usize, FsError>| (if reading {
            FileSystem::read_post(pre, b, index, mem_pos, count, r)
        } else {
            FileSystem::write_post(pre, b, index, mem_pos, count, r)
        }) && out2 == match r {
            Ok(n) => crate::text::decimal(n as nat) + (if reading {
                seq![' ', 'b', 'y', 't', 'e', 's', ' ', 'r', 'e', 'a', 'd', ' ', 'f', 'r', 'o', 'm', ' ']
            } else {
                seq![' ', 'b', 'y', 't', 'e', 's', ' ', 'w', 'r', 'i', 't', 't', 'e', 'n', ' ', 't', 'o', ' ']
            }) + crate::text::decimal(index as nat),
            Err(_) => crate::shell::error_text(),
        };
        if reading {
            law_read_determined(pre, a, b, index, mem_pos, count, r1, r2);
        } else {
            law_write_determined(pre, a, b, index, mem_pos, count, r1, r2);
        }
    } else {
        lemma_view_refl(a);
    }
}

/// Two command lines with the same words, run from one state, give the same
/// answer and leave the same view of the file system: runs of white space
/// between the words, and white space before or after them, change nothing.
pub proof fn law_same_words_same_result(
    pre: FileSystem,
    a: FileSystem,
    b: FileSystem,
    line1: Seq<char>,
    line2: Seq<char>,
    out1: Seq<char>,
    out2: Seq<char>,
)
    requires
        pre.wf(),
        words_of(line1) == words_of(line2),
        line_post(pre, a, line1, out1),
        line_post(pre, b, line2, out2),
    ensures
        out1 == out2,
        a.same_view(b),
{
    reveal(line_post);
    if words_of(line1).len() == 0 {
        lemma_view_refl(a);
    } else {
        lemma_command_determined(pre, a, b, words_of(line1), out1, out2);
    }
}

/// Words joined by single spaces split back into the same words.
proof fn lemma_words_of_joined(ws: Seq<Seq<char>>)
    requires
        forall|k: int| 0 <= k < ws.len() ==> #[trigger] word_ok(ws[k]),
    ensures
        words_of(join_spaces(ws)) == ws,
    decreases ws.len(),
{
    if ws.len() == 0 {
        assert(join_spaces(ws) == Seq::<char>::empty());
        assert(words_of(Seq::<char>::empty()) =~= ws);
    } else if ws.len() == 1 {
        assert(word_ok(ws[0]));
        lemma_words_of_word(ws[0]);
        assert(seq![ws[0]] =~= ws);
    } else {
        let front = ws.drop_last();
        assert forall|k: int| 0 <= k < front.len() implies #[trigger] word_ok(front[k]) by {
            assert(front[k] == ws[k]);
        }
        lemma_words_of_joined(front);
        let t = join_spaces(front) + seq![' '];
        assert(is_white_space(' '));
        assert(t.drop_last() =~= join_spaces(front));
        assert(words_of(t) == front);
        assert(word_ok(ws[ws.len() - 1]));
        lemma_words_of_append(t, ws.last());
        assert(join_spaces(ws) == t + ws.last());
        assert(front.push(ws.last()) =~= ws);
    }
}

/// A line and its words joined by single spaces have the same words, so they
/// give the same answer and leave the same view.
pub proof fn law_normalised_line(line: Seq<char>)
    ensures
        words_of(join_spaces(words_of(line))) == words_of(line),
{
    lemma_words_are_words(line);
    lemma_words_of_joined(words_of(line));
}

} // verus!
