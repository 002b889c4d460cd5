//! The command shell: one command per line, a two-letter command word and
//! its arguments separated by white space, one response per command.
use vstd::prelude::*;
use vstd::string::StringSliceAdditionalSpecFns;
use vstd::utf8::encode_utf8;
use crate::file_ops::FsError;
use crate::fs::FileSystem;
use crate::text::{
    append_chars, append_decimal, append_slice, append_str, chars_of, decimal, deep, parse_usize, parse_usize_spec,
    split_lines, split_words, string_of_chars, lines_of, words_of,
};

verus! {

/// The response to a failed command.
pub open spec fn error_text() -> Seq<char> {
    seq!['e', 'r', 'r', 'o', 'r']
}

/// The words after the command word.
pub open spec fn args_of(words: Seq<Seq<char>>) -> Seq<Seq<char>> {
    words.drop_first()
}

/// The arguments from `from` on, joined with single spaces.
pub open spec fn join_spaces(args: Seq<Seq<char>>) -> Seq<char>
    decreases args.len(),
{
    if args.len() == 0 {
        Seq::empty()
    } else if args.len() == 1 {
        args[0]
    } else {
        join_spaces(args.drop_last()) + seq![' '] + args.last()
    }
}

/// A listing as the `dr` command prints it: `name size` pairs separated by spaces.
pub open spec fn render_listing(items: Seq<(Seq<char>, int)>) -> Seq<char>
    decreases items.len(),
{
    if items.len() == 0 {
        Seq::empty()
    } else {
        let item = items.last();
        let text = item.0 + seq![' '] + decimal(item.1 as nat);
        if items.len() == 1 {
            text
        } else {
            render_listing(items.drop_last()) + seq![' '] + text
        }
    }
}

/// A command left everything as it was and answered `error`.
pub open spec fn rejected(pre: FileSystem, post: FileSystem, out: Seq<char>) -> bool {
    post == pre && out == error_text()
}

/// `in`: initialise.
pub open spec fn init_post(pre: FileSystem, post: FileSystem, out: Seq<char>) -> bool {
    post.wf() && post.is_initial() && out == seq!['s', 'y', 's', 't', 'e', 'm', ' ', 'i', 'n', 'i', 't', 'i', 'a', 'l', 'i', 'z', 'e', 'd']
}

/// `cr <name>`: create a file.
pub open spec fn create_cmd_post(pre: FileSystem, post: FileSystem, args: Seq<Seq<char>>, out: Seq<char>) -> bool {
    if args.len() != 1 {
        rejected(pre, post, out)
    } else {
        exists|r: Result<(), FsError>|
            FileSystem::create_post(pre, post, args[0], r) && out == if r is Ok {
                args[0] + seq![' ', 'c', 'r', 'e', 'a', 't', 'e', 'd']
            } else {
                error_text()
            }
    }
}

/// `de <name>`: destroy a file.
pub open spec fn destroy_cmd_post(pre: FileSystem, post: FileSystem, args: Seq<Seq<char>>, out: Seq<char>) -> bool {
    if args.len() != 1 {
        rejected(pre, post, out)
    } else {
        exists|r: Result<(), FsError>|
            FileSystem::destroy_post(pre, post, args[0], r) && out == if r is Ok {
                args[0] + seq![' ', 'd', 'e', 's', 't', 'r', 'o', 'y', 'e', 'd']
            } else {
                error_text()
            }
    }
}

/// `op <name>`: open a file.
pub open spec fn open_cmd_post(pre: FileSystem, post: FileSystem, args: Seq<Seq<char>>, out: Seq<char>) -> bool {
    if args.len() != 1 {
        rejected(pre, post, out)
    } else {
        exists|r: Result<usize, FsError>|
            FileSystem::open_post(pre, post, args[0], r) && out == match r {
                Ok(j) => args[0] + seq![' ', 'o', 'p', 'e', 'n', 'e', 'd', ' '] + decimal(j as nat),
                Err(_) => error_text(),
            }
    }
}

/// `cl <index>`: close a file.
pub open spec fn close_cmd_post(pre: FileSystem, post: FileSystem, args: Seq<Seq<char>>, out: Seq<char>) -> bool {
    if args.len() != 1 || parse_usize_spec(args[0]) is None {
        rejected(pre, post, out)
    } else {
        let index = parse_usize_spec(args[0])->0;
        exists|r: Result<(), FsError>|
            FileSystem::close_post(pre, post, index, r) && out == if r is Ok {
                decimal(index as nat) + seq![' ', 'c', 'l', 'o', 's', 'e', 'd']
            } else {
                error_text()
            }
    }
}

/// `rd <index> <mem_pos> <count>` (`reading`) or `wr <index> <mem_pos> <count>`:
/// read from a file into memory, or write from memory into a file.
pub open spec fn transfer_cmd_post(pre: FileSystem, post: FileSystem, args: Seq<Seq<char>>, out: Seq<char>, reading: bool) -> bool {
    if args.len() != 3 || parse_usize_spec(args[0]) is None || parse_usize_spec(args[1]) is None
        || parse_usize_spec(args[2]) is None {
        rejected(pre, post, out)
    } else {
        let index = parse_usize_spec(args[0])->0;
        let mem_pos = parse_usize_spec(args[1])->0;
        let count = parse_usize_spec(args[2])->0;
        exists|r: Result<usize, FsError>|
            (if reading {
                FileSystem::read_post(pre, post, index, mem_pos, count, r)
            } else {
                FileSystem::write_post(pre, post, index, mem_pos, count, r)
            }) && out == match r {
                Ok(n) => decimal(n as nat) + (if reading {
                    seq![' ', 'b', 'y', 't', 'e', 's', ' ', 'r', 'e', 'a', 'd', ' ', 'f', 'r', 'o', 'm', ' ']
                } else {
                    seq![' ', 'b', 'y', 't', 'e', 's', ' ', 'w', 'r', 'i', 't', 't', 'e', 'n', ' ', 't', 'o', ' ']
                }) + decimal(index as nat),
                Err(_) => error_text(),
            }
    }
}

/// `sk <index> <pos>`: move a file's position.
pub open spec fn seek_cmd_post(pre: FileSystem, post: FileSystem, args: Seq<Seq<char>>, out: Seq<char>) -> bool {
    if args.len() != 2 || parse_usize_spec(args[0]) is None || parse_usize_spec(args[1]) is None {
        rejected(pre, post, out)
    } else {
        let index = parse_usize_spec(args[0])->0;
        let pos = parse_usize_spec(args[1])->0;
        exists|r: Result<(), FsError>|
            FileSystem::seek_post(pre, post, index, pos, r) && out == if r is Ok {
                seq!['p', 'o', 's', 'i', 't', 'i', 'o', 'n', ' ', 'i', 's', ' '] + decimal(pos as nat)
            } else {
                error_text()
            }
    }
}

/// `dr`: list the files.
pub open spec fn directory_cmd_post(pre: FileSystem, post: FileSystem, out: Seq<char>) -> bool {
    post.wf() && post.same_but_directory_cursor(pre) && out == render_listing(pre.listing())
}

/// `rm <mem_pos> <count>`: show memory bytes as characters.
pub open spec fn read_memory_cmd_post(pre: FileSystem, post: FileSystem, args: Seq<Seq<char>>, out: Seq<char>) -> bool {
    if args.len() != 2 || parse_usize_spec(args[0]) is None || parse_usize_spec(args[1]) is None {
        rejected(pre, post, out)
    } else {
        let mem_pos = parse_usize_spec(args[0])->0;
        let count = parse_usize_spec(args[1])->0;
        post == pre && out == if mem_pos >= 512 {
            error_text()
        } else {
            crate::text::bytes_chars(pre.mem().subrange(mem_pos as int, mem_pos + vstd::math::min(count as int, 512 - mem_pos)))
        }
    }
}

/// `wm <mem_pos> <text...>`: write the rest of the line (words joined by
/// single spaces) into memory.
pub open spec fn write_memory_cmd_post(pre: FileSystem, post: FileSystem, args: Seq<Seq<char>>, out: Seq<char>) -> bool {
    if args.len() < 2 || parse_usize_spec(args[0]) is None {
        rejected(pre, post, out)
    } else {
        let mem_pos = parse_usize_spec(args[0])->0;
        exists|r: Result<usize, FsError>|
            FileSystem::write_memory_post(pre, post, mem_pos, encode_utf8(join_spaces(args.drop_first())), r)
                && out == match r {
                Ok(n) => decimal(n as nat) + seq![' ', 'b', 'y', 't', 'e', 's', ' ', 'w', 'r', 'i', 't', 't', 'e', 'n', ' ', 't', 'o', ' ', 'M'],
                Err(_) => error_text(),
            }
    }
}

/// What one command with words `words` (the command word first) does to the
/// file system and what it answers; an unknown command answers `error`.
pub open spec fn command_post(pre: FileSystem, post: FileSystem, words: Seq<Seq<char>>, out: Seq<char>) -> bool {
    let cmd = words[0];
    let args = args_of(words);
    if cmd == seq!['i', 'n'] {
        init_post(pre, post, out)
    } else if cmd == seq!['c', 'r'] {
        create_cmd_post(pre, post, args, out)
    } else if cmd == seq!['d', 'e'] {
        destroy_cmd_post(pre, post, args, out)
    } else if cmd == seq!['o', 'p'] {
        open_cmd_post(pre, post, args, out)
    } else if cmd == seq!['c', 'l'] {
        close_cmd_post(pre, post, args, out)
    } else if cmd == seq!['r', 'd'] {
        transfer_cmd_post(pre, post, args, out, true)
    } else if cmd == seq!['w', 'r'] {
        transfer_cmd_post(pre, post, args, out, false)
    } else if cmd == seq!['s', 'k'] {
        seek_cmd_post(pre, post, args, out)
    } else if cmd == seq!['d', 'r'] {
        directory_cmd_post(pre, post, out)
    } else if cmd == seq!['r', 'm'] {
        read_memory_cmd_post(pre, post, args, out)
    } else if cmd == seq!['w', 'm'] {
        write_memory_cmd_post(pre, post, args, out)
    } else {
        rejected(pre, post, out)
    }
}

/// What one input line does: a line with no words answers nothing and changes nothing.
#[verifier::opaque]
pub open spec fn line_post(pre: FileSystem, post: FileSystem, line: Seq<char>, out: Seq<char>) -> bool {
    let words = words_of(line);
    if words.len() == 0 {
        post == pre && out == Seq::<char>::empty()
    } else {
        post.wf() && command_post(pre, post, words, out)
    }
}

/// The answer `error`.
fn error_string() -> (s: String)
    ensures
        s@ == error_text(),
{
    let mut s = String::new();
    append_slice(&mut s, &['e', 'r', 'r', 'o', 'r']);
    proof {
        assert(s@ =~= error_text());
    }
    s
}

/// Whether the word `w` is the two-letter command `a b`.
fn is_command(w: &Vec<char>, a: char, b: char) -> (r: bool)
    ensures
        r == (w@ == seq![a, b]),
{
    let r = w.len() == 2 && w[0] == a && w[1] == b;
    proof {
        if r {
            assert(w@ =~= seq![a, b]);
        }
    }
    r
}

/// `in`: (re)initialises the file system.
fn cmd_init(fs: &mut FileSystem) -> (out: String)
    ensures
        init_post(*old(fs), *final(fs), out@),
{
    fs.init();
    let mut out = String::new();
    append_slice(&mut out, &['s', 'y', 's', 't', 'e', 'm', ' ', 'i', 'n', 'i', 't', 'i', 'a', 'l', 'i', 'z', 'e', 'd']);
    proof {
        assert(out@ =~= seq!['s', 'y', 's', 't', 'e', 'm', ' ', 'i', 'n', 'i', 't', 'i', 'a', 'l', 'i', 'z', 'e', 'd']);
    }
    out
}

/// `cr <name>`: creates a file.
fn cmd_create(fs: &mut FileSystem, words: &Vec<Vec<char>>) -> (out: String)
    requires
        old(fs).wf(),
        words@.len() >= 1,
    ensures
        final(fs).wf(),
        create_cmd_post(*old(fs), *final(fs), args_of(deep(words@)), out@),
{
    let ghost args = args_of(deep(words@));
    if words.len() != 2 {
        return error_string();
    }
    let name = string_of_chars(&words[1]);
    proof {
        assert(args[0] == words@[1]@);
    }
    let r = fs.create(name.as_str());
    match r {
        Ok(()) => {
            let mut out = string_of_chars(&words[1]);
            append_slice(&mut out, &[' ', 'c', 'r', 'e', 'a', 't', 'e', 'd']);
            proof {
                assert(out@ =~= args[0] + seq![' ', 'c', 'r', 'e', 'a', 't', 'e', 'd']);
            }
            out
        },
        Err(_) => error_string(),
    }
}

/// `de <name>`: destroys a file.
fn cmd_destroy(fs: &mut FileSystem, words: &Vec<Vec<char>>) -> (out: String)
    requires
        old(fs).wf(),
        words@.len() >= 1,
    ensures
        final(fs).wf(),
        destroy_cmd_post(*old(fs), *final(fs), args_of(deep(words@)), out@),
{
    let ghost args = args_of(deep(words@));
    if words.len() != 2 {
        return error_string();
    }
    let name = string_of_chars(&words[1]);
    proof {
        assert(args[0] == words@[1]@);
    }
    let r = fs.destroy(name.as_str());
    match r {
        Ok(()) => {
            let mut out = string_of_chars(&words[1]);
            append_slice(&mut out, &[' ', 'd', 'e', 's', 't', 'r', 'o', 'y', 'e', 'd']);
            proof {
                assert(out@ =~= args[0] + seq![' ', 'd', 'e', 's', 't', 'r', 'o', 'y', 'e', 'd']);
            }
            out
        },
        Err(_) => error_string(),
    }
}

/// `op <name>`: opens a file.
fn cmd_open(fs: &mut FileSystem, words: &Vec<Vec<char>>) -> (out: String)
    requires
        old(fs).wf(),
        words@.len() >= 1,
    ensures
        final(fs).wf(),
        open_cmd_post(*old(fs), *final(fs), args_of(deep(words@)), out@),
{
    let ghost args = args_of(deep(words@));
    if words.len() != 2 {
        return error_string();
    }
    let name = string_of_chars(&words[1]);
    proof {
        assert(args[0] == words@[1]@);
    }
    let r = fs.open(name.as_str());
    match r {
        Ok(j) => {
            let mut out = string_of_chars(&words[1]);
            append_slice(&mut out, &[' ', 'o', 'p', 'e', 'n', 'e', 'd', ' ']);
            append_decimal(&mut out, j);
            proof {
                assert(out@ =~= args[0] + seq![' ', 'o', 'p', 'e', 'n', 'e', 'd', ' '] + decimal(j as nat));
            }
            out
        },
        Err(_) => error_string(),
    }
}

/// `cl <index>`: closes a file.
fn cmd_close(fs: &mut FileSystem, words: &Vec<Vec<char>>) -> (out: String)
    requires
        old(fs).wf(),
        words@.len() >= 1,
    ensures
        final(fs).wf(),
        close_cmd_post(*old(fs), *final(fs), args_of(deep(words@)), out@),
{
    let ghost args = args_of(deep(words@));
    if words.len() != 2 {
        return error_string();
    }
    proof {
        assert(args[0] == words@[1]@);
    }
    let index = match parse_usize(&words[1]) {
        Some(n) => n,
        None => {
            return error_string();
        },
    };
    let r = fs.close(index);
    match r {
        Ok(()) => {
            let mut out = String::new();
            append_decimal(&mut out, index);
            append_slice(&mut out, &[' ', 'c', 'l', 'o', 's', 'e', 'd']);
            proof {
                assert(out@ =~= decimal(index as nat) + seq![' ', 'c', 'l', 'o', 's', 'e', 'd']);
            }
            out
        },
        Err(_) => error_string(),
    }
}

/// `rd <index> <mem_pos> <count>` when `reading`, else `wr <index> <mem_pos> <count>`.
fn cmd_transfer(fs: &mut FileSystem, words: &Vec<Vec<char>>, reading: bool) -> (out: String)
    requires
        old(fs).wf(),
        words@.len() >= 1,
    ensures
        final(fs).wf(),
        transfer_cmd_post(*old(fs), *final(fs), args_of(deep(words@)), out@, reading),
{
    let ghost args = args_of(deep(words@));
    if words.len() != 4 {
        return error_string();
    }
    proof {
        assert(args[0] == words@[1]@);
        assert(args[1] == words@[2]@);
        assert(args[2] == words@[3]@);
    }
    let index = match parse_usize(&words[1]) {
        Some(n) => n,
        None => {
            return error_string();
        },
    };
    let mem_pos = match parse_usize(&words[2]) {
        Some(n) => n,
        None => {
            return error_string();
        },
    };
    let count = match parse_usize(&words[3]) {
        Some(n) => n,
        None => {
            return error_string();
        },
    };
    let r = if reading {
        fs.read(index, mem_pos, count)
    } else {
        fs.write(index, mem_pos, count)
    };
    match r {
        Ok(n) => {
            let mut out = String::new();
            append_decimal(&mut out, n);
            if reading {
                append_slice(&mut out, &[' ', 'b', 'y', 't', 'e', 's', ' ', 'r', 'e', 'a', 'd', ' ', 'f', 'r', 'o', 'm', ' ']);
            } else {
                append_slice(&mut out, &[' ', 'b', 'y', 't', 'e', 's', ' ', 'w', 'r', 'i', 't', 't', 'e', 'n', ' ', 't', 'o', ' ']);
            }
            append_decimal(&mut out, index);
            proof {
                if reading {
                    assert(out@ =~= decimal(n as nat) + seq![' ', 'b', 'y', 't', 'e', 's', ' ', 'r', 'e', 'a', 'd', ' ', 'f', 'r', 'o', 'm', ' '] + decimal(index as nat));
                } else {
                    assert(out@ =~= decimal(n as nat) + seq![' ', 'b', 'y', 't', 'e', 's', ' ', 'w', 'r', 'i', 't', 't', 'e', 'n', ' ', 't', 'o', ' '] + decimal(index as nat));
                }
            }
            out
        },
        Err(_) => error_string(),
    }
}

/// `sk <index> <pos>`: moves a file's position.
fn cmd_seek(fs: &mut FileSystem, words: &Vec<Vec<char>>) -> (out: String)
    requires
        old(fs).wf(),
        words@.len() >= 1,
    ensures
        final(fs).wf(),
        seek_cmd_post(*old(fs), *final(fs), args_of(deep(words@)), out@),
{
    let ghost args = args_of(deep(words@));
    if words.len() != 3 {
        return error_string();
    }
    proof {
        assert(args[0] == words@[1]@);
        assert(args[1] == words@[2]@);
    }
    let index = match parse_usize(&words[1]) {
        Some(n) => n,
        None => {
            return error_string();
        },
    };
    let pos = match parse_usize(&words[2]) {
        Some(n) => n,
        None => {
            return error_string();
        },
    };
    let r = fs.seek(index, pos);
    match r {
        Ok(()) => {
            let mut out = String::new();
            append_slice(&mut out, &['p', 'o', 's', 'i', 't', 'i', 'o', 'n', ' ', 'i', 's', ' ']);
            append_decimal(&mut out, pos);
            proof {
                assert(out@ =~= seq!['p', 'o', 's', 'i', 't', 'i', 'o', 'n', ' ', 'i', 's', ' '] + decimal(pos as nat));
            }
            out
        },
        Err(_) => error_string(),
    }
}

/// `dr`: lists the files as `name size` pairs.
fn cmd_directory(fs: &mut FileSystem) -> (out: String)
    requires
        old(fs).wf(),
    ensures
        directory_cmd_post(*old(fs), *final(fs), out@),
{
    let ghost pre = *fs;
    let files = fs.directory();
    let ghost items = pre.listing();
    let mut out = String::new();
    let mut i: usize = 0;
    while i < files.len()
        invariant
            i <= files@.len(),
            files@.len() == items.len(),
            forall|k: int| 0 <= k < files@.len() ==> #[trigger] files@[k].0@ == items[k].0 && files@[k].1 == items[k].1,
            out@ == render_listing(items.take(i as int)),
        decreases files@.len() - i,
    {
        let ghost before = out@;
        if i > 0 {
            out.push(' ');
        }
        let (name, size) = &files[i];
        append_str(&mut out, name.as_str());
        out.push(' ');
        append_decimal(&mut out, *size);
        proof {
            assert(items.take(i + 1).drop_last() =~= items.take(i as int));
            assert(items.take(i + 1).last() == items[i as int]);
            if i > 0 {
                assert(out@ =~= before + seq![' '] + (items[i as int].0 + seq![' '] + decimal(items[i as int].1 as nat)));
            } else {
                assert(out@ =~= items[i as int].0 + seq![' '] + decimal(items[i as int].1 as nat));
            }
        }
        i = i + 1;
    }
    proof {
        assert(items.take(items.len() as int) =~= items);
    }
    out
}

/// `rm <mem_pos> <count>`: shows memory bytes as characters.
fn cmd_read_memory(fs: &mut FileSystem, words: &Vec<Vec<char>>) -> (out: String)
    requires
        words@.len() >= 1,
    ensures
        read_memory_cmd_post(*old(fs), *final(fs), args_of(deep(words@)), out@),
{
    let ghost args = args_of(deep(words@));
    if words.len() != 3 {
        return error_string();
    }
    proof {
        assert(args[0] == words@[1]@);
        assert(args[1] == words@[2]@);
    }
    let mem_pos = match parse_usize(&words[1]) {
        Some(n) => n,
        None => {
            return error_string();
        },
    };
    let count = match parse_usize(&words[2]) {
        Some(n) => n,
        None => {
            return error_string();
        },
    };
    let r = fs.read_memory(mem_pos, count);
    match r {
        Ok(content) => {
            proof {
                assert(parse_usize_spec(args[0]) == Some(mem_pos));
                assert(parse_usize_spec(args[1]) == Some(count));
            }
            content
        },
        Err(_) => error_string(),
    }
}

/// `wm <mem_pos> <text...>`: writes the rest of the line into memory.
fn cmd_write_memory(fs: &mut FileSystem, words: &Vec<Vec<char>>) -> (out: String)
    requires
        old(fs).wf(),
        words@.len() >= 1,
    ensures
        final(fs).wf(),
        write_memory_cmd_post(*old(fs), *final(fs), args_of(deep(words@)), out@),
{
    let ghost args = args_of(deep(words@));
    if words.len() < 3 {
        return error_string();
    }
    proof {
        assert(args[0] == words@[1]@);
    }
    let mem_pos = match parse_usize(&words[1]) {
        Some(n) => n,
        None => {
            return error_string();
        },
    };
    // the text is everything after the position, joined by single spaces
    let mut data = String::new();
    let mut i: usize = 2;
    while i < words.len()
        invariant
            2 <= i <= words@.len(),
            args == args_of(deep(words@)),
            data@ == join_spaces(args.drop_first().take(i - 2)),
        decreases words@.len() - i,
    {
        if i > 2 {
            data.push(' ');
        }
        append_chars(&mut data, &words[i]);
        proof {
            let rest = args.drop_first();
            assert(rest[i - 2] == words@[i as int]@);
            assert(rest.take(i - 1).drop_last() =~= rest.take(i - 2));
            if i > 2 {
                assert(data@ =~= join_spaces(rest.take(i - 2)) + seq![' '] + rest[i - 2]);
            } else {
                assert(data@ =~= rest[0]);
            }
        }
        i = i + 1;
    }
    proof {
        assert(args.drop_first().take(words@.len() - 2) =~= args.drop_first());
    }
    let r = fs.write_memory(mem_pos, data.as_str());
    match r {
        Ok(n) => {
            let mut out = String::new();
            append_decimal(&mut out, n);
            append_slice(&mut out, &[' ', 'b', 'y', 't', 'e', 's', ' ', 'w', 'r', 'i', 't', 't', 'e', 'n', ' ', 't', 'o', ' ', 'M']);
            proof {
                assert(out@ =~= decimal(n as nat) + seq![' ', 'b', 'y', 't', 'e', 's', ' ', 'w', 'r', 'i', 't', 't', 'e', 'n', ' ', 't', 'o', ' ', 'M']);
            }
            out
        },
        Err(_) => error_string(),
    }
}

/// Runs the command in `line` and answers.
fn process_chars(fs: &mut FileSystem, line: &Vec<char>) -> (out: String)
    requires
        old(fs).wf(),
    ensures
        final(fs).wf(),
        line_post(*old(fs), *final(fs), line@, out@),
{
    proof {
        reveal(line_post);
    }
    let words = split_words(line);
    if words.len() == 0 {
        return String::new();
    }
    let ghost ws = deep(words@);
    let cmd = &words[0];
    proof {
        assert(ws[0] == words@[0]@);
    }
    if is_command(cmd, 'i', 'n') {
        cmd_init(fs)
    } else if is_command(cmd, 'c', 'r') {
        cmd_create(fs, &words)
    } else if is_command(cmd, 'd', 'e') {
        cmd_destroy(fs, &words)
    } else if is_command(cmd, 'o', 'p') {
        cmd_open(fs, &words)
    } else if is_command(cmd, 'c', 'l') {
        cmd_close(fs, &words)
    } else if is_command(cmd, 'r', 'd') {
        cmd_transfer(fs, &words, true)
    } else if is_command(cmd, 'w', 'r') {
        cmd_transfer(fs, &words, false)
    } else if is_command(cmd, 's', 'k') {
        cmd_seek(fs, &words)
    } else if is_command(cmd, 'd', 'r') {
        cmd_directory(fs)
    } else if is_command(cmd, 'r', 'm') {
        cmd_read_memory(fs, &words)
    } else if is_command(cmd, 'w', 'm') {
        cmd_write_memory(fs, &words)
    } else {
        error_string()
    }
}

/// Runs the command in `line` and returns the answer; a line with no words
/// answers nothing and changes nothing.
pub fn process_command(fs: &mut FileSystem, line: &str) -> (out: String)
    requires
        old(fs).wf(),
    ensures
        final(fs).wf(),
        line_post(*old(fs), *final(fs), line@, out@),
{
    let chars = chars_of(line);
    process_chars(fs, &chars)
}

/// What line `line` adds to the output, given its answer `out`: the answer
/// if it is not empty, an empty line for a blank line, else nothing.
pub open spec fn kept_output(line: Seq<char>, out: Seq<char>) -> Option<Seq<char>> {
    if out.len() > 0 {
        Some(out)
    } else if words_of(line).len() == 0 {
        Some(Seq::empty())
    } else {
        None
    }
}

/// The output lines of the first `k` input lines.
pub open spec fn collect(lines: Seq<Seq<char>>, outs: Seq<Seq<char>>, k: int) -> Seq<Seq<char>>
    decreases k,
{
    if k <= 0 {
        Seq::empty()
    } else {
        let prev = collect(lines, outs, k - 1);
        match kept_output(lines[k - 1], outs[k - 1]) {
            Some(x) => prev.push(x),
            None => prev,
        }
    }
}

/// Lines joined by newlines.
pub open spec fn join_lines(xs: Seq<Seq<char>>) -> Seq<char>
    decreases xs.len(),
{
    if xs.len() == 0 {
        Seq::empty()
    } else if xs.len() == 1 {
        xs[0]
    } else {
        join_lines(xs.drop_last()) + seq!['\n'] + xs.last()
    }
}

/// Each of the first `n` lines leads from its state to the next and answers its output.
#[verifier::opaque]
pub open spec fn steps_ok(states: Seq<FileSystem>, outs: Seq<Seq<char>>, lines: Seq<Seq<char>>, n: int) -> bool {
    forall|i: int| 0 <= i < n ==> #[trigger] line_post(states[i], states[i + 1], lines[i], outs[i])
}

/// One more step.
proof fn lemma_steps_push(states: Seq<FileSystem>, outs: Seq<Seq<char>>, lines: Seq<Seq<char>>, n: int, s: FileSystem, o: Seq<char>)
    requires
        0 <= n,
        states.len() == n + 1,
        outs.len() == n,
        steps_ok(states, outs, lines, n),
        line_post(states[n], s, lines[n], o),
    ensures
        steps_ok(states.push(s), outs.push(o), lines, n + 1),
{
    reveal(steps_ok);
    assert forall|i: int| 0 <= i < n + 1 implies #[trigger] line_post(states.push(s)[i], states.push(s)[i + 1], lines[i], outs.push(o)[i]) by {
        if i < n {
            assert(line_post(states[i], states[i + 1], lines[i], outs[i]));
        }
    }
}

/// Running the lines `lines` one after another from `pre` leads to `post`
/// and outputs `out`: each line's answer, blank lines as empty lines, joined
/// by newlines.
pub open spec fn session_post(pre: FileSystem, post: FileSystem, lines: Seq<Seq<char>>, out: Seq<char>) -> bool {
    exists|states: Seq<FileSystem>, outs: Seq<Seq<char>>|
        {
            &&& states.len() == lines.len() + 1
            &&& outs.len() == lines.len()
            &&& states[0] == pre
            &&& states[lines.len() as int] == post
            &&& steps_ok(states, outs, lines, lines.len() as int)
            &&& out == join_lines(collect(lines, outs, lines.len() as int))
        }
}

/// Runs every line of `input` as a command and returns the answers, one per
/// line (blank input lines give empty lines), joined by newlines.
pub fn run_from_file(fs: &mut FileSystem, input: &str) -> (out: String)
    requires
        old(fs).wf(),
    ensures
        final(fs).wf(),
        session_post(*old(fs), *final(fs), lines_of(input@), out@),
{
    let chars = chars_of(input);
    let lines = split_lines(&chars);
    let ghost all = lines_of(input@);
    let ghost mut states: Seq<FileSystem> = seq![*fs];
    let ghost mut outs: Seq<Seq<char>> = Seq::empty();
    proof {
        reveal(steps_ok);
    }
    let mut output = String::new();
    let mut kept: usize = 0;
    let mut i: usize = 0;
    while i < lines.len()
        invariant
            i <= lines@.len(),
            lines@.len() == all.len(),
            forall|k: int| 0 <= k < lines@.len() ==> #[trigger] lines@[k]@ == all[k],
            fs.wf(),
            states.len() == i + 1,
            outs.len() == i,
            states[0] == *old(fs),
            states[i as int] == *fs,
            steps_ok(states, outs, all, i as int),
            kept == collect(all, outs, i as int).len(),
            kept <= i,
            output@ == join_lines(collect(all, outs, i as int)),
        decreases lines@.len() - i,
    {
        let ghost before = output@;
        let ghost prev = collect(all, outs, i as int);
        proof {
            assert(lines@[i as int]@ == all[i as int]);
        }
        let result = process_chars(fs, &lines[i]);
        let blank = split_words(&lines[i]).len() == 0;
        let nonempty = !result.as_str().is_empty();
        proof {
            lemma_steps_push(states, outs, all, i as int, *fs, result@);
            let old_outs = outs;
            states = states.push(*fs);
            outs = outs.push(result@);
            assert(outs.take(i as int) =~= old_outs);
            lemma_collect_prefix(all, outs, i as int, i as int);
            assert(collect(all, outs, i as int) == prev);
            lemma_collect_len(all, outs, i as int);
        }
        if nonempty || blank {
            if kept > 0 {
                output.push('\n');
            }
            append_str(&mut output, result.as_str());
            kept = kept + 1;
        }
        proof {
            let next = collect(all, outs, i + 1);
            if nonempty {
                assert(kept_output(all[i as int], outs[i as int]) == Some(result@));
            } else if blank {
                assert(kept_output(all[i as int], outs[i as int]) == Some(Seq::<char>::empty()));
                assert(result@ =~= Seq::<char>::empty());
            } else {
                assert(kept_output(all[i as int], outs[i as int]) is None);
            }
            if nonempty || blank {
                assert(next == prev.push(result@));
                assert(next.drop_last() =~= prev);
                if prev.len() > 0 {
                    assert(output@ =~= join_lines(prev) + seq!['\n'] + result@);
                } else {
                    assert(output@ =~= result@);
                }
            } else {
                assert(next == prev);
            }
        }
        i = i + 1;
    }
    proof {
        assert(states[all.len() as int] == *fs);
    }
    output
}

/// The first `k` lines give at most `k` output lines.
proof fn lemma_collect_len(lines: Seq<Seq<char>>, outs: Seq<Seq<char>>, k: int)
    requires
        0 <= k,
    ensures
        collect(lines, outs, k).len() <= k,
    decreases k,
{
    if k > 0 {
        lemma_collect_len(lines, outs, k - 1);
    }
}

/// The output of the first `k` lines depends only on their answers.
proof fn lemma_collect_prefix(lines: Seq<Seq<char>>, outs: Seq<Seq<char>>, n: int, k: int)
    requires
        0 <= k <= n,
        n <= outs.len(),
    ensures
        collect(lines, outs, k) == collect(lines, outs.take(n), k),
    decreases k,
{
    if k > 0 {
        lemma_collect_prefix(lines, outs, n, k - 1);
    }
}

} // verus!
