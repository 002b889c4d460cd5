use lib::fs::FileSystem;
use lib::shell::{process_command, run_from_file};

fn run(fs: &mut FileSystem, line: &str) -> String {
    process_command(fs, line)
}

#[test]
fn readme_example_session() {
    let mut fs = FileSystem::new();
    let input = "in\ncr foo\nop foo\nwm 0 Hello\nwr 1 0 5\nsk 1 0\nrd 1 10 5\nrm 10 5\ncl 1\ndr\n";
    let out = run_from_file(&mut fs, input);
    assert_eq!(
        out,
        "system initialized\nfoo created\nfoo opened 1\n5 bytes written to M\n5 bytes written to 1\nposition is 0\n5 bytes read from 1\nHello\n1 closed\nfoo 5"
    );
}

#[test]
fn readme_example_line_by_line() {
    let mut fs = FileSystem::new();
    assert_eq!(run(&mut fs, "in"), "system initialized");
    assert_eq!(run(&mut fs, "cr foo"), "foo created");
    assert_eq!(run(&mut fs, "op foo"), "foo opened 1");
    assert_eq!(run(&mut fs, "wm 0 Hello"), "5 bytes written to M");
    assert_eq!(run(&mut fs, "wr 1 0 5"), "5 bytes written to 1");
    assert_eq!(run(&mut fs, "sk 1 0"), "position is 0");
    assert_eq!(run(&mut fs, "rd 1 10 5"), "5 bytes read from 1");
    assert_eq!(run(&mut fs, "rm 10 5"), "Hello");
    assert_eq!(run(&mut fs, "cl 1"), "1 closed");
    assert_eq!(run(&mut fs, "dr"), "foo 5");
}

#[test]
fn blank_lines_are_kept_and_empty_listing_is_dropped() {
    let mut fs = FileSystem::new();
    let out = run_from_file(&mut fs, "in\n\n   \ndr\ncr a\n");
    // the blank lines give empty lines; `dr` of an empty directory gives nothing
    assert_eq!(out, "system initialized\n\n\na created");
}

#[test]
fn crlf_line_endings() {
    let mut fs = FileSystem::new();
    let out = run_from_file(&mut fs, "cr ab\r\ndr\r\n");
    assert_eq!(out, "ab created\nab 0");
}

#[test]
fn empty_line_answers_nothing() {
    let mut fs = FileSystem::new();
    assert_eq!(run(&mut fs, ""), "");
    assert_eq!(run(&mut fs, " \t "), "");
}

#[test]
fn unknown_command_and_wrong_arity_are_errors() {
    let mut fs = FileSystem::new();
    assert_eq!(run(&mut fs, "xx"), "error");
    assert_eq!(run(&mut fs, "cr"), "error");
    assert_eq!(run(&mut fs, "cr a b"), "error");
    assert_eq!(run(&mut fs, "op"), "error");
    assert_eq!(run(&mut fs, "de"), "error");
    assert_eq!(run(&mut fs, "cl"), "error");
    assert_eq!(run(&mut fs, "rd 1 0"), "error");
    assert_eq!(run(&mut fs, "wr 1 0"), "error");
    assert_eq!(run(&mut fs, "sk 1"), "error");
    assert_eq!(run(&mut fs, "rm 0"), "error");
    assert_eq!(run(&mut fs, "wm 0"), "error");
}

#[test]
fn numbers_are_read_like_parse() {
    let mut fs = FileSystem::new();
    run(&mut fs, "cr f");
    assert_eq!(run(&mut fs, "op f"), "f opened 1");
    assert_eq!(run(&mut fs, "sk +1 0"), "position is 0");
    assert_eq!(run(&mut fs, "sk 1 -0"), "error");
    assert_eq!(run(&mut fs, "sk 1 x"), "error");
    assert_eq!(run(&mut fs, "sk 1 99999999999999999999999"), "error");
    assert_eq!(run(&mut fs, "cl 01"), "1 closed");
}

#[test]
fn whitespace_of_every_kind_separates_words() {
    let mut fs = FileSystem::new();
    assert_eq!(run(&mut fs, "cr\tab"), "ab created");
    assert_eq!(run(&mut fs, "  op \u{3000} ab  "), "ab opened 1");
}

#[test]
fn write_memory_joins_words_with_single_spaces() {
    let mut fs = FileSystem::new();
    assert_eq!(run(&mut fs, "wm 0 a   b c"), "5 bytes written to M");
    assert_eq!(run(&mut fs, "rm 0 5"), "a b c");
}

#[test]
fn directory_lists_names_and_sizes_in_order() {
    let mut fs = FileSystem::new();
    run(&mut fs, "cr a");
    run(&mut fs, "cr bb");
    run(&mut fs, "cr cccc");
    run(&mut fs, "op bb");
    run(&mut fs, "wm 0 xyz");
    run(&mut fs, "wr 1 0 3");
    assert_eq!(run(&mut fs, "dr"), "a 0 bb 3 cccc 0");
    assert_eq!(run(&mut fs, "de a"), "a destroyed");
    assert_eq!(run(&mut fs, "dr"), "bb 3 cccc 0");
    assert_eq!(run(&mut fs, "cr d"), "d created");
    // the freed entry is reused
    assert_eq!(run(&mut fs, "dr"), "d 0 bb 3 cccc 0");
}

#[test]
fn init_command_resets_everything() {
    let mut fs = FileSystem::new();
    run(&mut fs, "cr a");
    run(&mut fs, "wm 0 zz");
    assert_eq!(run(&mut fs, "in"), "system initialized");
    assert_eq!(run(&mut fs, "dr"), "");
    assert_eq!(run(&mut fs, "rm 0 2"), "\u{0}\u{0}");
    assert_eq!(run(&mut fs, "op a"), "error");
}

#[test]
fn unicode_white_space_separates_words() {
    let mut fs = FileSystem::new();
    assert_eq!(process_command(&mut fs, "cr\u{3000}foo"), "foo created");
    assert_eq!(process_command(&mut fs, "\u{85}op\u{2003}foo\u{a0}"), "foo opened 1");
    assert_eq!(process_command(&mut fs, "wm 0 a\u{2028}b"), "3 bytes written to M");
    assert_eq!(process_command(&mut fs, "rm 0 3"), "a b");
}

#[test]
fn same_words_give_same_answers_and_state() {
    let script = ["cr foo", "op foo", "wm 0 a b", "wr 1 0 3", "sk 1 0", "rd 1 10 3", "rm 10 3", "dr"];
    let spaced = ["  cr   foo ", "op\tfoo", "wm 0 a   b", " wr 1  0 3", "sk 1 0  ", "rd  1 10 3", "rm 10\t3", "  dr  "];
    let mut fs1 = FileSystem::new();
    let mut fs2 = FileSystem::new();
    for (a, b) in script.iter().zip(spaced.iter()) {
        assert_eq!(process_command(&mut fs1, a), process_command(&mut fs2, b));
    }
    assert_eq!(fs1.memory, fs2.memory);
    assert_eq!(fs1.bitmap_report(), fs2.bitmap_report());
    assert_eq!(fs1.oft_report(), fs2.oft_report());
    assert_eq!(fs1.directory(), fs2.directory());
}
