# File system simulator, verified

A simple disk-based file system: an emulated disk of 64 blocks of 512 bytes,
a block bitmap (block 0), 192 file descriptors (blocks 1-6), a directory kept
as a file (descriptor 0, first block 7), an open file table of four entries
with one buffered block each, a 512-byte user memory, and a command shell
(`in`, `cr`, `de`, `op`, `cl`, `rd`, `wr`, `sk`, `dr`, `rm`, `wm`; every
failure answers `error`).

The library in `src/` is written in Verus and proved against its contracts:

- `byte_utils`, `bitmap`, `descriptor`, `oft`, `disk`: the on-disk encodings and
  the small tables, each with an exact contract.
- `fs`: the file system state, its invariant (`wf`), its abstract view (each
  file's contents, the directory, the open files, the memory), initialisation
  and buffered byte access.
- `directory`, `file_ops`: the file commands; each states its result and the
  state it leaves in terms of that view, and when and with which error it fails.
- `text`, `shell`: splitting lines and words, reading numbers, and the shell's
  answer to each command line and to a whole session.
- `report`: text reports of the bitmap, the directory's descriptor and the open
  file table.
- `laws`: properties across operations, such as reading back what a write put
  into a file, and names being taken after `create` and free after `destroy`.
- `determinism`: from one state, each command gives one answer and one view of
  the file system, and a command line's effect depends on its words alone.

`app/` holds the program around it: argument handling, reading the input file,
writing the output file, and printing the reports.

Run it as `app <input_file> [output_file]`; the output goes to `output.txt`
when no output file is given.
