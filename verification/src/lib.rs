//! A small disk-based file system simulator: an emulated disk of fixed-size
//! blocks, a block bitmap, file descriptors, an open file table with one
//! buffered block per open file, a directory kept as a file, and a command
//! shell on top.
use vstd::prelude::*;

pub mod constants;
pub mod byte_utils;
pub mod bitmap;
pub mod descriptor;
pub mod oft;
pub mod disk;
pub mod fs;
pub mod directory;
pub mod file_ops;
pub mod text;
pub mod laws;
pub mod determinism;
pub mod report;
pub mod shell;

verus! {
} // verus!
