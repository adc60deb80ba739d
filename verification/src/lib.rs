//! Run-length codec with a chunked, data-parallel execution strategy and a
//! small container format that flattens a directory tree into one byte stream.
//!
//! - `rle`: what a compressed stream is, and the laws of the pair encoding.
//! - `compression`, `decompression`: the codec and its two schedulers.
//! - `parallel`, `std_specs`: the worker pool and two items of the standard
//!   library; what they state is taken on trust.
//! - `text`, `archive`, `archive_laws`: the directory archive and what comes
//!   back from it.
//! - `paths`: paths relative to the root of an archived tree.
//! - `views`: views of nested buffers.

pub mod archive;
pub mod archive_laws;
pub mod compression;
pub mod decompression;
pub mod parallel;
pub mod paths;
pub mod rle;
pub mod std_specs;
pub mod text;
pub mod views;
