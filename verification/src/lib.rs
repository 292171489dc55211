//! Reading and writing of RARC archives: a flat, offset-addressed binary
//! container that holds a tree of directories and files.
//!
//! An [`Archive`] is built with `create`, `create_folder` and `create_file`
//! or read from bytes with `read`; `sort` brings its file table in order,
//! and `to_bytes` writes it. Directories and entries refer to each other by
//! position, and the archive sees to it that every position exists.
//!
//! The contracts speak of the archive as plain values ([`tree::Tree`]):
//! [`parse`] says what bytes hold, [`image`] what an archive is written to,
//! and [`laws`] what holds of both, among it that reading is the inverse of
//! writing.

pub mod archive;
pub mod bytes;
pub mod compress;
pub mod enums;
pub mod error;
pub mod forest;
pub mod grow;
pub mod hash;
pub mod header;
pub mod image;
pub mod inverse;
pub mod kin;
pub mod lastpos;
pub mod laws;
pub mod names;
pub mod nodes;
pub mod parse;
pub mod paths;
pub mod reach;
pub mod read;
pub mod roundtrip;
pub mod seektask;
pub mod settle;
pub mod stable;
pub mod sort;
pub mod table;
pub mod text;
pub mod traits;
pub mod tree;
pub mod util;
pub mod walk;
pub mod write;

pub use archive::Archive;
pub use nodes::file::FileAttr;
