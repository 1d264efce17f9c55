//! The Laby2 asset archive: packing a directory tree into the container
//! format `AAFC` and unpacking it again.
//!
//! An archive is a header of sixteen bytes, a manifest of records (a name
//! and a file size each), and the content of the files in the order of the
//! manifest. On its way to and from storage every byte passes through a
//! filter that XORs it with the low eight bits of its position.
//!
//! The library works on byte streams held in memory and on the items of a
//! tree as plain values; listing directories and opening files is left to
//! its caller.

pub mod arch;
pub mod bytes;
pub mod error;
pub mod io;
pub mod laws;
pub mod order;
pub mod pack;
pub mod parse;
pub mod smallbuf;
pub mod tree;
pub mod unpack;
pub mod utf16;
pub mod xor;
