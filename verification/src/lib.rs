//! A decoder for the PLY polygon file format.
//!
//! A PLY file starts with a header of text lines, which declares the
//! elements of the file and the properties of each element, and goes on with
//! a payload, which holds the records of the elements as text or as binary
//! numbers. [`parser`] reads both from bytes in memory, [`ply`] holds what
//! is read, and [`render`] states how the same data is written and proves
//! that reading gives it back.

pub mod parser;
pub mod ply;
pub mod render;
pub mod text;
pub mod util;
