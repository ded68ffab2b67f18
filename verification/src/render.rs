//! How a header and the records of a payload are written down, and the proof
//! that reading gives back what was written.
//!
//! Nothing here runs: the functions say what a writer has to produce, and
//! the lemmas hold the reader to it.

pub mod header;
pub mod lines;
pub mod record;
pub mod text;
