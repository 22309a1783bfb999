//! Byte strings stored inline in an arena of fixed-width cells, closed by a
//! zero byte instead of a stored length, and read back through borrowed views.

pub mod heap;
pub mod inlined_bytes;
