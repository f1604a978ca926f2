//! Bit-field arithmetic on 64-bit words.
//!
//! A field is a run of `width` contiguous bits of a word whose least
//! significant bit sits at offset `lsb`. The functions in [`bitpack`] read
//! such a field as an unsigned or a two's-complement signed number, write a
//! number into a field while leaving the rest of the word alone, and tell
//! whether a number can be held in a given width.
//!
//! The meaning of every operation is given in [`model`] in terms of integer
//! division and remainder by powers of two. [`laws`] states, and proves, how
//! the operations relate to one another.
pub mod bitpack;
pub mod laws;
pub mod model;

mod arith;
mod machine;
