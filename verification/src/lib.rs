//! A compact vector: a sequence of unsigned integers with random access, in
//! which every element takes the same number of bits, chosen when the vector
//! is made.
//!
//! [`CompactVector`] is the vector. It keeps its elements in a [`BitVector`],
//! a growable sequence of bits packed into 64-bit words, element `i` in the
//! bits from `i * width` to `i * width + width`. Both are written to bytes
//! and read back in the format that [`format`] describes.
//!
//! The contracts speak of a vector by its view, the sequence of its
//! elements, and its width. The accessors come in two sets. `get`, `set` and
//! `push` have the bounds as a precondition, and `set` and `push` keep the
//! `width` lowest bits of a value that is too wide. `try_get`, `try_set` and
//! `try_push` test the position and the value and report an [`Error`].
//!
//! Reading from bytes checks what it reads: a vector is only built from
//! bytes whose lengths agree, so that every vector there is meets the
//! invariant that the other operations rely on.
//!
//! The width is at most the number of bits of `usize`: 64 where `usize` has
//! 64 bits.

pub mod bit_vector;
pub mod bits;
pub mod compact_vector;
pub mod endian;
pub mod error;
pub mod format;
pub mod util;

pub use bit_vector::BitVector;
pub use compact_vector::CompactVector;
pub use error::Error;
