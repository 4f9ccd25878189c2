//! A steganographic codec: one or more files are hidden in the
//! least-significant bits of a lossless raster image's colour samples and
//! recovered later, optionally behind a password hash.
//!
//! The pieces, leaf first: [`pixel`] models the grid and the traversal
//! order of the bit cursor and proves that writing and reading visit bits
//! identically; [`image_read`] and [`image_write`] are the cursor's two
//! executable halves; [`digits`] handles the fixed-width decimal text
//! fields; [`container`] lays out and parses the embedded container
//! (signature, password block, file count, file records); [`hashing`] is
//! the password digest; [`steg`] drives detection, extraction and
//! embedding over one loaded image; [`naming`] picks collision-free names
//! for extracted files; [`mime`] infers their display types; and [`laws`]
//! proves the properties the codec is used for, round-tripping above all.
//!
//! Image decoding and encoding, file and network input and output, and the
//! serving layer live outside this crate; the codec works on plain pixel
//! buffers and byte payloads.

use vstd::prelude::*;

pub mod container;
pub mod digits;
pub mod hashing;
pub mod image_read;
pub mod image_write;
pub mod laws;
pub mod mime;
pub mod naming;
pub mod pixel;
pub mod settings;
pub mod steg;

verus! {

} // verus!
