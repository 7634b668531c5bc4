//! A lossy image compressor built on a coarse self-similarity block search.
//!
//! The compressor divides an image into 6x6 cells and tries to explain each
//! cell as a scaled-up copy of some 3x3 region of the same image; cells that
//! cannot be explained are stored verbatim as residual pixels. The compressed
//! form round-trips through a fixed little-endian container layout.

pub mod buffer;
pub mod container;
pub mod px;
pub mod rect;
pub mod zimage;
