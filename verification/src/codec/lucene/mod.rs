//! Lucene 10.3.1 block codecs, as a bench competitor.
//!
//! Block-level building blocks (`ForUtil`, `ForDeltaUtil`, `PForUtil`, and
//! the vint / group-vint primitives they sit on). The `lucene-pfor` and
//! `lucene-docs` adapters wrap them as [`crate::codec::Codec`]s.
//!
//! Values are `u32` and the arithmetic is unsigned: Lucene only stores
//! non-negative values, so every `>>>` is `>>` on `u32`.

pub mod io;
pub mod pfor;
pub mod for_delta;
pub mod for_util;

pub use for_util::BLOCK_SIZE;
