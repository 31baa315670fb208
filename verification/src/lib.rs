//! Integer-sequence codecs under test, and the pieces of the benchmark
//! harness that compute rather than measure: dataset validation, the `.ipb`
//! container, corpus tokenisation and sampling.

pub mod stream;
pub mod ipb;
pub mod leb128;
pub mod bytes;
pub mod codec;
pub mod extract;
pub mod bench;
pub mod timer;
pub mod synth;
