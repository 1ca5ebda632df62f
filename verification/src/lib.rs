//! Pure operations on byte buffers read as big-endian unsigned integers:
//! in-place two's-complement negation and addition, fixed-size views of
//! slices, and lossless conversion between unsigned integers and their
//! big-endian byte encoding.

pub mod value;
pub mod arith;
pub mod view;
pub mod codec;
