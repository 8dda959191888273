//! A lossless compression codec for semi-structured ASCII text records:
//! rows mixing literal characters, runs of padding spaces, and numeric
//! tokens (signed or unsigned integers and fixed-point decimals).
//!
//! A record is tokenized into space runs and numeric tokens, a record-wide
//! mode is chosen from whether any token is negative or fractional, and the
//! record is re-emitted as a self-describing byte stream of literal bytes,
//! tagged space-run bytes, and variable-length numeric codes.

pub mod all_ascii;
pub mod zsan_parser;
pub mod digits;
pub mod laws;
pub mod vle_variants;
pub mod zsan;
