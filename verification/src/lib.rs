//! A generic file-type fingerprint engine.
//!
//! A *pattern* is a compact fingerprint of a file type, synthesized from a
//! training set of sample-file header chunks: positional byte sequences
//! common to every sample, uppercased printable-ASCII substrings common to
//! every sample, and an entropy band describing byte composition. At query
//! time each candidate pattern is scored against an unknown file's header
//! and the scores are ranked as percentages of the pattern's maximum
//! achievable score.

use vstd::prelude::*;

pub mod ascii;
pub mod arg_parser;
pub mod codec;
pub mod file_point_calculator;
pub mod histogram;
pub mod pattern;
pub mod pattern_handler;
pub mod regexes;
pub mod sequences;
pub mod sieve;
pub mod strings;
pub mod utils;

verus! {

} // verus!
