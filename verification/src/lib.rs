//! Checks a log of retry attempts against the backoff policy it is supposed to
//! follow.
//!
//! The library reads attempts from lines of text, judges each one against the
//! policy, and words what it found. It performs no input or output: a caller
//! hands it one line at a time and prints what comes back, so a log of any
//! length is checked in the memory of one attempt per retry sequence.

pub mod check;
pub mod cli;
pub mod factor;
pub mod grouped;
pub mod options;
pub mod parse;
pub mod policy;
pub mod sequence;
pub mod text;
pub mod wording;
