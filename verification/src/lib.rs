//! An interactive fuzzy chooser for the terminal, as a verified core.
//!
//! The crate holds the parts of a chooser that decide and compute: the
//! escape sequences of a frame, the decoding of raw key bytes, the ranking
//! of candidates by the score that the `rff` matcher gives them, and the
//! selection state machine. Reading from and writing to the terminal device
//! is left to the program around it.

pub mod text;
pub mod ansi;
pub mod ranking;
pub mod terminal;
pub mod interface;
