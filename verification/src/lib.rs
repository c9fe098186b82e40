//! A sorting engine that records every elementary access of a sort as a
//! replayable operation, and plays the recording back at the caller's pace.
//!
//! The sort itself runs against a private work buffer. The visible array
//! changes only when playback applies a recorded operation to it.

pub mod operation;
pub mod array;
pub mod order;
pub mod ranks;
pub mod random;
pub mod sorting;
pub mod algorithms;
pub mod laws;
