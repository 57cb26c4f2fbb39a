//! Group text lines by the part of each line that a regular expression selects.
pub mod text;
pub mod pattern;
pub mod collection;
pub mod grouping;
pub mod present;
pub mod laws;
