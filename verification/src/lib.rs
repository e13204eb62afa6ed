//! Signature scanning: locating every occurrence of a byte pattern with
//! single-byte wildcards inside a binary buffer.
//!
//! A [`Pattern`] is made of raw bytes, zero standing for the wildcard, or
//! parsed from text such as `e8 ? ? ? ? 48 8b d8`. [`find_pattern`] returns
//! every window of a buffer that the pattern matches, by ascending offset.
//!
//! * `pattern`: the pattern type and the test of one window against it.
//! * `search`: the search over all windows, and what it finds.
//! * `text`: the textual notation and its parser.
//! * `notation`: the text form of a pattern, which parses back to it.
//! * `occurrence`: the offset of a parse error as a place in the text.
//! * `listing`: ascending listings of the numbers that a predicate keeps.

pub mod listing;
pub mod notation;
pub mod occurrence;
pub mod pattern;
pub mod search;
pub mod text;

pub use pattern::Pattern;
pub use search::{find_pattern, InvalidPattern};
