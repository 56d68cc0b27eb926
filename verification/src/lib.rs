//! A line-oriented markup parsing engine: element parsers for the
//! time-tracking clock line and the inline macro call, an arena-based
//! document tree, and a depth-first event traversal with pluggable
//! rendering handlers.
pub mod arena;
pub mod bytes;
pub mod clock;
pub mod element;
pub mod export;
pub mod macros;
pub mod org;
pub mod timestamp;
