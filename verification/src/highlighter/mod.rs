//! Highlighters that find their tokens with a compiled pattern.

pub mod number;
pub mod pattern;
pub mod uuid;
