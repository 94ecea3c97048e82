//! Layered terminal styling: an ordered pipeline of highlighters, each of which
//! only ever touches the text that no earlier highlighter has styled.

pub mod config;
pub mod highlighter;
pub mod manifold;
pub mod offsets;
pub mod search;
pub mod split_and_apply;
pub mod strings;
pub mod style;

pub use crate::manifold::{Highlight, Manifold, ManifoldBuilder};
pub use crate::style::{Color, Style};
