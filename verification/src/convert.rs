//! Conversions between a map and text formats: Markdown, OPML, and a plain
//! indented outline.
//!
//! The exported tree is the parent/child hierarchy under the root. Only nodes
//! reachable from the root are emitted; a free-floating node is skipped rather
//! than guessed at.

pub mod escape;
pub mod flat;
pub mod flat_laws;
pub mod grow;
pub mod laws;
pub mod md;
pub mod md_laws;
pub mod opml;
pub mod opml_laws;
pub mod reading;
pub mod steady;

pub use crate::convert::md::{from_markdown, to_markdown, to_outline};
pub use crate::convert::opml::{from_opml, to_opml};
