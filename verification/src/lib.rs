//! Incremental renderer core for parsed markdown documents.
//!
//! The crate turns a nested document tree into a flat, ordered sequence of
//! renderable block descriptors (`ir`), and reconciles that sequence against
//! a positional table of live block instances (`view`), deciding per position
//! whether to reuse, create or evict an instance.  Inline content is
//! translated to an escaped presentation-markup string (`util`), and each
//! block kind keeps a small content state that skips redundant updates
//! (`blocks`).

pub mod node;
pub mod util;
pub mod ir;
pub mod blocks;
pub mod view;
