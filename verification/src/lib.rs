//! Format-preserving renderer for a mutable TOML document tree.
//!
//! The document model keeps, for every syntactic element, the raw text it was
//! written with (`Repr`) together with its surrounding whitespace and comments
//! (`Decor`).  Rendering concatenates those fragments instead of
//! re-serialising parsed values, so an unmodified document prints back exactly
//! as it was read.
//!
//! Two table orders are offered: the plain structural depth-first order
//! (`Document::to_string`) and a reconstruction of the original source order
//! that survives insertion, deletion and reordering of tables
//! (`Document::to_string_in_original_order`).

pub mod laws;
pub mod order;
pub mod render;
pub mod tree;
pub mod visit;
