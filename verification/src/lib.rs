//! Inline text layout: style trees, white-space processing, bidirectional
//! levels of inline objects, intrinsic widths and greedy line breaking.

pub mod analysis;
pub mod builder;
pub mod context;
pub mod inline_box;
pub mod layout;
pub mod ranges;
pub mod resolve;
pub mod scalar;
pub mod style;
pub mod text;
