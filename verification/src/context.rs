//! The data from which a paragraph is laid out.

use crate::inline_box::InlineBoxInput;
use crate::resolve::tree::TreeStyleBuilder;
use crate::resolve::{Brush, ResolvedStyle, StyleRun};
use crate::scalar::Scalar;
use vstd::prelude::*;

verus! {

/// What analysis and style resolution find out about a character.
#[derive(Clone, Copy, Debug, PartialEq, Eq, Structural)]
pub struct CharInfo {
    pub bidi_level: u8,
    pub style_index: u16,
}

/// Everything that the builders collect about a paragraph.
pub struct LayoutContext<T: Scalar, B: Brush> {
    pub style_table: Vec<ResolvedStyle<T, B>>,
    pub style_runs: Vec<StyleRun>,
    pub inline_boxes: Vec<InlineBoxInput<T>>,
    pub tree_style_builder: TreeStyleBuilder<T, B>,
    /// The characters of the text.
    pub info: Vec<CharInfo>,
    /// The embedding level of the paragraph.
    pub base_level: u8,
}

impl<T: Scalar, B: Brush> LayoutContext<T, B> {
    /// An empty context.
    pub fn new() -> (r: Self)
        ensures
            r.style_table@.len() == 0,
            r.style_runs@.len() == 0,
            r.inline_boxes@.len() == 0,
            r.info@.len() == 0,
            r.base_level == 0,
    {
        LayoutContext {
            style_table: Vec::new(),
            style_runs: Vec::new(),
            inline_boxes: Vec::new(),
            tree_style_builder: TreeStyleBuilder::default(),
            info: Vec::new(),
            base_level: 0,
        }
    }
}

} // verus!
