//! Resolved styles and the runs of text that they apply to.

pub mod laws;
pub mod tree;
pub mod white_space;

use crate::scalar::Scalar;
use crate::style::{
    FontAttributes, LineHeight, OverflowWrap, Style, TextWrapMode, WhiteSpaceCollapse, WordBreak,
};
use core::ops::Range;
use vstd::prelude::*;

verus! {

/// What text is painted with. Layout compares brushes and copies them.
pub trait Brush: Sized {
    spec fn spec_same(&self, other: &Self) -> bool;

    /// Whether two brushes paint alike.
    fn same(&self, other: &Self) -> (r: bool)
        ensures
            r == self.spec_same(other),
    ;

    /// A copy of this brush.
    fn duplicate(&self) -> (r: Self)
        ensures
            r == *self,
    ;
}

impl Brush for u32 {
    open spec fn spec_same(&self, other: &Self) -> bool {
        *self == *other
    }

    fn same(&self, other: &Self) -> (r: bool) {
        *self == *other
    }

    fn duplicate(&self) -> (r: Self) {
        *self
    }
}

/// A style with every property resolved.
pub struct ResolvedStyle<T: Scalar, B: Brush> {
    pub font_size: T,
    pub font_attrs: FontAttributes<T>,
    pub line_height: LineHeight<T>,
    pub word_spacing: T,
    pub letter_spacing: T,
    pub word_break: WordBreak,
    pub overflow_wrap: OverflowWrap,
    pub text_wrap_mode: TextWrapMode,
    pub white_space_collapse: WhiteSpaceCollapse,
    pub brush: B,
}

/// A resolved value for one property of a style.
pub enum ResolvedProperty<T: Scalar, B: Brush> {
    FontSize(T),
    FontAttributes(FontAttributes<T>),
    LineHeight(LineHeight<T>),
    WordSpacing(T),
    LetterSpacing(T),
    WordBreak(WordBreak),
    OverflowWrap(OverflowWrap),
    TextWrapMode(TextWrapMode),
    WhiteSpaceCollapse(WhiteSpaceCollapse),
    Brush(B),
}

/// A range of text, in bytes, and the index of its style in a style table.
#[derive(Debug)]
pub struct StyleRun {
    pub style_index: u16,
    pub range: Range<usize>,
}

impl<T: Scalar, B: Brush> ResolvedStyle<T, B> {
    pub open spec fn spec_same(&self, other: &Self) -> bool {
        &&& self.font_size.spec_same(other.font_size)
        &&& self.font_attrs.spec_same(other.font_attrs)
        &&& self.line_height.spec_same(other.line_height)
        &&& self.word_spacing.spec_same(other.word_spacing)
        &&& self.letter_spacing.spec_same(other.letter_spacing)
        &&& self.word_break == other.word_break
        &&& self.overflow_wrap == other.overflow_wrap
        &&& self.text_wrap_mode == other.text_wrap_mode
        &&& self.white_space_collapse == other.white_space_collapse
        &&& self.brush.spec_same(&other.brush)
    }

    /// This style with one property replaced.
    pub open spec fn with(self, property: ResolvedProperty<T, B>) -> Self {
        match property {
            ResolvedProperty::FontSize(font_size) => ResolvedStyle { font_size, ..self },
            ResolvedProperty::FontAttributes(font_attrs) => ResolvedStyle { font_attrs, ..self },
            ResolvedProperty::LineHeight(line_height) => ResolvedStyle { line_height, ..self },
            ResolvedProperty::WordSpacing(word_spacing) => ResolvedStyle { word_spacing, ..self },
            ResolvedProperty::LetterSpacing(letter_spacing) => ResolvedStyle {
                letter_spacing,
                ..self
            },
            ResolvedProperty::WordBreak(word_break) => ResolvedStyle { word_break, ..self },
            ResolvedProperty::OverflowWrap(overflow_wrap) => ResolvedStyle {
                overflow_wrap,
                ..self
            },
            ResolvedProperty::TextWrapMode(text_wrap_mode) => ResolvedStyle {
                text_wrap_mode,
                ..self
            },
            ResolvedProperty::WhiteSpaceCollapse(white_space_collapse) => ResolvedStyle {
                white_space_collapse,
                ..self
            },
            ResolvedProperty::Brush(brush) => ResolvedStyle { brush, ..self },
        }
    }

    /// This style with the properties replaced one after the other.
    pub open spec fn with_all(self, properties: Seq<ResolvedProperty<T, B>>) -> Self
        decreases properties.len(),
    {
        if properties.len() == 0 {
            self
        } else {
            self.with_all(properties.drop_last()).with(properties.last())
        }
    }

    pub open spec fn spec_as_layout_style(self) -> Style<T> {
        Style {
            line_height: self.line_height,
            white_space_collapse: self.white_space_collapse,
            text_wrap_mode: self.text_wrap_mode,
            overflow_wrap: self.overflow_wrap,
            word_break: self.word_break,
        }
    }

    /// Whether two styles agree in every property, numbers numerically.
    pub fn same(&self, other: &Self) -> (r: bool)
        ensures
            r == self.spec_same(other),
    {
        self.font_size.same(other.font_size) && self.font_attrs.same(other.font_attrs)
            && self.line_height.same(other.line_height) && self.word_spacing.same(
            other.word_spacing,
        ) && self.letter_spacing.same(other.letter_spacing) && self.word_break == other.word_break
            && self.overflow_wrap == other.overflow_wrap && self.text_wrap_mode
            == other.text_wrap_mode && self.white_space_collapse == other.white_space_collapse
            && self.brush.same(&other.brush)
    }

    /// A copy of this style.
    pub fn duplicate(&self) -> (r: Self)
        ensures
            r == *self,
    {
        ResolvedStyle {
            font_size: self.font_size,
            font_attrs: self.font_attrs,
            line_height: self.line_height,
            word_spacing: self.word_spacing,
            letter_spacing: self.letter_spacing,
            word_break: self.word_break,
            overflow_wrap: self.overflow_wrap,
            text_wrap_mode: self.text_wrap_mode,
            white_space_collapse: self.white_space_collapse,
            brush: self.brush.duplicate(),
        }
    }

    /// Replaces one property.
    pub fn apply(&mut self, property: &ResolvedProperty<T, B>)
        ensures
            *final(self) == old(self).with(*property),
    {
        match property {
            ResolvedProperty::FontSize(value) => self.font_size = *value,
            ResolvedProperty::FontAttributes(value) => self.font_attrs = *value,
            ResolvedProperty::LineHeight(value) => self.line_height = *value,
            ResolvedProperty::WordSpacing(value) => self.word_spacing = *value,
            ResolvedProperty::LetterSpacing(value) => self.letter_spacing = *value,
            ResolvedProperty::WordBreak(value) => self.word_break = *value,
            ResolvedProperty::OverflowWrap(value) => self.overflow_wrap = *value,
            ResolvedProperty::TextWrapMode(value) => self.text_wrap_mode = *value,
            ResolvedProperty::WhiteSpaceCollapse(value) => self.white_space_collapse = *value,
            ResolvedProperty::Brush(value) => self.brush = value.duplicate(),
        }
    }

    /// The part of this style that line breaking reads.
    pub fn as_layout_style(&self) -> (r: Style<T>)
        ensures
            r == self.spec_as_layout_style(),
    {
        Style {
            line_height: self.line_height,
            white_space_collapse: self.white_space_collapse,
            text_wrap_mode: self.text_wrap_mode,
            overflow_wrap: self.overflow_wrap,
            word_break: self.word_break,
        }
    }
}

} // verus!
