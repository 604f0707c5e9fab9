//! The style properties that layout reads.

use crate::scalar::Scalar;
use vstd::prelude::*;

verus! {

/// Whether text may wrap at soft wrap opportunities.
#[derive(Clone, Copy, Debug, PartialEq, Eq, Structural)]
pub enum TextWrapMode {
    Wrap,
    NoWrap,
}

/// Whether an otherwise unbreakable word may be broken to avoid overflow.
#[derive(Clone, Copy, Debug, PartialEq, Eq, Structural)]
pub enum OverflowWrap {
    Normal,
    /// Emergency breaks count for intrinsic sizes too.
    Anywhere,
    /// Emergency breaks do not count for intrinsic sizes.
    BreakWord,
}

/// How words break at soft wrap opportunities inside them.
#[derive(Clone, Copy, Debug, PartialEq, Eq, Structural)]
pub enum WordBreak {
    Normal,
    BreakAll,
    KeepAll,
}

/// How white space in the source text is processed.
#[derive(Clone, Copy, Debug, PartialEq, Eq, Structural)]
pub enum WhiteSpaceCollapse {
    Collapse,
    Preserve,
    PreserveBreaks,
    PreserveSpaces,
    BreakSpaces,
}

/// What happens to white space at the end of a line.
#[derive(Clone, Copy, Debug, PartialEq, Eq, Structural)]
pub enum EndOfLineWhitespace {
    /// It stays where it is and counts for the line's width.
    TakesUpSpace,
    /// It is removed.
    Remove,
    /// It hangs past the line's end edge.
    Hang,
}

/// The direction of a paragraph.
#[derive(Clone, Copy, Debug, PartialEq, Eq, Structural)]
pub enum BaseDirection {
    /// The direction of the first strong character.
    Auto,
    Ltr,
    Rtl,
}

/// The height of a line of text.
#[derive(Clone, Copy, Debug)]
pub enum LineHeight<T: Scalar> {
    /// A multiple of the font's ascent, descent and leading.
    MetricsRelative(T),
    /// A multiple of the font size.
    FontSizeRelative(T),
    /// A length.
    Absolute(T),
}

/// The slant of a font.
#[derive(Clone, Copy, Debug)]
pub enum FontStyle<T: Scalar> {
    Normal,
    Italic,
    /// Slanted by an angle in degrees, or by the font's own.
    Oblique(Option<T>),
}

/// The attributes by which a font is selected.
#[derive(Clone, Copy, Debug)]
pub struct FontAttributes<T: Scalar> {
    pub width: T,
    pub weight: T,
    pub style: FontStyle<T>,
}

impl<T: Scalar> LineHeight<T> {
    pub open spec fn spec_same(self, other: Self) -> bool {
        match (self, other) {
            (LineHeight::MetricsRelative(a), LineHeight::MetricsRelative(b)) => a.spec_same(b),
            (LineHeight::FontSizeRelative(a), LineHeight::FontSizeRelative(b)) => a.spec_same(b),
            (LineHeight::Absolute(a), LineHeight::Absolute(b)) => a.spec_same(b),
            _ => false,
        }
    }

    /// Whether two line heights are of one kind and numerically equal.
    pub fn same(self, other: Self) -> (r: bool)
        ensures
            r == self.spec_same(other),
    {
        match (self, other) {
            (LineHeight::MetricsRelative(a), LineHeight::MetricsRelative(b)) => a.same(b),
            (LineHeight::FontSizeRelative(a), LineHeight::FontSizeRelative(b)) => a.same(b),
            (LineHeight::Absolute(a), LineHeight::Absolute(b)) => a.same(b),
            _ => false,
        }
    }
}

impl<T: Scalar> FontAttributes<T> {
    pub open spec fn spec_same(self, other: Self) -> bool {
        &&& self.width.spec_same(other.width)
        &&& self.weight.spec_same(other.weight)
        &&& match (self.style, other.style) {
            (FontStyle::Normal, FontStyle::Normal) => true,
            (FontStyle::Italic, FontStyle::Italic) => true,
            (FontStyle::Oblique(None), FontStyle::Oblique(None)) => true,
            (FontStyle::Oblique(Some(a)), FontStyle::Oblique(Some(b))) => a.spec_same(b),
            _ => false,
        }
    }

    /// Whether two sets of attributes are numerically equal.
    pub fn same(self, other: Self) -> (r: bool)
        ensures
            r == self.spec_same(other),
    {
        let same_style = match (self.style, other.style) {
            (FontStyle::Normal, FontStyle::Normal) => true,
            (FontStyle::Italic, FontStyle::Italic) => true,
            (FontStyle::Oblique(None), FontStyle::Oblique(None)) => true,
            (FontStyle::Oblique(Some(a)), FontStyle::Oblique(Some(b))) => a.same(b),
            _ => false,
        };
        self.width.same(other.width) && self.weight.same(other.weight) && same_style
    }
}

/// Which lines the text indent applies to.
#[derive(Clone, Copy, Debug, PartialEq, Eq, Structural)]
pub struct IndentOptions {
    /// Indent the line after each forced break, not only the first line.
    pub each_line: bool,
    /// Invert which lines are indented.
    pub hanging: bool,
}

impl WhiteSpaceCollapse {
    pub open spec fn spec_end_of_line_whitespace(self, wrap: TextWrapMode) -> EndOfLineWhitespace {
        match self {
            WhiteSpaceCollapse::Collapse
            | WhiteSpaceCollapse::PreserveBreaks => EndOfLineWhitespace::Remove,
            WhiteSpaceCollapse::Preserve | WhiteSpaceCollapse::PreserveSpaces => match wrap {
                TextWrapMode::Wrap => EndOfLineWhitespace::Hang,
                TextWrapMode::NoWrap => EndOfLineWhitespace::TakesUpSpace,
            },
            WhiteSpaceCollapse::BreakSpaces => EndOfLineWhitespace::TakesUpSpace,
        }
    }

    /// What becomes of white space at the end of a line: collapsible spaces
    /// are removed, preserved ones hang if the text wraps, and `break-spaces`
    /// keeps all of them in place.
    pub fn end_of_line_whitespace(self, wrap: TextWrapMode) -> (r: EndOfLineWhitespace)
        ensures
            r == self.spec_end_of_line_whitespace(wrap),
    {
        match self {
            WhiteSpaceCollapse::Collapse
            | WhiteSpaceCollapse::PreserveBreaks => EndOfLineWhitespace::Remove,
            WhiteSpaceCollapse::Preserve | WhiteSpaceCollapse::PreserveSpaces => match wrap {
                TextWrapMode::Wrap => EndOfLineWhitespace::Hang,
                TextWrapMode::NoWrap => EndOfLineWhitespace::TakesUpSpace,
            },
            WhiteSpaceCollapse::BreakSpaces => EndOfLineWhitespace::TakesUpSpace,
        }
    }
}

/// The part of a resolved style that a layout keeps for line breaking.
#[derive(Clone, Copy, Debug)]
pub struct Style<T: Scalar> {
    pub line_height: LineHeight<T>,
    pub white_space_collapse: WhiteSpaceCollapse,
    pub text_wrap_mode: TextWrapMode,
    pub overflow_wrap: OverflowWrap,
    pub word_break: WordBreak,
}

impl<T: Scalar> Style<T> {
    pub open spec fn spec_end_of_line(self) -> EndOfLineWhitespace {
        self.white_space_collapse.spec_end_of_line_whitespace(self.text_wrap_mode)
    }

    /// What becomes of this style's white space at the end of a line.
    pub fn end_of_line(&self) -> (r: EndOfLineWhitespace)
        ensures
            r == self.spec_end_of_line(),
    {
        self.white_space_collapse.end_of_line_whitespace(self.text_wrap_mode)
    }
}

} // verus!
