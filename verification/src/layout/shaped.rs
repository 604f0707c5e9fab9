//! Shaped text: characters, the clusters they were shaped into, and runs.

use crate::scalar::Scalar;
use vstd::prelude::*;

verus! {

/// A half-open range of indices.
#[derive(Clone, Copy, Debug, PartialEq, Eq, Structural)]
pub struct Span {
    pub start: usize,
    pub end: usize,
}

impl Span {
    pub open spec fn spec_is_empty(self) -> bool {
        self.start >= self.end
    }

    pub open spec fn spec_len(self) -> int {
        if self.start < self.end {
            self.end - self.start
        } else {
            0
        }
    }

    pub fn is_empty(self) -> (r: bool)
        ensures
            r == self.spec_is_empty(),
    {
        self.start >= self.end
    }
}

/// The class of a white-space character.
#[derive(Clone, Copy, Debug, PartialEq, Eq, Structural)]
pub enum Whitespace {
    /// Not white space.
    NotSpace,
    Space,
    NoBreakSpace,
    Tab,
    Newline,
}

impl Whitespace {
    pub open spec fn spec_is_space_or_nbsp(self) -> bool {
        self == Whitespace::Space || self == Whitespace::NoBreakSpace
    }

    pub open spec fn spec_is_space_or_tab(self) -> bool {
        self == Whitespace::Space || self == Whitespace::Tab
    }

    /// Whether this is a space, breaking or not.
    pub fn is_space_or_nbsp(self) -> (r: bool)
        ensures
            r == self.spec_is_space_or_nbsp(),
    {
        matches!(self, Whitespace::Space | Whitespace::NoBreakSpace)
    }

    /// Whether this is a breaking space or a tab.
    pub fn is_space_or_tab(self) -> (r: bool)
        ensures
            r == self.spec_is_space_or_tab(),
    {
        matches!(self, Whitespace::Space | Whitespace::Tab)
    }
}

/// The boundary before a character that text analysis found.
#[derive(Clone, Copy, Debug, PartialEq, Eq, Structural)]
pub enum Boundary {
    /// No boundary.
    Inside,
    Word,
    Line,
    Mandatory,
}

/// A character of the source text.
#[derive(Clone, Copy, Debug, PartialEq, Eq, Structural)]
pub struct Character {
    /// Where the character lies in the source text, in bytes.
    pub text: Span,
    pub style_index: u16,
    pub whitespace: Whitespace,
    pub boundary: Boundary,
    pub source_char: char,
    /// Whether the character begins a grapheme cluster.
    pub grapheme_start: bool,
}

impl Character {
    pub open spec fn spec_is_ideographic_space(self) -> bool {
        self.source_char == '\u{3000}'
    }

    /// A space, tab or ideographic space: the white space that may hang or be
    /// removed at a line's end.
    pub open spec fn spec_is_line_end_space(self) -> bool {
        self.whitespace.spec_is_space_or_tab() || self.spec_is_ideographic_space()
    }

    /// Whether this is U+3000.
    pub fn is_ideographic_space(&self) -> (r: bool)
        ensures
            r == self.spec_is_ideographic_space(),
    {
        self.source_char == '\u{3000}'
    }

    /// Whether this is a space, tab or ideographic space.
    pub fn is_line_end_space(&self) -> (r: bool)
        ensures
            r == self.spec_is_line_end_space(),
    {
        self.whitespace.is_space_or_tab() || self.is_ideographic_space()
    }
}

/// A positioned glyph of a cluster.
#[derive(Clone, Copy, Debug)]
pub struct Glyph<T: Scalar> {
    pub id: u32,
    pub x: T,
    pub y: T,
    pub advance: T,
}

/// A span of characters and the glyphs they were shaped into.
#[derive(Clone, Copy, Debug)]
pub struct ShapedCluster<T: Scalar> {
    /// The characters of the cluster.
    pub chars: Span,
    pub advance: T,
    /// Whether the cluster begins at a grapheme boundary.
    pub grapheme_start: bool,
    /// The cluster's only glyph is held inline; its advance is the cluster's.
    pub has_inline_glyph: bool,
    /// The cluster's glyphs among the stored ones, where none is held inline.
    pub glyphs: Span,
}

/// Metrics of a font at the size of a run.
#[derive(Clone, Copy, Debug)]
pub struct FontMetrics<T: Scalar> {
    /// Distance from the baseline to the top of the alignment box.
    pub ascent: T,
    /// Distance from the baseline to the bottom of the alignment box.
    pub descent: T,
    /// Recommended additional spacing between lines.
    pub leading: T,
}

/// A run of text in one font, style and direction.
#[derive(Clone, Copy, Debug)]
pub struct ShapedRun<T: Scalar> {
    /// Where the run lies in the source text, in bytes.
    pub text: Span,
    pub characters: Span,
    pub clusters: Span,
    pub bidi_level: u8,
    /// The run's font among those of the text.
    pub font_index: usize,
    pub font_size: T,
    pub font_metrics: FontMetrics<T>,
}

/// The smallest span of text whose edges are both a grapheme and a cluster
/// boundary. It cannot be broken without shaping it again.
#[derive(Clone, Copy, Debug)]
pub struct Atom<T: Scalar> {
    pub clusters: Span,
    pub chars: Span,
    /// The sum of the advances of the atom's clusters.
    pub advance: T,
}

/// `fontique::Synthesis`, the adjustments that a font needs for rendering. A
/// layout hands it on and reads nothing of it.
#[verifier::external_type_specification]
#[verifier::external_body]
pub struct ExSynthesis(fontique::Synthesis);

/// The result of shaping a paragraph.
pub struct ShapedText<T: Scalar> {
    pub runs: Vec<ShapedRun<T>>,
    pub characters: Vec<Character>,
    pub clusters: Vec<ShapedCluster<T>>,
    pub glyphs: Vec<Glyph<T>>,
    pub fonts: Vec<fontique::Synthesis>,
}

impl<T: Scalar> ShapedText<T> {
    /// Clusters are not empty and come in text order, runs are not empty, and
    /// every range lies inside what it indexes.
    pub open spec fn wf(self) -> bool {
        &&& forall|i: int|
            0 <= i < self.clusters@.len() ==> (#[trigger] self.clusters@[i]).chars.start
                < self.clusters@[i].chars.end <= self.characters@.len()
        &&& forall|i: int, j: int|
            0 <= i < j < self.clusters@.len() ==> (#[trigger] self.clusters@[i]).chars.end <= (
            #[trigger] self.clusters@[j]).chars.start
        &&& forall|i: int|
            0 <= i < self.clusters@.len() ==> (#[trigger] self.clusters@[i]).glyphs.start
                <= self.clusters@[i].glyphs.end <= self.glyphs@.len()
        &&& forall|i: int|
            0 <= i < self.runs@.len() ==> (#[trigger] self.runs@[i]).clusters.start
                < self.runs@[i].clusters.end <= self.clusters@.len()
        &&& forall|i: int|
            0 <= i < self.runs@.len() ==> (#[trigger] self.runs@[i]).characters.start
                < self.characters@.len()
        &&& forall|i: int|
            0 <= i < self.runs@.len() ==> (#[trigger] self.runs@[i]).font_index < self.fonts@.len()
    }

    /// The first character of a cluster.
    pub open spec fn spec_first_character(self, cluster: int) -> Character {
        self.characters@[self.clusters@[cluster].chars.start as int]
    }

    /// `acc` plus the advances of the clusters `from..to`, added in order.
    pub open spec fn advances(self, acc: T, from: int, to: int) -> T
        decreases to - from,
    {
        if from >= to {
            acc
        } else {
            self.advances(acc.spec_plus(self.clusters@[from].advance), from + 1, to)
        }
    }

    /// The end of the atom that starts at the cluster `from`, in a run that
    /// ends at the cluster `bound`.
    pub open spec fn atom_end(self, from: int, bound: int) -> int
        decreases bound - from,
    {
        if from + 1 >= bound || self.clusters@[from + 1].grapheme_start {
            from + 1
        } else {
            self.atom_end(from + 1, bound)
        }
    }

    /// The atom that starts at the cluster `from`, in a run that ends at the
    /// cluster `bound`.
    pub open spec fn spec_atom(self, from: int, bound: int) -> Atom<T> {
        let end = self.atom_end(from, bound);
        Atom {
            clusters: Span { start: from as usize, end: end as usize },
            chars: Span {
                start: self.clusters@[from].chars.start,
                end: self.clusters@[end - 1].chars.end,
            },
            advance: self.advances(self.clusters@[from].advance, from + 1, end),
        }
    }

    /// The characters of the clusters `from..to`.
    pub open spec fn spec_chars_of(self, from: int, to: int) -> Span {
        if from >= to {
            Span { start: 0, end: 0 }
        } else {
            Span { start: self.clusters@[from].chars.start, end: self.clusters@[to - 1].chars.end }
        }
    }

    /// How many of the characters `from..to` begin a grapheme.
    pub open spec fn graphemes(self, from: int, to: int) -> nat
        decreases to - from,
    {
        if from >= to {
            0
        } else {
            self.graphemes(from, to - 1) + if self.characters@[to - 1].grapheme_start {
                1nat
            } else {
                0nat
            }
        }
    }

    /// How many graphemes begin in the clusters `from..to`.
    pub open spec fn cluster_graphemes(self, from: int, to: int) -> nat {
        let chars = self.spec_chars_of(from, to);
        self.graphemes(chars.start as int, chars.end as int)
    }

    pub proof fn lemma_atom_end(self, from: int, bound: int)
        requires
            from < bound,
        ensures
            from < self.atom_end(from, bound) <= bound,
        decreases bound - from,
    {
        if from + 1 >= bound || self.clusters@[from + 1].grapheme_start {
        } else {
            self.lemma_atom_end(from + 1, bound);
        }
    }

    pub proof fn lemma_graphemes_bound(self, from: int, to: int)
        ensures
            self.graphemes(from, to) <= if from < to {
                to - from
            } else {
                0
            },
        decreases to - from,
    {
        if from < to {
            self.lemma_graphemes_bound(from, to - 1);
        }
    }

    pub proof fn lemma_graphemes_split(self, from: int, mid: int, to: int)
        requires
            from <= mid <= to,
        ensures
            self.graphemes(from, to) == self.graphemes(from, mid) + self.graphemes(mid, to),
        decreases to - mid,
    {
        if mid < to {
            self.lemma_graphemes_split(from, mid, to - 1);
        }
    }

    pub fn first_character(&self, cluster: usize) -> (r: Character)
        requires
            self.wf(),
            cluster < self.clusters@.len(),
        ensures
            r == self.spec_first_character(cluster as int),
    {
        self.characters[self.clusters[cluster].chars.start]
    }

    /// The atom that starts at the cluster `from`, in a run that ends at the
    /// cluster `bound`.
    pub fn atom(&self, from: usize, bound: usize) -> (r: Atom<T>)
        requires
            self.wf(),
            from < bound <= self.clusters@.len(),
        ensures
            r == self.spec_atom(from as int, bound as int),
            from < r.clusters.end <= bound,
            r.chars.start < r.chars.end <= self.characters@.len(),
    {
        let mut advance = self.clusters[from].advance;
        let mut end: usize = from + 1;
        proof {
            self.lemma_atom_end(from as int, bound as int);
        }
        while end < bound && !self.clusters[end].grapheme_start
            invariant
                self.wf(),
                from < end <= bound <= self.clusters@.len(),
                self.atom_end(from as int, bound as int) == self.atom_end(end - 1, bound as int),
                end <= self.atom_end(from as int, bound as int),
                self.advances(
                    self.clusters@[from as int].advance,
                    from + 1,
                    self.atom_end(from as int, bound as int),
                ) == self.advances(
                    advance,
                    end as int,
                    self.atom_end(from as int, bound as int),
                ),
            decreases bound - end,
        {
            proof {
                self.lemma_atom_end(end as int, bound as int);
            }
            advance = advance.plus(self.clusters[end].advance);
            end = end + 1;
        }
        proof {
            if from + 1 < end {
                assert(self.clusters@[from as int].chars.end <= self.clusters@[end - 1].chars.start);
            }
        }
        Atom {
            clusters: Span { start: from, end },
            chars: Span {
                start: self.clusters[from].chars.start,
                end: self.clusters[end - 1].chars.end,
            },
            advance,
        }
    }

    /// The sum of the advances of the clusters `from..to`.
    pub fn advance_of(&self, from: usize, to: usize) -> (r: T)
        requires
            to <= self.clusters@.len(),
        ensures
            r == self.advances(T::spec_zero(), from as int, to as int),
    {
        let mut sum = T::zero();
        let mut i: usize = from;
        while i < to
            invariant
                from <= i,
                from <= to ==> i <= to,
                from > to ==> i == from,
                to <= self.clusters@.len(),
                self.advances(T::spec_zero(), from as int, to as int) == self.advances(
                    sum,
                    i as int,
                    to as int,
                ),
            decreases to - i,
        {
            sum = sum.plus(self.clusters[i].advance);
            i = i + 1;
        }
        sum
    }

    /// The characters of the clusters `from..to`.
    pub fn chars_of(&self, from: usize, to: usize) -> (r: Span)
        requires
            self.wf(),
            to <= self.clusters@.len(),
        ensures
            r == self.spec_chars_of(from as int, to as int),
            r.start <= r.end <= self.characters@.len(),
            from < to ==> r.start < r.end,
    {
        if from >= to {
            Span { start: 0, end: 0 }
        } else {
            proof {
                if from + 1 < to {
                    assert(self.clusters@[from as int].chars.end
                        <= self.clusters@[to - 1].chars.start);
                }
            }
            Span { start: self.clusters[from].chars.start, end: self.clusters[to - 1].chars.end }
        }
    }

    /// How many graphemes begin in the clusters `from..to`.
    pub fn count_graphemes(&self, from: usize, to: usize) -> (r: usize)
        requires
            self.wf(),
            to <= self.clusters@.len(),
        ensures
            r == self.cluster_graphemes(from as int, to as int),
    {
        let chars = self.chars_of(from, to);
        let mut count: usize = 0;
        let mut i: usize = chars.start;
        while i < chars.end
            invariant
                chars.start <= i <= chars.end <= self.characters@.len(),
                count <= i - chars.start,
                count == self.graphemes(chars.start as int, i as int),
            decreases chars.end - i,
        {
            if self.characters[i].grapheme_start {
                count = count + 1;
            }
            i = i + 1;
        }
        count
    }
}

} // verus!
