//! Filling a layout with shaped runs and inline boxes.

use crate::layout::data::{Layout, LayoutData, LayoutItem, LayoutItemKind, RunData};
use crate::layout::shaped::{Character, Glyph, ShapedCluster, ShapedText};
use crate::resolve::{Brush, ResolvedStyle};
use crate::scalar::Scalar;
use crate::style::{FontAttributes, IndentOptions, LineHeight};
use vstd::prelude::*;

verus! {

/// The clusters and glyphs of shaped text.
pub struct Spaced<T: Scalar> {
    pub clusters: Seq<ShapedCluster<T>>,
    pub glyphs: Seq<Glyph<T>>,
}

/// The spacing after a cluster. Word spacing applies to spaces.
pub open spec fn spacing_of<T: Scalar>(first: Character, word: T, letter: T) -> T {
    if !word.spec_nearly_zero() && first.whitespace.spec_is_space_or_nbsp() {
        letter.spec_plus(word)
    } else {
        letter
    }
}

impl<T: Scalar> Spaced<T> {
    /// The clusters with spacing added to one of them, and to its last glyph
    /// unless its glyph is held inline.
    pub open spec fn with_spacing(self, index: int, spacing: T) -> Self {
        let cluster = self.clusters[index];
        if spacing.spec_nearly_zero() {
            self
        } else {
            let last = cluster.glyphs.end - 1;
            Spaced {
                clusters: self.clusters.update(
                    index,
                    ShapedCluster { advance: cluster.advance.spec_plus(spacing), ..cluster },
                ),
                glyphs: if !cluster.has_inline_glyph && cluster.glyphs.start < cluster.glyphs.end {
                    self.glyphs.update(
                        last,
                        Glyph {
                            advance: self.glyphs[last].advance.spec_plus(spacing),
                            ..self.glyphs[last]
                        },
                    )
                } else {
                    self.glyphs
                },
            }
        }
    }

    /// The clusters with spacing added to those of `from..to`.
    pub open spec fn with_spaced_clusters(
        self,
        characters: Seq<Character>,
        word: T,
        letter: T,
        from: int,
        to: int,
    ) -> Self
        decreases to - from,
    {
        if from >= to {
            self
        } else {
            let first = characters[self.clusters[from].chars.start as int];
            self.with_spacing(from, spacing_of(first, word, letter)).with_spaced_clusters(
                characters,
                word,
                letter,
                from + 1,
                to,
            )
        }
    }

    /// The clusters with the spacing of the runs from `run` on.
    pub open spec fn with_spaced_runs(self, layout: LayoutData<T>, run: int) -> Self
        decreases layout.runs@.len() - run,
    {
        if run >= layout.runs@.len() {
            self
        } else {
            let word = layout.runs@[run].word_spacing;
            let letter = layout.runs@[run].letter_spacing;
            let clusters = layout.shaped_text.runs@[run].clusters;
            let next = if word.spec_nearly_zero() && letter.spec_nearly_zero() {
                self
            } else {
                self.with_spaced_clusters(
                    layout.shaped_text.characters@,
                    word,
                    letter,
                    clusters.start as int,
                    clusters.end as int,
                )
            };
            next.with_spaced_runs(layout, run + 1)
        }
    }
}

impl<T: Scalar> ShapedText<T> {
    pub open spec fn spaced(self) -> Spaced<T> {
        Spaced { clusters: self.clusters@, glyphs: self.glyphs@ }
    }

    /// The texts agree but for the advances of clusters and glyphs.
    pub open spec fn same_but_advances(self, other: Self) -> bool {
        &&& self.runs == other.runs
        &&& self.characters == other.characters
        &&& self.fonts == other.fonts
        &&& self.clusters@.len() == other.clusters@.len()
        &&& self.glyphs@.len() == other.glyphs@.len()
        &&& forall|i: int|
            0 <= i < self.clusters@.len() ==> (ShapedCluster {
                advance: other.clusters@[i].advance,
                ..#[trigger] self.clusters@[i]
            }) == other.clusters@[i]
        &&& forall|i: int|
            0 <= i < self.glyphs@.len() ==> (Glyph {
                advance: other.glyphs@[i].advance,
                ..#[trigger] self.glyphs@[i]
            }) == other.glyphs@[i]
    }

    fn add_spacing(&mut self, cluster: usize, spacing: T)
        requires
            old(self).wf(),
            cluster < old(self).clusters@.len(),
        ensures
            final(self).spaced() == old(self).spaced().with_spacing(cluster as int, spacing),
            final(self).same_but_advances(*old(self)),
            final(self).wf(),
    {
        if spacing.nearly_zero() {
            return;
        }
        let mut data = self.clusters[cluster];
        data.advance = data.advance.plus(spacing);
        self.clusters[cluster] = data;
        if !data.has_inline_glyph && data.glyphs.start < data.glyphs.end {
            let last: usize = data.glyphs.end - 1;
            let mut glyph = self.glyphs[last];
            glyph.advance = glyph.advance.plus(spacing);
            self.glyphs[last] = glyph;
        }
    }
}

/// The line height of a run in a style.
pub open spec fn run_line_height<T: Scalar>(
    line_height: LineHeight<T>,
    font_size: T,
    ascent: T,
    descent: T,
    leading: T,
) -> T {
    match line_height {
        LineHeight::Absolute(value) => value,
        LineHeight::FontSizeRelative(value) => value.spec_times(font_size),
        LineHeight::MetricsRelative(value) => ascent.spec_plus(descent).spec_plus(
            leading,
        ).spec_times(value),
    }
}

impl<T: Scalar> Layout<T> {
    /// An empty layout.
    pub fn new() -> (r: Self)
        ensures
            r.data.wf(),
            r.is_clear(),
            r.layout_max_advance == T::spec_zero(),
            !r.is_aligned_justified,
            r.data.indent_amount == T::spec_zero(),
            r.data.indent_options == (IndentOptions { each_line: false, hanging: false }),
    {
        Layout {
            data: LayoutData {
                scale: T::one(),
                quantize: true,
                base_level: 0,
                text_len: 0,
                root_style_index: 0,
                styles: Vec::new(),
                inline_boxes: Vec::new(),
                shaped_text: ShapedText::new(),
                runs: Vec::new(),
                items: Vec::new(),
                indent_amount: T::zero(),
                indent_options: IndentOptions { each_line: false, hanging: false },
            },
            lines: Vec::new(),
            line_items: Vec::new(),
            layout_max_advance: T::zero(),
            width: T::zero(),
            full_width: T::zero(),
            height: T::zero(),
            is_aligned_justified: false,
        }
    }

    /// The layout holds no content.
    pub open spec fn is_clear(self) -> bool {
        &&& self.data.is_clear()
        &&& self.lines@.len() == 0
        &&& self.line_items@.len() == 0
        &&& self.width == T::spec_zero()
        &&& self.full_width == T::spec_zero()
        &&& self.height == T::spec_zero()
    }

    /// Drops all content. The text indent and what alignment and line breaking
    /// last used are kept.
    pub fn clear(&mut self)
        ensures
            final(self).data.wf(),
            final(self).is_clear(),
            final(self).layout_max_advance == old(self).layout_max_advance,
            final(self).is_aligned_justified == old(self).is_aligned_justified,
            final(self).data.indent_amount == old(self).data.indent_amount,
            final(self).data.indent_options == old(self).data.indent_options,
    {
        self.data.scale = T::one();
        self.data.quantize = true;
        self.data.base_level = 0;
        self.data.text_len = 0;
        self.data.root_style_index = 0;
        self.data.styles.clear();
        self.data.inline_boxes.clear();
        self.data.shaped_text.clear();
        self.data.runs.clear();
        self.data.items.clear();
        self.lines.clear();
        self.line_items.clear();
        self.width = T::zero();
        self.full_width = T::zero();
        self.height = T::zero();
    }
}

impl<T: Scalar> LayoutData<T> {
    /// The paragraph holds no content.
    pub open spec fn is_clear(self) -> bool {
        &&& self.scale == T::spec_one()
        &&& self.quantize
        &&& self.base_level == 0
        &&& self.text_len == 0
        &&& self.root_style_index == 0
        &&& self.styles@.len() == 0
        &&& self.inline_boxes@.len() == 0
        &&& self.shaped_text.runs@.len() == 0
        &&& self.shaped_text.characters@.len() == 0
        &&& self.shaped_text.clusters@.len() == 0
        &&& self.shaped_text.glyphs@.len() == 0
        &&& self.shaped_text.fonts@.len() == 0
        &&& self.runs@.len() == 0
        &&& self.items@.len() == 0
    }

    /// Appends an inline box to the items.
    pub fn push_inline_box(&mut self, index: usize, bidi_level: u8, style_after: Option<u16>)
        ensures
            final(self).items@ == old(self).items@.push(
                LayoutItem { kind: LayoutItemKind::InlineBox, index, bidi_level, style_after },
            ),
            *final(self) == (LayoutData { items: final(self).items, ..*old(self) }),
    {
        self.items.push(
            LayoutItem { kind: LayoutItemKind::InlineBox, index, bidi_level, style_after },
        );
    }

    /// The data that the layout keeps of a shaped run.
    pub open spec fn run_data(
        self,
        run: int,
        font_attrs: FontAttributes<T>,
        word_spacing: T,
        letter_spacing: T,
    ) -> RunData<T> {
        let shaped = self.shaped_text.runs@[run];
        let first = self.shaped_text.characters@[shaped.characters.start as int];
        RunData {
            font_attrs,
            synthesis: self.shaped_text.fonts@[shaped.font_index as int],
            line_height: run_line_height(
                self.spec_style_of(first).line_height,
                shaped.font_size,
                shaped.font_metrics.ascent,
                shaped.font_metrics.descent,
                shaped.font_metrics.leading,
            ),
            word_spacing,
            letter_spacing,
        }
    }

    /// Appends a shaped run to the runs and items. Its line height is that of
    /// the style of its first character.
    pub fn process_shaped_run<B: Brush>(
        &mut self,
        shaped_run_idx: usize,
        run_style: &ResolvedStyle<T, B>,
        word_spacing: T,
        letter_spacing: T,
    )
        requires
            old(self).shaped_text.wf(),
            shaped_run_idx < old(self).shaped_text.runs@.len(),
            forall|i: int|
                0 <= i < old(self).shaped_text.characters@.len() ==> (#[trigger] old(
                    self,
                ).shaped_text.characters@[i]).style_index < old(self).styles@.len(),
        ensures
            final(self).runs@ == old(self).runs@.push(
                old(self).run_data(
                    shaped_run_idx as int,
                    run_style.font_attrs,
                    word_spacing,
                    letter_spacing,
                ),
            ),
            final(self).items@ == old(self).items@.push(
                LayoutItem {
                    kind: LayoutItemKind::TextRun,
                    index: old(self).runs@.len() as usize,
                    bidi_level: old(self).shaped_text.runs@[shaped_run_idx as int].bidi_level,
                    style_after: None,
                },
            ),
            *final(self) == (LayoutData {
                runs: final(self).runs,
                items: final(self).items,
                ..*old(self)
            }),
    {
        let shaped = self.shaped_text.runs[shaped_run_idx];
        let first = self.shaped_text.characters[shaped.characters.start];
        let line_height = match self.style_of(&first).line_height {
            LineHeight::Absolute(value) => value,
            LineHeight::FontSizeRelative(value) => value.times(shaped.font_size),
            LineHeight::MetricsRelative(value) => shaped.font_metrics.ascent.plus(
                shaped.font_metrics.descent,
            ).plus(shaped.font_metrics.leading).times(value),
        };
        let index: usize = self.runs.len();
        self.runs.push(
            RunData {
                font_attrs: run_style.font_attrs,
                synthesis: self.shaped_text.fonts[shaped.font_index],
                line_height,
                word_spacing,
                letter_spacing,
            },
        );
        self.items.push(
            LayoutItem {
                kind: LayoutItemKind::TextRun,
                index,
                bidi_level: shaped.bidi_level,
                style_after: None,
            },
        );
    }

    /// Adds the letter and word spacing of the runs to their clusters.
    pub fn finish(&mut self)
        requires
            old(self).wf(),
        ensures
            final(self).shaped_text.spaced() == old(self).shaped_text.spaced().with_spaced_runs(
                *old(self),
                0,
            ),
            final(self).shaped_text.same_but_advances(old(self).shaped_text),
            *final(self) == (LayoutData { shaped_text: final(self).shaped_text, ..*old(self) }),
            final(self).wf(),
    {
        let ghost given = *self;
        let ghost target = self.shaped_text.spaced().with_spaced_runs(given, 0);
        let mut run: usize = 0;
        while run < self.runs.len()
            invariant
                run <= self.runs@.len(),
                given == *old(self),
                given.wf(),
                *self == (LayoutData { shaped_text: self.shaped_text, ..given }),
                self.shaped_text.wf(),
                self.shaped_text.same_but_advances(given.shaped_text),
                target == given.shaped_text.spaced().with_spaced_runs(given, 0),
                target == self.shaped_text.spaced().with_spaced_runs(given, run as int),
            decreases self.runs@.len() - run,
        {
            let word = self.runs[run].word_spacing;
            let letter = self.runs[run].letter_spacing;
            if !(word.nearly_zero() && letter.nearly_zero()) {
                let clusters = self.shaped_text.runs[run].clusters;
                let ghost spaced = self.shaped_text.spaced().with_spaced_clusters(
                    given.shaped_text.characters@,
                    word,
                    letter,
                    clusters.start as int,
                    clusters.end as int,
                );
                let mut cluster: usize = clusters.start;
                while cluster < clusters.end
                    invariant
                        clusters.start <= cluster <= clusters.end,
                        clusters.end <= self.shaped_text.clusters@.len(),
                        *self == (LayoutData { shaped_text: self.shaped_text, ..given }),
                        self.shaped_text.wf(),
                        self.shaped_text.same_but_advances(given.shaped_text),
                        spaced == self.shaped_text.spaced().with_spaced_clusters(
                            given.shaped_text.characters@,
                            word,
                            letter,
                            cluster as int,
                            clusters.end as int,
                        ),
                    decreases clusters.end - cluster,
                {
                    let first = self.shaped_text.first_character(cluster);
                    let mut spacing = letter;
                    if !word.nearly_zero() && first.whitespace.is_space_or_nbsp() {
                        spacing = spacing.plus(word);
                    }
                    let ghost before = self.shaped_text;
                    self.shaped_text.add_spacing(cluster, spacing);
                    proof {
                        assert forall|i: int| 0 <= i < self.shaped_text.clusters@.len() implies (
                        ShapedCluster {
                            advance: given.shaped_text.clusters@[i].advance,
                            ..#[trigger] self.shaped_text.clusters@[i]
                        }) == given.shaped_text.clusters@[i] by {
                            assert(before.clusters@[i].chars == given.shaped_text.clusters@[i].chars);
                        }
                        assert forall|i: int| 0 <= i < self.shaped_text.glyphs@.len() implies (
                        Glyph {
                            advance: given.shaped_text.glyphs@[i].advance,
                            ..#[trigger] self.shaped_text.glyphs@[i]
                        }) == given.shaped_text.glyphs@[i] by {
                            assert(before.glyphs@[i].id == given.shaped_text.glyphs@[i].id);
                        }
                    }
                    cluster = cluster + 1;
                }
            }
            run = run + 1;
        }
        proof {
            self.lemma_spacing_keeps_wf(given);
        }
    }

    proof fn lemma_spacing_keeps_wf(self, given: Self)
        requires
            given.wf(),
            self == (LayoutData { shaped_text: self.shaped_text, ..given }),
            self.shaped_text.wf(),
            self.shaped_text.same_but_advances(given.shaped_text),
        ensures
            self.wf(),
    {
        assert forall|i: int| 0 <= i < self.items@.len() implies #[trigger] self.item_wf(i) by {
            assert(given.item_wf(i));
            self.lemma_spacing_keeps_clusters(given, i);
        }
    }

    proof fn lemma_spacing_keeps_clusters(self, given: Self, item: int)
        requires
            self.items == given.items,
            self.shaped_text.runs == given.shaped_text.runs,
        ensures
            self.clusters_before(item) == given.clusters_before(item),
        decreases item,
    {
        if item > 0 {
            self.lemma_spacing_keeps_clusters(given, item - 1);
        }
    }
}

/// Runs without letter or word spacing leave the shaped text as it is.
pub proof fn lemma_no_spacing_changes_nothing<T: Scalar>(
    text: Spaced<T>,
    layout: LayoutData<T>,
    run: int,
)
    requires
        0 <= run,
        forall|i: int|
            0 <= i < layout.runs@.len() ==> (#[trigger] layout.runs@[i]).word_spacing.spec_nearly_zero()
                && layout.runs@[i].letter_spacing.spec_nearly_zero(),
    ensures
        text.with_spaced_runs(layout, run) == text,
    decreases layout.runs@.len() - run,
{
    if run < layout.runs@.len() {
        lemma_no_spacing_changes_nothing(text, layout, run + 1);
    }
}

impl<T: Scalar> ShapedText<T> {
    /// No text.
    pub fn new() -> (r: Self)
        ensures
            r.wf(),
            r.runs@.len() == 0,
            r.characters@.len() == 0,
            r.clusters@.len() == 0,
            r.glyphs@.len() == 0,
            r.fonts@.len() == 0,
    {
        ShapedText {
            runs: Vec::new(),
            characters: Vec::new(),
            clusters: Vec::new(),
            glyphs: Vec::new(),
            fonts: Vec::new(),
        }
    }

    /// Drops all text.
    pub fn clear(&mut self)
        ensures
            final(self).wf(),
            final(self).runs@.len() == 0,
            final(self).characters@.len() == 0,
            final(self).clusters@.len() == 0,
            final(self).glyphs@.len() == 0,
            final(self).fonts@.len() == 0,
    {
        self.runs.clear();
        self.characters.clear();
        self.clusters.clear();
        self.glyphs.clear();
        self.fonts.clear();
    }
}

} // verus!
