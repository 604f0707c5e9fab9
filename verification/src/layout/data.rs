//! The data of a layout: its input from shaping and its lines.

use crate::inline_box::InlineBox;
use crate::layout::shaped::{Character, ShapedText, Span, Whitespace};
use crate::scalar::Scalar;
use crate::style::{EndOfLineWhitespace, FontAttributes, IndentOptions, Style};
use vstd::prelude::*;

verus! {

/// What a layout keeps of a shaped run.
pub struct RunData<T: Scalar> {
    /// The attributes of the run's font.
    pub font_attrs: FontAttributes<T>,
    /// The adjustments the run's font needs for rendering.
    pub synthesis: fontique::Synthesis,
    pub line_height: T,
    /// Additional advance of each space.
    pub word_spacing: T,
    /// Additional advance of each cluster.
    pub letter_spacing: T,
}

/// Why a line ends where it does.
#[derive(Clone, Copy, Debug, PartialEq, Eq, Structural)]
pub enum BreakReason {
    /// The text ended.
    NoBreak,
    /// A soft wrap opportunity was taken.
    Regular,
    /// The text holds a forced break.
    Explicit,
    /// A word was broken because nothing else fitted.
    Emergency,
}

/// The geometry of a line.
#[derive(Clone, Copy, Debug)]
pub struct LineMetrics<T: Scalar> {
    /// The advance of the line's content, hanging white space with it.
    pub advance: T,
    /// The advance of the white space that hangs past the line's end.
    pub trailing_whitespace: T,
    /// The offset that alignment gives the line.
    pub offset: T,
    pub line_height: T,
    pub baseline: T,
    pub block_min_coord: T,
    pub block_max_coord: T,
    pub content_block_min_coord: T,
    pub content_block_max_coord: T,
    pub inline_min_coord: T,
    pub inline_max_coord: T,
}

impl<T: Scalar> LineMetrics<T> {
    /// Metrics that are zero but for the advance.
    pub open spec fn spec_of_advance(advance: T) -> Self {
        let zero = T::spec_zero();
        LineMetrics {
            advance,
            trailing_whitespace: zero,
            offset: zero,
            line_height: zero,
            baseline: zero,
            block_min_coord: zero,
            block_max_coord: zero,
            content_block_min_coord: zero,
            content_block_max_coord: zero,
            inline_min_coord: zero,
            inline_max_coord: zero,
        }
    }

    /// Metrics that are zero but for the advance.
    pub fn of_advance(advance: T) -> (r: Self)
        ensures
            r == Self::spec_of_advance(advance),
    {
        let zero = T::zero();
        LineMetrics {
            advance,
            trailing_whitespace: zero,
            offset: zero,
            line_height: zero,
            baseline: zero,
            block_min_coord: zero,
            block_max_coord: zero,
            content_block_min_coord: zero,
            content_block_max_coord: zero,
            inline_min_coord: zero,
            inline_max_coord: zero,
        }
    }
}

/// A line of a layout.
#[derive(Clone, Copy, Debug)]
pub struct LineData<T: Scalar> {
    /// The range of the source text, in bytes.
    pub text_range: Span,
    /// The range of the line's items.
    pub item_range: Span,
    pub metrics: LineMetrics<T>,
    pub break_reason: BreakReason,
    /// The advance that was available to the line.
    pub max_advance: T,
    /// The number of spaces that justification may stretch.
    pub num_spaces: usize,
    /// The text indent applied to the line.
    pub indent: T,
}

impl<T: Scalar> LineData<T> {
    /// The height of the line.
    pub fn size(&self) -> (r: T)
        ensures
            r == self.metrics.line_height,
    {
        self.metrics.line_height
    }
}

/// Whether an item is a text run or an inline box.
#[derive(Clone, Copy, Debug, PartialEq, Eq, Structural)]
pub enum LayoutItemKind {
    TextRun,
    InlineBox,
}

/// A run or box on a line.
#[derive(Clone, Copy, Debug)]
pub struct LineItemData<T: Scalar> {
    pub kind: LayoutItemKind,
    /// The index of the run or box in the layout.
    pub index: usize,
    pub bidi_level: u8,
    /// The item's contribution to the line's advance.
    pub advance: T,
    /// The item is text that holds only white space that may be removed or
    /// hang.
    pub is_ignorable_whitespace: bool,
    /// The range of the source text, in bytes.
    pub text_range: Span,
    /// White space of this item that is removed at the line's end. It keeps
    /// its place in the source text, with no advance on this line.
    pub removed_text_range: Span,
    /// The run's clusters on this line.
    pub shaped_cluster_range: Span,
    /// The run's graphemes on this line, counted from the run's start.
    pub grapheme_range: Span,
}

/// A run or box in text order.
#[derive(Clone, Copy, Debug)]
pub struct LayoutItem {
    pub kind: LayoutItemKind,
    /// The index of the run or box in the layout.
    pub index: usize,
    pub bidi_level: u8,
    /// The style that becomes current after this item. Text takes its style
    /// from its characters; inline edges may change it.
    pub style_after: Option<u16>,
}

/// The intrinsic widths of a layout.
#[derive(Clone, Copy, Debug)]
pub struct ContentWidths<T: Scalar> {
    /// The width if every break opportunity is taken.
    pub min: T,
    /// The width if only forced breaks are taken.
    pub max: T,
}

/// A paragraph of shaped text and inline boxes, from which lines are broken.
pub struct LayoutData<T: Scalar> {
    /// The display scale factor.
    pub scale: T,
    /// Whether metrics are quantized to pixel boundaries.
    pub quantize: bool,
    /// The embedding level of the paragraph.
    pub base_level: u8,
    /// The length of the text, in bytes.
    pub text_len: usize,
    /// The style of the root of the inline formatting context.
    pub root_style_index: u16,
    pub styles: Vec<Style<T>>,
    pub inline_boxes: Vec<InlineBox<T>>,
    pub shaped_text: ShapedText<T>,
    pub runs: Vec<RunData<T>>,
    /// The runs and boxes in text order.
    pub items: Vec<LayoutItem>,
    pub indent_amount: T,
    pub indent_options: IndentOptions,
}

/// A paragraph and its lines.
pub struct Layout<T: Scalar> {
    pub data: LayoutData<T>,
    pub lines: Vec<LineData<T>>,
    /// The items of all lines.
    pub line_items: Vec<LineItemData<T>>,
    /// The advance that the lines were broken for.
    pub layout_max_advance: T,
    /// The width of the widest line without its trailing white space.
    pub width: T,
    /// The width of the widest line with its trailing white space.
    pub full_width: T,
    pub height: T,
    pub is_aligned_justified: bool,
}

impl<T: Scalar> LayoutData<T> {
    /// The number of clusters of the text runs among the items before `item`.
    pub open spec fn clusters_before(self, item: int) -> int
        decreases item,
    {
        if item <= 0 {
            0
        } else {
            self.clusters_before(item - 1) + self.clusters_in(item - 1)
        }
    }

    /// The number of clusters in an item.
    pub open spec fn clusters_in(self, item: int) -> int {
        if self.spec_is_text(item) {
            self.shaped_text.runs@[self.items@[item].index as int].clusters.spec_len()
        } else {
            0
        }
    }

    pub open spec fn spec_is_text(self, item: int) -> bool {
        self.items@[item].kind == LayoutItemKind::TextRun
    }

    /// Every index lies inside what it indexes, and the text runs among the
    /// items follow each other without a gap.
    pub open spec fn wf(self) -> bool {
        &&& self.shaped_text.wf()
        &&& self.runs@.len() == self.shaped_text.runs@.len()
        &&& forall|i: int|
            0 <= i < self.shaped_text.characters@.len() ==> (
            #[trigger] self.shaped_text.characters@[i]).style_index < self.styles@.len()
        &&& forall|i: int| 0 <= i < self.items@.len() ==> #[trigger] self.item_wf(i)
        &&& self.items@.len() < usize::MAX
        &&& self.items@.len() > 0 ==> self.root_style_index < self.styles@.len()
    }

    pub open spec fn item_wf(self, item: int) -> bool {
        let data = self.items@[item];
        &&& data.style_after matches Some(style) ==> style < self.styles@.len()
        &&& match data.kind {
            LayoutItemKind::TextRun => {
                &&& data.index < self.shaped_text.runs@.len()
                &&& self.shaped_text.runs@[data.index as int].clusters.start
                    == self.clusters_before(item)
            },
            LayoutItemKind::InlineBox => data.index < self.inline_boxes@.len(),
        }
    }

    pub open spec fn spec_style_of(self, character: Character) -> Style<T> {
        self.styles@[character.style_index as int]
    }

    pub open spec fn removable(self, character: Character) -> bool {
        &&& character.whitespace != Whitespace::NotSpace
        &&& character.whitespace != Whitespace::NoBreakSpace
        &&& self.spec_style_of(character).spec_end_of_line() != EndOfLineWhitespace::TakesUpSpace
    }

    /// Whether the clusters of a range hold characters, all of them white
    /// space that may be removed or hang at a line's end.
    pub open spec fn ignorable(self, clusters: Span) -> bool {
        let chars = self.shaped_text.spec_chars_of(clusters.start as int, clusters.end as int);
        &&& chars.start < chars.end
        &&& forall|i: int|
            chars.start <= i < chars.end ==> self.removable(
                #[trigger] self.shaped_text.characters@[i],
            )
    }

    pub proof fn lemma_clusters_before_monotone(self, a: int, b: int)
        requires
            a <= b,
        ensures
            self.clusters_before(a) <= self.clusters_before(b),
            0 <= self.clusters_before(a),
        decreases b,
    {
        if b <= 0 {
        } else if a == b {
            self.lemma_clusters_before_monotone(b - 1, b - 1);
        } else {
            self.lemma_clusters_before_monotone(a, b - 1);
        }
    }

    pub proof fn lemma_clusters_before_bound(self, item: int)
        requires
            self.wf(),
            item <= self.items@.len(),
        ensures
            0 <= self.clusters_before(item) <= self.shaped_text.clusters@.len(),
        decreases item,
    {
        if item > 0 {
            self.lemma_clusters_before_bound(item - 1);
            assert(self.item_wf(item - 1));
            if self.spec_is_text(item - 1) {
                let run = self.shaped_text.runs@[self.items@[item - 1].index as int];
                assert(run.clusters.end <= self.shaped_text.clusters@.len());
            }
        }
    }

    /// The style of a character.
    pub fn style_of(&self, character: &Character) -> (r: Style<T>)
        requires
            character.style_index < self.styles@.len(),
        ensures
            r == self.spec_style_of(*character),
    {
        self.styles[character.style_index as usize]
    }

    /// Whether the clusters of a range hold only white space that may be
    /// removed or hang at a line's end. No-break spaces and white space that
    /// takes up space count as content.
    pub fn is_ignorable(&self, clusters: Span) -> (r: bool)
        requires
            self.wf(),
            clusters.end <= self.shaped_text.clusters@.len(),
        ensures
            r == self.ignorable(clusters),
    {
        let chars = self.shaped_text.chars_of(clusters.start, clusters.end);
        if chars.start >= chars.end {
            return false;
        }
        let mut i: usize = chars.start;
        while i < chars.end
            invariant
                self.wf(),
                chars == self.shaped_text.spec_chars_of(
                    clusters.start as int,
                    clusters.end as int,
                ),
                chars.start <= i <= chars.end <= self.shaped_text.characters@.len(),
                forall|k: int|
                    chars.start <= k < i ==> self.removable(
                        #[trigger] self.shaped_text.characters@[k],
                    ),
            decreases chars.end - i,
        {
            let character = self.shaped_text.characters[i];
            let removable = character.whitespace != Whitespace::NotSpace && character.whitespace
                != Whitespace::NoBreakSpace && self.style_of(&character).end_of_line()
                != EndOfLineWhitespace::TakesUpSpace;
            if !removable {
                return false;
            }
            i = i + 1;
        }
        true
    }
}

impl<T: Scalar> LineItemData<T> {
    pub open spec fn spec_is_text_run(self) -> bool {
        self.kind == LayoutItemKind::TextRun
    }

    pub open spec fn spec_is_rtl(self) -> bool {
        self.bidi_level % 2 == 1
    }

    /// This item with its white-space flag brought up to date.
    pub open spec fn with_ignorable(self, layout: LayoutData<T>) -> Self {
        if self.spec_is_text_run() {
            LineItemData {
                is_ignorable_whitespace: layout.ignorable(self.shaped_cluster_range),
                ..self
            }
        } else {
            self
        }
    }

    pub fn is_text_run(&self) -> (r: bool)
        ensures
            r == self.spec_is_text_run(),
    {
        self.kind == LayoutItemKind::TextRun
    }

    /// Whether the item runs from right to left.
    pub fn is_rtl(&self) -> (r: bool)
        ensures
            r == self.spec_is_rtl(),
    {
        self.bidi_level % 2 == 1
    }

    /// Determines whether this item consists of removable or hanging white
    /// space. Items that are not text keep their flag.
    pub fn compute_ignorable_whitespace(&mut self, layout: &LayoutData<T>)
        requires
            layout.wf(),
            old(self).spec_is_text_run() ==> old(self).shaped_cluster_range.end
                <= layout.shaped_text.clusters@.len(),
        ensures
            *final(self) == old(self).with_ignorable(*layout),
    {
        if self.kind != LayoutItemKind::TextRun {
            return;
        }
        self.is_ignorable_whitespace = layout.is_ignorable(self.shaped_cluster_range);
    }
}

} // verus!
