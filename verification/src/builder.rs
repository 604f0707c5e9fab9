//! Builders that collect text, styles and boxes for a layout.

use crate::analysis::bidi;
use crate::context::{CharInfo, LayoutContext};
use crate::inline_box::{InlineBox, InlineBoxInput, InlineBoxKind};
use crate::layout::data::{Layout, LayoutData};
use crate::resolve::tree;
use crate::resolve::tree::{ItemKind, StyleTree};
use crate::resolve::white_space;
use crate::resolve::{Brush, ResolvedProperty, ResolvedStyle, StyleRun};
use crate::scalar::Scalar;
use crate::style::{BaseDirection, IndentOptions, Style, WhiteSpaceCollapse};
use crate::text;
use core::ops::Range;
use vstd::prelude::*;

verus! {

/// One end of a range of bytes.
#[derive(Clone, Copy, Debug, PartialEq, Eq, Structural)]
pub enum IndexBound {
    Unbounded,
    Included(usize),
    Excluded(usize),
}

/// A range of bytes as a caller gives it.
#[derive(Clone, Copy, Debug, PartialEq, Eq, Structural)]
pub struct IndexBounds {
    pub start: IndexBound,
    pub end: IndexBound,
}

impl IndexBounds {
    /// The first index of the range in a text of the given length.
    pub open spec fn first(self) -> int {
        match self.start {
            IndexBound::Unbounded => 0,
            IndexBound::Included(n) => n as int,
            IndexBound::Excluded(n) => n + 1,
        }
    }

    /// The index after the last of the range in a text of the given length.
    pub open spec fn after_last(self, len: usize) -> int {
        match self.end {
            IndexBound::Unbounded => len as int,
            IndexBound::Included(n) => n + 1,
            IndexBound::Excluded(n) => n as int,
        }
    }

    /// The range in a text of the given length.
    pub open spec fn within(self, len: usize) -> Range<usize> {
        Range {
            start: if self.first() < len {
                self.first() as usize
            } else {
                len
            },
            end: if self.after_last(len) < len {
                self.after_last(len) as usize
            } else {
                len
            },
        }
    }
}

/// The range of bytes that bounds mean in a text of the given length.
pub fn resolve_range(range: IndexBounds, len: usize) -> (r: Range<usize>)
    requires
        range.first() <= usize::MAX,
        range.after_last(len) <= usize::MAX,
    ensures
        r == range.within(len),
{
    let start: usize = match range.start {
        IndexBound::Unbounded => 0,
        IndexBound::Included(n) => n,
        IndexBound::Excluded(n) => n + 1,
    };
    let end: usize = match range.end {
        IndexBound::Unbounded => len,
        IndexBound::Included(n) => n + 1,
        IndexBound::Excluded(n) => n,
    };
    let start: usize = if start < len {
        start
    } else {
        len
    };
    let end: usize = if end < len {
        end
    } else {
        len
    };
    start..end
}

/// The index of the first style in the table, from `from` on, that is the same
/// as a style.
pub open spec fn first_same<T: Scalar, B: Brush>(
    table: Seq<ResolvedStyle<T, B>>,
    style: ResolvedStyle<T, B>,
    from: int,
) -> Option<int>
    decreases table.len() - from,
{
    if from >= table.len() {
        None
    } else if table[from].spec_same(&style) {
        Some(from)
    } else {
        first_same(table, style, from + 1)
    }
}

/// The index of a style in a table, where it is put if it is not there.
pub open spec fn established<T: Scalar, B: Brush>(
    table: Seq<ResolvedStyle<T, B>>,
    style: ResolvedStyle<T, B>,
) -> int {
    match first_same(table, style, 0) {
        Some(index) => index,
        None => table.len() as int,
    }
}

/// The index of the root style in the style table, where it is put if it is
/// not there.
pub fn establish_root_style<T: Scalar, B: Brush>(
    style_table: &mut Vec<ResolvedStyle<T, B>>,
    root_style: ResolvedStyle<T, B>,
) -> (r: u16)
    requires
        established(old(style_table)@, root_style) <= u16::MAX,
    ensures
        r == established(old(style_table)@, root_style),
        final(style_table)@ == if first_same(old(style_table)@, root_style, 0) is Some {
            old(style_table)@
        } else {
            old(style_table)@.push(root_style)
        },
        r < final(style_table)@.len(),
{
    let mut i: usize = 0;
    while i < style_table.len()
        invariant
            i <= style_table@.len(),
            style_table@ == old(style_table)@,
            established(style_table@, root_style) <= u16::MAX,
            first_same(style_table@, root_style, 0) == first_same(
                style_table@,
                root_style,
                i as int,
            ),
        decreases style_table@.len() - i,
    {
        if style_table[i].same(&root_style) {
            return i as u16;
        }
        i = i + 1;
    }
    let index: usize = style_table.len();
    style_table.push(root_style);
    index as u16
}

proof fn lemma_first_same_is_first<T: Scalar, B: Brush>(
    table: Seq<ResolvedStyle<T, B>>,
    style: ResolvedStyle<T, B>,
    from: int,
)
    requires
        0 <= from,
    ensures
        match first_same(table, style, from) {
            Some(index) => from <= index < table.len() && table[index].spec_same(&style) && forall|
                i: int,
            |
                from <= i < index ==> !(#[trigger] table[i]).spec_same(&style),
            None => forall|i: int|
                from <= i < table.len() ==> !(#[trigger] table[i]).spec_same(&style),
        },
    decreases table.len() - from,
{
    if from < table.len() && !table[from].spec_same(&style) {
        lemma_first_same_is_first(table, style, from + 1);
    }
}

/// A style in the table is not put there again: establishing it finds the first
/// entry that is the same, and a style that is the same as itself is found
/// where it was put.
pub proof fn lemma_established_style_is_found<T: Scalar, B: Brush>(
    table: Seq<ResolvedStyle<T, B>>,
    style: ResolvedStyle<T, B>,
)
    requires
        style.spec_same(&style),
    ensures
        ({
            let after = if first_same(table, style, 0) is Some {
                table
            } else {
                table.push(style)
            };
            &&& first_same(after, style, 0) is Some
            &&& established(after, style) == established(table, style)
            &&& after[established(table, style)].spec_same(&style)
        }),
{
    lemma_first_same_is_first(table, style, 0);
    let after = if first_same(table, style, 0) is Some {
        table
    } else {
        table.push(style)
    };
    lemma_first_same_is_first(after, style, 0);
    if first_same(table, style, 0) is None {
        assert(after[table.len() as int] == style);
        let found = established(after, style);
        if found < table.len() {
            assert(after[found] == table[found]);
        }
    }
}

/// Appends a box to those of the paragraph.
pub fn push_inline_box_input<T: Scalar, B: Brush>(
    lcx: &mut LayoutContext<T, B>,
    inline_box: InlineBox<T>,
    style_after: Option<u16>,
)
    ensures
        final(lcx).inline_boxes@ == old(lcx).inline_boxes@.push(
            InlineBoxInput { inline_box, style_after, bidi_level: 0 },
        ),
        *final(lcx) == (LayoutContext { inline_boxes: final(lcx).inline_boxes, ..*old(lcx) }),
{
    lcx.inline_boxes.push(InlineBoxInput { inline_box, style_after, bidi_level: 0 });
}

// ---------------------------------------------------------------------------
// Text order of boxes.

/// Where a box goes among boxes in text order: after those at its offset.
pub open spec fn insertion_point<T: Scalar>(
    boxes: Seq<InlineBoxInput<T>>,
    index: usize,
    len: int,
) -> int
    decreases len,
{
    if len <= 0 || boxes[len - 1].inline_box.index <= index {
        len
    } else {
        insertion_point(boxes, index, len - 1)
    }
}

/// The first `count` boxes in text order. Boxes at one offset keep their order.
pub open spec fn in_text_order<T: Scalar>(
    boxes: Seq<InlineBoxInput<T>>,
    count: int,
) -> Seq<InlineBoxInput<T>>
    decreases count,
{
    if count <= 0 {
        Seq::empty()
    } else {
        let rest = in_text_order(boxes, count - 1);
        let next = boxes[count - 1];
        rest.insert(insertion_point(rest, next.inline_box.index, rest.len() as int), next)
    }
}

pub proof fn lemma_insertion_point<T: Scalar>(
    boxes: Seq<InlineBoxInput<T>>,
    index: usize,
    len: int,
)
    requires
        0 <= len <= boxes.len(),
    ensures
        0 <= insertion_point(boxes, index, len) <= len,
        forall|i: int|
            insertion_point(boxes, index, len) <= i < len ==> (#[trigger] boxes[i]).inline_box.index
                > index,
        insertion_point(boxes, index, len) > 0 ==> boxes[insertion_point(boxes, index, len)
            - 1].inline_box.index <= index,
    decreases len,
{
    if len <= 0 || boxes[len - 1].inline_box.index <= index {
    } else {
        lemma_insertion_point(boxes, index, len - 1);
    }
}

/// The boxes at one offset.
pub open spec fn boxes_at<T: Scalar>(
    boxes: Seq<InlineBoxInput<T>>,
    index: usize,
) -> Seq<InlineBoxInput<T>> {
    boxes.filter(|b: InlineBoxInput<T>| b.inline_box.index == index)
}

proof fn lemma_no_boxes_at<T: Scalar>(boxes: Seq<InlineBoxInput<T>>, index: usize)
    requires
        forall|i: int| 0 <= i < boxes.len() ==> (#[trigger] boxes[i]).inline_box.index != index,
    ensures
        boxes_at(boxes, index) == Seq::<InlineBoxInput<T>>::empty(),
    decreases boxes.len(),
{
    reveal(Seq::filter);
    if boxes.len() > 0 {
        lemma_no_boxes_at(boxes.drop_last(), index);
    }
}

/// Text order is by offset, and it is the order in which boxes were pushed
/// where offsets are equal. No box is lost and none is added.
pub proof fn lemma_text_order<T: Scalar>(boxes: Seq<InlineBoxInput<T>>, count: int)
    requires
        0 <= count <= boxes.len(),
    ensures
        in_text_order(boxes, count).len() == count,
        forall|i: int, j: int|
            0 <= i <= j < count ==> (#[trigger] in_text_order(boxes, count)[i]).inline_box.index
                <= (#[trigger] in_text_order(boxes, count)[j]).inline_box.index,
        in_text_order(boxes, count).to_multiset() == boxes.take(count).to_multiset(),
        forall|index: usize| #[trigger]
            boxes_at(in_text_order(boxes, count), index) == boxes_at(boxes.take(count), index),
    decreases count,
{
    if count <= 0 {
        assert(boxes.take(count) =~= Seq::empty());
    } else {
        lemma_text_order(boxes, count - 1);
        let rest = in_text_order(boxes, count - 1);
        let next = boxes[count - 1];
        let at = insertion_point(rest, next.inline_box.index, rest.len() as int);
        lemma_insertion_point(rest, next.inline_box.index, rest.len() as int);
        let out = in_text_order(boxes, count);
        assert(out == rest.insert(at, next));
        assert(boxes.take(count) =~= boxes.take(count - 1).push(next));
        boxes.take(count - 1).to_multiset_ensures();
        vstd::seq_lib::to_multiset_insert(rest, at, next);
        assert forall|i: int, j: int| 0 <= i <= j < count implies (
        #[trigger] out[i]).inline_box.index <= (#[trigger] out[j]).inline_box.index by {
            if i < at {
                assert(out[i] == rest[i]);
                assert(rest[i].inline_box.index <= rest[at - 1].inline_box.index);
            } else if i > at {
                assert(out[i] == rest[i - 1]);
            }
            if j < at {
                assert(out[j] == rest[j]);
            } else if j > at {
                assert(out[j] == rest[j - 1]);
            }
        }
        assert forall|index: usize| #[trigger] boxes_at(out, index) == boxes_at(
            boxes.take(count),
            index,
        ) by {
            lemma_inserted_boxes_at(rest, at, next, index);
            assert(boxes_at(rest, index) == boxes_at(boxes.take(count - 1), index));
            lemma_pushed_boxes_at(boxes.take(count - 1), next, index);
        }
    }
}

proof fn lemma_pushed_boxes_at<T: Scalar>(
    boxes: Seq<InlineBoxInput<T>>,
    next: InlineBoxInput<T>,
    index: usize,
)
    ensures
        boxes_at(boxes.push(next), index) == if next.inline_box.index == index {
            boxes_at(boxes, index).push(next)
        } else {
            boxes_at(boxes, index)
        },
{
    reveal(Seq::filter);
    assert(boxes.push(next).drop_last() =~= boxes);
}

proof fn lemma_inserted_boxes_at<T: Scalar>(
    boxes: Seq<InlineBoxInput<T>>,
    at: int,
    next: InlineBoxInput<T>,
    index: usize,
)
    requires
        0 <= at <= boxes.len(),
        forall|i: int|
            at <= i < boxes.len() ==> (#[trigger] boxes[i]).inline_box.index
                > next.inline_box.index,
    ensures
        boxes_at(boxes.insert(at, next), index) == if next.inline_box.index == index {
            boxes_at(boxes, index).push(next)
        } else {
            boxes_at(boxes, index)
        },
{
    let pred = |b: InlineBoxInput<T>| b.inline_box.index == index;
    let before = boxes.take(at);
    let after = boxes.skip(at);
    assert(boxes.insert(at, next) =~= before.push(next) + after);
    assert(boxes =~= before + after);
    Seq::filter_distributes_over_add(before.push(next), after, pred);
    Seq::filter_distributes_over_add(before, after, pred);
    lemma_pushed_boxes_at(before, next, index);
    if next.inline_box.index == index {
        assert forall|i: int| 0 <= i < after.len() implies (#[trigger] after[i]).inline_box.index
            != index by {
            assert(after[i] == boxes[at + i]);
        }
        lemma_no_boxes_at(after, index);
        assert(boxes_at(before, index) + boxes_at(after, index) =~= boxes_at(before, index));
        assert(boxes_at(before.push(next), index) + boxes_at(after, index) =~= boxes_at(
            before,
            index,
        ).push(next));
    }
}

/// Puts boxes in text order. Boxes at one offset keep their order.
fn sort_boxes<T: Scalar>(boxes: &mut Vec<InlineBoxInput<T>>)
    ensures
        final(boxes)@ == in_text_order(old(boxes)@, old(boxes)@.len() as int),
        final(boxes)@.len() == old(boxes)@.len(),
{
    let mut sorted: Vec<InlineBoxInput<T>> = Vec::new();
    let mut i: usize = 0;
    while i < boxes.len()
        invariant
            i <= boxes@.len(),
            boxes@ == old(boxes)@,
            sorted@ == in_text_order(boxes@, i as int),
            sorted@.len() == i,
        decreases boxes@.len() - i,
    {
        let next = boxes[i];
        let mut at: usize = sorted.len();
        while at > 0 && sorted[at - 1].inline_box.index > next.inline_box.index
            invariant
                at <= sorted@.len(),
                insertion_point(sorted@, next.inline_box.index, sorted@.len() as int)
                    == insertion_point(sorted@, next.inline_box.index, at as int),
            decreases at,
        {
            at = at - 1;
        }
        sorted.insert(at, next);
        i = i + 1;
    }
    *boxes = sorted;
}

// ---------------------------------------------------------------------------
// From a context to a layout.

/// How a paragraph is laid out.
#[derive(Clone, Copy)]
pub struct BuildOptions<T: Scalar> {
    /// The display scale factor.
    pub scale: T,
    /// Whether metrics are quantized to pixel boundaries.
    pub quantize: bool,
    /// The direction of the paragraph.
    pub base_direction: BaseDirection,
}

/// The style runs follow each other from the text's start to its end.
pub open spec fn covers(runs: Seq<StyleRun>, len: int) -> bool {
    &&& runs.len() > 0
    &&& runs[0].range.start == 0
    &&& runs.last().range.end == len
    &&& forall|i: int|
        0 <= i < runs.len() ==> (#[trigger] runs[i]).range.start <= runs[i].range.end
    &&& forall|i: int, j: int|
        0 <= i && j == i + 1 && j < runs.len() ==> (#[trigger] runs[i]).range.end == (
        #[trigger] runs[j]).range.start
}

/// The style of the text at an offset: that of the first run that ends after
/// it, from `run` on.
pub open spec fn style_at(runs: Seq<StyleRun>, offset: int, run: int) -> u16
    decreases runs.len() - run,
{
    if run >= runs.len() {
        0
    } else if offset < runs[run].range.end {
        runs[run].style_index
    } else {
        style_at(runs, offset, run + 1)
    }
}

/// What a paragraph is laid out from, besides its text.
pub struct Source<T: Scalar, B: Brush> {
    pub table: Seq<ResolvedStyle<T, B>>,
    pub runs: Seq<StyleRun>,
    pub boxes: Seq<InlineBoxInput<T>>,
}

impl<T: Scalar, B: Brush> LayoutContext<T, B> {
    pub open spec fn source(self) -> Source<T, B> {
        Source {
            table: self.style_table@,
            runs: self.style_runs@,
            boxes: self.inline_boxes@,
        }
    }
}

impl<T: Scalar, B: Brush> Source<T, B> {
    /// The source with a default style if there is neither text nor a style
    /// run.
    pub open spec fn or_default(
        self,
        text: Seq<char>,
        default_style: ResolvedStyle<T, B>,
    ) -> Self {
        if text.len() == 0 && self.runs.len() == 0 {
            Source {
                table: self.table.push(default_style),
                runs: seq![StyleRun { style_index: 0, range: Range { start: 0, end: 0 } }],
                ..self
            }
        } else {
            self
        }
    }

    /// The style runs cover the text, or there is neither text nor a run.
    pub open spec fn is_complete(self, text: Seq<char>) -> bool {
        (text.len() == 0 && self.runs.len() == 0) || covers(
            self.runs,
            text::offset_of(text, text.len() as int),
        )
    }

    /// The source with the root style in the style table.
    pub open spec fn with_root(self, root_style: ResolvedStyle<T, B>) -> Self {
        Source {
            table: if first_same(self.table, root_style, 0) is Some {
                self.table
            } else {
                self.table.push(root_style)
            },
            ..self
        }
    }
}

/// The text that is analysed and shaped: empty text stands as one space, which
/// gives the paragraph its level and its line its height.
pub open spec fn spec_analysed_text(text: Seq<char>) -> Seq<char> {
    if text.len() == 0 {
        seq![' ']
    } else {
        text
    }
}

/// The text that is analysed and shaped in place of the given one.
pub fn analysed_text(text: &str) -> (r: &str)
    ensures
        r@ == spec_analysed_text(text@),
{
    proof {
        reveal_strlit(" ");
    }
    if text.is_empty() {
        assert(" "@ =~= seq![' ']);
        " "
    } else {
        text
    }
}

/// The levels of a paragraph and of its characters and boxes.
pub open spec fn resolved_levels<T: Scalar>(
    text: Seq<char>,
    boxes: Seq<InlineBoxInput<T>>,
    direction: BaseDirection,
) -> (u8, bidi::Projection) {
    let objects = bidi::object_offsets(boxes, boxes.len() as int);
    let combined = bidi::with_objects(text, objects, 0, 0);
    let (base_level, found) = bidi::bidi_analysis(combined, direction);
    let levels = bidi::levels_or_base(found, base_level, combined.len());
    (base_level, bidi::projected(text, boxes, levels, base_level))
}

/// The context and the layout are what a paragraph is shaped from.
pub open spec fn is_prepared<T: Scalar, B: Brush>(
    source: Source<T, B>,
    after: LayoutContext<T, B>,
    layout: Layout<T>,
    text: Seq<char>,
    options: BuildOptions<T>,
    root_style_index: Option<u16>,
) -> bool {
    let table = source.table;
    let runs = source.runs;
    let boxes = source.boxes;
    let analysed = spec_analysed_text(text);
    let (base_level, levels) = resolved_levels(analysed, boxes, options.base_direction);
    &&& after.style_table@ == table
    &&& after.style_runs@ == runs
    &&& after.base_level == base_level
    &&& after.inline_boxes@ == in_text_order(
        bidi::boxes_with_levels(boxes, levels.boxes),
        boxes.len() as int,
    )
    &&& after.info@ == Seq::new(
        analysed.len(),
        |i: int|
            CharInfo {
                bidi_level: levels.characters[i],
                style_index: style_at(runs, text::offset_of(analysed, i), 0),
            },
    )
    &&& layout.data.scale == options.scale
    &&& layout.data.quantize == options.quantize
    &&& layout.data.base_level == base_level
    &&& layout.data.text_len == text::offset_of(text, text.len() as int)
    &&& layout.data.styles@ == Seq::new(table.len(), |i: int| table[i].spec_as_layout_style())
    &&& layout.data.root_style_index == match root_style_index {
        Some(index) => index,
        None => runs[0].style_index,
    }
    &&& layout.data.inline_boxes@ == Seq::new(
        after.inline_boxes@.len(),
        |i: int| after.inline_boxes@[i].inline_box,
    )
    &&& layout.data.items@.len() == 0
    &&& layout.data.runs@.len() == 0
    &&& layout.lines@.len() == 0
    &&& layout.line_items@.len() == 0
    &&& layout.width == T::spec_zero()
    &&& layout.full_width == T::spec_zero()
    &&& layout.height == T::spec_zero()
    &&& layout.data.shaped_text.runs@.len() == 0
    &&& layout.data.shaped_text.characters@.len() == 0
    &&& layout.data.shaped_text.clusters@.len() == 0
    &&& layout.data.shaped_text.glyphs@.len() == 0
    &&& layout.data.shaped_text.fonts@.len() == 0
}

/// The text indent and what alignment and line breaking last used are as in
/// another layout.
pub open spec fn keeps_settings<T: Scalar>(layout: Layout<T>, before: Layout<T>) -> bool {
    &&& layout.layout_max_advance == before.layout_max_advance
    &&& layout.is_aligned_justified == before.is_aligned_justified
    &&& layout.data.indent_amount == before.data.indent_amount
    &&& layout.data.indent_options == before.data.indent_options
}

/// There is no text indent, and the layout was neither broken nor aligned.
pub open spec fn has_default_settings<T: Scalar>(layout: Layout<T>) -> bool {
    &&& layout.layout_max_advance == T::spec_zero()
    &&& !layout.is_aligned_justified
    &&& layout.data.indent_amount == T::spec_zero()
    &&& layout.data.indent_options == (IndentOptions { each_line: false, hanging: false })
}

fn assign_styles(characters: &Vec<char>, runs: &Vec<StyleRun>, info: &mut Vec<CharInfo>)
    requires
        text::fits(characters@),
        old(info)@.len() == characters@.len(),
        covers(runs@, text::offset_of(characters@, characters@.len() as int)),
    ensures
        final(info)@ == Seq::new(
            characters@.len(),
            |i: int|
                CharInfo {
                    style_index: style_at(runs@, text::offset_of(characters@, i), 0),
                    ..old(info)@[i]
                },
        ),
{
    let mut i: usize = 0;
    let mut offset: usize = 0;
    let mut run: usize = 0;
    while i < characters.len()
        invariant
            text::fits(characters@),
            covers(runs@, text::offset_of(characters@, characters@.len() as int)),
            i <= characters@.len(),
            info@.len() == characters@.len(),
            old(info)@.len() == characters@.len(),
            offset == text::offset_of(characters@, i as int),
            run <= runs@.len(),
            forall|o: int|
                o >= offset ==> #[trigger] style_at(runs@, o, 0) == style_at(
                    runs@,
                    o,
                    run as int,
                ),
            forall|k: int|
                0 <= k < info@.len() ==> #[trigger] info@[k] == if k < i {
                    CharInfo {
                        style_index: style_at(runs@, text::offset_of(characters@, k), 0),
                        ..old(info)@[k]
                    }
                } else {
                    old(info)@[k]
                },
        decreases characters@.len() - i,
    {
        proof {
            text::lemma_offset_monotone(characters@, i + 1, characters@.len() as int);
        }
        while run < runs.len() && runs[run].range.end <= offset
            invariant
                run <= runs@.len(),
                forall|o: int|
                    o >= offset ==> #[trigger] style_at(runs@, o, 0) == style_at(
                        runs@,
                        o,
                        run as int,
                    ),
            decreases runs@.len() - run,
        {
            run = run + 1;
        }
        let style_index: u16 = if run < runs.len() {
            runs[run].style_index
        } else {
            0
        };
        assert(style_index == style_at(runs@, offset as int, 0));
        let mut character = info[i];
        character.style_index = style_index;
        info[i] = character;
        offset = offset + text::char_len(characters[i]);
        i = i + 1;
    }
    assert(info@ =~= Seq::new(
        characters@.len(),
        |i: int|
            CharInfo {
                style_index: style_at(runs@, text::offset_of(characters@, i), 0),
                ..old(info)@[i]
            },
    ));
}

fn default_info(characters: &Vec<char>) -> (r: Vec<CharInfo>)
    ensures
        r@ == Seq::new(characters@.len(), |i: int| CharInfo { bidi_level: 0, style_index: 0 }),
{
    let mut info: Vec<CharInfo> = Vec::new();
    let mut i: usize = 0;
    while i < characters.len()
        invariant
            i <= characters@.len(),
            info@ == Seq::new(i as nat, |k: int| CharInfo { bidi_level: 0, style_index: 0 }),
        decreases characters@.len() - i,
    {
        info.push(CharInfo { bidi_level: 0, style_index: 0 });
        i = i + 1;
        assert(info@ =~= Seq::new(i as nat, |k: int| CharInfo { bidi_level: 0, style_index: 0 }));
    }
    info
}

fn layout_styles<T: Scalar, B: Brush>(table: &Vec<ResolvedStyle<T, B>>) -> (r: Vec<Style<T>>)
    ensures
        r@ == Seq::new(table@.len(), |i: int| table@[i].spec_as_layout_style()),
{
    let mut styles: Vec<Style<T>> = Vec::new();
    let mut i: usize = 0;
    while i < table.len()
        invariant
            i <= table@.len(),
            styles@ == Seq::new(i as nat, |k: int| table@[k].spec_as_layout_style()),
        decreases table@.len() - i,
    {
        styles.push(table[i].as_layout_style());
        i = i + 1;
        assert(styles@ =~= Seq::new(i as nat, |k: int| table@[k].spec_as_layout_style()));
    }
    styles
}

fn layout_boxes<T: Scalar>(boxes: &Vec<InlineBoxInput<T>>) -> (r: Vec<InlineBox<T>>)
    ensures
        r@ == Seq::new(boxes@.len(), |i: int| boxes@[i].inline_box),
{
    let mut inline_boxes: Vec<InlineBox<T>> = Vec::new();
    let mut i: usize = 0;
    while i < boxes.len()
        invariant
            i <= boxes@.len(),
            inline_boxes@ == Seq::new(i as nat, |k: int| boxes@[k].inline_box),
        decreases boxes@.len() - i,
    {
        inline_boxes.push(boxes[i].inline_box);
        i = i + 1;
        assert(inline_boxes@ =~= Seq::new(i as nat, |k: int| boxes@[k].inline_box));
    }
    inline_boxes
}

proof fn lemma_analysed_fits(text: Seq<char>)
    requires
        text::fits(text),
    ensures
        text::fits(spec_analysed_text(text)),
{
    reveal_with_fuel(text::offset_of, 2);
}

/// Text past the end of all runs has the first style.
proof fn lemma_no_style_after_end(runs: Seq<StyleRun>, len: int, run: int)
    requires
        covers(runs, len),
        0 <= run,
    ensures
        style_at(runs, len, run) == 0,
    decreases runs.len() - run,
{
    if run < runs.len() {
        lemma_runs_end_before(runs, len, run);
        lemma_no_style_after_end(runs, len, run + 1);
    }
}

proof fn lemma_runs_end_before(runs: Seq<StyleRun>, len: int, run: int)
    requires
        covers(runs, len),
        0 <= run < runs.len(),
    ensures
        runs[run].range.end <= len,
    decreases runs.len() - run,
{
    if run + 1 < runs.len() {
        lemma_runs_end_before(runs, len, run + 1);
    }
}

/// Prepares a paragraph for shaping: resolves its levels, gives each character
/// its style and puts its boxes in text order. The caller then shapes the text
/// into the layout, [`crate::layout::assemble::assemble_layout`] puts its runs
/// and boxes in order, and [`finish_layout`] completes it.
///
/// A paragraph with neither text nor style runs has the default style. Without
/// text, one space is analysed in its place (see [`analysed_text`]).
pub fn prepare_layout<T: Scalar, B: Brush>(
    layout: &mut Layout<T>,
    text: &str,
    lcx: &mut LayoutContext<T, B>,
    options: BuildOptions<T>,
    root_style_index: Option<u16>,
    default_style: ResolvedStyle<T, B>,
)
    requires
        text::fits(text@),
        old(lcx).source().is_complete(text@),
    ensures
        is_prepared(
            old(lcx).source().or_default(text@, default_style),
            *final(lcx),
            *final(layout),
            text@,
            options,
            root_style_index,
        ),
        keeps_settings(*final(layout), *old(layout)),
        final(lcx).tree_style_builder == old(lcx).tree_style_builder,
{
    let characters = white_space::characters_of(text);
    if characters.len() == 0 && lcx.style_runs.len() == 0 {
        lcx.style_table.push(default_style);
        lcx.style_runs.push(StyleRun { style_index: 0, range: 0..0 });
        assert(lcx.source().runs =~= old(lcx).source().or_default(text@, default_style).runs);
    }
    let ghost source = lcx.source();
    let analysed = analysed_text(text);
    proof {
        lemma_analysed_fits(text@);
    }
    lcx.info = default_info(&white_space::characters_of(analysed));
    bidi::resolve(lcx, analysed, options.base_direction);
    if characters.len() > 0 {
        assign_styles(&characters, &lcx.style_runs, &mut lcx.info);
    }
    sort_boxes(&mut lcx.inline_boxes);

    layout.clear();
    layout.data.scale = options.scale;
    layout.data.quantize = options.quantize;
    layout.data.base_level = lcx.base_level;
    proof {
        text::lemma_offset_is_byte_len(text@);
    }
    layout.data.text_len = text.len();
    layout.data.styles = layout_styles(&lcx.style_table);
    layout.data.root_style_index = match root_style_index {
        Some(index) => index,
        None => lcx.style_runs[0].style_index,
    };
    layout.data.inline_boxes = layout_boxes(&lcx.inline_boxes);
    proof {
        let runs = source.runs;
        let levels = resolved_levels(analysed@, source.boxes, options.base_direction).1;
        if text@.len() == 0 {
            lemma_no_style_after_end(runs, 0, 0);
        }
        assert(lcx.info@ =~= Seq::new(
            analysed@.len(),
            |i: int|
                CharInfo {
                    bidi_level: levels.characters[i],
                    style_index: style_at(runs, text::offset_of(analysed@, i), 0),
                },
        ));
    }
}

/// Completes a layout after shaping: adds letter and word spacing, and empties
/// the context's list of boxes.
pub fn finish_layout<T: Scalar, B: Brush>(layout: &mut Layout<T>, lcx: &mut LayoutContext<T, B>)
    requires
        old(layout).data.wf(),
    ensures
        final(layout).data.wf(),
        final(layout).data.shaped_text.spaced() == old(
            layout,
        ).data.shaped_text.spaced().with_spaced_runs(old(layout).data, 0),
        final(layout).data.shaped_text.same_but_advances(old(layout).data.shaped_text),
        *final(layout) == (Layout {
            data: LayoutData {
                shaped_text: final(layout).data.shaped_text,
                ..old(layout).data
            },
            ..*old(layout)
        }),
        final(lcx).inline_boxes@.len() == 0,
        *final(lcx) == (LayoutContext { inline_boxes: final(lcx).inline_boxes, ..*old(lcx) }),
{
    lcx.inline_boxes.clear();
    layout.data.finish();
}

// ---------------------------------------------------------------------------
// Builders.

/// Builds a layout from ranges of text with resolved styles.
#[must_use]
pub struct RangedBuilder<T: Scalar, B: Brush> {
    pub options: BuildOptions<T>,
    pub lcx: LayoutContext<T, B>,
}

impl<T: Scalar, B: Brush> RangedBuilder<T, B> {
    /// Appends a box.
    pub fn push_inline_box(&mut self, inline_box: InlineBox<T>)
        ensures
            final(self).lcx.inline_boxes@ == old(self).lcx.inline_boxes@.push(
                InlineBoxInput { inline_box, style_after: None, bidi_level: 0 },
            ),
            *final(self) == (RangedBuilder {
                lcx: LayoutContext {
                    inline_boxes: final(self).lcx.inline_boxes,
                    ..old(self).lcx
                },
                ..*old(self)
            }),
    {
        push_inline_box_input(&mut self.lcx, inline_box, None);
    }

    /// Prepares the layout for shaping. The ranges have been resolved to the
    /// given style table and style runs; the root style is put in the table if
    /// it is not there. Where there is neither text nor a run, the default style
    /// is put after it.
    pub fn build_into(
        self,
        layout: &mut Layout<T>,
        text: &str,
        root_style: ResolvedStyle<T, B>,
        style_table: Vec<ResolvedStyle<T, B>>,
        style_runs: Vec<StyleRun>,
        default_style: ResolvedStyle<T, B>,
    ) -> (r: LayoutContext<T, B>)
        requires
            text::fits(text@),
            (Source::<T, B> {
                table: style_table@,
                runs: style_runs@,
                boxes: self.lcx.inline_boxes@,
            }).is_complete(text@),
            established(style_table@, root_style) <= u16::MAX,
        ensures
            is_prepared(
                (Source {
                    table: style_table@,
                    runs: style_runs@,
                    boxes: self.lcx.inline_boxes@,
                }).with_root(root_style).or_default(text@, default_style),
                r,
                *final(layout),
                text@,
                self.options,
                Some(established(style_table@, root_style) as u16),
            ),
            keeps_settings(*final(layout), *old(layout)),
    {
        let mut lcx = self.lcx;
        let mut style_table = style_table;
        let root_style_index = establish_root_style(&mut style_table, root_style);
        lcx.style_table = style_table;
        lcx.style_runs = style_runs;
        prepare_layout(
            layout,
            text,
            &mut lcx,
            self.options,
            Some(root_style_index),
            default_style,
        );
        lcx
    }

    /// Prepares a new layout for shaping; see [`RangedBuilder::build_into`].
    pub fn build(
        self,
        text: &str,
        root_style: ResolvedStyle<T, B>,
        style_table: Vec<ResolvedStyle<T, B>>,
        style_runs: Vec<StyleRun>,
        default_style: ResolvedStyle<T, B>,
    ) -> (r: (Layout<T>, LayoutContext<T, B>))
        requires
            text::fits(text@),
            (Source::<T, B> {
                table: style_table@,
                runs: style_runs@,
                boxes: self.lcx.inline_boxes@,
            }).is_complete(text@),
            established(style_table@, root_style) <= u16::MAX,
        ensures
            is_prepared(
                (Source {
                    table: style_table@,
                    runs: style_runs@,
                    boxes: self.lcx.inline_boxes@,
                }).with_root(root_style).or_default(text@, default_style),
                r.1,
                r.0,
                text@,
                self.options,
                Some(established(style_table@, root_style) as u16),
            ),
            has_default_settings(r.0),
    {
        let mut layout = Layout::new();
        let lcx = self.build_into(
            &mut layout,
            text,
            root_style,
            style_table,
            style_runs,
            default_style,
        );
        (layout, lcx)
    }
}

/// Builds a layout from a style table and style runs that refer to it.
#[must_use]
pub struct StyleRunBuilder<T: Scalar, B: Brush> {
    pub options: BuildOptions<T>,
    /// The length of the text, in bytes.
    pub len: usize,
    pub lcx: LayoutContext<T, B>,
    /// Where the next run starts.
    pub cursor: usize,
    pub root_style_index: Option<u16>,
}

impl<T: Scalar, B: Brush> StyleRunBuilder<T, B> {
    /// The runs so far follow each other from the text's start to the cursor.
    pub open spec fn wf(&self) -> bool {
        &&& self.cursor <= self.len
        &&& if self.lcx.style_runs@.len() == 0 {
            self.cursor == 0
        } else {
            covers(self.lcx.style_runs@, self.cursor as int)
        }
        &&& forall|i: int|
            0 <= i < self.lcx.style_runs@.len() ==> (#[trigger] self.lcx.style_runs@[i]).style_index
                < self.lcx.style_table@.len()
        &&& self.root_style_index matches Some(index) ==> index < self.lcx.style_table@.len()
    }

    /// A builder without styles or runs.
    pub fn new(options: BuildOptions<T>, len: usize) -> (r: Self)
        ensures
            r.wf(),
            r.options == options,
            r.len == len,
            r.cursor == 0,
            r.root_style_index is None,
            r.lcx.style_table@.len() == 0,
            r.lcx.style_runs@.len() == 0,
            r.lcx.inline_boxes@.len() == 0,
    {
        StyleRunBuilder {
            options,
            len,
            lcx: LayoutContext::new(),
            cursor: 0,
            root_style_index: None,
        }
    }

    /// Reserves capacity for styles and runs. It is optional.
    pub fn reserve(&mut self, additional_styles: usize, additional_runs: usize)
        requires
            old(self).wf(),
        ensures
            final(self).wf(),
            final(self).lcx.style_table@ == old(self).lcx.style_table@,
            final(self).lcx.style_runs@ == old(self).lcx.style_runs@,
            *final(self) == (StyleRunBuilder {
                lcx: LayoutContext {
                    style_table: final(self).lcx.style_table,
                    style_runs: final(self).lcx.style_runs,
                    ..old(self).lcx
                },
                ..*old(self)
            }),
    {
        self.lcx.style_table.reserve(additional_styles);
        self.lcx.style_runs.reserve(additional_runs);
    }

    /// Adds a style to the style table and returns its index.
    pub fn push_style(&mut self, style: ResolvedStyle<T, B>) -> (r: u16)
        requires
            old(self).wf(),
            old(self).lcx.style_table@.len() <= u16::MAX,
        ensures
            final(self).wf(),
            r == old(self).lcx.style_table@.len(),
            final(self).lcx.style_table@ == old(self).lcx.style_table@.push(style),
            *final(self) == (StyleRunBuilder {
                lcx: LayoutContext {
                    style_table: final(self).lcx.style_table,
                    ..old(self).lcx
                },
                ..*old(self)
            }),
    {
        let style_index: usize = self.lcx.style_table.len();
        self.lcx.style_table.push(style);
        style_index as u16
    }

    /// Adds a run of text in a style of the table. Runs follow each other, and
    /// cover the text once all of them have been added.
    pub fn push_style_run(&mut self, style_index: u16, range: IndexBounds)
        requires
            old(self).wf(),
            style_index < old(self).lcx.style_table@.len(),
            range.first() <= usize::MAX,
            range.after_last(old(self).len) <= usize::MAX,
            range.within(old(self).len).start == old(self).cursor,
            range.within(old(self).len).start <= range.within(old(self).len).end,
        ensures
            final(self).wf(),
            final(self).lcx.style_runs@ == old(self).lcx.style_runs@.push(
                StyleRun { style_index, range: range.within(old(self).len) },
            ),
            final(self).cursor == range.within(old(self).len).end,
            *final(self) == (StyleRunBuilder {
                cursor: final(self).cursor,
                lcx: LayoutContext { style_runs: final(self).lcx.style_runs, ..old(self).lcx },
                ..*old(self)
            }),
    {
        let range = resolve_range(range, self.len);
        let end: usize = range.end;
        self.lcx.style_runs.push(StyleRun { style_index, range });
        self.cursor = end;
    }

    /// Appends a box.
    pub fn push_inline_box(&mut self, inline_box: InlineBox<T>)
        requires
            old(self).wf(),
        ensures
            final(self).wf(),
            final(self).lcx.inline_boxes@ == old(self).lcx.inline_boxes@.push(
                InlineBoxInput { inline_box, style_after: None, bidi_level: 0 },
            ),
            *final(self) == (StyleRunBuilder {
                lcx: LayoutContext {
                    inline_boxes: final(self).lcx.inline_boxes,
                    ..old(self).lcx
                },
                ..*old(self)
            }),
    {
        push_inline_box_input(&mut self.lcx, inline_box, None);
    }

    /// Sets the style of the root. Callers give it even where it differs from
    /// that of the first run, or where there are only boxes.
    pub fn set_root_style(&mut self, style_index: u16)
        requires
            old(self).wf(),
            style_index < old(self).lcx.style_table@.len(),
        ensures
            final(self).wf(),
            *final(self) == (StyleRunBuilder {
                root_style_index: Some(style_index),
                ..*old(self)
            }),
    {
        self.root_style_index = Some(style_index);
    }

    /// Appends a box after which another style is current. It is meant for the
    /// edges of inlines.
    pub fn push_inline_box_with_style_transition(
        &mut self,
        inline_box: InlineBox<T>,
        style_after: u16,
    )
        requires
            old(self).wf(),
            style_after < old(self).lcx.style_table@.len(),
        ensures
            final(self).wf(),
            final(self).lcx.inline_boxes@ == old(self).lcx.inline_boxes@.push(
                InlineBoxInput { inline_box, style_after: Some(style_after), bidi_level: 0 },
            ),
            *final(self) == (StyleRunBuilder {
                lcx: LayoutContext {
                    inline_boxes: final(self).lcx.inline_boxes,
                    ..old(self).lcx
                },
                ..*old(self)
            }),
    {
        push_inline_box_input(&mut self.lcx, inline_box, Some(style_after));
    }

    /// Prepares the layout for shaping. The runs cover the text.
    pub fn build_into(
        self,
        layout: &mut Layout<T>,
        text: &str,
        default_style: ResolvedStyle<T, B>,
    ) -> (r: LayoutContext<T, B>)
        requires
            self.wf(),
            self.cursor == self.len,
            self.len == text::offset_of(text@, text@.len() as int),
        ensures
            is_prepared(
                self.lcx.source().or_default(text@, default_style),
                r,
                *final(layout),
                text@,
                self.options,
                self.root_style_index,
            ),
            keeps_settings(*final(layout), *old(layout)),
    {
        proof {
            text::lemma_offset_monotone(text@, 0, text@.len() as int);
        }
        let mut lcx = self.lcx;
        prepare_layout(
            layout,
            text,
            &mut lcx,
            self.options,
            self.root_style_index,
            default_style,
        );
        lcx
    }

    /// Prepares a new layout for shaping. The runs cover the text.
    pub fn build(self, text: &str, default_style: ResolvedStyle<T, B>) -> (r: (
        Layout<T>,
        LayoutContext<T, B>,
    ))
        requires
            self.wf(),
            self.cursor == self.len,
            self.len == text::offset_of(text@, text@.len() as int),
        ensures
            is_prepared(
                self.lcx.source().or_default(text@, default_style),
                r.1,
                r.0,
                text@,
                self.options,
                self.root_style_index,
            ),
            has_default_settings(r.0),
    {
        let mut layout = Layout::new();
        let lcx = self.build_into(&mut layout, text, default_style);
        (layout, lcx)
    }
}

/// Builds a layout from a tree of spans.
#[must_use]
pub struct TreeBuilder<T: Scalar, B: Brush> {
    pub options: BuildOptions<T>,
    pub lcx: LayoutContext<T, B>,
}

impl<T: Scalar, B: Brush> TreeBuilder<T, B> {
    /// The spans and their text.
    pub open spec fn tree(&self) -> StyleTree<T, B> {
        self.lcx.tree_style_builder.view()
    }

    /// The spans form a tree, and the text committed so far is covered by runs
    /// with styles of the table.
    pub open spec fn wf(&self) -> bool {
        &&& self.tree().wf()
        &&& self.tree().runs_wf()
        &&& self.tree().ids_wf()
    }

    /// The builders agree in all but the spans and their text.
    pub open spec fn same_but_tree(&self, other: Self) -> bool {
        *self == (TreeBuilder {
            lcx: LayoutContext {
                tree_style_builder: self.lcx.tree_style_builder,
                ..other.lcx
            },
            ..other
        })
    }

    /// A builder with a root span.
    pub fn new(options: BuildOptions<T>, root_style: ResolvedStyle<T, B>) -> (r: Self)
        ensures
            r.options == options,
            r.tree() == StyleTree::begun(root_style),
            r.wf(),
            r.lcx.inline_boxes@.len() == 0,
    {
        let mut lcx = LayoutContext::new();
        lcx.tree_style_builder.begin(root_style);
        TreeBuilder { options, lcx }
    }

    /// Opens a span with the given style.
    pub fn push_style_span(&mut self, style: ResolvedStyle<T, B>)
        requires
            old(self).wf(),
        ensures
            final(self).tree() == old(self).tree().with_span(style),
            final(self).wf(),
            final(self).same_but_tree(*old(self)),
    {
        self.lcx.tree_style_builder.push_style_span(style);
    }

    /// Opens a span whose style is that of the open one with some properties
    /// replaced.
    pub fn push_style_modification_span(&mut self, properties: &Vec<ResolvedProperty<T, B>>)
        requires
            old(self).wf(),
        ensures
            final(self).tree() == old(self).tree().with_span(
                old(self).tree().style().with_all(properties@),
            ),
            final(self).wf(),
            final(self).same_but_tree(*old(self)),
    {
        self.lcx.tree_style_builder.push_style_modification_span(properties);
    }

    /// Closes the open span, which is not the root.
    pub fn pop_style_span(&mut self)
        requires
            old(self).wf(),
            old(self).tree().nodes[old(self).tree().current].parent is Some,
        ensures
            final(self).tree() == old(self).tree().popped(),
            final(self).wf(),
            final(self).same_but_tree(*old(self)),
    {
        self.lcx.tree_style_builder.pop_style_span();
    }

    /// Appends text to the open span.
    pub fn push_text(&mut self, text: &str)
        requires
            old(self).wf(),
        ensures
            final(self).tree() == (StyleTree {
                uncommitted: old(self).tree().uncommitted + text@,
                ..old(self).tree()
            }),
            final(self).wf(),
            final(self).same_but_tree(*old(self)),
    {
        self.lcx.tree_style_builder.push_text(text);
    }

    /// The spans and their text when a box is pushed. An atomic box commits
    /// the text before it, and white space after it does not collapse into
    /// that text.
    pub open spec fn tree_after_box(tree: StyleTree<T, B>, kind: InlineBoxKind) -> StyleTree<T, B> {
        if kind == InlineBoxKind::InFlow {
            StyleTree { last: ItemKind::InlineBox, ..tree.committed(false) }
        } else {
            tree
        }
    }

    fn push_inline_box_input(&mut self, inline_box: InlineBox<T>, style_after: Option<u16>)
        requires
            old(self).wf(),
        ensures
            final(self).tree() == Self::tree_after_box(old(self).tree(), inline_box.kind),
            final(self).wf(),
            final(self).lcx.inline_boxes@ == old(self).lcx.inline_boxes@.push(
                InlineBoxInput {
                    inline_box: InlineBox {
                        index: tree::byte_len(final(self).tree().text),
                        ..inline_box
                    },
                    style_after,
                    bidi_level: 0,
                },
            ),
            *final(self) == (TreeBuilder {
                lcx: LayoutContext {
                    tree_style_builder: final(self).lcx.tree_style_builder,
                    inline_boxes: final(self).lcx.inline_boxes,
                    ..old(self).lcx
                },
                ..*old(self)
            }),
    {
        let mut inline_box = inline_box;
        if inline_box.kind == InlineBoxKind::InFlow {
            self.lcx.tree_style_builder.push_uncommitted_text(false);
            self.lcx.tree_style_builder.set_last_item_kind(ItemKind::InlineBox);
        }
        inline_box.index = self.lcx.tree_style_builder.current_text_len();
        push_inline_box_input(&mut self.lcx, inline_box, style_after);
    }

    /// Appends a box at the end of the committed text.
    pub fn push_inline_box(&mut self, inline_box: InlineBox<T>)
        requires
            old(self).wf(),
        ensures
            final(self).tree() == Self::tree_after_box(old(self).tree(), inline_box.kind),
            final(self).wf(),
            final(self).lcx.inline_boxes@ == old(self).lcx.inline_boxes@.push(
                InlineBoxInput {
                    inline_box: InlineBox {
                        index: tree::byte_len(final(self).tree().text),
                        ..inline_box
                    },
                    style_after: None,
                    bidi_level: 0,
                },
            ),
            *final(self) == (TreeBuilder {
                lcx: LayoutContext {
                    tree_style_builder: final(self).lcx.tree_style_builder,
                    inline_boxes: final(self).lcx.inline_boxes,
                    ..old(self).lcx
                },
                ..*old(self)
            }),
    {
        self.push_inline_box_input(inline_box, None);
    }

    /// Sets how white space is processed in the open span from here on.
    pub fn set_white_space_mode(&mut self, white_space_collapse: WhiteSpaceCollapse)
        requires
            old(self).wf(),
        ensures
            final(self).tree() == old(self).tree().with_mode(white_space_collapse),
            final(self).wf(),
            final(self).same_but_tree(*old(self)),
    {
        self.lcx.tree_style_builder.set_white_space_mode(white_space_collapse);
    }

    /// The styles, runs and boxes of the whole text, as the spans give them.
    pub open spec fn built_source(&self) -> Source<T, B> {
        let finished = self.tree().finished();
        Source {
            table: finished.final_table(),
            runs: finished.final_runs(),
            boxes: self.lcx.inline_boxes@,
        }
    }

    /// There is text or a box.
    pub open spec fn has_content(&self) -> bool {
        self.lcx.inline_boxes@.len() > 0 || self.tree().finished().text.len() > 0
    }

    /// Closes all spans, and prepares the layout for shaping. Returns the
    /// context and the text with its white space processed. Where there is
    /// content the root style is put in the style table if it is not there.
    pub fn build_into(self, layout: &mut Layout<T>) -> (r: (LayoutContext<T, B>, String))
        requires
            self.wf(),
            text::fits(self.tree().finished().text),
            established(self.built_source().table, self.tree().nodes[0].style) <= u16::MAX,
        ensures
            ({
                let root_style = self.tree().nodes[0].style;
                let source = self.built_source();
                &&& r.1@ == self.tree().finished().text
                &&& is_prepared(
                    if self.has_content() {
                        source.with_root(root_style)
                    } else {
                        source
                    },
                    r.0,
                    *final(layout),
                    r.1@,
                    self.options,
                    if self.has_content() {
                        Some(established(source.table, root_style) as u16)
                    } else {
                        None
                    },
                )
            }),
            keeps_settings(*final(layout), *old(layout)),
    {
        proof {
            self.tree().lemma_final_runs_cover();
        }
        let mut lcx = self.lcx;
        let root_style = lcx.tree_style_builder.root_style().duplicate();
        let default_style = root_style.duplicate();
        let has_inline_boxes = lcx.inline_boxes.len() > 0;
        let text = lcx.tree_style_builder.finish(&mut lcx.style_table, &mut lcx.style_runs);
        let root_style_index = if has_inline_boxes || !text.as_str().is_empty() {
            Some(establish_root_style(&mut lcx.style_table, root_style))
        } else {
            None
        };
        prepare_layout(
            layout,
            text.as_str(),
            &mut lcx,
            self.options,
            root_style_index,
            default_style,
        );
        (lcx, text)
    }

    /// Closes all spans, and prepares a new layout for shaping; see
    /// [`TreeBuilder::build_into`].
    pub fn build(self) -> (r: (Layout<T>, LayoutContext<T, B>, String))
        requires
            self.wf(),
            text::fits(self.tree().finished().text),
            established(self.built_source().table, self.tree().nodes[0].style) <= u16::MAX,
        ensures
            ({
                let root_style = self.tree().nodes[0].style;
                let source = self.built_source();
                &&& r.2@ == self.tree().finished().text
                &&& is_prepared(
                    if self.has_content() {
                        source.with_root(root_style)
                    } else {
                        source
                    },
                    r.1,
                    r.0,
                    r.2@,
                    self.options,
                    if self.has_content() {
                        Some(established(source.table, root_style) as u16)
                    } else {
                        None
                    },
                )
            }),
            has_default_settings(r.0),
    {
        let mut layout = Layout::new();
        let (lcx, text) = self.build_into(&mut layout);
        (layout, lcx, text)
    }
}

} // verus!
