//! Assembling a layout from shaped runs and inline boxes.

use crate::context::LayoutContext;
use crate::inline_box::InlineBoxInput;
use crate::layout::data::{Layout, LayoutData, LayoutItem, LayoutItemKind, RunData};
use crate::layout::shaped::{ShapedRun, ShapedText};
use crate::resolve::{Brush, ResolvedStyle};
use crate::scalar::Scalar;
use vstd::prelude::*;

verus! {

impl<T: Scalar> ShapedText<T> {
    /// The runs follow each other without a gap, from the first cluster on.
    pub open spec fn runs_follow(self) -> bool {
        &&& self.runs@.len() > 0 ==> self.runs@[0].clusters.start == 0
        &&& forall|i: int, j: int|
            0 <= i && j == i + 1 && j < self.runs@.len() ==> (
            #[trigger] self.runs@[i]).clusters.end == (#[trigger] self.runs@[j]).clusters.start
    }

    /// The end of the clusters of the run before a run.
    pub open spec fn clusters_before_run(self, run: int) -> int {
        if run <= 0 {
            0
        } else {
            self.runs@[run - 1].clusters.end as int
        }
    }

    fn check_clusters(&self) -> (r: bool)
        ensures
            self.wf() ==> r,
            r ==> forall|i: int|
                0 <= i < self.clusters@.len() ==> (#[trigger] self.clusters@[i]).chars.start
                    < self.clusters@[i].chars.end <= self.characters@.len(),
            r ==> forall|i: int, j: int|
                0 <= i < j < self.clusters@.len() ==> (#[trigger] self.clusters@[i]).chars.end <= (
                #[trigger] self.clusters@[j]).chars.start,
            r ==> forall|i: int|
                0 <= i < self.clusters@.len() ==> (#[trigger] self.clusters@[i]).glyphs.start
                    <= self.clusters@[i].glyphs.end <= self.glyphs@.len(),
    {
        let mut i: usize = 0;
        while i < self.clusters.len()
            invariant
                i <= self.clusters@.len(),
                forall|k: int|
                    0 <= k < i ==> (#[trigger] self.clusters@[k]).chars.start
                        < self.clusters@[k].chars.end <= self.characters@.len(),
                forall|k: int, j: int|
                    0 <= k < j < i ==> (#[trigger] self.clusters@[k]).chars.end <= (
                    #[trigger] self.clusters@[j]).chars.start,
                forall|k: int|
                    0 <= k < i ==> (#[trigger] self.clusters@[k]).glyphs.start
                        <= self.clusters@[k].glyphs.end <= self.glyphs@.len(),
            decreases self.clusters@.len() - i,
        {
            let cluster = self.clusters[i];
            if cluster.chars.start >= cluster.chars.end || cluster.chars.end
                > self.characters.len() {
                return false;
            }
            if cluster.glyphs.start > cluster.glyphs.end || cluster.glyphs.end
                > self.glyphs.len() {
                return false;
            }
            if i > 0 && self.clusters[i - 1].chars.end > cluster.chars.start {
                return false;
            }
            i = i + 1;
        }
        true
    }

    /// Whether every range lies inside what it indexes and the runs follow
    /// each other.
    pub fn is_consistent(&self) -> (r: bool)
        ensures
            r == (self.wf() && self.runs_follow()),
    {
        if !self.check_clusters() {
            return false;
        }
        let mut next: usize = 0;
        let mut i: usize = 0;
        while i < self.runs.len()
            invariant
                i <= self.runs@.len(),
                next == self.clusters_before_run(i as int),
                forall|k: int|
                    0 <= k < i ==> (#[trigger] self.runs@[k]).clusters.start
                        < self.runs@[k].clusters.end <= self.clusters@.len(),
                forall|k: int|
                    0 <= k < i ==> (#[trigger] self.runs@[k]).characters.start
                        < self.characters@.len(),
                forall|k: int|
                    0 <= k < i ==> (#[trigger] self.runs@[k]).font_index < self.fonts@.len(),
                i > 0 ==> self.runs@[0].clusters.start == 0,
                forall|k: int, j: int|
                    0 <= k && j == k + 1 && j < i ==> (#[trigger] self.runs@[k]).clusters.end == (
                    #[trigger] self.runs@[j]).clusters.start,
            decreases self.runs@.len() - i,
        {
            let run = self.runs[i];
            proof {
                if i > 0 {
                    assert(self.runs@[i - 1].clusters.end == next);
                }
            }
            if run.clusters.start != next || run.clusters.start >= run.clusters.end
                || run.clusters.end > self.clusters.len() {
                return false;
            }
            if run.characters.start >= self.characters.len() || run.font_index
                >= self.fonts.len() {
                return false;
            }
            next = run.clusters.end;
            i = i + 1;
        }
        true
    }
}

/// The runs from `run` on and the boxes from `box_index` on, in text order. A
/// box comes before the run that starts at its offset.
pub open spec fn merged_items<T: Scalar>(
    runs: Seq<ShapedRun<T>>,
    boxes: Seq<InlineBoxInput<T>>,
    run: int,
    box_index: int,
) -> Seq<LayoutItem>
    decreases runs.len() - run + boxes.len() - box_index,
{
    if 0 <= box_index < boxes.len() && run <= runs.len() && (run >= runs.len()
        || boxes[box_index].inline_box.index <= runs[run].text.start) {
        seq![
            LayoutItem {
                kind: LayoutItemKind::InlineBox,
                index: box_index as usize,
                bidi_level: boxes[box_index].bidi_level,
                style_after: boxes[box_index].style_after,
            },
        ] + merged_items(runs, boxes, run, box_index + 1)
    } else if 0 <= run < runs.len() && box_index <= boxes.len() {
        seq![
            LayoutItem {
                kind: LayoutItemKind::TextRun,
                index: run as usize,
                bidi_level: runs[run].bidi_level,
                style_after: None,
            },
        ] + merged_items(runs, boxes, run + 1, box_index)
    } else {
        Seq::empty()
    }
}

/// The style of a run: that of its first character.
pub open spec fn style_of_run<T: Scalar, B: Brush>(
    text: ShapedText<T>,
    table: Seq<ResolvedStyle<T, B>>,
    run: int,
) -> ResolvedStyle<T, B> {
    table[text.characters@[text.runs@[run].characters.start as int].style_index as int]
}

/// What the layout keeps of a run.
pub open spec fn kept_run<T: Scalar, B: Brush>(
    data: LayoutData<T>,
    table: Seq<ResolvedStyle<T, B>>,
    run: int,
) -> RunData<T> {
    let style = style_of_run(data.shaped_text, table, run);
    data.run_data(run, style.font_attrs, style.word_spacing, style.letter_spacing)
}

/// The shaped text is consistent, and it and the boxes refer to styles of the
/// layout, which has no items yet.
pub open spec fn can_assemble<T: Scalar, B: Brush>(
    data: LayoutData<T>,
    lcx: LayoutContext<T, B>,
) -> bool {
    &&& data.shaped_text.wf()
    &&& data.shaped_text.runs_follow()
    &&& data.items@.len() == 0
    &&& data.runs@.len() == 0
    &&& data.styles@.len() == lcx.style_table@.len()
    &&& data.root_style_index < data.styles@.len()
    &&& data.inline_boxes@.len() == lcx.inline_boxes@.len()
    &&& data.shaped_text.runs@.len() + data.inline_boxes@.len() < usize::MAX
    &&& forall|i: int|
        0 <= i < data.shaped_text.characters@.len() ==> (
        #[trigger] data.shaped_text.characters@[i]).style_index < data.styles@.len()
    &&& forall|i: int|
        0 <= i < lcx.inline_boxes@.len() ==> ((
        #[trigger] lcx.inline_boxes@[i]).style_after matches Some(style) ==> style
            < data.styles@.len())
}

fn check_styles<T: Scalar, B: Brush>(data: &LayoutData<T>, lcx: &LayoutContext<T, B>) -> (r: bool)
    ensures
        r == ((forall|i: int|
            0 <= i < data.shaped_text.characters@.len() ==> (
            #[trigger] data.shaped_text.characters@[i]).style_index < data.styles@.len()) && (
        forall|i: int|
            0 <= i < lcx.inline_boxes@.len() ==> ((
            #[trigger] lcx.inline_boxes@[i]).style_after matches Some(style) ==> style
                < data.styles@.len()))),
{
    let mut i: usize = 0;
    while i < data.shaped_text.characters.len()
        invariant
            i <= data.shaped_text.characters@.len(),
            forall|k: int|
                0 <= k < i ==> (#[trigger] data.shaped_text.characters@[k]).style_index
                    < data.styles@.len(),
        decreases data.shaped_text.characters@.len() - i,
    {
        if data.shaped_text.characters[i].style_index as usize >= data.styles.len() {
            return false;
        }
        i = i + 1;
    }
    let mut i: usize = 0;
    while i < lcx.inline_boxes.len()
        invariant
            i <= lcx.inline_boxes@.len(),
            forall|k: int|
                0 <= k < i ==> ((#[trigger] lcx.inline_boxes@[k]).style_after matches Some(style)
                    ==> style < data.styles@.len()),
        decreases lcx.inline_boxes@.len() - i,
    {
        if let Some(style) = lcx.inline_boxes[i].style_after {
            if style as usize >= data.styles.len() {
                return false;
            }
        }
        i = i + 1;
    }
    true
}

fn check_assembly<T: Scalar, B: Brush>(data: &LayoutData<T>, lcx: &LayoutContext<T, B>) -> (r: bool)
    ensures
        r == can_assemble(*data, *lcx),
{
    let boxes = data.inline_boxes.len();
    data.shaped_text.is_consistent() && data.items.len() == 0 && data.runs.len() == 0
        && data.styles.len() == lcx.style_table.len() && (data.root_style_index as usize)
        < data.styles.len() && boxes == lcx.inline_boxes.len() && boxes < usize::MAX
        && data.shaped_text.runs.len() < usize::MAX - boxes && check_styles(data, lcx)
}

proof fn lemma_clusters_before_prefix<T: Scalar>(a: LayoutData<T>, b: LayoutData<T>, item: int)
    requires
        a.shaped_text == b.shaped_text,
        item <= a.items@.len(),
        item <= b.items@.len(),
        forall|i: int| 0 <= i < item ==> #[trigger] a.items@[i] == b.items@[i],
    ensures
        a.clusters_before(item) == b.clusters_before(item),
    decreases item,
{
    if item > 0 {
        lemma_clusters_before_prefix(a, b, item - 1);
        assert(a.items@[item - 1] == b.items@[item - 1]);
    }
}

/// Pushing a consistent item keeps the items before it consistent.
proof fn lemma_pushed_item<T: Scalar>(before: LayoutData<T>, after: LayoutData<T>)
    requires
        forall|i: int| 0 <= i < before.items@.len() ==> #[trigger] before.item_wf(i),
        after.items@.len() == before.items@.len() + 1,
        forall|i: int| 0 <= i < before.items@.len() ==> #[trigger] after.items@[i]
            == before.items@[i],
        after.shaped_text == before.shaped_text,
        after.styles == before.styles,
        after.inline_boxes == before.inline_boxes,
    ensures
        forall|i: int| 0 <= i < before.items@.len() ==> #[trigger] after.item_wf(i),
        after.clusters_before(before.items@.len() as int) == before.clusters_before(
            before.items@.len() as int,
        ),
{
    assert forall|i: int| 0 <= i < before.items@.len() implies #[trigger] after.item_wf(i) by {
        assert(before.item_wf(i));
        assert(after.items@[i] == before.items@[i]);
        lemma_clusters_before_prefix(before, after, i);
    }
    lemma_clusters_before_prefix(before, after, before.items@.len() as int);
}

/// Puts the shaped runs and the boxes of a layout in text order, so that lines
/// can be broken from it. Returns whether that was possible; the layout is left
/// alone if the shaped text or a box refers to what is not there.
pub fn assemble_layout<T: Scalar, B: Brush>(
    layout: &mut Layout<T>,
    lcx: &LayoutContext<T, B>,
) -> (r: bool)
    ensures
        r == can_assemble(old(layout).data, *lcx),
        !r ==> *final(layout) == *old(layout),
        r ==> {
            let given = old(layout).data;
            let count = given.shaped_text.runs@.len();
            &&& final(layout).data.wf()
            &&& final(layout).data.items@ == merged_items(
                given.shaped_text.runs@,
                lcx.inline_boxes@,
                0,
                0,
            )
            &&& final(layout).data.runs@ == Seq::new(
                count,
                |i: int| kept_run(given, lcx.style_table@, i),
            )
        },
        *final(layout) == (Layout {
            data: LayoutData {
                items: final(layout).data.items,
                runs: final(layout).data.runs,
                ..old(layout).data
            },
            ..*old(layout)
        }),
{
    if !check_assembly(&layout.data, lcx) {
        return false;
    }
    let ghost given = layout.data;
    let ghost runs = given.shaped_text.runs@;
    let ghost boxes = lcx.inline_boxes@;
    let run_count = layout.data.shaped_text.runs.len();
    let box_count = lcx.inline_boxes.len();
    let mut run: usize = 0;
    let mut box_index: usize = 0;
    proof {
        assert(layout.data.items@ + merged_items(runs, boxes, 0, 0) =~= merged_items(
            runs,
            boxes,
            0,
            0,
        ));
        assert(layout.data.runs@ =~= Seq::new(0, |i: int| kept_run(given, lcx.style_table@, i)));
    }
    while run < run_count || box_index < box_count
        invariant
            can_assemble(given, *lcx),
            given == old(layout).data,
            runs == given.shaped_text.runs@,
            boxes == lcx.inline_boxes@,
            run_count == runs.len(),
            box_count == boxes.len(),
            run <= run_count,
            box_index <= box_count,
            *layout == (Layout {
                data: LayoutData { items: layout.data.items, runs: layout.data.runs, ..given },
                ..*old(layout)
            }),
            layout.data.items@ + merged_items(runs, boxes, run as int, box_index as int)
                == merged_items(runs, boxes, 0, 0),
            layout.data.runs@ == Seq::new(
                run as nat,
                |i: int| kept_run(given, lcx.style_table@, i),
            ),
            layout.data.items@.len() == run + box_index,
            forall|i: int| 0 <= i < layout.data.items@.len() ==> #[trigger] layout.data.item_wf(i),
            layout.data.clusters_before(layout.data.items@.len() as int)
                == given.shaped_text.clusters_before_run(run as int),
        decreases run_count - run + box_count - box_index,
    {
        let ghost before = layout.data;
        let ghost len = before.items@.len() as int;
        let ghost rest = merged_items(runs, boxes, run as int, box_index as int);
        if box_index < box_count && (run >= run_count
            || lcx.inline_boxes[box_index].inline_box.index
            <= layout.data.shaped_text.runs[run].text.start) {
            let input = lcx.inline_boxes[box_index];
            layout.data.push_inline_box(box_index, input.bidi_level, input.style_after);
            box_index = box_index + 1;
            proof {
                lemma_pushed_item(before, layout.data);
                assert(layout.data.item_wf(len));
            }
        } else {
            let first = layout.data.shaped_text.runs[run].characters.start;
            proof {
                assert(runs[run as int].characters.start
                    < given.shaped_text.characters@.len());
            }
            let style_index = layout.data.shaped_text.characters[first].style_index;
            let style = &lcx.style_table[style_index as usize];
            layout.data.process_shaped_run(
                run,
                style,
                style.word_spacing,
                style.letter_spacing,
            );
            proof {
                if run > 0 {
                    assert(runs[run - 1].clusters.end == runs[run as int].clusters.start);
                }
                lemma_pushed_item(before, layout.data);
                assert(layout.data.item_wf(len));
                assert(layout.data.runs@ =~= Seq::new(
                    (run + 1) as nat,
                    |i: int| kept_run(given, lcx.style_table@, i),
                ));
            }
            run = run + 1;
        }
        proof {
            let pushed = seq![layout.data.items@.last()];
            let next = merged_items(runs, boxes, run as int, box_index as int);
            assert(rest =~= pushed + next);
            assert(layout.data.items@ =~= before.items@ + pushed);
            assert(before.items@ + (pushed + next) =~= (before.items@ + pushed) + next);
        }
    }
    proof {
        let none = merged_items(runs, boxes, run as int, box_index as int);
        assert(none =~= Seq::empty());
        assert(layout.data.items@ + none =~= layout.data.items@);
    }
    true
}

} // verus!
