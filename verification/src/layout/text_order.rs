//! The items of a layout are its runs and boxes in text order.

use crate::inline_box::InlineBoxInput;
use crate::layout::assemble::merged_items;
use crate::layout::data::{LayoutItem, LayoutItemKind};
use crate::layout::shaped::ShapedRun;
use crate::scalar::Scalar;
use vstd::prelude::*;

verus! {

/// The runs and the boxes are each in text order.
pub open spec fn are_in_order<T: Scalar>(
    runs: Seq<ShapedRun<T>>,
    boxes: Seq<InlineBoxInput<T>>,
) -> bool {
    &&& forall|a: int, b: int|
        0 <= a <= b < runs.len() ==> (#[trigger] runs[a]).text.start <= (
        #[trigger] runs[b]).text.start
    &&& forall|a: int, b: int|
        0 <= a <= b < boxes.len() ==> (#[trigger] boxes[a]).inline_box.index <= (
        #[trigger] boxes[b]).inline_box.index
}

pub open spec fn is_box(item: LayoutItem) -> bool {
    item.kind == LayoutItemKind::InlineBox
}

/// The item is that of a run from `run` on or of a box from `from` on, with its
/// level.
pub open spec fn is_item_of<T: Scalar>(
    item: LayoutItem,
    runs: Seq<ShapedRun<T>>,
    boxes: Seq<InlineBoxInput<T>>,
    run: int,
    from: int,
) -> bool {
    if is_box(item) {
        &&& from <= item.index < boxes.len()
        &&& item.bidi_level == boxes[item.index as int].bidi_level
        &&& item.style_after == boxes[item.index as int].style_after
    } else {
        &&& run <= item.index < runs.len()
        &&& item.bidi_level == runs[item.index as int].bidi_level
        &&& item.style_after is None
    }
}

/// The first of two items comes first: runs and boxes keep their order, and a box
/// comes before a run exactly if the run starts at the box's offset or later.
pub open spec fn comes_before<T: Scalar>(
    a: LayoutItem,
    b: LayoutItem,
    runs: Seq<ShapedRun<T>>,
    boxes: Seq<InlineBoxInput<T>>,
) -> bool {
    if a.kind == b.kind {
        a.index < b.index
    } else if is_box(a) {
        boxes[a.index as int].inline_box.index <= runs[b.index as int].text.start
    } else {
        runs[a.index as int].text.start < boxes[b.index as int].inline_box.index
    }
}

proof fn lemma_merged<T: Scalar>(
    runs: Seq<ShapedRun<T>>,
    boxes: Seq<InlineBoxInput<T>>,
    run: int,
    from: int,
)
    requires
        are_in_order(runs, boxes),
        runs.len() <= usize::MAX,
        boxes.len() <= usize::MAX,
        0 <= run <= runs.len(),
        0 <= from <= boxes.len(),
    ensures
        ({
            let items = merged_items(runs, boxes, run, from);
            &&& items.len() == runs.len() - run + boxes.len() - from
            &&& forall|i: int|
                0 <= i < items.len() ==> is_item_of(#[trigger] items[i], runs, boxes, run, from)
            &&& forall|i: int, j: int|
                0 <= i < j < items.len() ==> comes_before(
                    #[trigger] items[i],
                    #[trigger] items[j],
                    runs,
                    boxes,
                )
        }),
    decreases runs.len() - run + boxes.len() - from,
{
    let items = merged_items(runs, boxes, run, from);
    let takes_box = from < boxes.len() && (run >= runs.len() || boxes[from].inline_box.index
        <= runs[run].text.start);
    if takes_box || run < runs.len() {
        let (next_run, next_box) = if takes_box {
            (run, from + 1)
        } else {
            (run + 1, from)
        };
        lemma_merged(runs, boxes, next_run, next_box);
        let rest = merged_items(runs, boxes, next_run, next_box);
        assert(items =~= seq![items[0]] + rest);
        assert forall|i: int| 0 <= i < items.len() implies is_item_of(
            #[trigger] items[i],
            runs,
            boxes,
            run,
            from,
        ) by {
            if i > 0 {
                assert(is_item_of(rest[i - 1], runs, boxes, next_run, next_box));
            }
        }
        assert forall|i: int, j: int| 0 <= i < j < items.len() implies comes_before(
            #[trigger] items[i],
            #[trigger] items[j],
            runs,
            boxes,
        ) by {
            assert(is_item_of(rest[j - 1], runs, boxes, next_run, next_box));
            if i > 0 {
                assert(comes_before(rest[i - 1], rest[j - 1], runs, boxes));
            }
        }
    }
}

/// Whether the item of a run, or of a box, is among the items.
pub open spec fn has_item(items: Seq<LayoutItem>, kind: LayoutItemKind, index: int) -> bool {
    exists|i: int|
        0 <= i < items.len() && (#[trigger] items[i]).kind == kind && items[i].index == index
}

proof fn lemma_all_merged<T: Scalar>(
    runs: Seq<ShapedRun<T>>,
    boxes: Seq<InlineBoxInput<T>>,
    run: int,
    from: int,
)
    requires
        runs.len() <= usize::MAX,
        boxes.len() <= usize::MAX,
        0 <= run <= runs.len(),
        0 <= from <= boxes.len(),
    ensures
        ({
            let items = merged_items(runs, boxes, run, from);
            &&& forall|index: int|
                run <= index < runs.len() ==> #[trigger] has_item(
                    items,
                    LayoutItemKind::TextRun,
                    index,
                )
            &&& forall|index: int|
                from <= index < boxes.len() ==> #[trigger] has_item(
                    items,
                    LayoutItemKind::InlineBox,
                    index,
                )
        }),
    decreases runs.len() - run + boxes.len() - from,
{
    let items = merged_items(runs, boxes, run, from);
    let takes_box = from < boxes.len() && (run >= runs.len() || boxes[from].inline_box.index
        <= runs[run].text.start);
    if takes_box || run < runs.len() {
        let (next_run, next_box) = if takes_box {
            (run, from + 1)
        } else {
            (run + 1, from)
        };
        lemma_all_merged(runs, boxes, next_run, next_box);
        let rest = merged_items(runs, boxes, next_run, next_box);
        assert(items =~= seq![items[0]] + rest);
        assert forall|kind: LayoutItemKind, index: int| #[trigger]
            has_item(rest, kind, index) implies has_item(items, kind, index) by {
            let i = choose|i: int|
                0 <= i < rest.len() && (#[trigger] rest[i]).kind == kind && rest[i].index == index;
            assert(items[i + 1] == rest[i]);
        }
        assert(has_item(items, items[0].kind, items[0].index as int));
        assert forall|index: int| run <= index < runs.len() implies #[trigger] has_item(
            items,
            LayoutItemKind::TextRun,
            index,
        ) by {
            if index >= next_run {
                assert(has_item(rest, LayoutItemKind::TextRun, index));
            }
        }
        assert forall|index: int| from <= index < boxes.len() implies #[trigger] has_item(
            items,
            LayoutItemKind::InlineBox,
            index,
        ) by {
            if index >= next_box {
                assert(has_item(rest, LayoutItemKind::InlineBox, index));
            }
        }
    }
}

/// The items of an assembled layout are those of all runs and all boxes, each
/// once and with its own level, in text order; a box comes before the run that
/// starts at its offset.
pub proof fn lemma_items_are_in_text_order<T: Scalar>(
    runs: Seq<ShapedRun<T>>,
    boxes: Seq<InlineBoxInput<T>>,
)
    requires
        are_in_order(runs, boxes),
        runs.len() <= usize::MAX,
        boxes.len() <= usize::MAX,
    ensures
        ({
            let items = merged_items(runs, boxes, 0, 0);
            &&& items.len() == runs.len() + boxes.len()
            &&& forall|i: int|
                0 <= i < items.len() ==> is_item_of(#[trigger] items[i], runs, boxes, 0, 0)
            &&& forall|index: int|
                0 <= index < runs.len() ==> #[trigger] has_item(
                    items,
                    LayoutItemKind::TextRun,
                    index,
                )
            &&& forall|index: int|
                0 <= index < boxes.len() ==> #[trigger] has_item(
                    items,
                    LayoutItemKind::InlineBox,
                    index,
                )
            &&& forall|i: int, j: int|
                0 <= i < j < items.len() ==> comes_before(
                    #[trigger] items[i],
                    #[trigger] items[j],
                    runs,
                    boxes,
                )
        }),
{
    lemma_merged(runs, boxes, 0, 0);
    lemma_all_merged(runs, boxes, 0, 0);
}

} // verus!
