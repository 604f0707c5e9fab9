//! Rows of atomic boxes.

use crate::inline_box::InlineBoxKind;
use crate::layout::break_lines;
use crate::layout::break_lines::{Progress, YieldData};
use crate::layout::char_scan::Count;
use crate::layout::commit;
use crate::layout::commit::Commit;
use crate::layout::content_widths::Measure;
use crate::layout::data::{BreakReason, LayoutData, LayoutItemKind};
use crate::layout::lengths;
use crate::layout::lengths::{box_steps, boxes_steps, lengths_fit};
use crate::layout::scan;
use crate::layout::scan::Flow;
use crate::layout::state::{BreakerState, LineState};
use crate::scalar::Fixed;
use crate::style::TextWrapMode;
use vstd::prelude::*;

verus! {

/// The layout holds nothing but atomic boxes, all of them in a style that wraps
/// in the same way.
pub open spec fn is_row(layout: LayoutData<Fixed>, mode: TextWrapMode) -> bool {
    &&& layout.items@.len() > 0
    &&& layout.styles@[layout.root_style_index as int].text_wrap_mode == mode
    &&& forall|item: int|
        0 <= item < layout.items@.len() ==> {
            &&& !#[trigger] layout.spec_is_text(item)
            &&& layout.inline_boxes@[layout.items@[item].index as int].kind
                == InlineBoxKind::InFlow
            &&& layout.items@[item].style_after matches Some(style)
                ==> layout.styles@[style as int].text_wrap_mode == mode
        }
}

/// No box has a negative width.
pub open spec fn has_plain_widths(layout: LayoutData<Fixed>) -> bool {
    forall|item: int| 0 <= item < layout.items@.len() ==> #[trigger] box_steps(layout, item) >= 0
}

// ---------------------------------------------------------------------------
// Widths.

/// The boxes before `item` have been measured.
spec fn is_measured(
    layout: LayoutData<Fixed>,
    measure: Measure<Fixed>,
    item: int,
    mode: TextWrapMode,
) -> bool {
    &&& measure.text_wrap_mode == mode
    &&& measure.pending_inline_start.steps == 0
    &&& measure.min_trailing_whitespace.steps == 0
    &&& measure.max_trailing_whitespace.steps == 0
    &&& !measure.text_ended
    &&& measure.running_max.steps == boxes_steps(layout, 0, item)
    &&& 0 <= measure.max.steps <= measure.running_max.steps
    &&& 0 <= measure.min.steps
    &&& measure.last_content_text_wrap_mode matches Some(last) ==> last == mode
    &&& if mode == TextWrapMode::Wrap {
        &&& measure.break_after_pending == (item > 0)
        &&& measure.running_min.steps == if item > 0 {
            box_steps(layout, item - 1)
        } else {
            0
        }
        &&& forall|i: int|
            0 <= i < item - 1 ==> #[trigger] box_steps(layout, i) <= measure.min.steps
        &&& measure.min.steps == 0 || exists|i: int|
            0 <= i < item && #[trigger] box_steps(layout, i) == measure.min.steps
    } else {
        &&& !measure.break_after_pending
        &&& measure.running_min == measure.running_max
        &&& measure.min.steps == 0
    }
}

proof fn lemma_measured_box(
    layout: LayoutData<Fixed>,
    measure: Measure<Fixed>,
    item: int,
    mode: TextWrapMode,
)
    requires
        is_row(layout, mode),
        has_plain_widths(layout),
        lengths_fit(layout),
        0 <= item < layout.items@.len(),
        is_measured(layout, measure, item, mode),
    ensures
        is_measured(
            layout,
            measure.with_box(layout.inline_boxes@[layout.items@[item].index as int]),
            item + 1,
            mode,
        ),
{
    assert(!layout.spec_is_text(item));
    assert(box_steps(layout, item) >= 0);
    lengths::lemma_parts_fit(layout, 0, item, 0, 0);
    lengths::lemma_parts_fit(layout, 0, item + 1, 0, 0);
    lengths::lemma_parts_fit(layout, item, item + 1, 0, 0);
    reveal_with_fuel(boxes_steps, 2);
    let next = measure.with_box(layout.inline_boxes@[layout.items@[item].index as int]);
    if item > 0 {
        assert(box_steps(layout, item - 1) >= 0);
    }
    if mode == TextWrapMode::Wrap && next.min.steps != 0 {
        if next.min == measure.min {
            let i = choose|i: int|
                0 <= i < item && #[trigger] box_steps(layout, i) == measure.min.steps;
            assert(box_steps(layout, i) == next.min.steps);
        } else {
            assert(box_steps(layout, item - 1) == next.min.steps);
        }
    }
}

proof fn lemma_measured_boxes(
    layout: LayoutData<Fixed>,
    measure: Measure<Fixed>,
    item: int,
    mode: TextWrapMode,
)
    requires
        is_row(layout, mode),
        has_plain_widths(layout),
        lengths_fit(layout),
        0 <= item <= layout.items@.len(),
        is_measured(layout, measure, item, mode),
    ensures
        is_measured(
            layout,
            measure.with_items(layout, item),
            layout.items@.len() as int,
            mode,
        ),
    decreases layout.items@.len() - item,
{
    if item < layout.items@.len() {
        assert(!layout.spec_is_text(item));
        let data = layout.items@[item];
        let boxed = measure.with_box(layout.inline_boxes@[data.index as int]);
        lemma_measured_box(layout, measure, item, mode);
        let next = match data.style_after {
            Some(style) => Measure {
                text_wrap_mode: layout.styles@[style as int].text_wrap_mode,
                ..boxed
            },
            None => boxed,
        };
        assert(next == boxed);
        lemma_measured_boxes(layout, next, item + 1, mode);
    }
}

/// The max-content width of a row of boxes is that of all boxes together. Its
/// min-content width is that of the widest box, or, if the row does not wrap, of
/// all boxes together.
pub proof fn lemma_widths_of_row(layout: LayoutData<Fixed>, mode: TextWrapMode)
    requires
        is_row(layout, mode),
        has_plain_widths(layout),
        lengths_fit(layout),
    ensures
        ({
            let widths = layout.content_widths();
            let count = layout.items@.len() as int;
            &&& widths.max.steps == boxes_steps(layout, 0, count)
            &&& mode == TextWrapMode::Wrap ==> {
                &&& forall|i: int|
                    0 <= i < count ==> #[trigger] box_steps(layout, i) <= widths.min.steps
                &&& exists|i: int| 0 <= i < count && #[trigger] box_steps(layout, i)
                    == widths.min.steps
            }
            &&& mode == TextWrapMode::NoWrap ==> widths.min == widths.max
        }),
{
    let start = Measure::<Fixed>::start(mode);
    let count = layout.items@.len() as int;
    lemma_measured_boxes(layout, start, 0, mode);
    let measure = start.with_items(layout, 0);
    let widths = layout.content_widths();
    assert(box_steps(layout, count - 1) >= 0);
    if mode == TextWrapMode::Wrap {
        if widths.min == measure.min && measure.min.steps != 0 {
            let i = choose|i: int|
                0 <= i < count && #[trigger] box_steps(layout, i) == measure.min.steps;
            assert(box_steps(layout, i) == widths.min.steps);
        } else {
            assert(box_steps(layout, count - 1) == widths.min.steps);
        }
    }
}

// ---------------------------------------------------------------------------
// Lines.

/// The boxes `first..item_idx` are on the line, and nothing else.
pub open spec fn is_filling_row(
    layout: LayoutData<Fixed>,
    state: BreakerState<Fixed>,
    first: int,
    mode: TextWrapMode,
) -> bool {
    &&& 0 <= first <= state.item_idx <= layout.items@.len()
    &&& state.cluster_idx == 0
    &&& state.line.items.start == first
    &&& state.line.items.end == state.item_idx
    &&& state.line.clusters.start == 0
    &&& state.line.clusters.end == 0
    &&& state.line.text_wrap_mode == mode
    &&& state.line.has_content == (first < state.item_idx)
    &&& state.last_content_text_wrap_mode matches Some(last) ==> last == mode
    &&& state.pending_inline_start.before() is None
    &&& state.line.x.steps == boxes_steps(layout, first, state.item_idx as int)
}

/// No box is higher than the line may be.
pub open spec fn boxes_are_low(layout: LayoutData<Fixed>, state: BreakerState<Fixed>) -> bool {
    forall|i: int|
        0 <= i < layout.inline_boxes@.len() ==> (#[trigger] layout.inline_boxes@[i]).height.steps
            <= state.line_max_height.steps
}

/// The boxes `first..last` fill a line of a limited advance: what comes after the
/// first of them fits.
pub open spec fn fits_row(layout: LayoutData<Fixed>, first: int, last: int, limit: int) -> bool {
    forall|k: int|
        first + 1 < k <= last ==> #[trigger] boxes_steps(layout, first, k) <= limit
}

proof fn lemma_scan_of_row(
    layout: LayoutData<Fixed>,
    state: BreakerState<Fixed>,
    first: int,
    mode: TextWrapMode,
    max_advance: Fixed,
)
    requires
        layout.wf(),
        is_row(layout, mode),
        lengths_fit(layout),
        boxes_are_low(layout, state),
        is_filling_row(layout, state, first, mode),
        mode == TextWrapMode::Wrap ==> fits_row(
            layout,
            first,
            state.item_idx as int,
            max_advance.steps as int,
        ),
    ensures
        ({
            let step = scan::scan(layout, state, state.item_idx as int, max_advance);
            let last = step.state.item_idx as int;
            &&& is_filling_row(layout, step.state, first, mode)
            &&& mode == TextWrapMode::Wrap ==> fits_row(
                layout,
                first,
                last,
                max_advance.steps as int,
            )
            &&& step.state.line_max_height == state.line_max_height
            &&& match step.flow {
                Flow::Continue => last == layout.items@.len(),
                Flow::Break(reason) => {
                    &&& mode == TextWrapMode::Wrap
                    &&& reason == BreakReason::Regular
                    &&& first < last < layout.items@.len()
                    &&& boxes_steps(layout, first, last + 1) > max_advance.steps
                },
                _ => false,
            }
        }),
    decreases layout.items@.len() - state.item_idx,
{
    let item = state.item_idx as int;
    if item < layout.items@.len() {
        assert(!layout.spec_is_text(item));
        assert(layout.item_wf(item));
        lengths::lemma_parts_fit(layout, first, item, 0, 0);
        lengths::lemma_parts_fit(layout, first, item + 1, 0, 0);
        let inline_box = layout.inline_boxes@[layout.items@[item].index as int];
        let step = scan::box_step(layout, state, item, max_advance);
        assert(boxes_steps(layout, first, item + 1) == boxes_steps(layout, first, item)
            + inline_box.width.steps);
        if step.flow is Continue {
            assert(is_filling_row(layout, step.state, first, mode));
            lemma_scan_of_row(layout, step.state, first, mode, max_advance);
        }
    }
}

/// A row of boxes that wraps is filled line by line: after its first box a line
/// takes every box that fits, and is broken before one that does not. A row that
/// does not wrap is one line. It is so of the first line, and of every line after
/// a line.
pub proof fn lemma_row_is_filled(
    layout: LayoutData<Fixed>,
    progress: Progress<Fixed>,
    mode: TextWrapMode,
)
    requires
        layout.wf(),
        is_row(layout, mode),
        lengths_fit(layout),
        boxes_are_low(layout, progress.state),
        !progress.done,
        is_filling_row(layout, progress.state, progress.state.item_idx as int, mode),
    ensures
        ({
            let (next, yielded) = progress.next(layout);
            let first = progress.state.item_idx as int;
            let last = next.state.item_idx as int;
            let line = next.lines.last();
            let limit = line.max_advance.steps as int;
            &&& yielded matches Some(YieldData::LineBreak(_))
            &&& next.lines.drop_last() == progress.lines
            &&& next.done == (last == layout.items@.len())
            &&& mode == TextWrapMode::Wrap ==> fits_row(layout, first, last, limit)
            &&& next.done ==> line.break_reason == BreakReason::NoBreak
            &&& !next.done ==> {
                &&& mode == TextWrapMode::Wrap
                &&& line.break_reason == BreakReason::Regular
                &&& first < last
                &&& boxes_steps(layout, first, last + 1) > limit
                &&& is_filling_row(layout, next.state, last, mode)
                &&& boxes_are_low(layout, next.state)
            }
        }),
{
    let available = progress.available(layout);
    let first = progress.state.item_idx as int;
    let step = scan::scan(layout, progress.state, first, available);
    lemma_scan_of_row(layout, progress.state, first, mode, available);
    let next = progress.next(layout).0;
    assert(next.lines.drop_last() =~= progress.lines);
    if step.flow is Break {
        lemma_row_is_committed(layout, step.state, progress);
    }
}

/// The next line starts with the next box.
proof fn lemma_row_is_committed(
    layout: LayoutData<Fixed>,
    state: BreakerState<Fixed>,
    progress: Progress<Fixed>,
)
    requires
        layout.wf(),
        forall|item: int|
            0 <= item < layout.items@.len() ==> !#[trigger] layout.spec_is_text(item),
        state.line.items.start < state.line.items.end <= layout.items@.len(),
        state.line.clusters.start == 0,
        state.line.clusters.end == 0,
        state.cluster_idx == 0,
    ensures
        ({
            let after = break_lines::after_line(layout, state, progress.items);
            &&& after.line.items.start == state.line.items.end
            &&& after.line.items.end == state.line.items.end
            &&& after.line.clusters.start == 0
            &&& after.line.clusters.end == 0
        }),
{
    lemma_commit_of_row(
        layout,
        commit::clamped(layout, state.line),
        state.line.items.start as int,
        Commit { items: progress.items, last: LayoutItemKind::TextRun, text: false },
    );
}

proof fn lemma_commit_of_row(
    layout: LayoutData<Fixed>,
    line: LineState<Fixed>,
    item: int,
    so_far: Commit<Fixed>,
)
    requires
        forall|item: int|
            0 <= item < layout.items@.len() ==> !#[trigger] layout.spec_is_text(item),
        0 <= item <= line.items.end <= layout.items@.len(),
        !so_far.text,
        item == line.items.end ==> so_far.last == LayoutItemKind::InlineBox,
    ensures
        commit::commit_items(layout, line, item, so_far).last == LayoutItemKind::InlineBox,
        !commit::commit_items(layout, line, item, so_far).text,
    decreases line.items.end - item,
{
    if item < line.items.end {
        assert(!layout.spec_is_text(item));
        let next = Commit {
            items: so_far.items.push(layout.committed_box(item)),
            last: LayoutItemKind::InlineBox,
            ..so_far
        };
        lemma_commit_of_row(layout, line, item + 1, next);
    }
}

/// The first line of a row starts with nothing on it.
pub proof fn lemma_first_row_is_empty(layout: LayoutData<Fixed>, mode: TextWrapMode)
    requires
        is_row(layout, mode),
    ensures
        is_filling_row(layout, Progress::start(layout).state, 0, mode),
{
}

proof fn lemma_count_of_row(
    layout: LayoutData<Fixed>,
    count: Count<Fixed>,
    mode: TextWrapMode,
    limit: u32,
)
    requires
        layout.wf(),
        is_row(layout, mode),
        count.state.item_idx <= layout.items@.len(),
        count.chars <= limit,
        !count.full,
    ensures
        ({
            let after = count.with_items(layout, count.state.item_idx as int, limit);
            let left = layout.items@.len() - count.state.item_idx;
            let room = limit - count.chars;
            &&& after.full == (room < left)
            &&& after.state.item_idx == count.state.item_idx + if room < left {
                room
            } else {
                left
            }
        }),
    decreases layout.items@.len() - count.state.item_idx,
{
    let item = count.state.item_idx as int;
    if item < layout.items@.len() {
        assert(!layout.spec_is_text(item));
        assert(layout.item_wf(item));
        if count.chars < limit {
            lemma_count_of_row(layout, count.with_box(layout, item), mode, limit);
        }
    }
}

/// A row of boxes breaks into lines of a number of boxes: a box counts as one
/// character. The last line has the rest.
pub proof fn lemma_counted_row(
    layout: LayoutData<Fixed>,
    progress: Progress<Fixed>,
    mode: TextWrapMode,
    max_chars: u32,
)
    requires
        layout.wf(),
        is_row(layout, mode),
        !progress.done,
        progress.state.item_idx <= layout.items@.len(),
    ensures
        ({
            let next = progress.next_with_length(layout, max_chars);
            let limit: int = if max_chars == 0 {
                1
            } else {
                max_chars as int
            };
            let left = layout.items@.len() - progress.state.item_idx;
            &&& next.done == (left <= limit)
            &&& next.lines.len() == progress.lines.len() + 1
            &&& next.state.item_idx == progress.state.item_idx + if left <= limit {
                left
            } else {
                limit
            }
        }),
{
    let limit: u32 = if max_chars == 0 {
        1
    } else {
        max_chars
    };
    lemma_count_of_row(
        layout,
        Count { state: progress.state, chars: 0, reason: BreakReason::Regular, full: false },
        mode,
        limit,
    );
}

} // verus!
