//! Lines are stacked from top to bottom.

use crate::inline_box::InlineBoxKind;
use crate::layout::box_lines;
use crate::layout::box_lines::boxes_in;
use crate::layout::break_lines;
use crate::layout::break_lines::{Progress, YieldData};
use crate::layout::commit;
use crate::layout::coverage;
use crate::layout::data::{BreakReason, LayoutData, LineData, LineItemData, LineMetrics};
use crate::layout::greedy;
use crate::layout::heights;
use crate::layout::heights::{heights_are_kept, heights_fit, is_reach_of_line, rounded, Reach};
use crate::layout::line_items;
use crate::layout::scan;
use crate::layout::scan::Flow;
use crate::layout::state::{BreakerState, LineState};
use crate::scalar::{Fixed, Scalar};
use vstd::prelude::*;

verus! {

/// A coordinate is at a number of steps, rounded to a whole unit if the layout is
/// quantized.
pub open spec fn is_at(layout: LayoutData<Fixed>, coord: Fixed, steps: int) -> bool {
    coord.steps == if layout.quantize {
        rounded(steps)
    } else {
        steps
    }
}

/// A line can be placed there without leaving the range of coordinates.
pub open spec fn can_place(steps: int) -> bool {
    -0x1000_0000_0000_0000 <= steps <= 0x1000_0000_0000_0000
}

/// The item is a box that takes up space along the line: an atomic box or an
/// inline edge.
pub open spec fn is_in_flow(layout: LayoutData<Fixed>, item: int) -> bool {
    let kind = layout.inline_boxes@[layout.items@[item].index as int].kind;
    &&& !layout.spec_is_text(item)
    &&& kind == InlineBoxKind::InFlow || kind == InlineBoxKind::StartBoundary || kind
        == InlineBoxKind::EndBoundary
}

/// There is content on a line with the items `first..last` and the clusters
/// `start..end`.
pub open spec fn has_content(
    layout: LayoutData<Fixed>,
    first: int,
    last: int,
    start: int,
    end: int,
) -> bool {
    ||| start < end
    ||| exists|item: int| first <= item < last && #[trigger] is_in_flow(layout, item)
}

/// The line breaker is at a place from which lines keep their content and their
/// height.
pub open spec fn is_ready(layout: LayoutData<Fixed>, state: BreakerState<Fixed>) -> bool {
    &&& coverage::keeps_text(layout, state)
    &&& box_lines::boxes_are_in_place(layout, state)
    &&& heights_are_kept(layout, state)
}

/// The line with these metrics is as high as the clusters `start..end` and the
/// boxes among the items `first..item_idx` make it: its baseline is as far below
/// its top, and its bottom as far below the baseline, as the item that reaches
/// farthest. The content alone reaches as far without leading.
pub open spec fn is_as_high_as(
    layout: LayoutData<Fixed>,
    metrics: LineMetrics<Fixed>,
    first: int,
    item_idx: int,
    start: int,
    end: int,
) -> bool {
    let top = metrics.block_min_coord.steps as int;
    let over = metrics.baseline.steps - top;
    let height = metrics.line_height.steps as int;
    &&& is_at(layout, metrics.block_max_coord, top + height)
    &&& is_reach_of_line(
        layout,
        Reach { over, under: height - over },
        first,
        item_idx,
        start,
        end,
        true,
    )
    &&& is_reach_of_line(
        layout,
        Reach {
            over: metrics.baseline.steps - metrics.content_block_min_coord.steps,
            under: metrics.content_block_max_coord.steps - metrics.baseline.steps,
        },
        first,
        item_idx,
        start,
        end,
        false,
    )
}

/// The line with these metrics is as high as another, with its baseline as far
/// below its top.
pub open spec fn is_as_high_as_line(
    layout: LayoutData<Fixed>,
    metrics: LineMetrics<Fixed>,
    other: LineMetrics<Fixed>,
) -> bool {
    let shift = metrics.baseline.steps - other.baseline.steps;
    &&& metrics.line_height == other.line_height
    &&& metrics.block_min_coord.steps == other.block_min_coord.steps + shift
    &&& is_at(layout, metrics.block_max_coord, other.block_max_coord.steps + shift)
    &&& metrics.content_block_min_coord.steps == other.content_block_min_coord.steps + shift
    &&& metrics.content_block_max_coord.steps == other.content_block_max_coord.steps + shift
}

/// The line does not reach so far from its baseline that coordinates would leave
/// their range.
pub open spec fn reaches_not_far(metrics: LineMetrics<Fixed>) -> bool {
    let baseline = metrics.baseline.steps;
    &&& -64 <= baseline - metrics.block_min_coord.steps <= 0x1800_0000_0000_0000
    &&& -64 <= metrics.block_max_coord.steps - baseline <= 0x1800_0000_0000_0000
    &&& -64 <= baseline - metrics.content_block_min_coord.steps <= 0x1800_0000_0000_0000
    &&& -64 <= metrics.content_block_max_coord.steps - baseline <= 0x1800_0000_0000_0000
}

proof fn lemma_text_is_content(
    layout: LayoutData<Fixed>,
    items: Seq<LineItemData<Fixed>>,
    from: int,
    to: int,
    at: int,
    end: int,
)
    requires
        line_items::is_bare(layout, items, from, to),
        coverage::text_follows(items, from, to, at, end),
    ensures
        at == end,
    decreases to - from,
{
    if from < to {
        assert(line_items::is_placeholder(layout, items[from]));
        lemma_text_is_content(layout, items, from + 1, to, at, end);
    }
}

proof fn lemma_boxes_are_content(
    layout: LayoutData<Fixed>,
    items: Seq<LineItemData<Fixed>>,
    from: int,
    to: int,
    first: int,
    last: int,
)
    requires
        boxes_in(items, from, to) == layout.boxes_between(first, last),
        line_items::is_bare(layout, items, from, to),
    ensures
        forall|item: int| first <= item < last ==> !#[trigger] is_in_flow(layout, item),
    decreases last - first, to - from,
{
    if first < last {
        if layout.spec_is_text(last - 1) {
            lemma_boxes_are_content(layout, items, from, to, first, last - 1);
        } else {
            let boxes = layout.boxes_between(first, last);
            assert(boxes.last() == layout.items@[last - 1].index);
            assert(from < to);
            assert(line_items::is_placeholder(layout, items[to - 1]));
            if items[to - 1].spec_is_text_run() {
                lemma_boxes_are_content(layout, items, from, to - 1, first, last);
            } else {
                assert(boxes_in(items, from, to).last() == items[to - 1].index);
                assert(boxes.drop_last() =~= layout.boxes_between(first, last - 1));
                assert(boxes_in(items, from, to).drop_last() =~= boxes_in(items, from, to - 1));
                lemma_boxes_are_content(layout, items, from, to - 1, first, last - 1);
            }
        }
    }
}

proof fn lemma_rounded_place(place: Fixed)
    requires
        -0x5000_0000_0000_0000 <= place.steps <= 0x5000_0000_0000_0000,
    ensures
        place.spec_round().steps == rounded(place.steps as int),
        -32 <= rounded(place.steps as int) - place.steps <= 32,
{
}

/// The state from which the next line starts is ready for it.
proof fn lemma_ready_after_line(
    layout: LayoutData<Fixed>,
    state: BreakerState<Fixed>,
    items: Seq<LineItemData<Fixed>>,
)
    requires
        layout.wf(),
        box_lines::line_is_in_place(
            layout,
            state.line,
            state.item_idx as int,
            state.cluster_idx as int,
        ),
        state.line.has_content,
        state.line.clusters.end <= layout.shaped_text.clusters@.len(),
    ensures
        ({
            let after = break_lines::after_line(layout, state, items);
            let next = BreakerState::<Fixed> { line: after.line.spec_reset(), ..after };
            heights_are_kept(layout, next)
        }),
{
    let after = break_lines::after_line(layout, state, items);
    box_lines::lemma_in_place_after_line(layout, state, items);
    let first = after.line.items.start as int;
    layout.lemma_boxes_between_adjacent(
        first,
        state.item_idx as int,
        state.line.items.end as int,
    );
    assert(layout.boxes_between(first, state.item_idx as int).len() == 0);
    heights::lemma_new_line_has_its_height(
        layout,
        after.line.spec_reset(),
        state.item_idx as int,
    );
}

/// A line that counts as one with content has some.
proof fn lemma_content_is_held(
    layout: LayoutData<Fixed>,
    line: LineState<Fixed>,
    item_idx: int,
)
    requires
        heights::has_its_height(layout, line, item_idx),
        line.has_content,
    ensures
        has_content(
            layout,
            line.items.start as int,
            item_idx,
            line.clusters.start as int,
            line.clusters.end as int,
        ),
{
    reveal(heights::has_its_height);
    let first = line.items.start as int;
    if line.clusters.start >= line.clusters.end {
        let item = choose|item: int|
            first <= item < item_idx && #[trigger] heights::is_atomic_box(layout, item);
        assert(is_in_flow(layout, item));
    }
}

/// What the metrics of a finished line say.
proof fn lemma_line_takes_its_place(
    layout: LayoutData<Fixed>,
    before: Progress<Fixed>,
    item_idx: int,
    reason: BreakReason,
    available: Fixed,
    indent: Fixed,
)
    requires
        layout.wf(),
        heights_fit(layout),
        heights::has_its_height(layout, before.state.line, item_idx),
        can_place(before.state.line_y.steps as int),
        before.items.len() <= commit::commit_of_line(
            layout,
            before.state.line,
            before.items,
        ).items.len() < usize::MAX,
    ensures
        ({
            let next = before.with_line(layout, reason, available, indent);
            let committed = commit::commit_of_line(layout, before.state.line, before.items).items;
            let line = before.state.line;
            let metrics = next.lines.last().metrics;
            let top = before.state.line_y.steps as int;
            let along = before.state.line_x.steps;
            &&& is_at(layout, metrics.block_min_coord, top)
            &&& metrics.inline_min_coord.steps == along
            &&& i64::MIN <= along + before.state.line_max_advance.steps <= i64::MAX
                ==> metrics.inline_max_coord.steps == along + before.state.line_max_advance.steps
            &&& before.lines.len() == 0 || !line_items::is_bare(
                layout,
                committed,
                before.items.len() as int,
                committed.len() as int,
            ) ==> {
                &&& is_as_high_as(
                    layout,
                    metrics,
                    line.items.start as int,
                    item_idx,
                    line.clusters.start as int,
                    line.clusters.end as int,
                )
                &&& next.state.line_y.steps == top + metrics.line_height.steps
            }
            &&& before.lines.len() > 0 && reaches_not_far(before.lines.last().metrics)
                && line_items::is_bare(
                layout,
                committed,
                before.items.len() as int,
                committed.len() as int,
            ) ==> {
                &&& is_as_high_as_line(layout, metrics, before.lines.last().metrics)
                &&& metrics.advance.steps == 0
            }
        }),
{
    let line = before.state.line;
    let top = before.state.line_y;
    let metrics = line.box_metrics;
    heights::lemma_heights_are_limited(layout, line, item_idx);
    lemma_rounded_place(top);
    let block_min = if layout.quantize {
        rounded(top.steps as int)
    } else {
        top.steps as int
    };
    let bottom = block_min + metrics.line_box.over.steps + metrics.line_box.under.steps;
    lemma_rounded_place(Fixed { steps: bottom as i64 });
    reveal(heights::has_its_height);
    let next = before.with_line(layout, reason, available, indent);
    assert(next.lines.last() == before.finished_line(layout, reason, available, indent).line);
    let lines = before.lines.push(before.new_line(layout, reason, available, indent));
    assert(lines.last() == before.new_line(layout, reason, available, indent));
    if lines.len() > 1 {
        assert(lines[lines.len() - 2] == before.lines.last());
        let previous = before.lines.last().metrics;
        let bottom = block_min + (previous.block_max_coord.steps
            - previous.block_min_coord.steps);
        if reaches_not_far(previous) {
            lemma_rounded_place(Fixed { steps: bottom as i64 });
        }
    }
}

/// An item of the next line is text or takes up space along the line.
pub open spec fn has_item_on_it(layout: LayoutData<Fixed>, progress: Progress<Fixed>) -> bool {
    let committed = coverage::committed_next(layout, progress);
    exists|i: int|
        progress.items.len() <= i < committed.len() && !line_items::is_placeholder(
            layout,
            #[trigger] committed[i],
        )
}

/// A line is placed at the top that the breaker has come to, and along the line
/// from its start over the advance available to it. A line with content, and the
/// first line, is as high as its content, and the breaker goes on from its
/// bottom. A later line with nothing on it is as high as the line before it.
pub proof fn lemma_line_is_placed(layout: LayoutData<Fixed>, progress: Progress<Fixed>)
    requires
        layout.wf(),
        layout.edges_hold_content(),
        heights_fit(layout),
        !progress.done,
        is_ready(layout, progress.state),
        can_place(progress.state.line_y.steps as int),
        coverage::committed_next(layout, progress).len() < usize::MAX,
    ensures
        ({
            let (next, yielded) = progress.next(layout);
            let metrics = next.lines.last().metrics;
            let top = progress.state.line_y.steps as int;
            let along = progress.state.line_x.steps;
            let first = progress.state.line.items.start as int;
            let last = next.state.item_idx as int;
            let start = progress.state.line.clusters.start as int;
            let end = next.state.cluster_idx as int;
            &&& !next.done ==> is_ready(layout, next.state)
            &&& yielded matches Some(YieldData::LineBreak(data)) ==> {
                &&& next.lines.drop_last() == progress.lines
                &&& is_at(layout, metrics.block_min_coord, top)
                &&& metrics.inline_min_coord.steps == along
                &&& i64::MIN <= along + progress.state.line_max_advance.steps <= i64::MAX
                    ==> metrics.inline_max_coord.steps == along
                    + progress.state.line_max_advance.steps
                &&& progress.lines.len() == 0 || has_content(layout, first, last, start, end)
                    ==> {
                    &&& is_as_high_as(layout, metrics, first, last, start, end)
                    &&& next.state.line_y.steps == top + metrics.line_height.steps
                    &&& data.line_height == metrics.line_height
                }
                &&& !next.done ==> has_content(layout, first, last, start, end)
                &&& progress.lines.len() > 0 && reaches_not_far(progress.lines.last().metrics)
                    && !has_item_on_it(layout, progress) ==> {
                    &&& is_as_high_as_line(layout, metrics, progress.lines.last().metrics)
                    &&& metrics.advance.steps == 0
                }
            }
            &&& !(yielded matches Some(YieldData::LineBreak(_))) ==> {
                &&& next.lines == progress.lines
                &&& next.state.line_y == progress.state.line_y
                &&& !next.done
            }
        }),
{
    let available = progress.available(layout);
    let item_idx = progress.state.item_idx as int;
    let step = scan::scan(layout, progress.state, item_idx, available);
    coverage::lemma_lines_hold_all_text(layout, progress);
    box_lines::lemma_lines_hold_all_boxes(layout, progress);
    coverage::lemma_aligned_scan(layout, progress.state, available);
    box_lines::lemma_scan_in_place(layout, progress.state, available);
    greedy::lemma_scan_has_a_reason(layout, progress.state, item_idx, available);
    heights::lemma_scan_keeps_height(layout, progress.state, available);
    let (next, yielded) = progress.next(layout);
    let scanned = Progress { prev_state: Some(progress.state), state: step.state, ..progress };
    let last = scanned.at_end(step.state);
    let committed = coverage::committed_next(layout, progress);
    let first = progress.state.line.items.start as int;
    let start = progress.state.line.clusters.start as int;
    let end = next.state.cluster_idx as int;
    let indent = progress.indent(layout);
    if let Some(YieldData::LineBreak(_)) = yielded {
        assert(next.lines.drop_last() =~= progress.lines);
        if line_items::is_bare(
            layout,
            committed,
            progress.items.len() as int,
            committed.len() as int,
        ) {
            lemma_text_is_content(
                layout,
                committed,
                progress.items.len() as int,
                committed.len() as int,
                start,
                if next.done {
                    layout.clusters_before(layout.items@.len() as int)
                } else {
                    next.state.line.clusters.start as int
                },
            );
            lemma_boxes_are_content(
                layout,
                committed,
                progress.items.len() as int,
                committed.len() as int,
                first,
                if next.done {
                    layout.items@.len() as int
                } else {
                    next.state.line.items.start as int
                },
            );
        }
    }
    match step.flow {
        Flow::Break(reason) => {
            layout.lemma_clusters_before_bound(step.state.line.items.end as int);
            lemma_ready_after_line(layout, step.state, progress.items);
            lemma_content_is_held(layout, step.state.line, step.state.item_idx as int);
            box_lines::lemma_in_place_after_line(layout, step.state, progress.items);
            heights::lemma_no_boxes_between(
                layout,
                next.state.line.items.start as int,
                step.state.line.items.end as int,
            );
            box_lines::lemma_line_holds_its_boxes(layout, step.state.line, progress.items);
            lemma_line_takes_its_place(
                layout,
                scanned,
                step.state.item_idx as int,
                reason,
                available,
                indent,
            );
        },
        Flow::Continue => {
            if layout.items@.len() == 0 {
                assert(commit::clamped(layout, last.state.line) == commit::clamped(
                    layout,
                    step.state.line,
                ));
            }
            box_lines::lemma_line_holds_its_boxes(layout, step.state.line, progress.items);
            assert(heights::has_its_height(layout, last.state.line, step.state.item_idx as int))
                by {
                reveal(heights::has_its_height);
            }
            lemma_line_takes_its_place(
                layout,
                last,
                step.state.item_idx as int,
                BreakReason::NoBreak,
                available,
                indent,
            );
        },
        _ => {},
    }
}

/// The first line is ready to be broken, at the top.
pub proof fn lemma_first_line_is_ready(layout: LayoutData<Fixed>, max_advance: Fixed)
    requires
        layout.wf(),
    ensures
        is_ready(layout, Progress::start(layout).with_limit(max_advance).state),
        Progress::start(layout).with_limit(max_advance).state.line_y.steps == 0,
{
    coverage::lemma_first_line_starts_the_text(layout);
    box_lines::lemma_first_line_starts_the_boxes(layout);
    let line = Progress::start(layout).state.line;
    assert(layout.boxes_between(0, 0) =~= Seq::empty());
    heights::lemma_new_line_has_its_height(layout, line, 0);
}

/// The height of the first `count` lines together.
pub open spec fn heights_before(lines: Seq<LineData<Fixed>>, count: int) -> int
    decreases count,
{
    if count <= 0 {
        0
    } else {
        heights_before(lines, count - 1) + lines[count - 1].metrics.line_height.steps
    }
}

proof fn lemma_same_heights(
    lines: Seq<LineData<Fixed>>,
    more: Seq<LineData<Fixed>>,
    count: int,
)
    requires
        count <= lines.len() <= more.len(),
        forall|i: int| 0 <= i < lines.len() ==> #[trigger] more[i] == lines[i],
    ensures
        heights_before(more, count) == heights_before(lines, count),
    decreases count,
{
    if count > 0 {
        lemma_same_heights(lines, more, count - 1);
    }
}

/// Each line is at the height of the lines before it, and each line with another
/// after it reaches from there as far as it is high.
pub open spec fn are_stacked(layout: LayoutData<Fixed>, lines: Seq<LineData<Fixed>>) -> bool {
    &&& forall|i: int|
        0 <= i < lines.len() ==> is_at(
            layout,
            (#[trigger] lines[i]).metrics.block_min_coord,
            heights_before(lines, i),
        )
    &&& forall|i: int|
        0 <= i < lines.len() - 1 ==> {
            let metrics = (#[trigger] lines[i]).metrics;
            is_at(
                layout,
                metrics.block_max_coord,
                metrics.block_min_coord.steps + metrics.line_height.steps,
            )
        }
}

/// All lines can be placed.
pub open spec fn can_place_all(lines: Seq<LineData<Fixed>>) -> bool {
    forall|count: int|
        0 <= count <= lines.len() ==> can_place(#[trigger] heights_before(lines, count))
}

/// The items of the first lines can be indexed.
pub open spec fn items_fit(
    layout: LayoutData<Fixed>,
    start: Progress<Fixed>,
    steps: nat,
) -> bool {
    forall|n: nat|
        n < steps ==> coverage::committed_next(
            layout,
            #[trigger] start.after_steps(layout, n),
        ).len() < usize::MAX
}

/// What holds between the lines broken so far and the state of the breaker.
spec fn is_stacking(layout: LayoutData<Fixed>, progress: Progress<Fixed>) -> bool {
    &&& are_stacked(layout, progress.lines)
    &&& !progress.done ==> {
        &&& is_ready(layout, progress.state)
        &&& progress.state.line_y.steps == heights_before(
            progress.lines,
            progress.lines.len() as int,
        )
        &&& progress.lines.len() > 0 ==> has_its_bottom(layout, progress.lines.last().metrics)
    }
}

/// The bottom of a line is as far below its top as the line is high.
spec fn has_its_bottom(layout: LayoutData<Fixed>, metrics: LineMetrics<Fixed>) -> bool {
    is_at(
        layout,
        metrics.block_max_coord,
        metrics.block_min_coord.steps + metrics.line_height.steps,
    )
}

proof fn lemma_stack_grows(
    layout: LayoutData<Fixed>,
    lines: Seq<LineData<Fixed>>,
    line: LineData<Fixed>,
)
    requires
        are_stacked(layout, lines),
        is_at(layout, line.metrics.block_min_coord, heights_before(lines, lines.len() as int)),
        lines.len() > 0 ==> has_its_bottom(layout, lines.last().metrics),
    ensures
        are_stacked(layout, lines.push(line)),
        heights_before(lines.push(line), (lines.len() + 1) as int) == heights_before(
            lines,
            lines.len() as int,
        ) + line.metrics.line_height.steps,
{
    let count = lines.len() as int;
    let more = lines.push(line);
    lemma_same_heights(lines, more, count);
    assert forall|i: int| 0 <= i < more.len() implies is_at(
        layout,
        (#[trigger] more[i]).metrics.block_min_coord,
        heights_before(more, i),
    ) by {
        lemma_same_heights(lines, more, i);
        if i < count {
            assert(is_at(
                layout,
                lines[i].metrics.block_min_coord,
                heights_before(lines, i),
            ));
        }
    }
    assert forall|i: int| 0 <= i < more.len() - 1 implies is_at(
        layout,
        (#[trigger] more[i]).metrics.block_max_coord,
        more[i].metrics.block_min_coord.steps + more[i].metrics.line_height.steps,
    ) by {
        assert(more[i] == lines[i]);
        if i == count - 1 {
            assert(has_its_bottom(layout, lines.last().metrics));
        }
    }
}

proof fn lemma_stacked_step(layout: LayoutData<Fixed>, progress: Progress<Fixed>)
    requires
        layout.wf(),
        layout.edges_hold_content(),
        heights_fit(layout),
        !progress.done,
        is_stacking(layout, progress),
        can_place(progress.state.line_y.steps as int),
        coverage::committed_next(layout, progress).len() < usize::MAX,
    ensures
        is_stacking(layout, progress.advanced(layout)),
{
    let (next, yielded) = progress.next(layout);
    lemma_line_is_placed(layout, progress);
    if let Some(YieldData::LineBreak(_)) = yielded {
        lemma_stack_grows(layout, progress.lines, next.lines.last());
        assert(next.lines =~= progress.lines.push(next.lines.last()));
        assert(progress.advanced(layout) == next) by {
            reveal(Progress::advanced);
        }
    } else if let Some(YieldData::InlineBoxBreak(_)) = yielded {
        let zero = Fixed { steps: 0 };
        let x = next.state.line.x;
        box_lines::lemma_lines_hold_all_boxes(layout, progress);
        coverage::lemma_placed_box_keeps_text(layout, next.state, x, zero, zero);
        box_lines::lemma_placed_box_is_in_place(layout, next.state, x, zero, zero);
        lemma_placed_box_keeps_height(layout, progress);
        let placed = next.state.after_inline_box(x, zero, zero, layout.quantize);
        assert(is_ready(layout, placed));
        assert(progress.advanced(layout) == (Progress { state: placed, ..next })) by {
            reveal(Progress::advanced);
        }
    } else {
        assert(progress.advanced(layout) == next) by {
            reveal(Progress::advanced);
        }
    }
}

/// A box that takes no space changes no height.
proof fn lemma_placed_box_keeps_height(layout: LayoutData<Fixed>, progress: Progress<Fixed>)
    requires
        layout.wf(),
        heights_fit(layout),
        heights_are_kept(layout, progress.next(layout).0.state),
        progress.next(layout).1 matches Some(YieldData::InlineBoxBreak(_)),
        !progress.done,
        progress.next(layout).0.state.item_idx < layout.items@.len(),
        !layout.spec_is_text(progress.next(layout).0.state.item_idx as int),
    ensures
        ({
            let state = progress.next(layout).0.state;
            let zero = Fixed { steps: 0 };
            heights_are_kept(
                layout,
                state.after_inline_box(state.line.x, zero, zero, layout.quantize),
            )
        }),
{
    let state = progress.next(layout).0.state;
    let zero = Fixed { steps: 0 };
    let after = state.after_inline_box(state.line.x, zero, zero, layout.quantize);
    let item = state.item_idx as int;
    lemma_yielded_box(
        layout,
        progress.state,
        progress.state.item_idx as int,
        progress.available(layout),
    );
    let appended = LineState {
        box_metrics: state.line.box_metrics.with_inline_box(zero, zero, layout.quantize),
        ..state.line
    };
    heights::lemma_appended_box(layout, state.line, appended, item, zero, zero);
    heights::lemma_same_height(layout, appended, after.line, item + 1);
}

/// The breaker yields for boxes that its caller places, and for no others.
proof fn lemma_yielded_box(
    layout: LayoutData<Fixed>,
    state: BreakerState<Fixed>,
    item: int,
    max_advance: Fixed,
)
    requires
        layout.wf(),
        state.item_idx == item,
        0 <= item <= layout.items@.len(),
        scan::scan(layout, state, item, max_advance).flow is InlineBoxBreak,
    ensures
        ({
            let at = scan::scan(layout, state, item, max_advance).state.item_idx as int;
            layout.inline_boxes@[layout.items@[at].index as int].kind
                == InlineBoxKind::CustomOutOfFlow
        }),
    decreases layout.items@.len() - item,
{
    if item < layout.items@.len() {
        if layout.spec_is_text(item) {
            let run = layout.items@[item].index as int;
            let step = scan::scan_run(layout, state, run, state.cluster_idx as int, max_advance);
            lemma_run_keeps_item(layout, state, run, state.cluster_idx as int, max_advance);
            if step.flow is Continue {
                lemma_yielded_box(layout, scan::after_run(step.state), item + 1, max_advance);
            }
        } else {
            let step = scan::box_step(layout, state, item, max_advance);
            if step.flow is Continue {
                lemma_yielded_box(layout, step.state, item + 1, max_advance);
            }
        }
    }
}

proof fn lemma_run_keeps_item(
    layout: LayoutData<Fixed>,
    state: BreakerState<Fixed>,
    run: int,
    at: int,
    max_advance: Fixed,
)
    ensures
        scan::scan_run(layout, state, run, at, max_advance).flow !is InlineBoxBreak,
        scan::scan_run(layout, state, run, at, max_advance).flow is Continue
            ==> scan::scan_run(layout, state, run, at, max_advance).state.item_idx
            == state.item_idx,
    decreases layout.shaped_text.runs@[run].clusters.end - at,
{
    let step = scan::text_step(layout, state, scan::atom_info(layout, run, at), max_advance);
    if at < layout.shaped_text.runs@[run].clusters.end && step.flow is Continue {
        layout.shaped_text.lemma_atom_end(at, layout.shaped_text.runs@[run].clusters.end as int);
        lemma_run_keeps_item(
            layout,
            step.state,
            run,
            layout.shaped_text.atom_end(at, layout.shaped_text.runs@[run].clusters.end as int),
            max_advance,
        );
    }
}

proof fn lemma_stacked_after(
    layout: LayoutData<Fixed>,
    max_advance: Fixed,
    steps: nat,
    all: nat,
)
    requires
        layout.wf(),
        layout.edges_hold_content(),
        heights_fit(layout),
        steps <= all,
        items_fit(layout, Progress::start(layout).with_limit(max_advance), all),
        can_place_all(
            Progress::start(layout).with_limit(max_advance).after_steps(layout, steps).lines,
        ),
    ensures
        is_stacking(
            layout,
            Progress::start(layout).with_limit(max_advance).after_steps(layout, steps),
        ),
    decreases steps,
{
    let start = Progress::start(layout).with_limit(max_advance);
    if steps == 0 {
        lemma_first_line_is_ready(layout, max_advance);
    } else {
        let earlier = (steps - 1) as nat;
        let before = start.after_steps(layout, earlier);
        let after = start.after_steps(layout, steps);
        reveal(Progress::is_stuck);
        lemma_lines_are_kept(layout, before);
        assert forall|count: int| 0 <= count <= before.lines.len() implies can_place(
            #[trigger] heights_before(before.lines, count),
        ) by {
            lemma_same_heights(before.lines, after.lines, count);
            assert(can_place(heights_before(after.lines, count)));
        }
        lemma_stacked_after(layout, max_advance, earlier, all);
        if !before.is_stuck(layout) {
            lemma_stacked_step(layout, before);
        }
    }
}

proof fn lemma_lines_are_kept(layout: LayoutData<Fixed>, progress: Progress<Fixed>)
    ensures
        progress.lines.len() <= progress.advanced(layout).lines.len(),
        forall|i: int|
            0 <= i < progress.lines.len() ==> #[trigger] progress.advanced(layout).lines[i]
                == progress.lines[i],
{
    reveal(Progress::advanced);
}

/// Lines that are broken one after the other are stacked: each line is at the
/// height of the lines before it.
pub proof fn lemma_lines_are_stacked(
    layout: LayoutData<Fixed>,
    max_advance: Fixed,
    steps: nat,
)
    requires
        layout.wf(),
        layout.edges_hold_content(),
        heights_fit(layout),
        items_fit(layout, Progress::start(layout).with_limit(max_advance), steps),
        can_place_all(
            Progress::start(layout).with_limit(max_advance).after_steps(layout, steps).lines,
        ),
    ensures
        are_stacked(
            layout,
            Progress::start(layout).with_limit(max_advance).after_steps(layout, steps).lines,
        ),
{
    lemma_stacked_after(layout, max_advance, steps, steps);
}

/// Lines of whole heights touch: each line starts where the line before it ends,
/// quantized or not. Without quantization lines of any height do.
pub proof fn lemma_stacked_lines_touch(
    layout: LayoutData<Fixed>,
    lines: Seq<LineData<Fixed>>,
    i: int,
)
    requires
        are_stacked(layout, lines),
        0 <= i < lines.len() - 1,
        layout.quantize ==> forall|k: int|
            0 <= k <= i ==> (#[trigger] lines[k]).metrics.line_height.steps % 64 == 0,
    ensures
        lines[i + 1].metrics.block_min_coord == lines[i].metrics.block_max_coord,
{
    if layout.quantize {
        lemma_whole_heights(lines, i);
        lemma_whole_heights(lines, i + 1);
    }
    assert(lines[i + 1].metrics.block_min_coord.steps == heights_before(lines, i + 1));
    assert(lines[i].metrics.block_min_coord.steps == heights_before(lines, i));
}

proof fn lemma_whole_heights(lines: Seq<LineData<Fixed>>, count: int)
    requires
        0 <= count <= lines.len(),
        forall|k: int|
            0 <= k < count ==> (#[trigger] lines[k]).metrics.line_height.steps % 64 == 0,
    ensures
        heights_before(lines, count) % 64 == 0,
        rounded(heights_before(lines, count)) == heights_before(lines, count),
    decreases count,
{
    if count > 0 {
        lemma_whole_heights(lines, count - 1);
        assert(lines[count - 1].metrics.line_height.steps % 64 == 0);
    }
}

} // verus!
