//! Boxes out of flow change neither the text nor the metrics of a line.

use crate::inline_box::InlineBoxKind;
use crate::layout::box_lines;
use crate::layout::break_lines::Progress;
use crate::layout::commit;
use crate::layout::commit::Commit;
use crate::layout::coverage;
use crate::layout::data::{BreakReason, LayoutData, LayoutItemKind, LineData, LineItemData};
use crate::layout::extent;
use crate::layout::flow;
use crate::layout::flow::{same_flow, same_paragraph, same_progress, zero_is_neutral};
use crate::layout::measured::same_shaped_text;
use crate::layout::scan;
use crate::layout::scan::Flow;
use crate::layout::shaped::FontMetrics;
use crate::layout::state::LineState;
use crate::layout::visual::{boxes_fit, has_levels};
use crate::scalar::Scalar;
use vstd::prelude::*;

verus! {

/// A paragraph of text with boxes out of flow.
pub open spec fn is_text_alone<T: Scalar>(layout: LayoutData<T>) -> bool {
    forall|item: int|
        0 <= item < layout.items@.len() && !#[trigger] layout.spec_is_text(item)
            ==> layout.inline_boxes@[layout.items@[item].index as int].kind
            == InlineBoxKind::OutOfFlow
}

/// The clusters have the levels, none below the paragraph's, and no box is
/// below the levels of both clusters beside it.
pub open spec fn levels_fit<T: Scalar>(
    layout: LayoutData<T>,
    levels: spec_fn(int) -> u8,
) -> bool {
    let all = layout.clusters_before(layout.items@.len() as int);
    &&& forall|item: int|
        0 <= item < layout.items@.len() && #[trigger] layout.spec_is_text(item) ==> forall|c: int|
            layout.clusters_before(item) <= c < layout.clusters_before(item + 1)
                ==> #[trigger] levels(c)
                == layout.shaped_text.runs@[layout.items@[item].index as int].bidi_level
    &&& forall|c: int| 0 <= c < all ==> layout.base_level <= #[trigger] levels(c)
    &&& forall|item: int|
        0 <= item < layout.items@.len() && !#[trigger] layout.spec_is_text(item) ==> {
            let at = layout.clusters_before(item);
            let level = layout.items@[item].bidi_level;
            0 < at < all ==> level >= levels(at - 1) || level >= levels(at)
        }
}

/// Of the text items on the line, none is empty.
pub open spec fn line_is_solid<T: Scalar>(layout: LayoutData<T>, line: LineState<T>) -> bool {
    &&& line.items.start + 1 < line.items.end && layout.spec_is_text(line.items.end - 1)
        ==> layout.clusters_before(line.items.end - 1) < line.clusters.end
    &&& line.clusters.start < line.clusters.end || line.clusters.start >= layout.clusters_before(
        line.items.end as int,
    )
}

/// A text item on the line holds text.
proof fn lemma_committed_item_is_solid<T: Scalar>(
    layout: LayoutData<T>,
    line: LineState<T>,
    item_idx: int,
    item: int,
)
    requires
        layout.wf(),
        coverage::line_is_aligned(layout, line, item_idx, line.clusters.end as int),
        line.items.start <= item < line.items.end <= layout.items@.len(),
        layout.spec_is_text(item),
        line_is_solid(layout, line),
        !layout.nothing_left(line, item),
    ensures
        ({
            let clusters = layout.committed_clusters(line, item);
            &&& clusters.start < clusters.end <= layout.shaped_text.clusters@.len()
            &&& layout.clusters_before(item) <= clusters.start
            &&& clusters.end <= layout.clusters_before(item + 1)
        }),
{
    let start = line.items.start as int;
    let end = line.items.end as int;
    coverage::lemma_run_bounds(layout, item);
    layout.lemma_clusters_before_bound(end);
    layout.lemma_clusters_before_monotone(start, item);
    layout.lemma_clusters_before_monotone(item + 1, end);
    if !layout.no_text(start, item) {
        layout.lemma_clusters_before_monotone(start + 1, item);
    } else {
        coverage::lemma_clusters_before_without_text(layout, start, item);
    }
    if !layout.no_text(item + 1, end) {
        layout.lemma_clusters_before_bound(item + 1);
    } else {
        coverage::lemma_clusters_before_without_text(layout, item + 1, end);
        if item < end - 1 {
            assert(!layout.spec_is_text(end - 1));
        }
    }
}

proof fn lemma_commit_is_plain<T: Scalar>(
    layout: LayoutData<T>,
    line: LineState<T>,
    item_idx: int,
    item: int,
    so_far: Commit<T>,
    from: int,
)
    requires
        layout.wf(),
        is_text_alone(layout),
        coverage::line_is_aligned(layout, line, item_idx, line.clusters.end as int),
        line.items.start <= item <= line.items.end <= layout.items@.len(),
        line_is_solid(layout, line),
        0 <= from <= so_far.items.len(),
        forall|i: int|
            from <= i < so_far.items.len() ==> extent::is_plain_item(
                layout,
                #[trigger] so_far.items[i],
            ) && extent::holds_text(layout, so_far.items[i]),
    ensures
        ({
            let items = commit::commit_items(layout, line, item, so_far).items;
            &&& from <= items.len()
            &&& forall|i: int|
                from <= i < items.len() ==> extent::is_plain_item(
                    layout,
                    #[trigger] items[i],
                    ) && extent::holds_text(layout, items[i])
        }),
    decreases line.items.end - item,
{
    if item < line.items.end {
        assert(layout.item_wf(item));
        if !layout.spec_is_text(item) {
            let next = Commit {
                items: so_far.items.push(layout.committed_box(item)),
                last: LayoutItemKind::InlineBox,
                ..so_far
            };
            lemma_commit_is_plain(layout, line, item_idx, item + 1, next, from);
        } else if layout.nothing_left(line, item) {
            lemma_commit_is_plain(layout, line, item_idx, item + 1, so_far, from);
        } else {
            lemma_committed_item_is_solid(layout, line, item_idx, item);
            let next = Commit {
                items: so_far.items.push(layout.committed_text(line, item, so_far.items)),
                last: LayoutItemKind::TextRun,
                text: true,
            };
            lemma_commit_is_plain(layout, line, item_idx, item + 1, next, from);
        }
    }
}

proof fn lemma_boxes_fit_push<T: Scalar>(
    items: Seq<LineItemData<T>>,
    item: LineItemData<T>,
    levels: spec_fn(int) -> u8,
    from: int,
    at: int,
    until: int,
    start: int,
    end: int,
)
    requires
        0 <= from <= items.len(),
        coverage::text_follows(items, from, items.len() as int, at, until),
        boxes_fit(items, levels, from, items.len() as int, at, start, end),
        !item.spec_is_text_run() && start < until < end ==> item.bidi_level >= levels(until - 1)
            || item.bidi_level >= levels(until),
    ensures
        boxes_fit(items.push(item), levels, from, items.len() as int + 1, at, start, end),
    decreases items.len() - from,
{
    let pushed = items.push(item);
    if from < items.len() {
        let next = if items[from].spec_is_text_run() {
            items[from].shaped_cluster_range.end as int
        } else {
            at
        };
        lemma_boxes_fit_push(items, item, levels, from + 1, next, until, start, end);
        assert(pushed[from] == items[from]);
    } else {
        reveal_with_fuel(boxes_fit, 2);
        assert(pushed[from] == item);
    }
}

/// The items of a line have the levels of its clusters, and its boxes fit them.
proof fn lemma_commit_fits<T: Scalar>(
    layout: LayoutData<T>,
    line: LineState<T>,
    levels: spec_fn(int) -> u8,
    item_idx: int,
    item: int,
    so_far: Commit<T>,
    from: int,
)
    requires
        layout.wf(),
        levels_fit(layout, levels),
        coverage::line_is_aligned(layout, line, item_idx, line.clusters.end as int),
        line.items.start <= item <= line.items.end <= layout.items@.len(),
        line_is_solid(layout, line),
        0 <= from <= so_far.items.len(),
        coverage::text_follows(
            so_far.items,
            from,
            so_far.items.len() as int,
            line.clusters.start as int,
            coverage::text_position(layout, line, item),
        ),
        has_levels(so_far.items, levels, from, so_far.items.len() as int),
        boxes_fit(
            so_far.items,
            levels,
            from,
            so_far.items.len() as int,
            line.clusters.start as int,
            line.clusters.start as int,
            line.clusters.end as int,
        ),
    ensures
        ({
            let items = commit::commit_items(layout, line, item, so_far).items;
            &&& has_levels(items, levels, from, items.len() as int)
            &&& boxes_fit(
                items,
                levels,
                from,
                items.len() as int,
                line.clusters.start as int,
                line.clusters.start as int,
                line.clusters.end as int,
            )
        }),
    decreases line.items.end - item,
{
    if item < line.items.end {
        let at = coverage::text_position(layout, line, item);
        let start = line.clusters.start as int;
        let end = line.clusters.end as int;
        assert(layout.item_wf(item));
        layout.lemma_clusters_before_monotone(
            line.items.end as int,
            layout.items@.len() as int,
        );
        if !layout.spec_is_text(item) {
            let pushed = layout.committed_box(item);
            let next = Commit {
                items: so_far.items.push(pushed),
                last: LayoutItemKind::InlineBox,
                ..so_far
            };
            coverage::lemma_text_follows_push(so_far.items, pushed, from, start, at);
            lemma_boxes_fit_push(so_far.items, pushed, levels, from, start, at, start, end);
            lemma_commit_fits(layout, line, levels, item_idx, item + 1, next, from);
        } else {
            coverage::lemma_committed_position(layout, line, item_idx, item);
            if layout.nothing_left(line, item) {
                lemma_commit_fits(layout, line, levels, item_idx, item + 1, so_far, from);
            } else {
                lemma_committed_item_is_solid(layout, line, item_idx, item);
                let pushed = layout.committed_text(line, item, so_far.items);
                let next = Commit {
                    items: so_far.items.push(pushed),
                    last: LayoutItemKind::TextRun,
                    text: true,
                };
                coverage::lemma_text_follows_push(so_far.items, pushed, from, start, at);
                lemma_boxes_fit_push(so_far.items, pushed, levels, from, start, at, start, end);
                lemma_commit_fits(layout, line, levels, item_idx, item + 1, next, from);
            }
        }
    }
}

/// The line that ends at the state's position: its metrics are those of its
/// text, or of the line before it if it is empty.
pub open spec fn finished_text<T: Scalar>(
    layout: LayoutData<T>,
    progress: Progress<T>,
    levels: spec_fn(int) -> u8,
    reason: BreakReason,
    max_advance: T,
    indent: T,
) -> LineData<T> {
    let state = progress.state;
    let clusters = state.line.clusters;
    let line = extent::line_of_text(
        layout,
        progress.new_line(layout, reason, max_advance, indent),
        levels,
        clusters.start as int,
        clusters.end as int,
        state.line.box_metrics.spec_line_height(),
    );
    LineData {
        metrics: if clusters.start == clusters.end && progress.lines.len() > 0 {
            let previous = progress.lines.last().metrics;
            previous.of_empty_line_after().placed(
                state,
                previous.line_box(),
                previous.content_box(),
                layout.quantize,
            )
        } else {
            line.metrics.placed(
                state,
                state.line.box_metrics.line_box,
                state.line.box_metrics.content_box,
                layout.quantize,
            )
        },
        ..line
    }
}

/// The line can be finished, and its items can be indexed.
pub open spec fn can_finish<T: Scalar>(layout: LayoutData<T>, progress: Progress<T>) -> bool {
    let state = progress.state;
    &&& coverage::line_is_aligned(
        layout,
        state.line,
        state.item_idx as int,
        state.line.clusters.end as int,
    )
    &&& state.line.items.end <= layout.items@.len()
    &&& line_is_solid(layout, state.line)
    &&& commit::commit_of_line(layout, state.line, progress.items).items.len() < usize::MAX
}

/// A line of text depends on its clusters alone.
pub(crate) proof fn lemma_finished_text<T: Scalar>(
    layout: LayoutData<T>,
    progress: Progress<T>,
    levels: spec_fn(int) -> u8,
    reason: BreakReason,
    max_advance: T,
    indent: T,
    fits: bool,
)
    requires
        layout.wf(),
        extent::text_is_in_order(layout),
        is_text_alone(layout),
        fits ==> levels_fit(layout, levels),
        can_finish(layout, progress),
    ensures
        extent::same_line(
            progress.with_line(layout, reason, max_advance, indent).lines.last(),
            finished_text(layout, progress, levels, reason, max_advance, indent),
            fits,
        ),
{
    let state = progress.state;
    let line = state.line;
    layout.lemma_clusters_before_bound(line.items.end as int);
    assert(commit::clamped(layout, line) == line);
    let items = commit::commit_of_line(layout, line, progress.items).items;
    coverage::lemma_line_holds_its_text(layout, line, state.item_idx as int, progress.items);
    lemma_commit_is_plain(
        layout,
        line,
        state.item_idx as int,
        line.items.start as int,
        Commit { items: progress.items, last: LayoutItemKind::TextRun, text: false },
        progress.items.len() as int,
    );
    if fits {
        lemma_commit_fits(
            layout,
            line,
            levels,
            state.item_idx as int,
            line.items.start as int,
            Commit { items: progress.items, last: LayoutItemKind::TextRun, text: false },
            progress.items.len() as int,
        );
        layout.lemma_clusters_before_monotone(
            line.items.end as int,
            layout.items@.len() as int,
        );
    }
    let new_line = progress.new_line(layout, reason, max_advance, indent);
    extent::lemma_filled_line(
        layout,
        new_line,
        items,
        levels,
        line.clusters.start as int,
        line.clusters.end as int,
        line.box_metrics.spec_line_height(),
        fits,
    );
    let lines = progress.lines.push(new_line);
    assert(lines.last() == new_line);
    if progress.lines.len() > 0 {
        assert(lines[lines.len() - 2] == progress.lines.last());
    }
    assert(progress.with_line(layout, reason, max_advance, indent).lines.last()
        == progress.finished_line(layout, reason, max_advance, indent).line);
}

/// A finished line has the text of its clusters, and the next line starts where
/// it ends.
pub(crate) proof fn lemma_line_has_its_text<T: Scalar>(
    layout: LayoutData<T>,
    progress: Progress<T>,
    reason: BreakReason,
    max_advance: T,
    indent: T,
)
    requires
        layout.wf(),
        extent::text_is_in_order(layout),
        is_text_alone(layout),
        can_finish(layout, progress),
    ensures
        ({
            let next = progress.with_line(layout, reason, max_advance, indent);
            let clusters = progress.state.line.clusters;
            &&& next.lines.drop_last() == progress.lines
            &&& next.lines.last().text_range == extent::text_between(
                layout,
                clusters.start as int,
                clusters.end as int,
            )
            &&& next.state.line.clusters.start == progress.state.cluster_idx
            &&& next.done == progress.done
        }),
{
    lemma_finished_text(layout, progress, |c: int| 0u8, reason, max_advance, indent, false);
    assert(progress.with_line(layout, reason, max_advance, indent).lines.drop_last()
        =~= progress.lines);
}

/// The two lines are finished alike.
proof fn lemma_same_finished_text<T: Scalar>(
    a: LayoutData<T>,
    b: LayoutData<T>,
    one: Progress<T>,
    other: Progress<T>,
    levels: spec_fn(int) -> u8,
    reason: BreakReason,
    max_advance: T,
    indent: T,
    fits: bool,
)
    requires
        same_shaped_text(a, b),
        a.text_len == b.text_len,
        a.base_level == b.base_level,
        a.quantize == b.quantize,
        same_flow(a, b, one.state, other.state),
        one.lines.len() == other.lines.len(),
        one.lines.len() > 0 ==> extent::same_line(one.lines.last(), other.lines.last(), fits),
    ensures
        extent::same_line(
            finished_text(a, one, levels, reason, max_advance, indent),
            finished_text(b, other, levels, reason, max_advance, indent),
            fits,
        ),
{
    reveal(same_flow);
    let clusters = one.state.line.clusters;
    extent::lemma_same_line_of_text(
        a,
        b,
        one.new_line(a, reason, max_advance, indent),
        other.new_line(b, reason, max_advance, indent),
        levels,
        clusters.start as int,
        clusters.end as int,
        one.state.line.box_metrics.spec_line_height(),
    );
}

/// The lines are the same, but for their items; where boxes do not fit the levels
/// beside them, but for the extent of their content too.
pub open spec fn same_lines<T: Scalar>(
    a: Seq<LineData<T>>,
    b: Seq<LineData<T>>,
    fits: bool,
) -> bool {
    &&& a.len() == b.len()
    &&& forall|i: int| 0 <= i < a.len() ==> extent::same_line(#[trigger] a[i], b[i], fits)
}

pub(crate) open spec fn is_in_place<T: Scalar>(
    layout: LayoutData<T>,
    progress: Progress<T>,
) -> bool {
    !progress.done ==> coverage::keeps_text(layout, progress.state)
        && box_lines::boxes_are_in_place(layout, progress.state)
}

/// The next line starts in place, and can be finished.
pub(crate) proof fn lemma_next_can_finish<T: Scalar>(layout: LayoutData<T>, progress: Progress<T>)
    requires
        layout.wf(),
        is_text_alone(layout),
        layout.items@.len() > 0,
        !progress.done,
        is_in_place(layout, progress),
        coverage::committed_next(layout, progress).len() < usize::MAX,
    ensures
        is_in_place(layout, progress.next(layout).0),
        ({
            let available = progress.available(layout);
            let step = scan::scan(
                layout,
                progress.state,
                progress.state.item_idx as int,
                available,
            );
            let scanned = Progress {
                prev_state: Some(progress.state),
                state: step.state,
                ..progress
            };
            match step.flow {
                Flow::Continue => can_finish(layout, scanned.at_end(step.state)),
                Flow::Break(_) => can_finish(layout, scanned),
                _ => true,
            }
        }),
{
    assert(layout.edges_hold_content()) by {
        assert forall|edge: int, item: int|
            0 <= edge < item < layout.items@.len() && #[trigger] layout.is_opening_edge(edge)
                && layout.no_text(edge, item) && #[trigger] layout.spec_is_text(item) implies
            !layout.starts_with_hanging_space(item) by {
            assert(!layout.spec_is_text(edge));
        }
    }
    assert(layout.has_no_atomic_boxes());
    let available = progress.available(layout);
    let step = scan::scan(layout, progress.state, progress.state.item_idx as int, available);
    coverage::lemma_lines_hold_all_text(layout, progress);
    box_lines::lemma_lines_hold_all_boxes(layout, progress);
    coverage::lemma_aligned_scan(layout, progress.state, available);
    box_lines::lemma_scan_in_place(layout, progress.state, available);
    let line = step.state.line;
    let last = line.items.end - 1;
    if last >= 0 && layout.spec_is_text(last) {
        coverage::lemma_run_bounds(layout, last);
    }
    layout.lemma_clusters_before_monotone(line.items.end as int, layout.items@.len() as int);
}

proof fn lemma_same_next_lines<T: Scalar>(
    a: LayoutData<T>,
    b: LayoutData<T>,
    one: Progress<T>,
    other: Progress<T>,
    levels: spec_fn(int) -> u8,
    fits: bool,
)
    requires
        a.wf(),
        b.wf(),
        zero_is_neutral::<T>(),
        same_paragraph(a, b),
        same_shaped_text(a, b),
        extent::text_is_in_order(a),
        is_text_alone(a),
        is_text_alone(b),
        a.base_level == b.base_level,
        fits ==> levels_fit(a, levels) && levels_fit(b, levels),
        same_progress(a, b, one, other),
        same_lines(one.lines, other.lines, fits),
        !one.done,
        is_in_place(a, one),
        is_in_place(b, other),
        coverage::committed_next(a, one).len() < usize::MAX,
        coverage::committed_next(b, other).len() < usize::MAX,
    ensures
        same_lines(one.next(a).0.lines, other.next(b).0.lines, fits),
        is_in_place(a, one.next(a).0),
        is_in_place(b, other.next(b).0),
{
    let indent = one.indent(a);
    let available = one.available(a);
    if one.lines.len() > 0 {
        assert(extent::same_line(
            one.lines[one.lines.len() - 1],
            other.lines[one.lines.len() - 1],
            fits,
        ));
    }
    assert(one.state.line_max_advance == other.state.line_max_advance) by {
        reveal(same_flow);
    }
    assert(other.indent(b) == indent);
    assert(other.available(b) == available);
    flow::lemma_same_scan(a, b, one.state, other.state, available);
    lemma_next_can_finish(a, one);
    lemma_next_can_finish(b, other);
    let step = scan::scan(a, one.state, one.state.item_idx as int, available);
    let other_step = scan::scan(b, other.state, other.state.item_idx as int, available);
    let scanned = Progress { prev_state: Some(one.state), state: step.state, ..one };
    let other_scanned = Progress {
        prev_state: Some(other.state),
        state: other_step.state,
        ..other
    };
    let (last, other_last, reason) = match step.flow {
        Flow::Break(reason) => (scanned, other_scanned, reason),
        _ => (
            scanned.at_end(step.state),
            other_scanned.at_end(other_step.state),
            BreakReason::NoBreak,
        ),
    };
    flow::lemma_same_at_end(a, b, scanned, other_scanned, step.state, other_step.state);
    lemma_finished_text(a, last, levels, reason, available, indent, fits);
    lemma_finished_text(b, other_last, levels, reason, available, indent, fits);
    lemma_same_finished_text(a, b, last, other_last, levels, reason, available, indent, fits);
    flow::lemma_same_after_line(a, b, last, other_last, reason, available, indent);
    let next = last.with_line(a, reason, available, indent);
    let other_next = other_last.with_line(b, reason, available, indent);
    assert forall|i: int| 0 <= i < next.lines.len() implies extent::same_line(
        #[trigger] next.lines[i],
        other_next.lines[i],
        fits,
    ) by {
        if i < one.lines.len() {
            assert(next.lines[i] == next.lines.drop_last()[i]);
            assert(other_next.lines[i] == other_next.lines.drop_last()[i]);
            assert(extent::same_line(one.lines[i], other.lines[i], fits));
        } else {
            assert(next.lines[i] == next.lines.last());
            assert(other_next.lines[i] == other_next.lines.last());
        }
    }
}

/// The items of every line that a number of steps break can be indexed.
pub open spec fn items_fit<T: Scalar>(
    layout: LayoutData<T>,
    progress: Progress<T>,
    steps: nat,
) -> bool {
    forall|step: nat|
        step < steps ==> coverage::committed_next(
            layout,
            #[trigger] progress.after_steps(layout, step),
        ).len() < usize::MAX
}

/// Boxes out of flow change no line. Two layouts of the same text with the same
/// flow, broken for the same advance, have the same lines, whatever boxes out of
/// flow they have and however these divide the runs: line by line the same text,
/// break and place. Where no box is below the levels of both clusters beside it,
/// so that it parts no run of a level, the lines have the same advance, hanging
/// white space and spaces too.
pub proof fn lemma_boxes_out_of_flow_change_no_line<T: Scalar>(
    a: LayoutData<T>,
    b: LayoutData<T>,
    levels: spec_fn(int) -> u8,
    max_advance: T,
    steps: nat,
)
    requires
        a.wf(),
        b.wf(),
        zero_is_neutral::<T>(),
        forall|height: T| !#[trigger] T::spec_largest().spec_lt(height),
        same_paragraph(a, b),
        same_shaped_text(a, b),
        a.base_level == b.base_level,
        extent::text_is_in_order(a),
        is_text_alone(a),
        is_text_alone(b),
        items_fit(a, Progress::start(a).with_limit(max_advance), steps),
        items_fit(b, Progress::start(b).with_limit(max_advance), steps),
    ensures
        ({
            let one = Progress::start(a).with_limit(max_advance).after_steps(a, steps);
            let other = Progress::start(b).with_limit(max_advance).after_steps(b, steps);
            let fits = levels_fit(a, levels) && levels_fit(b, levels);
            &&& same_lines(one.lines, other.lines, fits)
            &&& one.done == other.done
        }),
{
    let fits = levels_fit(a, levels) && levels_fit(b, levels);
    lemma_same_lines_after(a, b, max_advance, steps, levels, fits);
}

proof fn lemma_same_lines_after<T: Scalar>(
    a: LayoutData<T>,
    b: LayoutData<T>,
    max_advance: T,
    steps: nat,
    levels: spec_fn(int) -> u8,
    fits: bool,
)
    requires
        a.wf(),
        b.wf(),
        zero_is_neutral::<T>(),
        forall|height: T| !#[trigger] T::spec_largest().spec_lt(height),
        same_paragraph(a, b),
        same_shaped_text(a, b),
        extent::text_is_in_order(a),
        is_text_alone(a),
        is_text_alone(b),
        a.base_level == b.base_level,
        fits ==> levels_fit(a, levels) && levels_fit(b, levels),
        items_fit(a, Progress::start(a).with_limit(max_advance), steps),
        items_fit(b, Progress::start(b).with_limit(max_advance), steps),
    ensures
        ({
            let one = Progress::start(a).with_limit(max_advance).after_steps(a, steps);
            let other = Progress::start(b).with_limit(max_advance).after_steps(b, steps);
            &&& same_progress(a, b, one, other)
            &&& same_lines(one.lines, other.lines, fits)
            &&& is_in_place(a, one)
            &&& is_in_place(b, other)
        }),
    decreases steps,
{
    let start = Progress::start(a).with_limit(max_advance);
    let other_start = Progress::start(b).with_limit(max_advance);
    flow::lemma_lines_are_those_of_the_flow(a, b, max_advance, steps);
    if steps == 0 {
        coverage::lemma_first_line_starts_the_text(a);
        coverage::lemma_first_line_starts_the_text(b);
    } else {
        let before = (steps - 1) as nat;
        lemma_same_lines_after(a, b, max_advance, before, levels, fits);
        let one = start.after_steps(a, before);
        let other = other_start.after_steps(b, before);
        if one.done {
            flow::lemma_done_is_stuck(a, one);
            flow::lemma_done_is_stuck(b, other);
        } else {
            lemma_same_next_lines(a, b, one, other, levels, fits);
            flow::lemma_same_next(a, b, one, other);
            flow::lemma_step_is_line(a, one);
            flow::lemma_step_is_line(b, other);
        }
    }
}

/// Text has the same lines with boxes out of flow as it has without them,
/// wherever they are put between its graphemes, but for a box that parts a
/// carriage return from its line feed.
pub proof fn lemma_text_has_the_same_lines<T: Scalar>(
    a: LayoutData<T>,
    b: LayoutData<T>,
    metrics: spec_fn(int) -> (FontMetrics<T>, T),
    levels: spec_fn(int) -> u8,
    max_advance: T,
    steps: nat,
)
    requires
        a.wf(),
        b.wf(),
        zero_is_neutral::<T>(),
        forall|height: T| !#[trigger] T::spec_largest().spec_lt(height),
        // The same text, styled, rounded and indented alike.
        same_shaped_text(a, b),
        a.text_len == b.text_len > 0,
        a.items@.len() > 0,
        b.items@.len() > 0,
        a.base_level == b.base_level,
        a.quantize == b.quantize,
        a.indent_amount == b.indent_amount,
        a.indent_options == b.indent_options,
        a.styles@[a.root_style_index as int].text_wrap_mode
            == b.styles@[b.root_style_index as int].text_wrap_mode,
        a.clusters_before(a.items@.len() as int) == a.shaped_text.clusters@.len(),
        b.clusters_before(b.items@.len() as int) == b.shaped_text.clusters@.len(),
        extent::text_is_in_order(a),
        // Boxes out of flow are all that is not text.
        flow::is_plain(a, metrics, false),
        flow::is_plain(b, metrics, false),
        items_fit(a, Progress::start(a).with_limit(max_advance), steps),
        items_fit(b, Progress::start(b).with_limit(max_advance), steps),
    ensures
        ({
            let one = Progress::start(a).with_limit(max_advance).after_steps(a, steps);
            let other = Progress::start(b).with_limit(max_advance).after_steps(b, steps);
            let fits = levels_fit(a, levels) && levels_fit(b, levels);
            &&& same_lines(one.lines, other.lines, fits)
            &&& one.done == other.done
        }),
{
    flow::lemma_boxes_out_of_flow_leave_the_flow(a, b, metrics, false);
    lemma_boxes_out_of_flow_change_no_line(a, b, levels, max_advance, steps);
}

} // verus!
