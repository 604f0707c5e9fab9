//! The advance of a line is that of what is on it.

use crate::layout::box_lines;
use crate::layout::box_lines::{boxes_in, line_is_in_place};
use crate::layout::break_lines;
use crate::layout::break_lines::{Progress, YieldData};
use crate::layout::char_scan;
use crate::layout::char_scan::Count;
use crate::layout::commit;
use crate::layout::commit::Commit;
use crate::layout::counted::counted_items;
use crate::layout::coverage;
use crate::layout::coverage::line_is_aligned;
use crate::layout::data::{BreakReason, LayoutData, LayoutItemKind, LineItemData};
use crate::layout::finish_line;
use crate::layout::lengths;
use crate::layout::lengths::{
    box_steps, boxes_steps, has_whole_breaks, is_forced_break, lengths_fit, text_steps,
};
use crate::layout::line_items;
use crate::layout::reorder;
use crate::layout::scan;
use crate::layout::scan::Flow;
use crate::layout::state::{BreakerState, LineState, PrevBoundaryState};
use crate::layout::trailing::Trailing;
use crate::scalar::Fixed;
use crate::style::WhiteSpaceCollapse;
use vstd::prelude::*;

verus! {

/// The line's advance is that of the clusters on it that are no forced breaks,
/// and of its boxes and edges up to the item `item_idx`.
pub open spec fn has_its_advance(
    layout: LayoutData<Fixed>,
    line: LineState<Fixed>,
    item_idx: int,
) -> bool {
    &&& line.items.start <= item_idx <= layout.items@.len()
    &&& line.clusters.start <= line.clusters.end <= layout.shaped_text.clusters@.len()
    &&& line.x.steps == boxes_steps(layout, line.items.start as int, item_idx) + text_steps(
        layout,
        line.clusters.start as int,
        line.clusters.end as int,
    )
}

pub open spec fn boundary_has_its_advance(
    layout: LayoutData<Fixed>,
    boundary: Option<PrevBoundaryState<Fixed>>,
) -> bool {
    boundary matches Some(boundary) ==> has_its_advance(
        layout,
        boundary.state,
        boundary.item_idx as int,
    )
}

/// Wherever the line is broken, its advance is that of what is on it.
pub open spec fn advances_are_kept(layout: LayoutData<Fixed>, state: BreakerState<Fixed>) -> bool {
    &&& has_its_advance(layout, state.line, state.item_idx as int)
    &&& state.line.clusters.end == state.cluster_idx
    &&& boundary_has_its_advance(layout, state.prev_boundary)
    &&& boundary_has_its_advance(layout, state.emergency_boundary)
    &&& boundary_has_its_advance(layout, state.pending_inline_start.before())
}

/// What a step keeps of it.
pub(crate) open spec fn step_keeps_advance(
    layout: LayoutData<Fixed>,
    step: scan::Step<Fixed>,
) -> bool {
    if step.flow is Break {
        has_its_advance(layout, step.state.line, step.state.item_idx as int)
    } else {
        advances_are_kept(layout, step.state)
    }
}

proof fn lemma_text_keeps_advance(
    layout: LayoutData<Fixed>,
    state: BreakerState<Fixed>,
    run: int,
    max_advance: Fixed,
)
    requires
        layout.wf(),
        lengths_fit(layout),
        has_whole_breaks(layout),
        advances_are_kept(layout, state),
        0 <= run < layout.shaped_text.runs@.len(),
        state.cluster_idx < layout.shaped_text.runs@[run].clusters.end,
    ensures
        ({
            let info = scan::atom_info(layout, run, state.cluster_idx as int);
            let step = scan::text_step(layout, state, info, max_advance);
            &&& step_keeps_advance(layout, step)
            &&& step.flow !is Break ==> step.state.item_idx == state.item_idx
            &&& step.flow is Continue ==> step.state.cluster_idx == layout.shaped_text.atom_end(
                state.cluster_idx as int,
                layout.shaped_text.runs@[run].clusters.end as int,
            )
        }),
{
    let cursor = state.cluster_idx as int;
    let bound = layout.shaped_text.runs@[run].clusters.end as int;
    let start = state.line.clusters.start as int;
    lemma_appended_atom(layout, state.line, state.item_idx as int, bound);
}

/// An atom adds its advance to the line, unless it is a forced break.
proof fn lemma_appended_atom(
    layout: LayoutData<Fixed>,
    line: LineState<Fixed>,
    item_idx: int,
    bound: int,
)
    requires
        layout.wf(),
        lengths_fit(layout),
        has_whole_breaks(layout),
        has_its_advance(layout, line, item_idx),
        line.clusters.end < bound <= layout.shaped_text.clusters@.len(),
    ensures
        ({
            let cursor = line.clusters.end as int;
            let end = layout.shaped_text.atom_end(cursor, bound);
            let advance = layout.shaped_text.spec_atom(cursor, bound).advance;
            let x = boxes_steps(layout, line.items.start as int, item_idx) + text_steps(
                layout,
                line.clusters.start as int,
                end,
            );
            &&& cursor < end <= bound
            &&& i64::MIN <= x <= i64::MAX
            &&& x == line.x.steps + if is_forced_break(layout, cursor) {
                0
            } else {
                advance.steps as int
            }
        }),
{
    let cursor = line.clusters.end as int;
    let start = line.clusters.start as int;
    lengths::lemma_atom_steps(layout, cursor, bound);
    let end = layout.shaped_text.atom_end(cursor, bound);
    lengths::lemma_text_steps_adjacent(layout, start, cursor, end);
    lengths::lemma_parts_fit(layout, line.items.start as int, item_idx, start, end);
}

proof fn lemma_run_keeps_advance(
    layout: LayoutData<Fixed>,
    state: BreakerState<Fixed>,
    run: int,
    max_advance: Fixed,
)
    requires
        layout.wf(),
        lengths_fit(layout),
        has_whole_breaks(layout),
        advances_are_kept(layout, state),
        0 <= run < layout.shaped_text.runs@.len(),
    ensures
        ({
            let step = scan::scan_run(layout, state, run, state.cluster_idx as int, max_advance);
            &&& step_keeps_advance(layout, step)
            &&& step.flow !is Break ==> step.state.item_idx == state.item_idx
        }),
    decreases layout.shaped_text.runs@[run].clusters.end - state.cluster_idx,
{
    let bound = layout.shaped_text.runs@[run].clusters.end as int;
    let cursor = state.cluster_idx as int;
    if cursor < bound {
        lemma_text_keeps_advance(layout, state, run, max_advance);
        let step = scan::text_step(
            layout,
            state,
            scan::atom_info(layout, run, cursor),
            max_advance,
        );
        if step.flow is Continue {
            layout.shaped_text.lemma_atom_end(cursor, bound);
            lemma_run_keeps_advance(layout, step.state, run, max_advance);
        }
    }
}

/// A box adds its width to the line.
proof fn lemma_appended_box(
    layout: LayoutData<Fixed>,
    line: LineState<Fixed>,
    item: int,
)
    requires
        lengths_fit(layout),
        has_its_advance(layout, line, item),
        item < layout.items@.len(),
    ensures
        ({
            let x = line.x.steps + box_steps(layout, item);
            &&& i64::MIN <= x <= i64::MAX
            &&& x == boxes_steps(layout, line.items.start as int, item + 1) + text_steps(
                layout,
                line.clusters.start as int,
                line.clusters.end as int,
            )
        }),
{
    lengths::lemma_parts_fit(
        layout,
        line.items.start as int,
        item + 1,
        line.clusters.start as int,
        line.clusters.end as int,
    );
}

proof fn lemma_box_keeps_advance(
    layout: LayoutData<Fixed>,
    state: BreakerState<Fixed>,
    max_advance: Fixed,
)
    requires
        layout.wf(),
        lengths_fit(layout),
        advances_are_kept(layout, state),
        state.item_idx < layout.items@.len(),
        !layout.spec_is_text(state.item_idx as int),
    ensures
        ({
            let step = scan::box_step(layout, state, state.item_idx as int, max_advance);
            &&& step_keeps_advance(layout, step)
            &&& step.flow is Continue ==> step.state.item_idx == state.item_idx + 1
        }),
{
    lemma_appended_box(layout, state.line, state.item_idx as int);
}

pub(crate) proof fn lemma_scan_keeps_advance(
    layout: LayoutData<Fixed>,
    state: BreakerState<Fixed>,
    max_advance: Fixed,
)
    requires
        layout.wf(),
        lengths_fit(layout),
        has_whole_breaks(layout),
        advances_are_kept(layout, state),
    ensures
        step_keeps_advance(
            layout,
            scan::scan(layout, state, state.item_idx as int, max_advance),
        ),
    decreases layout.items@.len() - state.item_idx,
{
    let item = state.item_idx as int;
    if item < layout.items@.len() {
        assert(layout.item_wf(item));
        if layout.spec_is_text(item) {
            let run = layout.items@[item].index as int;
            lemma_run_keeps_advance(layout, state, run, max_advance);
            let step = scan::scan_run(
                layout,
                state,
                run,
                state.cluster_idx as int,
                max_advance,
            );
            if step.flow is Continue {
                lemma_scan_keeps_advance(layout, scan::after_run(step.state), max_advance);
            }
        } else {
            lemma_box_keeps_advance(layout, state, max_advance);
            let step = scan::box_step(layout, state, item, max_advance);
            if step.flow is Continue {
                lemma_scan_keeps_advance(layout, step.state, max_advance);
            }
        }
    }
}

// ---------------------------------------------------------------------------
// Lines of a number of characters.

spec fn count_keeps_advance(layout: LayoutData<Fixed>, count: Count<Fixed>) -> bool {
    &&& has_its_advance(layout, count.state.line, count.state.item_idx as int)
    &&& count.state.line.clusters.end == count.state.cluster_idx
}

proof fn lemma_count_of_run_keeps_advance(
    layout: LayoutData<Fixed>,
    count: Count<Fixed>,
    run: int,
    limit: u32,
)
    requires
        layout.wf(),
        lengths_fit(layout),
        has_whole_breaks(layout),
        count_keeps_advance(layout, count),
        0 <= run < layout.shaped_text.runs@.len(),
    ensures
        ({
            let after = count.with_run(layout, run, count.state.cluster_idx as int, limit);
            &&& count_keeps_advance(layout, after)
            &&& after.state.item_idx == count.state.item_idx
        }),
    decreases layout.shaped_text.runs@[run].clusters.end - count.state.cluster_idx,
{
    let cursor = count.state.cluster_idx as int;
    let bound = layout.shaped_text.runs@[run].clusters.end as int;
    if cursor < bound && count.chars < limit {
        lemma_appended_atom(layout, count.state.line, count.state.item_idx as int, bound);
        layout.shaped_text.lemma_atom_end(cursor, bound);
        let next = count.with_atom(layout, scan::atom_info(layout, run, cursor));
        lemma_count_of_run_keeps_advance(layout, next, run, limit);
    }
}

proof fn lemma_count_keeps_advance(layout: LayoutData<Fixed>, count: Count<Fixed>, limit: u32)
    requires
        layout.wf(),
        lengths_fit(layout),
        has_whole_breaks(layout),
        count_keeps_advance(layout, count),
    ensures
        count_keeps_advance(
            layout,
            count.with_items(layout, count.state.item_idx as int, limit),
        ),
    decreases layout.items@.len() - count.state.item_idx,
{
    let item = count.state.item_idx as int;
    if item < layout.items@.len() {
        assert(layout.item_wf(item));
        if count.chars >= limit && !char_scan::can_follow(layout, item) {
        } else if layout.spec_is_text(item) {
            let run = layout.items@[item].index as int;
            lemma_count_of_run_keeps_advance(layout, count, run, limit);
            let filled = count.with_run(layout, run, count.state.cluster_idx as int, limit);
            if !filled.full {
                lemma_count_keeps_advance(
                    layout,
                    Count { state: scan::after_run(filled.state), ..filled },
                    limit,
                );
            }
        } else {
            lemma_appended_box(layout, count.state.line, item);
            lemma_count_keeps_advance(layout, count.with_box(layout, item), limit);
        }
    }
}

// ---------------------------------------------------------------------------
// The finished line.

/// No style has white space removed at the end of a line.
pub open spec fn keeps_white_space(layout: LayoutData<Fixed>) -> bool {
    forall|i: int|
        0 <= i < layout.styles@.len() ==> {
            let collapse = (#[trigger] layout.styles@[i]).white_space_collapse;
            collapse != WhiteSpaceCollapse::Collapse && collapse
                != WhiteSpaceCollapse::PreserveBreaks
        }
}

/// A text item has clusters of the text.
pub(crate) open spec fn is_in_text(layout: LayoutData<Fixed>, item: LineItemData<Fixed>) -> bool {
    item.spec_is_text_run() ==> item.shaped_cluster_range.start <= item.shaped_cluster_range.end
        <= layout.shaped_text.clusters@.len()
}

pub(crate) open spec fn are_in_text(
    layout: LayoutData<Fixed>,
    items: Seq<LineItemData<Fixed>>,
    from: int,
    to: int,
) -> bool {
    forall|i: int| from <= i < to ==> is_in_text(layout, #[trigger] items[i])
}

pub(crate) proof fn lemma_committed_in_text(
    layout: LayoutData<Fixed>,
    line: LineState<Fixed>,
    item_idx: int,
    item: int,
    so_far: Commit<Fixed>,
    from: int,
)
    requires
        layout.wf(),
        line_is_aligned(layout, line, item_idx, line.clusters.end as int),
        line.items.start <= item <= line.items.end <= layout.items@.len(),
        0 <= from <= so_far.items.len(),
        are_in_text(layout, so_far.items, from, so_far.items.len() as int),
    ensures
        ({
            let items = commit::commit_items(layout, line, item, so_far).items;
            &&& from <= items.len()
            &&& are_in_text(layout, items, from, items.len() as int)
        }),
    decreases line.items.end - item,
{
    if item < line.items.end {
        layout.lemma_clusters_before_bound(line.items.end as int);
        if !layout.spec_is_text(item) {
            let next = Commit {
                items: so_far.items.push(layout.committed_box(item)),
                last: LayoutItemKind::InlineBox,
                ..so_far
            };
            lemma_committed_in_text(layout, line, item_idx, item + 1, next, from);
        } else {
            coverage::lemma_committed_position(layout, line, item_idx, item);
            layout.lemma_clusters_before_monotone(item, item + 1);
            if layout.nothing_left(line, item) {
                lemma_committed_in_text(layout, line, item_idx, item + 1, so_far, from);
            } else {
                let next = Commit {
                    items: so_far.items.push(layout.committed_text(line, item, so_far.items)),
                    last: LayoutItemKind::TextRun,
                    text: true,
                };
                lemma_committed_in_text(layout, line, item_idx, item + 1, next, from);
            }
        }
    }
}

proof fn lemma_reset_in_text(
    layout: LayoutData<Fixed>,
    items: Seq<LineItemData<Fixed>>,
    from: int,
    at: int,
    to: int,
)
    requires
        0 <= from <= at <= to <= items.len(),
        are_in_text(layout, items, from, to),
    ensures
        ({
            let reset = line_items::reset_levels(layout, items, from, at, to);
            &&& to <= reset.to <= reset.items.len()
            &&& reset.to <= to + 1
            &&& are_in_text(layout, reset.items, from, reset.to)
        }),
    decreases at - from,
{
    if at > from {
        let item = items[at - 1];
        assert(is_in_text(layout, item));
        let clusters = item.shaped_cluster_range;
        let split = layout.shaped_text.whitespace_start(
            clusters.start as int,
            clusters.end as int,
        );
        if !item.spec_is_text_run() {
            lemma_reset_in_text(layout, items, from, at - 1, to);
        } else {
            layout.shaped_text.lemma_whitespace_start(clusters.start as int, clusters.end as int);
            if split == clusters.end {
            } else if split == clusters.start {
                let reset = LineItemData { bidi_level: layout.base_level, ..item };
                lemma_reset_in_text(layout, items.update(at - 1, reset), from, at - 1, to);
            } else {
                let head = line_items::head_of(layout, item, split);
                let tail = line_items::tail_of(layout, item, split);
                let parts = items.update(at - 1, head).insert(at, tail);
                assert forall|i: int| from <= i < to + 1 implies is_in_text(
                    layout,
                    #[trigger] parts[i],
                ) by {
                    if i > at {
                        assert(parts[i] == items[i - 1]);
                    } else if i < at - 1 {
                        assert(parts[i] == items[i]);
                    }
                }
            }
        }
    }
}

pub(crate) proof fn lemma_ordered_in_text(
    layout: LayoutData<Fixed>,
    items: Seq<LineItemData<Fixed>>,
    from: int,
)
    requires
        0 <= from <= items.len(),
        are_in_text(layout, items, from, items.len() as int),
    ensures
        ({
            let to = items.len() as int;
            let (ordered, ordered_to) = finish_line::ordered_items(layout, items, from, to);
            &&& to <= ordered_to <= to + 1
            &&& are_in_text(layout, ordered, from, ordered_to)
        }),
{
    let to = items.len() as int;
    let measured = line_items::measured(layout, items, from, to);
    assert forall|i: int| from <= i < to implies is_in_text(layout, #[trigger] measured[i]) by {
        assert(is_in_text(layout, items[i]));
    }
    lemma_reset_in_text(layout, measured, from, to, to);
    let reset = line_items::reset_levels(layout, measured, from, to, to);
    reorder::lemma_reordered_same_items(reset.items, from, reset.to);
    let ordered = finish_line::ordered_items(layout, items, from, to).0;
    assert forall|i: int| from <= i < reset.to implies is_in_text(
        layout,
        #[trigger] ordered[i],
    ) by {
        if ordered != reset.items {
            assert(reorder::occurs_in(ordered[i], reset.items, from, reset.to));
        }
    }
}

proof fn lemma_no_cluster_is_removed(
    layout: LayoutData<Fixed>,
    trailing: Trailing<Fixed>,
    item: usize,
    from: int,
    to: int,
    backwards: bool,
)
    requires
        layout.wf(),
        keeps_white_space(layout),
        0 <= from,
        to <= layout.shaped_text.clusters@.len(),
        trailing.removed.len() == 0,
    ensures
        trailing.with_clusters(layout, item, from, to, backwards).removed.len() == 0,
    decreases to - from,
{
    if !trailing.ended && from < to {
        let cluster = if backwards {
            to - 1
        } else {
            from
        };
        let first = layout.shaped_text.spec_first_character(cluster);
        assert(layout.shaped_text.clusters@[cluster].chars.start
            < layout.shaped_text.characters@.len());
        assert(first.style_index < layout.styles@.len());
        let next = trailing.with_cluster(layout, item, cluster as usize);
        if backwards {
            lemma_no_cluster_is_removed(layout, next, item, from, to - 1, backwards);
        } else {
            lemma_no_cluster_is_removed(layout, next, item, from + 1, to, backwards);
        }
    }
}

pub(crate) proof fn lemma_nothing_is_removed(
    layout: LayoutData<Fixed>,
    trailing: Trailing<Fixed>,
    items: Seq<LineItemData<Fixed>>,
    from: int,
    to: int,
)
    requires
        layout.wf(),
        keeps_white_space(layout),
        0 <= from,
        to <= usize::MAX,
        are_in_text(layout, items, from, to),
        trailing.removed.len() == 0,
    ensures
        trailing.with_items(layout, items, from, to).removed.len() == 0,
    decreases to - from,
{
    if !trailing.ended && from < to {
        let item = if layout.spec_is_rtl() {
            from
        } else {
            to - 1
        };
        let data = items[item];
        assert(is_in_text(layout, data));
        if data.spec_is_text_run() {
            lemma_no_cluster_is_removed(
                layout,
                trailing,
                item as usize,
                data.shaped_cluster_range.start as int,
                data.shaped_cluster_range.end as int,
                data.spec_is_rtl() == layout.spec_is_rtl(),
            );
        }
        let next = trailing.with_item(layout, items, item as usize);
        if layout.spec_is_rtl() {
            lemma_nothing_is_removed(layout, next, items, from + 1, to);
        } else {
            lemma_nothing_is_removed(layout, next, items, from, to - 1);
        }
    }
}

/// Boxes that contribute nothing take up no space.
proof fn lemma_placeholders_take_no_space(
    layout: LayoutData<Fixed>,
    items: Seq<LineItemData<Fixed>>,
    from: int,
    to: int,
    first: int,
    last: int,
)
    requires
        boxes_in(items, from, to) == layout.boxes_between(first, last),
        line_items::is_bare(layout, items, from, to),
    ensures
        boxes_steps(layout, first, last) == 0,
    decreases last - first, to - from,
{
    if first < last {
        if layout.spec_is_text(last - 1) {
            lemma_placeholders_take_no_space(layout, items, from, to, first, last - 1);
        } else {
            let boxes = layout.boxes_between(first, last);
            assert(boxes.last() == layout.items@[last - 1].index);
            assert(from < to);
            assert(line_items::is_placeholder(layout, items[to - 1]));
            if items[to - 1].spec_is_text_run() {
                lemma_placeholders_take_no_space(layout, items, from, to - 1, first, last);
            } else {
                assert(boxes_in(items, from, to).last() == items[to - 1].index);
                assert(boxes.drop_last() =~= layout.boxes_between(first, last - 1));
                assert(boxes_in(items, from, to).drop_last() =~= boxes_in(items, from, to - 1));
                lemma_placeholders_take_no_space(layout, items, from, to - 1, first, last - 1);
            }
        }
    }
}

proof fn lemma_bare_line_holds_no_text(
    layout: LayoutData<Fixed>,
    items: Seq<LineItemData<Fixed>>,
    from: int,
    to: int,
    at: int,
    end: int,
)
    requires
        line_items::is_bare(layout, items, from, to),
        coverage::text_follows(items, from, to, at, end),
    ensures
        at == end,
    decreases to - from,
{
    if from < to {
        assert(line_items::is_placeholder(layout, items[from]));
        lemma_bare_line_holds_no_text(layout, items, from + 1, to, at, end);
    }
}

/// The line can be finished.
pub(crate) open spec fn can_finish(layout: LayoutData<Fixed>, progress: Progress<Fixed>) -> bool {
    let state = progress.state;
    let item = state.item_idx as int;
    &&& line_is_aligned(layout, state.line, item, state.line.clusters.end as int)
    &&& state.line.items.end <= layout.items@.len()
    &&& state.line.items.end == item || (state.line.items.end == item + 1 && layout.spec_is_text(
        item,
    ))
    &&& has_its_advance(layout, state.line, item)
    &&& commit::commit_of_line(layout, state.line, progress.items).items.len() < usize::MAX
}

proof fn lemma_finished_advance(
    layout: LayoutData<Fixed>,
    progress: Progress<Fixed>,
    reason: BreakReason,
    max_advance: Fixed,
    indent: Fixed,
)
    requires
        layout.wf(),
        lengths_fit(layout),
        keeps_white_space(layout),
        can_finish(layout, progress),
    ensures
        progress.with_line(layout, reason, max_advance, indent).lines.last().metrics.advance
            == progress.state.line.x,
        progress.with_line(layout, reason, max_advance, indent).lines.drop_last()
            == progress.lines,
{
    let state = progress.state;
    let line = state.line;
    let item = state.item_idx as int;
    layout.lemma_clusters_before_bound(line.items.end as int);
    assert(commit::clamped(layout, line) == line);
    let items = commit::commit_of_line(layout, line, progress.items).items;
    let from = progress.items.len() as int;
    let to = items.len() as int;
    coverage::lemma_line_holds_its_text(layout, line, item, progress.items);
    box_lines::lemma_line_holds_its_boxes(layout, line, progress.items);
    lemma_committed_in_text(
        layout,
        line,
        item,
        line.items.start as int,
        Commit { items: progress.items, last: LayoutItemKind::TextRun, text: false },
        from,
    );
    lemma_ordered_in_text(layout, items, from);
    let (ordered, end) = finish_line::ordered_items(layout, items, from, to);
    lemma_nothing_is_removed(layout, Trailing::nothing(), ordered, from, end);
    if line_items::is_bare(layout, items, from, to) {
        lemma_bare_line_holds_no_text(
            layout,
            items,
            from,
            to,
            line.clusters.start as int,
            line.clusters.end as int,
        );
        lemma_placeholders_take_no_space(
            layout,
            items,
            from,
            to,
            line.items.start as int,
            line.items.end as int,
        );
        assert(line.x.steps == 0);
    }
    let new_line = progress.new_line(layout, reason, max_advance, indent);
    let lines = progress.lines.push(new_line);
    assert(lines.last() == new_line);
    let next = progress.with_line(layout, reason, max_advance, indent);
    assert(next.lines.last() == progress.finished_line(layout, reason, max_advance, indent).line);
    assert(next.lines.drop_last() =~= progress.lines);
}

// ---------------------------------------------------------------------------
// Lines as they are broken.

proof fn lemma_no_boxes_take_no_space(layout: LayoutData<Fixed>, from: int, to: int)
    requires
        layout.boxes_between(from, to) == Seq::<usize>::empty(),
    ensures
        boxes_steps(layout, from, to) == 0,
    decreases to - from,
{
    if from < to {
        if layout.spec_is_text(to - 1) {
            lemma_no_boxes_take_no_space(layout, from, to - 1);
        } else {
            assert(layout.boxes_between(from, to).len() > 0);
        }
    }
}

/// The line that is filled next has its advance, and its text and boxes in
/// place.
pub open spec fn is_ready(layout: LayoutData<Fixed>, progress: Progress<Fixed>) -> bool {
    let state = progress.state;
    let item = state.item_idx as int;
    let cluster = state.cluster_idx as int;
    &&& line_is_aligned(layout, state.line, item, cluster)
    &&& line_is_in_place(layout, state.line, item, cluster)
    &&& has_its_advance(layout, state.line, item)
}

/// The next line starts with no advance, and nothing on it.
pub(crate) proof fn lemma_new_line_is_ready(
    layout: LayoutData<Fixed>,
    progress: Progress<Fixed>,
    reason: BreakReason,
    max_advance: Fixed,
    indent: Fixed,
)
    requires
        layout.wf(),
        can_finish(layout, progress),
        line_is_in_place(
            layout,
            progress.state.line,
            progress.state.item_idx as int,
            progress.state.cluster_idx as int,
        ),
        line_is_aligned(
            layout,
            progress.state.line,
            progress.state.item_idx as int,
            progress.state.cluster_idx as int,
        ),
        progress.state.line.has_content,
    ensures
        ({
            let next = progress.with_line(layout, reason, max_advance, indent);
            &&& is_ready(layout, next)
            &&& advances_are_kept(layout, next.state)
            &&& next.state.line.clusters.start == progress.state.cluster_idx
            &&& progress.state.line.items.start <= next.state.line.items.start
            &&& next.state.line.items.start <= layout.items@.len()
            &&& boxes_steps(
                layout,
                progress.state.line.items.start as int,
                next.state.line.items.start as int,
            ) == boxes_steps(
                layout,
                progress.state.line.items.start as int,
                progress.state.item_idx as int,
            )
        }),
{
    let state = progress.state;
    let line = state.line;
    let item = state.item_idx as int;
    layout.lemma_clusters_before_bound(line.items.end as int);
    box_lines::lemma_in_place_after_line(layout, state, progress.items);
    coverage::lemma_aligned_after_line(layout, state, progress.items);
    let after = break_lines::after_line(layout, state, progress.items).line.items.start as int;
    lemma_no_boxes_take_no_space(layout, after, line.items.end as int);
    lengths::lemma_boxes_steps_adjacent(
        layout,
        line.items.start as int,
        after,
        line.items.end as int,
    );
}

/// The advance of a line of a number of characters is the sum of the advances of
/// the clusters on it that are no forced breaks, and of the widths of its atomic
/// boxes and inline edges, where no white space is removed. It is so of the
/// first line, and of every line after a line.
pub proof fn lemma_counted_line_has_its_advance(
    layout: LayoutData<Fixed>,
    progress: Progress<Fixed>,
    max_chars: u32,
)
    requires
        layout.wf(),
        lengths_fit(layout),
        has_whole_breaks(layout),
        keeps_white_space(layout),
        layout.items@.len() > 0,
        !progress.done,
        is_ready(layout, progress),
        counted_items(layout, progress, max_chars).len() < usize::MAX,
    ensures
        ({
            let next = progress.next_with_length(layout, max_chars);
            let first = progress.state.line.items.start as int;
            let last = if next.done {
                layout.items@.len() as int
            } else {
                next.state.line.items.start as int
            };
            &&& next.lines.drop_last() == progress.lines
            &&& next.lines.last().metrics.advance.steps == text_steps(
                layout,
                progress.state.line.clusters.start as int,
                next.state.line.clusters.start as int,
            ) + boxes_steps(layout, first, last)
            &&& !next.done ==> is_ready(layout, next)
        }),
{
    let limit: u32 = if max_chars == 0 {
        1
    } else {
        max_chars
    };
    let start = Count {
        state: progress.state,
        chars: 0,
        reason: BreakReason::Regular,
        full: false,
    };
    lemma_count_keeps_advance(layout, start, limit);
    coverage::lemma_aligned_count(layout, start, limit);
    box_lines::lemma_count_in_place(layout, start, limit);
    let filled = start.with_items(layout, progress.state.item_idx as int, limit);
    let begun = Progress { prev_state: Some(progress.state), ..progress };
    let indent = progress.indent(layout);
    let largest = Fixed { steps: i64::MAX };
    reveal(counted_items);
    if filled.full {
        let scanned = Progress { state: filled.state, ..begun };
        lemma_finished_advance(layout, scanned, filled.reason, largest, indent);
        lemma_new_line_is_ready(layout, scanned, filled.reason, largest, indent);
    } else {
        let ended = begun.at_end(filled.state);
        lemma_finished_advance(layout, ended, BreakReason::NoBreak, largest, indent);
    }
}

/// The advance of a line is the sum of the advances of the clusters on it that
/// are no forced breaks, and of the widths of its atomic boxes and inline edges,
/// where no white space is removed. It is so of the first line, and of every
/// line after a line.
pub proof fn lemma_line_has_its_advance(layout: LayoutData<Fixed>, progress: Progress<Fixed>)
    requires
        layout.wf(),
        layout.edges_hold_content(),
        lengths_fit(layout),
        has_whole_breaks(layout),
        keeps_white_space(layout),
        layout.items@.len() > 0,
        !progress.done,
        coverage::keeps_text(layout, progress.state),
        box_lines::boxes_are_in_place(layout, progress.state),
        advances_are_kept(layout, progress.state),
        coverage::committed_next(layout, progress).len() < usize::MAX,
    ensures
        ({
            let (next, yielded) = progress.next(layout);
            let first = progress.state.line.items.start as int;
            let last = if next.done {
                layout.items@.len() as int
            } else {
                next.state.line.items.start as int
            };
            &&& !next.done ==> {
                &&& coverage::keeps_text(layout, next.state)
                &&& box_lines::boxes_are_in_place(layout, next.state)
                &&& advances_are_kept(layout, next.state)
            }
            &&& yielded matches Some(YieldData::LineBreak(_)) ==> next.lines.drop_last()
                == progress.lines && next.lines.last().metrics.advance.steps == text_steps(
                layout,
                progress.state.line.clusters.start as int,
                next.state.line.clusters.start as int,
            ) + boxes_steps(layout, first, last)
        }),
{
    let available = progress.available(layout);
    let indent = progress.indent(layout);
    let step = scan::scan(layout, progress.state, progress.state.item_idx as int, available);
    coverage::lemma_lines_hold_all_text(layout, progress);
    box_lines::lemma_lines_hold_all_boxes(layout, progress);
    coverage::lemma_aligned_scan(layout, progress.state, available);
    box_lines::lemma_scan_in_place(layout, progress.state, available);
    lemma_scan_keeps_advance(layout, progress.state, available);
    let scanned = Progress { prev_state: Some(progress.state), state: step.state, ..progress };
    match step.flow {
        Flow::Continue => {
            let ended = scanned.at_end(step.state);
            lemma_finished_advance(layout, ended, BreakReason::NoBreak, available, indent);
        },
        Flow::Break(reason) => {
            lemma_finished_advance(layout, scanned, reason, available, indent);
            lemma_new_line_is_ready(layout, scanned, reason, available, indent);
        },
        _ => {},
    }
}

/// The first line starts with no advance, and nothing on it.
pub proof fn lemma_first_line_is_ready(layout: LayoutData<Fixed>)
    requires
        layout.wf(),
    ensures
        is_ready(layout, Progress::start(layout)),
        advances_are_kept(layout, Progress::start(layout).state),
{
    layout.lemma_clusters_before_monotone(0, 1);
}

} // verus!
