//! Every box of a paragraph is on one of its lines.

use crate::inline_box::{InlineBoundaryAffinity, InlineBoxKind};
use crate::layout::break_lines;
use crate::layout::break_lines::{Progress, YieldData};
use crate::layout::char_scan;
use crate::layout::char_scan::Count;
use crate::layout::commit;
use crate::layout::commit::Commit;
use crate::layout::coverage;
use crate::layout::data::{BreakReason, LayoutData, LayoutItemKind, LineItemData};
use crate::layout::finish_line;
use crate::layout::line_items;
use crate::layout::reorder;
use crate::layout::scan;
use crate::layout::scan::Flow;
use crate::layout::state::{BreakerState, LineState, PrevBoundaryState};
use crate::scalar::Scalar;
use vstd::prelude::*;

verus! {

impl<T: Scalar> LayoutData<T> {
    /// No box is atomic: all content is text.
    pub open spec fn has_no_atomic_boxes(self) -> bool {
        forall|item: int|
            0 <= item < self.items@.len() && !#[trigger] self.spec_is_text(item)
                ==> self.inline_boxes@[self.items@[item].index as int].kind
                != InlineBoxKind::InFlow
    }

    /// The boxes among the items `from..to`, in order.
    pub open spec fn boxes_between(self, from: int, to: int) -> Seq<usize>
        decreases to - from,
    {
        if from >= to {
            Seq::empty()
        } else if self.spec_is_text(to - 1) {
            self.boxes_between(from, to - 1)
        } else {
            self.boxes_between(from, to - 1).push(self.items@[to - 1].index)
        }
    }

    pub(crate) proof fn lemma_boxes_between_adjacent(self, from: int, at: int, to: int)
        requires
            from <= at <= to,
        ensures
            self.boxes_between(from, to) == self.boxes_between(from, at) + self.boxes_between(
                at,
                to,
            ),
        decreases to - at,
    {
        if at < to {
            self.lemma_boxes_between_adjacent(from, at, to - 1);
        }
        assert(self.boxes_between(from, to) =~= self.boxes_between(from, at) + self.boxes_between(
            at,
            to,
        ));
    }
}

/// The boxes among the line items `from..to`, in order.
pub open spec fn boxes_in<T: Scalar>(items: Seq<LineItemData<T>>, from: int, to: int) -> Seq<usize>
    decreases to - from,
{
    if from >= to {
        Seq::empty()
    } else if items[to - 1].spec_is_text_run() {
        boxes_in(items, from, to - 1)
    } else {
        boxes_in(items, from, to - 1).push(items[to - 1].index)
    }
}

proof fn lemma_boxes_in_same<T: Scalar>(
    a: Seq<LineItemData<T>>,
    b: Seq<LineItemData<T>>,
    from: int,
    to: int,
)
    requires
        forall|i: int|
            from <= i < to ==> (#[trigger] a[i]).kind == b[i].kind && a[i].index == b[i].index,
    ensures
        boxes_in(a, from, to) == boxes_in(b, from, to),
    decreases to - from,
{
    if from < to {
        lemma_boxes_in_same(a, b, from, to - 1);
        assert(a[to - 1].kind == b[to - 1].kind);
    }
}

/// The items of a line reach up to the next item, or include it where it is
/// text of which the line holds some.
pub open spec fn line_is_in_place<T: Scalar>(
    layout: LayoutData<T>,
    line: LineState<T>,
    item_idx: int,
    cluster_idx: int,
) -> bool {
    &&& 0 <= item_idx <= layout.items@.len()
    &&& layout.clusters_before(item_idx) <= cluster_idx
    &&& line.items.start <= item_idx
    &&& line.items.end == item_idx || {
        &&& line.items.end == item_idx + 1
        &&& item_idx < layout.items@.len()
        &&& layout.spec_is_text(item_idx)
        &&& line.items.start == item_idx || {
            &&& line.clusters.start < layout.clusters_before(item_idx + 1)
            &&& layout.clusters_before(item_idx) < cluster_idx
        }
    }
    &&& line.clusters.start <= cluster_idx
    &&& line.has_content ==> line.items.start < line.items.end
    &&& line.has_content && layout.has_no_atomic_boxes() ==> line.clusters.start
        < line.clusters.end
}

/// A remembered position is in place on its line.
pub open spec fn boundary_is_in_place<T: Scalar>(
    layout: LayoutData<T>,
    boundary: Option<PrevBoundaryState<T>>,
    state: BreakerState<T>,
) -> bool {
    boundary matches Some(boundary) ==> {
        &&& line_is_in_place(
            layout,
            boundary.state,
            boundary.item_idx as int,
            boundary.cluster_idx as int,
        )
        &&& boundary.cluster_idx <= state.cluster_idx
        &&& boundary.state.items.start == state.line.items.start
        &&& boundary.state.clusters.start == state.line.clusters.start
    }
}

/// Wherever the line is broken, no box before its end is left for the next
/// line.
pub open spec fn boxes_are_in_place<T: Scalar>(
    layout: LayoutData<T>,
    state: BreakerState<T>,
) -> bool {
    &&& line_is_in_place(layout, state.line, state.item_idx as int, state.cluster_idx as int)
    &&& boundary_is_in_place(layout, state.prev_boundary, state)
    &&& boundary_is_in_place(layout, state.emergency_boundary, state)
    &&& boundary_is_in_place(layout, state.pending_inline_start.before(), state)
    &&& state.prev_boundary matches Some(boundary) ==> boundary.state.has_content
    &&& state.emergency_boundary matches Some(boundary) ==> boundary.state.has_content
    &&& state.propagating_break_after ==> state.line.has_content
}

/// What a step keeps of it.
pub open spec fn step_is_in_place<T: Scalar>(
    layout: LayoutData<T>,
    start: usize,
    step: scan::Step<T>,
) -> bool {
    &&& step.state.line.items.start == start
    &&& if step.flow is Break {
        &&& line_is_in_place(
            layout,
            step.state.line,
            step.state.item_idx as int,
            step.state.cluster_idx as int,
        )
        &&& step.state.line.has_content
    } else {
        boxes_are_in_place(layout, step.state)
    }
}

proof fn lemma_text_in_place<T: Scalar>(
    layout: LayoutData<T>,
    state: BreakerState<T>,
    run: int,
    max_advance: T,
)
    requires
        layout.wf(),
        boxes_are_in_place(layout, state),
        state.item_idx < layout.items@.len(),
        layout.spec_is_text(state.item_idx as int),
        run == layout.items@[state.item_idx as int].index,
        state.cluster_idx < layout.shaped_text.runs@[run].clusters.end,
    ensures
        ({
            let info = scan::atom_info(layout, run, state.cluster_idx as int);
            let step = scan::text_step(layout, state, info, max_advance);
            &&& step_is_in_place(layout, state.line.items.start, step)
            &&& step.flow !is InlineBoxBreak
            &&& step.flow is Continue ==> step.state.item_idx == state.item_idx
                && step.state.cluster_idx == layout.shaped_text.atom_end(
                state.cluster_idx as int,
                layout.shaped_text.runs@[run].clusters.end as int,
            )
        }),
{
    coverage::lemma_run_bounds(layout, state.item_idx as int);
    layout.shaped_text.lemma_atom_end(
        state.cluster_idx as int,
        layout.shaped_text.runs@[run].clusters.end as int,
    );
}

proof fn lemma_run_in_place<T: Scalar>(
    layout: LayoutData<T>,
    state: BreakerState<T>,
    run: int,
    max_advance: T,
)
    requires
        layout.wf(),
        boxes_are_in_place(layout, state),
        state.item_idx < layout.items@.len(),
        layout.spec_is_text(state.item_idx as int),
        run == layout.items@[state.item_idx as int].index,
    ensures
        ({
            let cursor = state.cluster_idx as int;
            let step = scan::scan_run(layout, state, run, cursor, max_advance);
            &&& step_is_in_place(layout, state.line.items.start, step)
            &&& step.flow !is InlineBoxBreak
            &&& step.flow is Continue ==> step.state.item_idx == state.item_idx
                && step.state.cluster_idx >= layout.shaped_text.runs@[run].clusters.end
                && (cursor < layout.shaped_text.runs@[run].clusters.end ==>
                step.state.line.items.end == state.item_idx + 1)
                && (cursor >= layout.shaped_text.runs@[run].clusters.end ==> step.state == state)
        }),
    decreases layout.shaped_text.runs@[run].clusters.end - state.cluster_idx,
{
    let bound = layout.shaped_text.runs@[run].clusters.end as int;
    let cursor = state.cluster_idx as int;
    if cursor < bound {
        lemma_text_in_place(layout, state, run, max_advance);
        let step = scan::text_step(
            layout,
            state,
            scan::atom_info(layout, run, cursor),
            max_advance,
        );
        if step.flow is Continue {
            layout.shaped_text.lemma_atom_end(cursor, bound);
            lemma_run_in_place(layout, step.state, run, max_advance);
        }
    }
}

/// A box that is put on the line is on that line.
proof fn lemma_appended_box_in_place<T: Scalar>(
    layout: LayoutData<T>,
    state: BreakerState<T>,
    next_x: T,
    ascent: T,
    descent: T,
)
    requires
        boxes_are_in_place(layout, state),
        state.item_idx < layout.items@.len() < usize::MAX,
        !layout.spec_is_text(state.item_idx as int),
    ensures
        ({
            let item = state.item_idx as int;
            let appended = state.after_inline_box(next_x, ascent, descent, layout.quantize);
            let after = scan::with_style_after(layout, appended, item);
            &&& boxes_are_in_place(layout, appended)
            &&& boxes_are_in_place(layout, after)
            &&& after.item_idx == item + 1
            &&& after.line.items.start == state.line.items.start < after.line.items.end
        }),
{
}

/// A step over an atomic box keeps boxes in place.
proof fn lemma_in_flow_in_place<T: Scalar>(
    layout: LayoutData<T>,
    state: BreakerState<T>,
    max_advance: T,
)
    requires
        layout.wf(),
        boxes_are_in_place(layout, state),
        state.item_idx < layout.items@.len(),
        !layout.spec_is_text(state.item_idx as int),
        layout.inline_boxes@[layout.items@[state.item_idx as int].index as int].kind
            == InlineBoxKind::InFlow,
    ensures
        ({
            let step = scan::box_step(layout, state, state.item_idx as int, max_advance);
            &&& step_is_in_place(layout, state.line.items.start, step)
            &&& step.flow is Continue ==> step.state.item_idx == state.item_idx + 1
            &&& step.flow !is InlineBoxBreak
        }),
{
    let item = state.item_idx as int;
    let inline_box = layout.inline_boxes@[layout.items@[item].index as int];
    assert(!layout.has_no_atomic_boxes());
    let entered = if scan::can_break_before_box(state) {
        BreakerState {
            pending_inline_start: InlineBoundaryAffinity::nothing(),
            ..state
        }
    } else {
        state
    };
    lemma_appended_box_in_place(
        layout,
        entered,
        entered.line.x.spec_plus(inline_box.width),
        inline_box.spec_ascent(),
        inline_box.height.spec_minus(inline_box.spec_ascent()),
    );
}

proof fn lemma_box_in_place<T: Scalar>(
    layout: LayoutData<T>,
    state: BreakerState<T>,
    max_advance: T,
)
    requires
        layout.wf(),
        boxes_are_in_place(layout, state),
        state.item_idx < layout.items@.len(),
        !layout.spec_is_text(state.item_idx as int),
    ensures
        ({
            let step = scan::box_step(layout, state, state.item_idx as int, max_advance);
            &&& step_is_in_place(layout, state.line.items.start, step)
            &&& step.flow is Continue ==> step.state.item_idx == state.item_idx + 1
            &&& step.flow is InlineBoxBreak ==> step.state.item_idx == state.item_idx
        }),
{
    let item = state.item_idx as int;
    let zero = T::spec_zero();
    let inline_box = layout.inline_boxes@[layout.items@[item].index as int];
    let next_x = state.line.x.spec_plus(inline_box.width);
    match inline_box.kind {
        InlineBoxKind::InFlow => {
            lemma_in_flow_in_place(layout, state, max_advance);
        },
        InlineBoxKind::StartBoundary => {
            let opened = state.with_inline_start();
            assert(boxes_are_in_place(layout, opened));
            lemma_appended_box_in_place(layout, opened, next_x, zero, zero);
        },
        InlineBoxKind::EndBoundary => {
            lemma_appended_box_in_place(layout, state, next_x, zero, zero);
        },
        _ => {
            lemma_appended_box_in_place(layout, state, state.line.x, zero, zero);
        },
    }
}

pub(crate) proof fn lemma_scan_in_place<T: Scalar>(
    layout: LayoutData<T>,
    state: BreakerState<T>,
    max_advance: T,
)
    requires
        layout.wf(),
        layout.edges_hold_content(),
        coverage::keeps_text(layout, state),
        boxes_are_in_place(layout, state),
    ensures
        ({
            let step = scan::scan(layout, state, state.item_idx as int, max_advance);
            &&& step_is_in_place(layout, state.line.items.start, step)
            &&& step.flow is Continue ==> step.state.item_idx == layout.items@.len()
            &&& step.flow is InlineBoxBreak ==> step.state.item_idx < layout.items@.len()
                && !layout.spec_is_text(step.state.item_idx as int)
        }),
    decreases layout.items@.len() - state.item_idx,
{
    let item = state.item_idx as int;
    if item < layout.items@.len() {
        if layout.spec_is_text(item) {
            let run = layout.items@[item].index as int;
            coverage::lemma_run_bounds(layout, item);
            coverage::lemma_aligned_run(layout, state, run, max_advance);
            lemma_run_in_place(layout, state, run, max_advance);
            let step = scan::scan_run(
                layout,
                state,
                run,
                state.cluster_idx as int,
                max_advance,
            );
            if step.flow is Continue {
                lemma_scan_in_place(layout, scan::after_run(step.state), max_advance);
            }
        } else {
            coverage::lemma_aligned_box(layout, state, max_advance);
            lemma_box_in_place(layout, state, max_advance);
            let step = scan::box_step(layout, state, item, max_advance);
            if step.flow is Continue {
                lemma_scan_in_place(layout, step.state, max_advance);
            }
        }
    }
}

proof fn lemma_boxes_in_extended<T: Scalar>(
    items: Seq<LineItemData<T>>,
    item: LineItemData<T>,
    from: int,
    to: int,
)
    requires
        0 <= from,
        to <= items.len(),
    ensures
        boxes_in(items.push(item), from, to) == boxes_in(items, from, to),
{
    lemma_boxes_in_same(items.push(item), items, from, to);
}

/// A commit holds the boxes of the line, in order.
proof fn lemma_commit_holds_boxes<T: Scalar>(
    layout: LayoutData<T>,
    line: LineState<T>,
    item: int,
    so_far: Commit<T>,
    from: int,
)
    requires
        line.items.start <= item <= line.items.end,
        0 <= from <= so_far.items.len(),
        boxes_in(so_far.items, from, so_far.items.len() as int) == layout.boxes_between(
            line.items.start as int,
            item,
        ),
        so_far.last == LayoutItemKind::TextRun && line.items.start < item ==> layout.spec_is_text(
            item - 1,
        ),
    ensures
        ({
            let after = commit::commit_items(layout, line, item, so_far);
            &&& from <= after.items.len()
            &&& boxes_in(after.items, from, after.items.len() as int) == layout.boxes_between(
                line.items.start as int,
                line.items.end as int,
            )
            &&& after.last == LayoutItemKind::TextRun && line.items.start < line.items.end
                ==> layout.spec_is_text(line.items.end - 1)
        }),
    decreases line.items.end - item,
{
    if item < line.items.end {
        if !layout.spec_is_text(item) {
            let next = Commit {
                items: so_far.items.push(layout.committed_box(item)),
                last: LayoutItemKind::InlineBox,
                ..so_far
            };
            lemma_boxes_in_extended(
                so_far.items,
                layout.committed_box(item),
                from,
                so_far.items.len() as int,
            );
            lemma_commit_holds_boxes(layout, line, item + 1, next, from);
        } else if layout.nothing_left(line, item) {
            lemma_commit_holds_boxes(layout, line, item + 1, so_far, from);
        } else {
            let pushed = layout.committed_text(line, item, so_far.items);
            let next = Commit {
                items: so_far.items.push(pushed),
                last: LayoutItemKind::TextRun,
                text: true,
            };
            lemma_boxes_in_extended(so_far.items, pushed, from, so_far.items.len() as int);
            lemma_commit_holds_boxes(layout, line, item + 1, next, from);
        }
    }
}

pub(crate) proof fn lemma_line_holds_its_boxes<T: Scalar>(
    layout: LayoutData<T>,
    line: LineState<T>,
    items: Seq<LineItemData<T>>,
)
    requires
        line.items.start <= line.items.end <= layout.items@.len(),
    ensures
        ({
            let commit = commit::commit_of_line(layout, line, items);
            &&& items.len() <= commit.items.len()
            &&& boxes_in(commit.items, items.len() as int, commit.items.len() as int)
                == layout.boxes_between(line.items.start as int, line.items.end as int)
            &&& commit.last == LayoutItemKind::TextRun && line.items.start < line.items.end
                ==> layout.spec_is_text(line.items.end - 1)
        }),
{
    lemma_commit_holds_boxes(
        layout,
        commit::clamped(layout, line),
        line.items.start as int,
        Commit { items, last: LayoutItemKind::TextRun, text: false },
        items.len() as int,
    );
}

/// The last item of a line that ends in text is committed as text.
proof fn lemma_last_text_is_committed<T: Scalar>(
    layout: LayoutData<T>,
    line: LineState<T>,
    item: int,
    so_far: Commit<T>,
)
    requires
        line.items.start <= item < line.items.end,
        layout.spec_is_text(line.items.end - 1),
        !layout.nothing_left(line, line.items.end - 1),
    ensures
        commit::commit_items(layout, line, item, so_far).last == LayoutItemKind::TextRun,
    decreases line.items.end - item,
{
    reveal_with_fuel(commit::commit_items, 2);
    if item + 1 < line.items.end {
        if !layout.spec_is_text(item) {
            let next = Commit {
                items: so_far.items.push(layout.committed_box(item)),
                last: LayoutItemKind::InlineBox,
                ..so_far
            };
            lemma_last_text_is_committed(layout, line, item + 1, next);
        } else if layout.nothing_left(line, item) {
            lemma_last_text_is_committed(layout, line, item + 1, so_far);
        } else {
            let next = Commit {
                items: so_far.items.push(layout.committed_text(line, item, so_far.items)),
                last: LayoutItemKind::TextRun,
                text: true,
            };
            lemma_last_text_is_committed(layout, line, item + 1, next);
        }
    }
}

pub(crate) proof fn lemma_in_place_after_line<T: Scalar>(
    layout: LayoutData<T>,
    state: BreakerState<T>,
    items: Seq<LineItemData<T>>,
)
    requires
        layout.wf(),
        line_is_in_place(layout, state.line, state.item_idx as int, state.cluster_idx as int),
        state.line.items.start < state.line.items.end,
        state.line.clusters.end <= layout.shaped_text.clusters@.len(),
    ensures
        ({
            let after = break_lines::after_line(layout, state, items);
            let next = BreakerState { line: after.line.spec_reset(), ..after };
            &&& boxes_are_in_place(layout, next)
            &&& state.line.items.start <= after.line.items.start <= state.line.items.end
            &&& layout.boxes_between(after.line.items.start as int, state.line.items.end as int)
                == Seq::<usize>::empty()
        }),
{
    let line = state.line;
    lemma_line_holds_its_boxes(layout, line, items);
    reveal_with_fuel(LayoutData::boxes_between, 2);
    reveal_with_fuel(commit::commit_items, 2);
    assert(commit::clamped(layout, line) == line);
    if line.items.end == state.item_idx + 1 {
        let last = state.item_idx as int;
        coverage::lemma_run_bounds(layout, last);
        if line.items.start < last {
            assert(!layout.nothing_left(line, last));
        }
        if !layout.nothing_left(line, last) {
            lemma_last_text_is_committed(
                layout,
                line,
                line.items.start as int,
                Commit { items, last: LayoutItemKind::TextRun, text: false },
            );
        }
    }
}

/// Every line holds the boxes from where the line before it ended, in order, up
/// to where the next line starts, and the last line holds the rest. It is so of
/// the first line, and of every line after a line.
///
/// As with text, white space that hangs or is removed must not start the text
/// after an opening edge.
pub proof fn lemma_lines_hold_all_boxes<T: Scalar>(layout: LayoutData<T>, progress: Progress<T>)
    requires
        layout.wf(),
        layout.edges_hold_content(),
        !progress.done,
        coverage::keeps_text(layout, progress.state),
        boxes_are_in_place(layout, progress.state),
    ensures
        ({
            let (next, yielded) = progress.next(layout);
            let items = coverage::committed_next(layout, progress);
            let start = progress.state.line.items.start as int;
            let end = if next.done {
                layout.items@.len() as int
            } else {
                next.state.line.items.start as int
            };
            &&& !next.done ==> boxes_are_in_place(layout, next.state)
            &&& start <= end <= layout.items@.len()
            &&& yielded matches Some(YieldData::LineBreak(_)) ==> boxes_in(
                items,
                progress.items.len() as int,
                items.len() as int,
            ) == layout.boxes_between(start, end)
            &&& !(yielded matches Some(YieldData::LineBreak(_))) ==> start == end
            &&& yielded matches Some(YieldData::InlineBoxBreak(_)) ==> next.state.item_idx
                < layout.items@.len() && !layout.spec_is_text(next.state.item_idx as int)
        }),
{
    let available = progress.available(layout);
    let step = scan::scan(layout, progress.state, progress.state.item_idx as int, available);
    coverage::lemma_aligned_scan(layout, progress.state, available);
    lemma_scan_in_place(layout, progress.state, available);
    let line = step.state.line;
    match step.flow {
        Flow::Continue => {
            let last = progress.at_end(step.state).state.line;
            if layout.items@.len() == 0 {
                assert(commit::clamped(layout, last) == commit::clamped(layout, line));
            }
            lemma_line_holds_its_boxes(layout, line, progress.items);
        },
        Flow::Break(_) => {
            layout.lemma_clusters_before_bound(line.items.end as int);
            lemma_line_holds_its_boxes(layout, line, progress.items);
            lemma_in_place_after_line(layout, step.state, progress.items);
            let start = break_lines::after_line(
                layout,
                step.state,
                progress.items,
            ).line.items.start;
            layout.lemma_boxes_between_adjacent(
                line.items.start as int,
                start as int,
                line.items.end as int,
            );
            assert(layout.boxes_between(line.items.start as int, line.items.end as int)
                =~= layout.boxes_between(line.items.start as int, start as int));
        },
        _ => {},
    }
}

/// The first line starts before all boxes.
pub proof fn lemma_first_line_starts_the_boxes<T: Scalar>(layout: LayoutData<T>)
    ensures
        boxes_are_in_place(layout, Progress::start(layout).state),
        Progress::start(layout).state.line.items.start == 0,
{
}

/// A box that a caller puts on the line in place of the breaker is on that
/// line.
pub proof fn lemma_placed_box_is_in_place<T: Scalar>(
    layout: LayoutData<T>,
    state: BreakerState<T>,
    next_x: T,
    ascent: T,
    descent: T,
)
    requires
        layout.wf(),
        boxes_are_in_place(layout, state),
        state.item_idx < layout.items@.len(),
        !layout.spec_is_text(state.item_idx as int),
    ensures
        boxes_are_in_place(
            layout,
            state.after_inline_box(next_x, ascent, descent, layout.quantize),
        ),
{
    lemma_appended_box_in_place(layout, state, next_x, ascent, descent);
}

/// The boxes on the lines that a number of steps break, in order.
pub open spec fn boxes_after<T: Scalar>(
    layout: LayoutData<T>,
    progress: Progress<T>,
    steps: nat,
) -> Seq<usize>
    decreases steps,
{
    if steps == 0 {
        Seq::empty()
    } else {
        let before = progress.after_steps(layout, (steps - 1) as nat);
        let boxes = boxes_after(layout, progress, (steps - 1) as nat);
        if before.next(layout).1 matches Some(YieldData::LineBreak(_)) {
            let items = coverage::committed_next(layout, before);
            boxes + boxes_in(items, before.items.len() as int, items.len() as int)
        } else {
            boxes
        }
    }
}

/// Every box is on one line: the lines that are broken so far hold the boxes up
/// to where the next line starts, each once and in order, and all boxes once
/// the paragraph is done.
pub proof fn lemma_every_box_is_on_one_line<T: Scalar>(
    layout: LayoutData<T>,
    max_advance: T,
    steps: nat,
)
    requires
        layout.wf(),
        layout.edges_hold_content(),
    ensures
        ({
            let start = Progress::start(layout).with_limit(max_advance);
            let last = start.after_steps(layout, steps);
            boxes_after(layout, start, steps) == layout.boxes_between(
                0,
                if last.done {
                    layout.items@.len() as int
                } else {
                    last.state.line.items.start as int
                },
            )
        }),
{
    lemma_boxes_after(layout, max_advance, steps);
}

/// Up to which item the boxes are on lines.
spec fn placed_up_to<T: Scalar>(layout: LayoutData<T>, progress: Progress<T>) -> int {
    if progress.done {
        layout.items@.len() as int
    } else {
        progress.state.line.items.start as int
    }
}

spec fn is_in_place<T: Scalar>(layout: LayoutData<T>, progress: Progress<T>) -> bool {
    !progress.done ==> coverage::keeps_text(layout, progress.state) && boxes_are_in_place(
        layout,
        progress.state,
    )
}

/// The boxes on the line that is broken next, if one is.
spec fn next_boxes<T: Scalar>(layout: LayoutData<T>, progress: Progress<T>) -> Seq<usize> {
    if progress.next(layout).1 matches Some(YieldData::LineBreak(_)) {
        let items = coverage::committed_next(layout, progress);
        boxes_in(items, progress.items.len() as int, items.len() as int)
    } else {
        Seq::empty()
    }
}

proof fn lemma_next_boxes<T: Scalar>(layout: LayoutData<T>, progress: Progress<T>)
    requires
        layout.wf(),
        layout.edges_hold_content(),
        is_in_place(layout, progress),
        !progress.done,
    ensures
        is_in_place(layout, progress.advanced(layout)),
        placed_up_to(layout, progress) <= placed_up_to(layout, progress.advanced(layout)),
        next_boxes(layout, progress) == layout.boxes_between(
            placed_up_to(layout, progress),
            placed_up_to(layout, progress.advanced(layout)),
        ),
        progress.is_stuck(layout) ==> next_boxes(layout, progress) == Seq::<usize>::empty(),
{
    let (next, yielded) = progress.next(layout);
    coverage::lemma_lines_hold_all_text(layout, progress);
    lemma_lines_hold_all_boxes(layout, progress);
    reveal(Progress::is_stuck);
    assert(progress.advanced(layout) == next || (yielded is Some
        && yielded->0 is InlineBoxBreak)) by {
        reveal(Progress::advanced);
    }
    if let Some(YieldData::InlineBoxBreak(_)) = yielded {
        let zero = T::spec_zero();
        let x = next.state.line.x;
        coverage::lemma_placed_box_keeps_text(layout, next.state, x, zero, zero);
        lemma_placed_box_is_in_place(layout, next.state, x, zero, zero);
        reveal(Progress::advanced);
    }
}

proof fn lemma_boxes_after<T: Scalar>(layout: LayoutData<T>, max_advance: T, steps: nat)
    requires
        layout.wf(),
        layout.edges_hold_content(),
    ensures
        ({
            let start = Progress::start(layout).with_limit(max_advance);
            let last = start.after_steps(layout, steps);
            &&& boxes_after(layout, start, steps) == layout.boxes_between(
                0,
                placed_up_to(layout, last),
            )
            &&& 0 <= placed_up_to(layout, last)
            &&& is_in_place(layout, last)
        }),
    decreases steps,
{
    let start = Progress::start(layout).with_limit(max_advance);
    if steps == 0 {
        coverage::lemma_first_line_starts_the_text(layout);
        assert(layout.boxes_between(0, 0) =~= Seq::empty());
    } else {
        let before = start.after_steps(layout, (steps - 1) as nat);
        lemma_boxes_after(layout, max_advance, (steps - 1) as nat);
        assert(boxes_after(layout, start, steps) =~= boxes_after(
            layout,
            start,
            (steps - 1) as nat,
        ) + next_boxes(layout, before));
        if before.done {
            reveal(Progress::is_stuck);
        } else {
            lemma_next_boxes(layout, before);
            if !before.is_stuck(layout) {
                layout.lemma_boxes_between_adjacent(
                    0,
                    placed_up_to(layout, before),
                    placed_up_to(layout, before.advanced(layout)),
                );
            }
        }
    }
}

// ---------------------------------------------------------------------------
// Putting a line's items in order.

proof fn lemma_boxes_in_after_insert<T: Scalar>(
    items: Seq<LineItemData<T>>,
    item: LineItemData<T>,
    at: int,
    from: int,
    to: int,
)
    requires
        0 <= from <= at <= to <= items.len(),
        item.spec_is_text_run(),
    ensures
        boxes_in(items.insert(at, item), from, to + 1) == boxes_in(items, from, to),
    decreases to - at,
{
    let inserted = items.insert(at, item);
    if at < to {
        lemma_boxes_in_after_insert(items, item, at, from, to - 1);
        assert(inserted[to] == items[to - 1]);
    } else {
        assert(inserted[at] == item);
        lemma_boxes_in_same(inserted, items, from, at);
    }
}

proof fn lemma_reset_holds_boxes<T: Scalar>(
    layout: LayoutData<T>,
    items: Seq<LineItemData<T>>,
    from: int,
    at: int,
    to: int,
)
    requires
        0 <= from <= at <= to <= items.len(),
    ensures
        ({
            let reset = line_items::reset_levels(layout, items, from, at, to);
            &&& from <= reset.to <= reset.items.len()
            &&& boxes_in(reset.items, from, reset.to) == boxes_in(items, from, to)
        }),
    decreases at - from,
{
    if at > from {
        let item = items[at - 1];
        let clusters = item.shaped_cluster_range;
        let split = layout.shaped_text.whitespace_start(
            clusters.start as int,
            clusters.end as int,
        );
        if !item.spec_is_text_run() {
            lemma_reset_holds_boxes(layout, items, from, at - 1, to);
        } else if split == clusters.end {
        } else if split == clusters.start {
            let reset = LineItemData { bidi_level: layout.base_level, ..item };
            let updated = items.update(at - 1, reset);
            lemma_boxes_in_same(updated, items, from, to);
            lemma_reset_holds_boxes(layout, updated, from, at - 1, to);
        } else {
            let updated = items.update(at - 1, line_items::head_of(layout, item, split));
            lemma_boxes_in_same(updated, items, from, to);
            lemma_boxes_in_after_insert(
                updated,
                line_items::tail_of(layout, item, split),
                at,
                from,
                to,
            );
        }
    }
}

/// A line's items in visual order are those that hold the line's boxes, in
/// another order.
pub proof fn lemma_ordering_keeps_boxes<T: Scalar>(
    layout: LayoutData<T>,
    items: Seq<LineItemData<T>>,
    from: int,
)
    requires
        0 <= from <= items.len(),
    ensures
        ({
            let to = items.len() as int;
            let measured = line_items::measured(layout, items, from, to);
            let reset = line_items::reset_levels(layout, measured, from, to, to);
            let (ordered, ordered_to) = finish_line::ordered_items(layout, items, from, to);
            &&& boxes_in(reset.items, from, reset.to) == boxes_in(items, from, to)
            &&& ordered_to == reset.to
            &&& reorder::same_items(ordered, reset.items, from, ordered_to)
        }),
{
    let to = items.len() as int;
    let measured = line_items::measured(layout, items, from, to);
    lemma_boxes_in_same(measured, items, from, to);
    lemma_reset_holds_boxes(layout, measured, from, to, to);
    let reset = line_items::reset_levels(layout, measured, from, to, to);
    reorder::lemma_reordered_same_items(reset.items, from, reset.to);
}

// ---------------------------------------------------------------------------
// Lines of a number of characters.

/// The line that is filled has its boxes in place, and content once characters
/// have been counted.
pub open spec fn count_is_in_place<T: Scalar>(layout: LayoutData<T>, count: Count<T>) -> bool {
    let state = count.state;
    &&& line_is_in_place(layout, state.line, state.item_idx as int, state.cluster_idx as int)
    &&& coverage::line_is_aligned(
        layout,
        state.line,
        state.item_idx as int,
        state.cluster_idx as int,
    )
    &&& count.chars > 0 ==> state.line.has_content
}

proof fn lemma_count_of_run_in_place<T: Scalar>(
    layout: LayoutData<T>,
    count: Count<T>,
    run: int,
    limit: u32,
)
    requires
        layout.wf(),
        count_is_in_place(layout, count),
        count.state.item_idx < layout.items@.len(),
        layout.spec_is_text(count.state.item_idx as int),
        run == layout.items@[count.state.item_idx as int].index,
        limit > 0,
        !count.full,
    ensures
        ({
            let after = count.with_run(layout, run, count.state.cluster_idx as int, limit);
            &&& count_is_in_place(layout, after)
            &&& after.full ==> after.state.line.has_content
            &&& after.state.line.items.start == count.state.line.items.start
            &&& after.state.item_idx == count.state.item_idx
            &&& !after.full ==> after.state.line.items.end == count.state.item_idx + 1
        }),
    decreases layout.shaped_text.runs@[run].clusters.end - count.state.cluster_idx,
{
    let item = count.state.item_idx as int;
    let cursor = count.state.cluster_idx as int;
    coverage::lemma_run_bounds(layout, item);
    coverage::lemma_aligned_count_of_run(layout, count, run, limit);
    let bound = layout.shaped_text.runs@[run].clusters.end as int;
    if cursor < bound && count.chars < limit {
        layout.shaped_text.lemma_atom_end(cursor, bound);
        let next = count.with_atom(layout, scan::atom_info(layout, run, cursor));
        lemma_count_of_run_in_place(layout, next, run, limit);
    }
}

pub(crate) proof fn lemma_count_in_place<T: Scalar>(
    layout: LayoutData<T>,
    count: Count<T>,
    limit: u32,
)
    requires
        layout.wf(),
        count_is_in_place(layout, count),
        limit > 0,
        !count.full,
    ensures
        ({
            let after = count.with_items(layout, count.state.item_idx as int, limit);
            &&& count_is_in_place(layout, after)
            &&& after.full ==> after.state.line.has_content
            &&& after.state.line.items.start == count.state.line.items.start
            &&& !after.full ==> after.state.item_idx == layout.items@.len()
        }),
    decreases layout.items@.len() - count.state.item_idx,
{
    let item = count.state.item_idx as int;
    if item < layout.items@.len() {
        assert(layout.item_wf(item));
        if count.chars >= limit && !char_scan::can_follow(layout, item) {
        } else if layout.spec_is_text(item) {
            let run = layout.items@[item].index as int;
            coverage::lemma_run_bounds(layout, item);
            coverage::lemma_aligned_count_of_run(layout, count, run, limit);
            lemma_count_of_run_in_place(layout, count, run, limit);
            let filled = count.with_run(layout, run, count.state.cluster_idx as int, limit);
            if !filled.full {
                lemma_count_in_place(
                    layout,
                    Count { state: scan::after_run(filled.state), ..filled },
                    limit,
                );
            }
        } else {
            let end = count.state.line.items.end as int;
            layout.lemma_clusters_before_monotone(end, end + 1);
            lemma_count_in_place(layout, count.with_box(layout, item), limit);
        }
    }
}

/// Lines of a number of characters hold all boxes, in any paragraph: each holds
/// those from where the line before it ended, in order, and the last one holds
/// the rest. It is so of the first line, and of every line after a line.
pub proof fn lemma_counted_lines_hold_all_boxes<T: Scalar>(
    layout: LayoutData<T>,
    progress: Progress<T>,
    max_chars: u32,
)
    requires
        layout.wf(),
        !progress.done,
        coverage::line_is_aligned(
            layout,
            progress.state.line,
            progress.state.item_idx as int,
            progress.state.cluster_idx as int,
        ),
        line_is_in_place(
            layout,
            progress.state.line,
            progress.state.item_idx as int,
            progress.state.cluster_idx as int,
        ),
    ensures
        ({
            let next = progress.next_with_length(layout, max_chars);
            let limit: u32 = if max_chars == 0 {
                1
            } else {
                max_chars
            };
            let filled = Count {
                state: progress.state,
                chars: 0,
                reason: BreakReason::Regular,
                full: false,
            }.with_items(layout, progress.state.item_idx as int, limit);
            let line = if filled.full {
                filled.state.line
            } else {
                progress.at_end(filled.state).state.line
            };
            let items = commit::commit_of_line(layout, line, progress.items).items;
            &&& next.done == !filled.full
            &&& !next.done ==> line_is_in_place(
                layout,
                next.state.line,
                next.state.item_idx as int,
                next.state.cluster_idx as int,
            )
            &&& boxes_in(items, progress.items.len() as int, items.len() as int)
                == layout.boxes_between(
                progress.state.line.items.start as int,
                if next.done {
                    layout.items@.len() as int
                } else {
                    next.state.line.items.start as int
                },
            )
        }),
{
    let limit: u32 = if max_chars == 0 {
        1
    } else {
        max_chars
    };
    let start = Count {
        state: progress.state,
        chars: 0,
        reason: BreakReason::Regular,
        full: false,
    };
    lemma_count_in_place(layout, start, limit);
    let filled = start.with_items(layout, progress.state.item_idx as int, limit);
    let line = filled.state.line;
    if filled.full {
        layout.lemma_clusters_before_bound(line.items.end as int);
        lemma_line_holds_its_boxes(layout, line, progress.items);
        lemma_in_place_after_line(layout, filled.state, progress.items);
        let next = break_lines::after_line(layout, filled.state, progress.items).line.items.start;
        layout.lemma_boxes_between_adjacent(
            line.items.start as int,
            next as int,
            line.items.end as int,
        );
        assert(layout.boxes_between(line.items.start as int, line.items.end as int)
            =~= layout.boxes_between(line.items.start as int, next as int));
    } else {
        let last = progress.at_end(filled.state).state.line;
        if layout.items@.len() == 0 {
            assert(commit::clamped(layout, last) == commit::clamped(layout, line));
        }
        lemma_line_holds_its_boxes(layout, line, progress.items);
    }
}

} // verus!
