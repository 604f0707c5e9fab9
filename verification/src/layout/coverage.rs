//! The lines of a paragraph hold its text without gap or overlap.
//!
//! The exception is white space after an opening edge that hangs or is removed.
//! Where the edge moves to the next line with the content after it, the white
//! space between the two is on neither line.

use crate::inline_box::InlineBoxKind;
use crate::layout::break_lines::{Progress, YieldData};
use crate::layout::char_scan;
use crate::layout::char_scan::Count;
use crate::layout::commit;
use crate::layout::commit::Commit;
use crate::layout::data::{BreakReason, LayoutData, LayoutItemKind, LineItemData};
use crate::layout::finish_line;
use crate::layout::line_items;
use crate::layout::reorder;
use crate::layout::scan;
use crate::layout::scan::Flow;
use crate::layout::state::{BreakerState, LineState, PrevBoundaryState};
use crate::scalar::Scalar;
use vstd::prelude::*;

verus! {

impl<T: Scalar> LayoutData<T> {
    pub open spec fn is_opening_edge(self, item: int) -> bool {
        &&& !self.spec_is_text(item)
        &&& self.inline_boxes@[self.items@[item].index as int].kind == InlineBoxKind::StartBoundary
    }

    /// The text of an item starts with white space that hangs or is removed at
    /// the end of a line.
    pub open spec fn starts_with_hanging_space(self, item: int) -> bool {
        let run = self.items@[item].index as int;
        scan::atom_info(
            self,
            run,
            self.shaped_text.runs@[run].clusters.start as int,
        ).hangs_or_is_removed()
    }

    /// Text after an opening edge does not start with white space that hangs or
    /// is removed.
    pub open spec fn edges_hold_content(self) -> bool {
        forall|edge: int, item: int|
            0 <= edge < item < self.items@.len() && #[trigger] self.is_opening_edge(edge)
                && self.no_text(edge, item) && #[trigger] self.spec_is_text(item)
                ==> !self.starts_with_hanging_space(item)
    }
}

/// The text of the items `from..to` follows on from the cluster `at`, one item
/// after the other, up to the cluster `end`.
pub open spec fn text_follows<T: Scalar>(
    items: Seq<LineItemData<T>>,
    from: int,
    to: int,
    at: int,
    end: int,
) -> bool
    decreases to - from,
{
    if from >= to {
        at == end
    } else if items[from].spec_is_text_run() {
        &&& items[from].shaped_cluster_range.start == at
        &&& text_follows(
            items,
            from + 1,
            to,
            items[from].shaped_cluster_range.end as int,
            end,
        )
    } else {
        text_follows(items, from + 1, to, at, end)
    }
}

/// The ranges of a line fit the position up to which items and clusters have
/// been consumed, with nothing left out between them.
pub open spec fn line_is_aligned<T: Scalar>(
    layout: LayoutData<T>,
    line: LineState<T>,
    item_idx: int,
    cluster_idx: int,
) -> bool {
    &&& 0 <= item_idx <= layout.items@.len()
    &&& layout.clusters_before(item_idx) <= cluster_idx
    &&& line.clusters.start <= line.clusters.end == cluster_idx
    &&& line.items.start <= line.items.end <= item_idx + 1
    &&& line.items.start <= layout.items@.len()
    &&& cluster_idx <= layout.clusters_before(line.items.end as int)
    &&& line.items.end > 0 ==> layout.clusters_before(line.items.end - 1) <= cluster_idx
    &&& layout.clusters_before(line.items.start as int) <= line.clusters.start
    &&& line.clusters.start <= layout.clusters_before(line.items.start + 1)
    &&& (item_idx >= layout.items@.len() || !layout.spec_is_text(item_idx)) ==> line.items.end
        <= item_idx
}

/// A remembered position of a line that starts at the cluster `start` is one at
/// which the line can be broken.
pub open spec fn boundary_is_aligned<T: Scalar>(
    layout: LayoutData<T>,
    boundary: Option<PrevBoundaryState<T>>,
    start: usize,
) -> bool {
    boundary matches Some(boundary) ==> {
        &&& line_is_aligned(
            layout,
            boundary.state,
            boundary.item_idx as int,
            boundary.cluster_idx as int,
        )
        &&& boundary.state.clusters.start == start
    }
}

/// Wherever the line is broken, its text ends where the next line's starts.
pub open spec fn is_aligned<T: Scalar>(layout: LayoutData<T>, state: BreakerState<T>) -> bool {
    &&& line_is_aligned(layout, state.line, state.item_idx as int, state.cluster_idx as int)
    &&& boundary_is_aligned(layout, state.prev_boundary, state.line.clusters.start)
    &&& boundary_is_aligned(layout, state.emergency_boundary, state.line.clusters.start)
}

/// Nothing but boxes has followed the open edges.
pub open spec fn edges_are_aligned<T: Scalar>(
    layout: LayoutData<T>,
    state: BreakerState<T>,
) -> bool {
    &&& boundary_is_aligned(layout, state.pending_inline_start.before(), state.line.clusters.start)
    &&& state.pending_inline_start.before() matches Some(boundary) ==> {
        &&& boundary.item_idx < state.item_idx
        &&& boundary.cluster_idx == state.cluster_idx
        &&& layout.is_opening_edge(boundary.item_idx as int)
        &&& layout.no_text(boundary.item_idx as int, state.item_idx as int)
    }
}

/// The line can go on and be broken without losing text.
pub open spec fn keeps_text<T: Scalar>(layout: LayoutData<T>, state: BreakerState<T>) -> bool {
    is_aligned(layout, state) && edges_are_aligned(layout, state)
}

/// The clusters of a text item end where those of the next items start.
pub proof fn lemma_run_bounds<T: Scalar>(layout: LayoutData<T>, item: int)
    requires
        layout.wf(),
        0 <= item < layout.items@.len(),
        layout.spec_is_text(item),
    ensures
        ({
            let run = layout.items@[item].index as int;
            &&& 0 <= run < layout.shaped_text.runs@.len()
            &&& layout.shaped_text.runs@[run].clusters.start == layout.clusters_before(item)
            &&& layout.shaped_text.runs@[run].clusters.end == layout.clusters_before(item + 1)
            &&& layout.clusters_before(item) < layout.clusters_before(item + 1)
        }),
{
    assert(layout.item_wf(item));
    let run = layout.shaped_text.runs@[layout.items@[item].index as int];
    assert(run.clusters.start < run.clusters.end);
}

/// Open edges are at the end of the text consumed so far, before the next item.
proof fn lemma_pending_position<T: Scalar>(layout: LayoutData<T>, state: BreakerState<T>)
    requires
        layout.wf(),
        keeps_text(layout, state),
    ensures
        state.pending_inline_start.before() is Some ==> state.cluster_idx == layout.clusters_before(
            state.item_idx as int,
        ),
{
    if let Some(boundary) = state.pending_inline_start.before() {
        layout.lemma_clusters_before_monotone(
            boundary.state.items.end as int,
            boundary.item_idx as int,
        );
        lemma_clusters_before_without_text(
            layout,
            boundary.item_idx as int,
            state.item_idx as int,
        );
    }
}

pub(crate) proof fn lemma_aligned_text<T: Scalar>(
    layout: LayoutData<T>,
    state: BreakerState<T>,
    run: int,
    max_advance: T,
)
    requires
        layout.wf(),
        layout.edges_hold_content(),
        keeps_text(layout, state),
        state.item_idx < layout.items@.len(),
        layout.spec_is_text(state.item_idx as int),
        run == layout.items@[state.item_idx as int].index,
        state.cluster_idx < layout.shaped_text.runs@[run].clusters.end,
    ensures
        ({
            let step = scan::text_step(
                layout,
                state,
                scan::atom_info(layout, run, state.cluster_idx as int),
                max_advance,
            );
            let bound = layout.shaped_text.runs@[run].clusters.end as int;
            &&& is_aligned(layout, step.state)
            &&& step.flow !is Break ==> edges_are_aligned(layout, step.state)
            &&& step.state.line.clusters.start == state.line.clusters.start
            &&& step.flow is Continue ==> step.state.pending_inline_start.before() is None
            &&& step.flow is Continue ==> step.state.item_idx == state.item_idx
                && step.state.cluster_idx == layout.shaped_text.atom_end(
                state.cluster_idx as int,
                bound,
            )
            &&& step.flow !is InlineBoxBreak
        }),
{
    let item = state.item_idx as int;
    lemma_run_bounds(layout, item);
    let bound = layout.shaped_text.runs@[run].clusters.end as int;
    layout.shaped_text.lemma_atom_end(state.cluster_idx as int, bound);
    layout.lemma_clusters_before_monotone(state.line.items.start + 1, item + 1);
    lemma_pending_position(layout, state);
}

pub(crate) proof fn lemma_aligned_run<T: Scalar>(
    layout: LayoutData<T>,
    state: BreakerState<T>,
    run: int,
    max_advance: T,
)
    requires
        layout.wf(),
        layout.edges_hold_content(),
        keeps_text(layout, state),
        state.item_idx < layout.items@.len(),
        layout.spec_is_text(state.item_idx as int),
        run == layout.items@[state.item_idx as int].index,
    ensures
        ({
            let step = scan::scan_run(
                layout,
                state,
                run,
                state.cluster_idx as int,
                max_advance,
            );
            &&& is_aligned(layout, step.state)
            &&& step.flow !is Break ==> edges_are_aligned(layout, step.state)
            &&& step.state.line.clusters.start == state.line.clusters.start
            &&& step.flow is Continue ==> step.state.pending_inline_start.before() is None
            &&& step.flow is Continue ==> step.state.item_idx == state.item_idx
                && step.state.cluster_idx >= layout.shaped_text.runs@[run].clusters.end
        }),
    decreases layout.shaped_text.runs@[run].clusters.end - state.cluster_idx,
{
    let bound = layout.shaped_text.runs@[run].clusters.end as int;
    let cursor = state.cluster_idx as int;
    lemma_run_bounds(layout, state.item_idx as int);
    lemma_pending_position(layout, state);
    if cursor < bound {
        lemma_aligned_text(layout, state, run, max_advance);
        let step = scan::text_step(
            layout,
            state,
            scan::atom_info(layout, run, cursor),
            max_advance,
        );
        if step.flow is Continue {
            layout.shaped_text.lemma_atom_end(cursor, bound);
            lemma_aligned_run(layout, step.state, run, max_advance);
        }
    }
}

pub(crate) proof fn lemma_aligned_box<T: Scalar>(
    layout: LayoutData<T>,
    state: BreakerState<T>,
    max_advance: T,
)
    requires
        layout.wf(),
        layout.edges_hold_content(),
        keeps_text(layout, state),
        state.item_idx < layout.items@.len(),
        !layout.spec_is_text(state.item_idx as int),
    ensures
        ({
            let step = scan::box_step(layout, state, state.item_idx as int, max_advance);
            &&& is_aligned(layout, step.state)
            &&& step.flow !is Break ==> edges_are_aligned(layout, step.state)
            &&& step.state.line.clusters.start == state.line.clusters.start
            &&& step.flow is Continue ==> step.state.item_idx == state.item_idx + 1
        }),
{
    let item = state.item_idx as int;
    assert(layout.item_wf(item));
    let end = state.line.items.end as int;
    layout.lemma_clusters_before_monotone(end, end + 1);
    layout.lemma_clusters_before_monotone(end, item);
}

pub(crate) proof fn lemma_aligned_scan<T: Scalar>(
    layout: LayoutData<T>,
    state: BreakerState<T>,
    max_advance: T,
)
    requires
        layout.wf(),
        layout.edges_hold_content(),
        keeps_text(layout, state),
    ensures
        ({
            let step = scan::scan(layout, state, state.item_idx as int, max_advance);
            &&& is_aligned(layout, step.state)
            &&& step.flow !is Break ==> edges_are_aligned(layout, step.state)
            &&& step.state.line.clusters.start == state.line.clusters.start
            &&& step.flow is Continue ==> step.state.item_idx == layout.items@.len()
        }),
    decreases layout.items@.len() - state.item_idx,
{
    let item = state.item_idx as int;
    if item < layout.items@.len() {
        if layout.spec_is_text(item) {
            let run = layout.items@[item].index as int;
            lemma_run_bounds(layout, item);
            lemma_aligned_run(layout, state, run, max_advance);
            let step = scan::scan_run(
                layout,
                state,
                run,
                state.cluster_idx as int,
                max_advance,
            );
            if step.flow is Continue {
                lemma_aligned_scan(layout, scan::after_run(step.state), max_advance);
            }
        } else {
            lemma_aligned_box(layout, state, max_advance);
            let step = scan::box_step(layout, state, item, max_advance);
            if step.flow is Continue {
                lemma_aligned_scan(layout, step.state, max_advance);
            }
        }
    }
}

/// Where the text of a line continues at an item.
pub open spec fn text_position<T: Scalar>(layout: LayoutData<T>, line: LineState<T>, item: int) -> int {
    let before = layout.clusters_before(item);
    if line.clusters.end <= before {
        line.clusters.end as int
    } else if line.clusters.start <= before {
        before
    } else {
        line.clusters.start as int
    }
}

/// Text that follows on can be continued by one more item.
pub(crate) proof fn lemma_text_follows_push<T: Scalar>(
    items: Seq<LineItemData<T>>,
    item: LineItemData<T>,
    from: int,
    at: int,
    end: int,
)
    requires
        0 <= from <= items.len(),
        text_follows(items, from, items.len() as int, at, end),
        item.spec_is_text_run() ==> item.shaped_cluster_range.start == end,
    ensures
        text_follows(
            items.push(item),
            from,
            items.len() as int + 1,
            at,
            if item.spec_is_text_run() {
                item.shaped_cluster_range.end as int
            } else {
                end
            },
        ),
    decreases items.len() - from,
{
    let pushed = items.push(item);
    if from < items.len() {
        let next = if items[from].spec_is_text_run() {
            items[from].shaped_cluster_range.end as int
        } else {
            at
        };
        lemma_text_follows_push(items, item, from + 1, next, end);
        assert(pushed[from] == items[from]);
    } else {
        reveal_with_fuel(text_follows, 2);
        assert(pushed[from] == item);
    }
}

pub(crate) proof fn lemma_clusters_before_without_text<T: Scalar>(layout: LayoutData<T>, from: int, to: int)
    requires
        layout.no_text(from, to),
        0 <= from <= to,
    ensures
        layout.clusters_before(from) == layout.clusters_before(to),
    decreases to - from,
{
    if from < to {
        assert(!layout.spec_is_text(to - 1));
        lemma_clusters_before_without_text(layout, from, to - 1);
    }
}

/// The clusters of a text item on a line start and end where the text of the
/// line has come to.
pub(crate) proof fn lemma_committed_position<T: Scalar>(
    layout: LayoutData<T>,
    line: LineState<T>,
    item_idx: int,
    item: int,
)
    requires
        layout.wf(),
        line_is_aligned(layout, line, item_idx, line.clusters.end as int),
        line.items.start <= item < line.items.end <= layout.items@.len(),
        layout.spec_is_text(item),
    ensures
        ({
            let clusters = layout.committed_clusters(line, item);
            if layout.nothing_left(line, item) {
                text_position(layout, line, item) == text_position(layout, line, item + 1)
            } else {
                &&& clusters.start == text_position(layout, line, item)
                &&& clusters.end == text_position(layout, line, item + 1)
            }
        }),
{
    lemma_run_bounds(layout, item);
    layout.lemma_clusters_before_monotone(line.items.start as int, item);
    layout.lemma_clusters_before_monotone(item, line.items.end - 1);
    if layout.no_text(line.items.start as int, item) {
        lemma_clusters_before_without_text(layout, line.items.start as int, item);
        if line.items.start < item {
            assert(!layout.spec_is_text(line.items.start as int));
        }
    } else {
        layout.lemma_clusters_before_monotone(line.items.start + 1, item);
    }
    if layout.no_text(item + 1, line.items.end as int) {
        lemma_clusters_before_without_text(layout, item + 1, line.items.end as int);
    } else {
        layout.lemma_clusters_before_monotone(item + 1, line.items.end - 1);
    }
}

proof fn lemma_commit_follows<T: Scalar>(
    layout: LayoutData<T>,
    line: LineState<T>,
    item_idx: int,
    item: int,
    so_far: Commit<T>,
    from: int,
)
    requires
        layout.wf(),
        line_is_aligned(layout, line, item_idx, line.clusters.end as int),
        line.items.start <= item <= line.items.end <= layout.items@.len(),
        0 <= from <= so_far.items.len(),
        text_follows(
            so_far.items,
            from,
            so_far.items.len() as int,
            line.clusters.start as int,
            text_position(layout, line, item),
        ),
    ensures
        ({
            let items = commit::commit_items(layout, line, item, so_far).items;
            &&& from <= items.len()
            &&& text_follows(
                items,
                from,
                items.len() as int,
                line.clusters.start as int,
                line.clusters.end as int,
            )
        }),
    decreases line.items.end - item,
{
    if item < line.items.end {
        if !layout.spec_is_text(item) {
            let next = Commit {
                items: so_far.items.push(layout.committed_box(item)),
                last: LayoutItemKind::InlineBox,
                ..so_far
            };
            lemma_text_follows_push(
                so_far.items,
                layout.committed_box(item),
                from,
                line.clusters.start as int,
                text_position(layout, line, item),
            );
            lemma_commit_follows(layout, line, item_idx, item + 1, next, from);
        } else {
            lemma_committed_position(layout, line, item_idx, item);
            if layout.nothing_left(line, item) {
                lemma_commit_follows(layout, line, item_idx, item + 1, so_far, from);
            } else {
                let pushed = layout.committed_text(line, item, so_far.items);
                let next = Commit {
                    items: so_far.items.push(pushed),
                    last: LayoutItemKind::TextRun,
                    text: true,
                };
                lemma_text_follows_push(
                    so_far.items,
                    pushed,
                    from,
                    line.clusters.start as int,
                    text_position(layout, line, item),
                );
                lemma_commit_follows(layout, line, item_idx, item + 1, next, from);
            }
        }
    }
}

/// The items of the line that is broken next, as they are committed, after
/// those of the lines before it.
pub open spec fn committed_next<T: Scalar>(
    layout: LayoutData<T>,
    progress: Progress<T>,
) -> Seq<LineItemData<T>> {
    let step = scan::scan(
        layout,
        progress.state,
        progress.state.item_idx as int,
        progress.available(layout),
    );
    let line = if step.flow is Continue {
        progress.at_end(step.state).state.line
    } else {
        step.state.line
    };
    commit::commit_of_line(layout, line, progress.items).items
}

pub(crate) proof fn lemma_line_holds_its_text<T: Scalar>(
    layout: LayoutData<T>,
    line: LineState<T>,
    item_idx: int,
    items: Seq<LineItemData<T>>,
)
    requires
        layout.wf(),
        line_is_aligned(layout, line, item_idx, line.clusters.end as int),
        line.items.end <= layout.items@.len(),
    ensures
        ({
            let committed = commit::commit_of_line(layout, line, items).items;
            text_follows(
                committed,
                items.len() as int,
                committed.len() as int,
                line.clusters.start as int,
                line.clusters.end as int,
            )
        }),
{
    layout.lemma_clusters_before_bound(line.items.end as int);
    assert(commit::clamped(layout, line) == line);
    lemma_commit_follows(
        layout,
        line,
        item_idx,
        line.items.start as int,
        Commit {
            items,
            last: LayoutItemKind::TextRun,
            text: false,
        },
        items.len() as int,
    );
}

pub(crate) proof fn lemma_aligned_after_line<T: Scalar>(
    layout: LayoutData<T>,
    state: BreakerState<T>,
    items: Seq<LineItemData<T>>,
)
    requires
        layout.wf(),
        line_is_aligned(layout, state.line, state.item_idx as int, state.cluster_idx as int),
        state.line.items.end <= layout.items@.len(),
    ensures
        ({
            let after = crate::layout::break_lines::after_line(layout, state, items);
            &&& line_is_aligned(
                layout,
                after.line,
                state.item_idx as int,
                state.cluster_idx as int,
            )
            &&& after.line.clusters.start == state.cluster_idx
        }),
{
    let line = state.line;
    layout.lemma_clusters_before_bound(line.items.end as int);
    layout.lemma_clusters_before_monotone(line.items.end as int, line.items.end + 1);
    commit::lemma_after_commit_wf(
        layout,
        line,
        items,
        state.item_idx as int,
        state.cluster_idx as int,
    );
}

/// The last line of a paragraph holds all text that is left.
proof fn lemma_last_line_holds_the_rest<T: Scalar>(
    layout: LayoutData<T>,
    progress: Progress<T>,
    state: BreakerState<T>,
)
    requires
        layout.wf(),
        line_is_aligned(layout, state.line, state.item_idx as int, state.cluster_idx as int),
        state.item_idx == layout.items@.len(),
    ensures
        ({
            let line = progress.at_end(state).state.line;
            let items = commit::commit_of_line(layout, line, progress.items).items;
            text_follows(
                items,
                progress.items.len() as int,
                items.len() as int,
                state.line.clusters.start as int,
                layout.clusters_before(layout.items@.len() as int),
            )
        }),
{
    let line = state.line;
    let item_idx = state.item_idx as int;
    layout.lemma_clusters_before_monotone(line.items.end as int, item_idx);
    let last = progress.at_end(state).state.line;
    if line.items.end == 0 && layout.items@.len() > 0 {
        layout.lemma_clusters_before_monotone(0, 1);
        lemma_line_holds_its_text(layout, last, item_idx, progress.items);
    } else if line.items.end == 0 {
        assert(commit::clamped(layout, last) == line);
        assert(commit::clamped(layout, line) == line);
        lemma_line_holds_its_text(layout, line, item_idx, progress.items);
    } else {
        lemma_line_holds_its_text(layout, line, item_idx, progress.items);
    }
}

/// Where text after opening edges starts with content, every line holds the text from where
/// the line before it ended, without gap or overlap, and the last line holds
/// the rest. It is so of the first line, and of every line after a line.
pub proof fn lemma_lines_hold_all_text<T: Scalar>(layout: LayoutData<T>, progress: Progress<T>)
    requires
        layout.wf(),
        layout.edges_hold_content(),
        !progress.done,
        keeps_text(layout, progress.state),
    ensures
        ({
            let (next, yielded) = progress.next(layout);
            let items = committed_next(layout, progress);
            let all = layout.clusters_before(layout.items@.len() as int);
            &&& !next.done ==> keeps_text(layout, next.state)
            &&& yielded matches Some(YieldData::LineBreak(_)) ==> text_follows(
                items,
                progress.items.len() as int,
                items.len() as int,
                progress.state.line.clusters.start as int,
                if next.done {
                    all
                } else {
                    next.state.line.clusters.start as int
                },
            )
        }),
{
    let available = progress.available(layout);
    let step = scan::scan(layout, progress.state, progress.state.item_idx as int, available);
    lemma_aligned_scan(layout, progress.state, available);
    let line = step.state.line;
    let item_idx = step.state.item_idx as int;
    match step.flow {
        Flow::Continue => {
            lemma_last_line_holds_the_rest(layout, progress, step.state);
        },
        Flow::Break(_) => {
            if line.items.end > layout.items@.len() {
                assert(item_idx >= layout.items@.len());
            }
            lemma_line_holds_its_text(layout, line, item_idx, progress.items);
            lemma_aligned_after_line(layout, step.state, progress.items);
        },
        _ => {},
    }
}

/// The first line starts at the start of the text.
pub proof fn lemma_first_line_starts_the_text<T: Scalar>(layout: LayoutData<T>)
    requires
        layout.wf(),
    ensures
        keeps_text(layout, Progress::start(layout).state),
        Progress::start(layout).state.line.clusters.start == 0,
{
    layout.lemma_clusters_before_monotone(0, 1);
}

/// A box that a caller puts on the line in place of the breaker takes no text
/// from it.
pub proof fn lemma_placed_box_keeps_text<T: Scalar>(
    layout: LayoutData<T>,
    state: BreakerState<T>,
    next_x: T,
    ascent: T,
    descent: T,
)
    requires
        layout.wf(),
        keeps_text(layout, state),
        state.item_idx < layout.items@.len(),
        !layout.spec_is_text(state.item_idx as int),
    ensures
        keeps_text(layout, state.after_inline_box(next_x, ascent, descent, layout.quantize)),
{
    let item = state.item_idx as int;
    let end = state.line.items.end as int;
    layout.lemma_clusters_before_monotone(end, end + 1);
    layout.lemma_clusters_before_monotone(end, item);
}

// ---------------------------------------------------------------------------
// Putting a line's items in order.

/// The items hold the same text, item by item.
pub open spec fn same_text<T: Scalar>(
    a: Seq<LineItemData<T>>,
    b: Seq<LineItemData<T>>,
    from: int,
    to: int,
) -> bool {
    forall|i: int|
        from <= i < to ==> (#[trigger] a[i]).kind == b[i].kind && a[i].shaped_cluster_range
            == b[i].shaped_cluster_range
}

pub(crate) proof fn lemma_same_text_follows<T: Scalar>(
    a: Seq<LineItemData<T>>,
    b: Seq<LineItemData<T>>,
    from: int,
    to: int,
    at: int,
    end: int,
)
    requires
        same_text(a, b, from, to),
        text_follows(a, from, to, at, end),
    ensures
        text_follows(b, from, to, at, end),
    decreases to - from,
{
    if from < to {
        let next = if a[from].spec_is_text_run() {
            a[from].shaped_cluster_range.end as int
        } else {
            at
        };
        assert(a[from].kind == b[from].kind);
        lemma_same_text_follows(a, b, from + 1, to, next, end);
    }
}

proof fn lemma_shifted_text_follows<T: Scalar>(
    a: Seq<LineItemData<T>>,
    b: Seq<LineItemData<T>>,
    from: int,
    to: int,
    at: int,
    end: int,
)
    requires
        forall|i: int| from <= i < to ==> #[trigger] a[i] == b[i + 1],
        text_follows(a, from, to, at, end),
    ensures
        text_follows(b, from + 1, to + 1, at, end),
    decreases to - from,
{
    if from < to {
        let next = if a[from].spec_is_text_run() {
            a[from].shaped_cluster_range.end as int
        } else {
            at
        };
        assert(a[from] == b[from + 1]);
        lemma_shifted_text_follows(a, b, from + 1, to, next, end);
    }
}

/// Splitting an item in two moves no text.
proof fn lemma_split_text_follows<T: Scalar>(
    items: Seq<LineItemData<T>>,
    head: LineItemData<T>,
    tail: LineItemData<T>,
    split: int,
    from: int,
    to: int,
    at: int,
    end: int,
)
    requires
        0 <= from <= split < to <= items.len(),
        items[split].spec_is_text_run(),
        head.spec_is_text_run(),
        tail.spec_is_text_run(),
        head.shaped_cluster_range.start == items[split].shaped_cluster_range.start,
        head.shaped_cluster_range.end == tail.shaped_cluster_range.start,
        tail.shaped_cluster_range.end == items[split].shaped_cluster_range.end,
        text_follows(items, from, to, at, end),
    ensures
        text_follows(items.update(split, head).insert(split + 1, tail), from, to + 1, at, end),
    decreases split - from,
{
    let parts = items.update(split, head).insert(split + 1, tail);
    if from < split {
        let next = if items[from].spec_is_text_run() {
            items[from].shaped_cluster_range.end as int
        } else {
            at
        };
        assert(parts[from] == items[from]);
        lemma_split_text_follows(items, head, tail, split, from + 1, to, next, end);
    } else {
        assert(parts[split] == head);
        assert(parts[split + 1] == tail);
        assert forall|i: int| split + 1 <= i < to implies #[trigger] items[i] == parts[i + 1] by {
            assert(items.update(split, head)[i] == items[i]);
        }
        let next = items[split].shaped_cluster_range.end as int;
        lemma_shifted_text_follows(items, parts, split + 1, to, next, end);
        assert(text_follows(
            parts,
            split + 1,
            to + 1,
            head.shaped_cluster_range.end as int,
            end,
        ));
    }
}

proof fn lemma_reset_text_follows<T: Scalar>(
    layout: LayoutData<T>,
    items: Seq<LineItemData<T>>,
    from: int,
    at: int,
    to: int,
    start: int,
    end: int,
)
    requires
        0 <= from <= at <= to <= items.len(),
        forall|i: int|
            from <= i < to && (#[trigger] items[i]).spec_is_text_run()
                ==> items[i].shaped_cluster_range.start <= items[i].shaped_cluster_range.end,
        text_follows(items, from, to, start, end),
    ensures
        ({
            let reset = line_items::reset_levels(layout, items, from, at, to);
            &&& from <= reset.to <= reset.items.len()
            &&& text_follows(reset.items, from, reset.to, start, end)
        }),
    decreases at - from,
{
    if at > from {
        let item = items[at - 1];
        let clusters = item.shaped_cluster_range;
        let split = layout.shaped_text.whitespace_start(
            clusters.start as int,
            clusters.end as int,
        );
        if !item.spec_is_text_run() {
            if layout.inline_boxes@[item.index as int].kind != InlineBoxKind::InFlow {
                lemma_reset_text_follows(layout, items, from, at - 1, to, start, end);
            }
        } else {
            layout.shaped_text.lemma_whitespace_start(clusters.start as int, clusters.end as int);
            if split == clusters.end {
            } else if split == clusters.start {
                let reset = LineItemData { bidi_level: layout.base_level, ..item };
                let updated = items.update(at - 1, reset);
                lemma_same_text_follows(items, updated, from, to, start, end);
                lemma_reset_text_follows(layout, updated, from, at - 1, to, start, end);
            } else {
                lemma_split_text_follows(
                    items,
                    line_items::head_of(layout, item, split),
                    line_items::tail_of(layout, item, split),
                    at - 1,
                    from,
                    to,
                    start,
                    end,
                );
            }
        }
    }
}

/// A line's items in visual order are those that hold the line's text without
/// gap or overlap, with the item in which the white space at the end starts
/// split, in another order.
pub proof fn lemma_ordering_keeps_text<T: Scalar>(
    layout: LayoutData<T>,
    items: Seq<LineItemData<T>>,
    from: int,
    start: int,
    end: int,
)
    requires
        0 <= from <= items.len(),
        forall|i: int|
            from <= i < items.len() && (#[trigger] items[i]).spec_is_text_run()
                ==> items[i].shaped_cluster_range.start <= items[i].shaped_cluster_range.end,
        text_follows(items, from, items.len() as int, start, end),
    ensures
        ({
            let to = items.len() as int;
            let measured = line_items::measured(layout, items, from, to);
            let reset = line_items::reset_levels(layout, measured, from, to, to);
            let (ordered, ordered_to) = finish_line::ordered_items(layout, items, from, to);
            &&& text_follows(reset.items, from, reset.to, start, end)
            &&& ordered_to == reset.to
            &&& reorder::same_items(ordered, reset.items, from, ordered_to)
        }),
{
    let to = items.len() as int;
    let measured = line_items::measured(layout, items, from, to);
    lemma_same_text_follows(items, measured, from, to, start, end);
    lemma_reset_text_follows(layout, measured, from, to, to, start, end);
    let reset = line_items::reset_levels(layout, measured, from, to, to);
    reorder::lemma_reordered_same_items(reset.items, from, reset.to);
}

// ---------------------------------------------------------------------------
// White space between lines.

/// The cluster belongs to an atom of white space that hangs or is removed.
pub open spec fn is_hanging<T: Scalar>(layout: LayoutData<T>, cluster: int) -> bool {
    exists|run: int, start: int|
        {
            &&& #[trigger] scan::atom_info(layout, run, start).hangs_or_is_removed()
            &&& start <= cluster < layout.shaped_text.atom_end(
                start,
                layout.shaped_text.runs@[run].clusters.end as int,
            )
        }
}

/// All clusters of `from..to` are such white space.
pub open spec fn all_hanging<T: Scalar>(layout: LayoutData<T>, from: int, to: int) -> bool {
    forall|cluster: int| from <= cluster < to ==> #[trigger] is_hanging(layout, cluster)
}

/// Between the line up to a boundary and the text after it there is only white
/// space that hangs or is removed.
pub open spec fn gap_is_hanging<T: Scalar>(
    layout: LayoutData<T>,
    boundary: Option<PrevBoundaryState<T>>,
    cluster_idx: int,
) -> bool {
    boundary matches Some(boundary) ==> all_hanging(
        layout,
        boundary.state.clusters.end as int,
        cluster_idx,
    )
}

/// No boundary of the line skips anything but such white space.
pub open spec fn skips_only_hanging<T: Scalar>(
    layout: LayoutData<T>,
    state: BreakerState<T>,
) -> bool {
    &&& state.line.clusters.end == state.cluster_idx
    &&& state.prev_boundary matches Some(boundary) ==> all_hanging(
        layout,
        boundary.state.clusters.end as int,
        boundary.cluster_idx as int,
    )
    &&& state.emergency_boundary matches Some(boundary) ==> all_hanging(
        layout,
        boundary.state.clusters.end as int,
        boundary.cluster_idx as int,
    )
    &&& gap_is_hanging(layout, state.pending_inline_start.before(), state.cluster_idx as int)
}

/// What a step keeps of it.
spec fn step_skips_only_hanging<T: Scalar>(
    layout: LayoutData<T>,
    step: scan::Step<T>,
) -> bool {
    if step.flow is Break {
        all_hanging(
            layout,
            step.state.line.clusters.end as int,
            step.state.cluster_idx as int,
        )
    } else {
        skips_only_hanging(layout, step.state)
    }
}

proof fn lemma_text_skips_only_hanging<T: Scalar>(
    layout: LayoutData<T>,
    state: BreakerState<T>,
    run: int,
    max_advance: T,
)
    requires
        layout.wf(),
        0 <= run < layout.shaped_text.runs@.len(),
        skips_only_hanging(layout, state),
        state.cluster_idx < layout.shaped_text.runs@[run].clusters.end,
    ensures
        ({
            let info = scan::atom_info(layout, run, state.cluster_idx as int);
            let step = scan::text_step(layout, state, info, max_advance);
            &&& step_skips_only_hanging(layout, step)
            &&& step.flow is Continue ==> step.state.cluster_idx == layout.shaped_text.atom_end(
                state.cluster_idx as int,
                layout.shaped_text.runs@[run].clusters.end as int,
            )
        }),
{
    let cursor = state.cluster_idx as int;
    let bound = layout.shaped_text.runs@[run].clusters.end as int;
    layout.shaped_text.lemma_atom_end(cursor, bound);
    let info = scan::atom_info(layout, run, cursor);
    let end = layout.shaped_text.atom_end(cursor, bound);
    if info.hangs_or_is_removed() {
        assert forall|cluster: int| cursor <= cluster < end implies #[trigger] is_hanging(
            layout,
            cluster,
        ) by {
            assert(scan::atom_info(layout, run, cursor).hangs_or_is_removed());
        }
    }
}

proof fn lemma_run_skips_only_hanging<T: Scalar>(
    layout: LayoutData<T>,
    state: BreakerState<T>,
    run: int,
    max_advance: T,
)
    requires
        layout.wf(),
        0 <= run < layout.shaped_text.runs@.len(),
        skips_only_hanging(layout, state),
    ensures
        step_skips_only_hanging(
            layout,
            scan::scan_run(layout, state, run, state.cluster_idx as int, max_advance),
        ),
    decreases layout.shaped_text.runs@[run].clusters.end - state.cluster_idx,
{
    let bound = layout.shaped_text.runs@[run].clusters.end as int;
    let cursor = state.cluster_idx as int;
    if cursor < bound {
        lemma_text_skips_only_hanging(layout, state, run, max_advance);
        let step = scan::text_step(
            layout,
            state,
            scan::atom_info(layout, run, cursor),
            max_advance,
        );
        if step.flow is Continue {
            layout.shaped_text.lemma_atom_end(cursor, bound);
            lemma_run_skips_only_hanging(layout, step.state, run, max_advance);
        }
    }
}

proof fn lemma_box_skips_only_hanging<T: Scalar>(
    layout: LayoutData<T>,
    state: BreakerState<T>,
    item: int,
    max_advance: T,
)
    requires
        skips_only_hanging(layout, state),
    ensures
        step_skips_only_hanging(layout, scan::box_step(layout, state, item, max_advance)),
{
}

proof fn lemma_scan_skips_only_hanging<T: Scalar>(
    layout: LayoutData<T>,
    state: BreakerState<T>,
    item: int,
    max_advance: T,
)
    requires
        layout.wf(),
        0 <= item,
        skips_only_hanging(layout, state),
    ensures
        step_skips_only_hanging(layout, scan::scan(layout, state, item, max_advance)),
    decreases layout.items@.len() - item,
{
    if item < layout.items@.len() {
        assert(layout.item_wf(item));
        if layout.spec_is_text(item) {
            let run = layout.items@[item].index as int;
            lemma_run_skips_only_hanging(layout, state, run, max_advance);
            let step = scan::scan_run(
                layout,
                state,
                run,
                state.cluster_idx as int,
                max_advance,
            );
            if step.flow is Continue {
                lemma_scan_skips_only_hanging(
                    layout,
                    scan::after_run(step.state),
                    item + 1,
                    max_advance,
                );
            }
        } else {
            lemma_box_skips_only_hanging(layout, state, item, max_advance);
            let step = scan::box_step(layout, state, item, max_advance);
            if step.flow is Continue {
                lemma_scan_skips_only_hanging(layout, step.state, item + 1, max_advance);
            }
        }
    }
}

/// Only white space that hangs or is removed is ever skipped between two lines,
/// in any paragraph: all clusters from the end of a line to the start of the
/// next are such white space. It is so of every line after a line.
pub proof fn lemma_only_hanging_space_is_skipped<T: Scalar>(
    layout: LayoutData<T>,
    progress: Progress<T>,
)
    requires
        layout.wf(),
        !progress.done,
        skips_only_hanging(layout, progress.state),
    ensures
        ({
            let step = scan::scan(
                layout,
                progress.state,
                progress.state.item_idx as int,
                progress.available(layout),
            );
            let next = progress.next(layout).0;
            &&& skips_only_hanging(layout, next.state)
            &&& step.flow is Break ==> all_hanging(
                layout,
                step.state.line.clusters.end as int,
                next.state.line.clusters.start as int,
            )
        }),
{
    lemma_scan_skips_only_hanging(
        layout,
        progress.state,
        progress.state.item_idx as int,
        progress.available(layout),
    );
}

/// It is so of the first line.
pub proof fn lemma_first_line_skips_nothing<T: Scalar>(layout: LayoutData<T>)
    ensures
        skips_only_hanging(layout, Progress::start(layout).state),
{
}

// ---------------------------------------------------------------------------
// Lines of a number of characters.

pub(crate) proof fn lemma_aligned_count_of_run<T: Scalar>(
    layout: LayoutData<T>,
    count: Count<T>,
    run: int,
    limit: u32,
)
    requires
        layout.wf(),
        line_is_aligned(
            layout,
            count.state.line,
            count.state.item_idx as int,
            count.state.cluster_idx as int,
        ),
        count.state.item_idx < layout.items@.len(),
        layout.spec_is_text(count.state.item_idx as int),
        run == layout.items@[count.state.item_idx as int].index,
        !count.full,
    ensures
        ({
            let after = count.with_run(layout, run, count.state.cluster_idx as int, limit);
            &&& line_is_aligned(
                layout,
                after.state.line,
                after.state.item_idx as int,
                after.state.cluster_idx as int,
            )
            &&& after.state.item_idx == count.state.item_idx
            &&& after.state.line.clusters.start == count.state.line.clusters.start
            &&& !after.full ==> after.state.cluster_idx
                >= layout.shaped_text.runs@[run].clusters.end
        }),
    decreases layout.shaped_text.runs@[run].clusters.end - count.state.cluster_idx,
{
    let item = count.state.item_idx as int;
    let cursor = count.state.cluster_idx as int;
    lemma_run_bounds(layout, item);
    let bound = layout.shaped_text.runs@[run].clusters.end as int;
    if cursor < bound && count.chars < limit {
        layout.shaped_text.lemma_atom_end(cursor, bound);
        let next = count.with_atom(layout, scan::atom_info(layout, run, cursor));
        lemma_aligned_count_of_run(layout, next, run, limit);
    }
}

pub(crate) proof fn lemma_aligned_count<T: Scalar>(layout: LayoutData<T>, count: Count<T>, limit: u32)
    requires
        layout.wf(),
        line_is_aligned(
            layout,
            count.state.line,
            count.state.item_idx as int,
            count.state.cluster_idx as int,
        ),
        !count.full,
    ensures
        ({
            let after = count.with_items(layout, count.state.item_idx as int, limit);
            &&& line_is_aligned(
                layout,
                after.state.line,
                after.state.item_idx as int,
                after.state.cluster_idx as int,
            )
            &&& after.state.line.clusters.start == count.state.line.clusters.start
            &&& !after.full ==> after.state.item_idx == layout.items@.len()
        }),
    decreases layout.items@.len() - count.state.item_idx,
{
    let item = count.state.item_idx as int;
    if item < layout.items@.len() {
        assert(layout.item_wf(item));
        if count.chars >= limit && !char_scan::can_follow(layout, item) {
        } else if layout.spec_is_text(item) {
            let run = layout.items@[item].index as int;
            lemma_run_bounds(layout, item);
            lemma_aligned_count_of_run(layout, count, run, limit);
            let filled = count.with_run(layout, run, count.state.cluster_idx as int, limit);
            if !filled.full {
                lemma_aligned_count(
                    layout,
                    Count { state: scan::after_run(filled.state), ..filled },
                    limit,
                );
            }
        } else {
            let end = count.state.line.items.end as int;
            layout.lemma_clusters_before_monotone(end, end + 1);
            layout.lemma_clusters_before_monotone(end, item);
            lemma_aligned_count(layout, count.with_box(layout, item), limit);
        }
    }
}

/// Lines of a number of characters hold all text without gap or overlap, in any
/// paragraph: each holds the text from where the one before it ended, and the
/// last one holds the rest. It is so of the first line, and of every line after
/// a line.
pub proof fn lemma_counted_lines_hold_all_text<T: Scalar>(
    layout: LayoutData<T>,
    progress: Progress<T>,
    max_chars: u32,
)
    requires
        layout.wf(),
        !progress.done,
        line_is_aligned(
            layout,
            progress.state.line,
            progress.state.item_idx as int,
            progress.state.cluster_idx as int,
        ),
    ensures
        ({
            let next = progress.next_with_length(layout, max_chars);
            let limit: u32 = if max_chars == 0 {
                1
            } else {
                max_chars
            };
            let filled = Count {
                state: progress.state,
                chars: 0,
                reason: BreakReason::Regular,
                full: false,
            }.with_items(layout, progress.state.item_idx as int, limit);
            let line = if filled.full {
                filled.state.line
            } else {
                progress.at_end(filled.state).state.line
            };
            let items = commit::commit_of_line(layout, line, progress.items).items;
            let all = layout.clusters_before(layout.items@.len() as int);
            &&& next.done == !filled.full
            &&& !next.done ==> line_is_aligned(
                layout,
                next.state.line,
                next.state.item_idx as int,
                next.state.cluster_idx as int,
            )
            &&& text_follows(
                items,
                progress.items.len() as int,
                items.len() as int,
                progress.state.line.clusters.start as int,
                if next.done {
                    all
                } else {
                    next.state.line.clusters.start as int
                },
            )
        }),
{
    let limit: u32 = if max_chars == 0 {
        1
    } else {
        max_chars
    };
    let start = Count {
        state: progress.state,
        chars: 0,
        reason: BreakReason::Regular,
        full: false,
    };
    lemma_aligned_count(layout, start, limit);
    let filled = start.with_items(layout, progress.state.item_idx as int, limit);
    let state = filled.state;
    if filled.full {
        lemma_line_holds_its_text(layout, state.line, state.item_idx as int, progress.items);
        lemma_aligned_after_line(layout, state, progress.items);
    } else {
        lemma_last_line_holds_the_rest(layout, progress, state);
    }
}

} // verus!
