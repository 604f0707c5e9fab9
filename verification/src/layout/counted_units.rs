//! What counts on a line of a number of characters.

use crate::inline_box::InlineBoxKind;
use crate::layout::break_lines::Progress;
use crate::layout::char_scan;
use crate::layout::char_scan::Count;
use crate::layout::coverage;
use crate::layout::coverage::line_is_aligned;
use crate::layout::data::{BreakReason, LayoutData};
use crate::layout::scan;
use crate::layout::shaped::Whitespace;
use crate::scalar::Scalar;
use vstd::prelude::*;

verus! {

/// The number of characters of the clusters `from..to`.
pub open spec fn characters_between<T: Scalar>(layout: LayoutData<T>, from: int, to: int) -> int
    decreases to - from,
{
    if from >= to {
        0
    } else {
        let chars = layout.shaped_text.clusters@[to - 1].chars;
        characters_between(layout, from, to - 1) + (chars.end - chars.start)
    }
}

/// The number of atomic boxes among the items `from..to`.
pub open spec fn atomic_boxes_between<T: Scalar>(
    layout: LayoutData<T>,
    from: int,
    to: int,
) -> int
    decreases to - from,
{
    if from >= to {
        0
    } else {
        let kind = layout.inline_boxes@[layout.items@[to - 1].index as int].kind;
        atomic_boxes_between(layout, from, to - 1) + if !layout.spec_is_text(to - 1) && kind
            == InlineBoxKind::InFlow {
            1int
        } else {
            0
        }
    }
}

/// No character lies between clusters, and all characters and boxes can be
/// counted.
pub open spec fn can_count<T: Scalar>(layout: LayoutData<T>) -> bool {
    let clusters = layout.shaped_text.clusters@;
    &&& forall|c: int|
        0 < c < clusters.len() ==> (#[trigger] clusters[c]).chars.start == clusters[c
            - 1].chars.end
    &&& layout.shaped_text.characters@.len() + layout.items@.len() < u32::MAX
}

proof fn lemma_characters_adjacent<T: Scalar>(
    layout: LayoutData<T>,
    from: int,
    at: int,
    to: int,
)
    requires
        from <= at <= to,
    ensures
        characters_between(layout, from, to) == characters_between(layout, from, at)
            + characters_between(layout, at, to),
    decreases to - at,
{
    if at < to {
        lemma_characters_adjacent(layout, from, at, to - 1);
    }
}

/// Clusters that follow each other have the characters from the first to the last.
proof fn lemma_characters<T: Scalar>(layout: LayoutData<T>, from: int, to: int)
    requires
        layout.wf(),
        can_count(layout),
        0 <= from < to <= layout.shaped_text.clusters@.len(),
    ensures
        characters_between(layout, from, to) == layout.shaped_text.clusters@[to - 1].chars.end
            - layout.shaped_text.clusters@[from].chars.start,
        characters_between(layout, from, to) <= layout.shaped_text.characters@.len(),
    decreases to - from,
{
    reveal_with_fuel(characters_between, 2);
    if from + 1 < to {
        lemma_characters(layout, from, to - 1);
        assert(layout.shaped_text.clusters@[to - 1].chars.start
            == layout.shaped_text.clusters@[to - 2].chars.end);
    }
    assert(layout.shaped_text.clusters@[to - 1].chars.end
        <= layout.shaped_text.characters@.len());
}

proof fn lemma_boxes_are_few<T: Scalar>(layout: LayoutData<T>, from: int, to: int)
    requires
        from <= to,
    ensures
        0 <= atomic_boxes_between(layout, from, to) <= to - from,
    decreases to - from,
{
    if from < to {
        lemma_boxes_are_few(layout, from, to - 1);
    }
}

/// What is on the line has been counted.
spec fn has_counted<T: Scalar>(layout: LayoutData<T>, count: Count<T>) -> bool {
    let line = count.state.line;
    let start = line.clusters.start as int;
    let end = line.clusters.end as int;
    &&& line_is_aligned(
        layout,
        line,
        count.state.item_idx as int,
        count.state.cluster_idx as int,
    )
    &&& line.items.start <= count.state.item_idx
    &&& count.chars == characters_between(layout, start, end) + atomic_boxes_between(
        layout,
        line.items.start as int,
        count.state.item_idx as int,
    )
}

/// A line can be broken before the cluster: it starts a grapheme.
pub open spec fn starts_atom<T: Scalar>(layout: LayoutData<T>, cluster: int) -> bool {
    layout.shaped_text.clusters@[cluster].grapheme_start
}

/// Before every grapheme after the first on the line there is room for one more
/// character.
pub open spec fn has_room<T: Scalar>(
    layout: LayoutData<T>,
    start: int,
    end: int,
    limit: int,
) -> bool {
    forall|at: int|
        start < at < end && #[trigger] starts_atom(layout, at) ==> characters_between(
            layout,
            start,
            at,
        ) < limit
}

/// All items are text.
pub open spec fn is_all_text<T: Scalar>(layout: LayoutData<T>) -> bool {
    forall|item: int| 0 <= item < layout.items@.len() ==> #[trigger] layout.spec_is_text(item)
}

proof fn lemma_no_boxes<T: Scalar>(layout: LayoutData<T>, from: int, to: int)
    requires
        is_all_text(layout),
        0 <= from,
        to <= layout.items@.len(),
    ensures
        atomic_boxes_between(layout, from, to) == 0,
    decreases to - from,
{
    if from < to {
        assert(layout.spec_is_text(to - 1));
        lemma_no_boxes(layout, from, to - 1);
    }
}

proof fn lemma_atom_is_whole<T: Scalar>(layout: LayoutData<T>, from: int, bound: int, at: int)
    requires
        from < at < layout.shaped_text.atom_end(from, bound),
        from < bound,
    ensures
        !starts_atom(layout, at),
    decreases bound - from,
{
    layout.shaped_text.lemma_atom_end(from, bound);
    if from + 1 < at {
        layout.shaped_text.lemma_atom_end(from + 1, bound);
        lemma_atom_is_whole(layout, from + 1, bound, at);
    }
}

/// The reason that a break after the grapheme at `at` has.
pub open spec fn reason_at<T: Scalar>(layout: LayoutData<T>, at: int) -> BreakReason {
    let text = layout.shaped_text;
    if text.characters@[text.clusters@[at].chars.start as int].whitespace == Whitespace::Newline {
        BreakReason::Explicit
    } else {
        BreakReason::Regular
    }
}

/// The break has the reason of the last grapheme on the line.
spec fn has_its_reason<T: Scalar>(layout: LayoutData<T>, count: Count<T>) -> bool {
    let start = count.state.line.clusters.start as int;
    let end = count.state.line.clusters.end as int;
    start < end ==> exists|at: int|
        #![trigger reason_at(layout, at)]
        start <= at < end && count.reason == reason_at(layout, at) && forall|later: int|
            at < later < end ==> !#[trigger] starts_atom(layout, later)
}

proof fn lemma_counted_run<T: Scalar>(layout: LayoutData<T>, count: Count<T>, limit: u32)
    requires
        layout.wf(),
        can_count(layout),
        has_counted(layout, count),
        count.state.item_idx < layout.items@.len(),
        layout.spec_is_text(count.state.item_idx as int),
        !count.full,
        is_all_text(layout) ==> has_its_reason(layout, count) && has_room(
            layout,
            count.state.line.clusters.start as int,
            count.state.cluster_idx as int,
            limit as int,
        ),
    ensures
        ({
            let run = layout.items@[count.state.item_idx as int].index as int;
            let after = count.with_run(layout, run, count.state.cluster_idx as int, limit);
            &&& has_counted(layout, after)
            &&& after.state.item_idx == count.state.item_idx
            &&& after.state.line.clusters.start == count.state.line.clusters.start
            &&& after.state.line.items.start == count.state.line.items.start
            &&& after.full ==> after.chars >= limit
            &&& !after.full ==> after.state.cluster_idx >= layout.clusters_before(
                count.state.item_idx + 1,
            )
            &&& is_all_text(layout) ==> has_its_reason(layout, after) && has_room(
                layout,
                after.state.line.clusters.start as int,
                after.state.cluster_idx as int,
                limit as int,
            )
        }),
    decreases layout.clusters_before(count.state.item_idx + 1) - count.state.cluster_idx,
{
    let item = count.state.item_idx as int;
    let cursor = count.state.cluster_idx as int;
    let run = layout.items@[item].index as int;
    coverage::lemma_run_bounds(layout, item);
    layout.lemma_clusters_before_bound(item + 1);
    let bound = layout.shaped_text.runs@[run].clusters.end as int;
    if cursor < bound && count.chars < limit {
        layout.shaped_text.lemma_atom_end(cursor, bound);
        let end = layout.shaped_text.atom_end(cursor, bound);
        let start = count.state.line.clusters.start as int;
        let first = count.state.line.items.start as int;
        let info = scan::atom_info(layout, run, cursor);
        let next = count.with_atom(layout, info);
        lemma_characters(layout, cursor, end);
        lemma_characters(layout, start, end);
        lemma_characters_adjacent(layout, start, cursor, end);
        lemma_boxes_are_few(layout, first, item);
        coverage::lemma_aligned_count_of_run(layout, count, run, limit);
        assert(next.state.cluster_idx == end);
        if is_all_text(layout) {
            lemma_no_boxes(layout, first, item);
            assert forall|at: int| start < at < end && #[trigger] starts_atom(
                layout,
                at,
            ) implies characters_between(layout, start, at) < limit by {
                if at > cursor {
                    lemma_atom_is_whole(layout, cursor, bound, at);
                }
            }
            assert forall|later: int| cursor < later < end implies !#[trigger] starts_atom(
                layout,
                later,
            ) by {
                lemma_atom_is_whole(layout, cursor, bound, later);
            }
            assert(next.reason == reason_at(layout, cursor));
        }
        lemma_counted_run(layout, next, limit);
    }
}

proof fn lemma_counted_items<T: Scalar>(layout: LayoutData<T>, count: Count<T>, limit: u32)
    requires
        layout.wf(),
        can_count(layout),
        has_counted(layout, count),
        !count.full,
        is_all_text(layout) ==> has_its_reason(layout, count) && has_room(
            layout,
            count.state.line.clusters.start as int,
            count.state.cluster_idx as int,
            limit as int,
        ),
    ensures
        ({
            let after = count.with_items(layout, count.state.item_idx as int, limit);
            &&& has_counted(layout, after)
            &&& after.state.line.clusters.start == count.state.line.clusters.start
            &&& after.state.line.items.start == count.state.line.items.start
            &&& after.full ==> after.chars >= limit
            &&& !after.full ==> after.state.item_idx == layout.items@.len()
            &&& is_all_text(layout) ==> has_its_reason(layout, after) && has_room(
                layout,
                after.state.line.clusters.start as int,
                after.state.cluster_idx as int,
                limit as int,
            )
        }),
    decreases layout.items@.len() - count.state.item_idx,
{
    let item = count.state.item_idx as int;
    if item < layout.items@.len() {
        assert(layout.item_wf(item));
        if count.chars >= limit && !char_scan::can_follow(layout, item) {
        } else if layout.spec_is_text(item) {
            let run = layout.items@[item].index as int;
            coverage::lemma_run_bounds(layout, item);
            lemma_counted_run(layout, count, limit);
            let filled = count.with_run(layout, run, count.state.cluster_idx as int, limit);
            if !filled.full {
                let next = Count { state: scan::after_run(filled.state), ..filled };
                lemma_counted_items(layout, next, limit);
            }
        } else {
            let line = count.state.line;
            let end = line.items.end as int;
            let start = line.clusters.start as int;
            layout.lemma_clusters_before_monotone(end, end + 1);
            layout.lemma_clusters_before_monotone(end, item);
            lemma_boxes_are_few(layout, line.items.start as int, item);
            layout.lemma_clusters_before_bound(end);
            if start < line.clusters.end {
                lemma_characters(layout, start, line.clusters.end as int);
            }
            lemma_counted_items(layout, count.with_box(layout, item), limit);
        }
    }
}

/// A line of a number of characters holds as many characters and atomic boxes at
/// least, unless it is the last. A line of text goes on to the end of the grapheme
/// on which it has them, and no further; it is broken explicitly if that is a
/// forced break.
pub proof fn lemma_counted_line_holds_its_characters<T: Scalar>(
    layout: LayoutData<T>,
    progress: Progress<T>,
    max_chars: u32,
)
    requires
        layout.wf(),
        can_count(layout),
        !progress.done,
        line_is_aligned(
            layout,
            progress.state.line,
            progress.state.item_idx as int,
            progress.state.cluster_idx as int,
        ),
        progress.state.line.clusters.start == progress.state.cluster_idx,
        progress.state.line.items.start <= progress.state.item_idx,
        atomic_boxes_between(
            layout,
            progress.state.line.items.start as int,
            progress.state.item_idx as int,
        ) == 0,
    ensures
        ({
            let limit: int = if max_chars == 0 {
                1
            } else {
                max_chars as int
            };
            let next = progress.next_with_length(layout, max_chars);
            let start = progress.state.cluster_idx as int;
            let end = next.state.cluster_idx as int;
            let first = progress.state.line.items.start as int;
            let last = next.state.item_idx as int;
            let reason = next.lines.last().break_reason;
            &&& start <= end
            &&& !next.done ==> characters_between(layout, start, end) + atomic_boxes_between(
                layout,
                first,
                last,
            ) >= limit
            &&& next.done ==> last == layout.items@.len() && reason == BreakReason::NoBreak
            &&& is_all_text(layout) ==> has_room(layout, start, end, limit)
            &&& is_all_text(layout) && !next.done && start < end ==> exists|at: int|
                #![trigger reason_at(layout, at)]
                start <= at < end && reason == reason_at(layout, at) && forall|later: int|
                    at < later < end ==> !#[trigger] starts_atom(layout, later)
        }),
{
    let limit: u32 = if max_chars == 0 {
        1
    } else {
        max_chars
    };
    let count = Count {
        state: progress.state,
        chars: 0,
        reason: BreakReason::Regular,
        full: false,
    };
    lemma_counted_items(layout, count, limit);
}

} // verus!
