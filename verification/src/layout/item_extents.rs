//! The items of a line have the extents of what they hold.

use crate::inline_box::InlineBoxKind;
use crate::layout::advances;
use crate::layout::advances::{is_in_text, keeps_white_space};
use crate::layout::box_lines;
use crate::layout::break_lines::{Progress, YieldData};
use crate::layout::commit;
use crate::layout::commit::Commit;
use crate::layout::coverage;
use crate::layout::data::{BreakReason, LayoutData, LayoutItemKind, LineItemData};
use crate::layout::finish_line;
use crate::layout::lengths;
use crate::layout::lengths::{cluster_steps, has_whole_breaks, lengths_fit};
use crate::layout::line_items;
use crate::layout::reorder;
use crate::layout::scan;
use crate::layout::scan::Flow;
use crate::layout::shaped::Whitespace;
use crate::layout::state::LineState;
use crate::layout::trailing::Trailing;
use crate::scalar::Fixed;
use crate::style::{TextWrapMode, WhiteSpaceCollapse};
use vstd::prelude::*;

verus! {

/// The character is white space that would not count at the end of a line.
pub open spec fn is_ignorable(layout: LayoutData<Fixed>, character: int) -> bool {
    let data = layout.shaped_text.characters@[character];
    let style = layout.styles@[data.style_index as int];
    let collapse = style.white_space_collapse;
    &&& data.whitespace == Whitespace::Space || data.whitespace == Whitespace::Tab
        || data.whitespace == Whitespace::Newline
    &&& collapse != WhiteSpaceCollapse::BreakSpaces
    &&& style.text_wrap_mode == TextWrapMode::Wrap || collapse == WhiteSpaceCollapse::Collapse
        || collapse == WhiteSpaceCollapse::PreserveBreaks
}

/// An item of text is as long as its clusters together, and ignorable if all its
/// characters are. An atomic box or an inline edge is as long as it is wide; other
/// boxes have no length.
pub open spec fn has_its_extent(layout: LayoutData<Fixed>, item: LineItemData<Fixed>) -> bool {
    let clusters = item.shaped_cluster_range;
    let first = layout.shaped_text.clusters@[clusters.start as int].chars.start;
    let last = layout.shaped_text.clusters@[clusters.end - 1].chars.end;
    let inline_box = layout.inline_boxes@[item.index as int];
    if item.kind == LayoutItemKind::TextRun {
        &&& item.advance.steps == cluster_steps(
            layout,
            clusters.start as int,
            clusters.end as int,
        )
        &&& clusters.start < clusters.end ==> item.is_ignorable_whitespace == forall|c: int|
            first <= c < last ==> #[trigger] is_ignorable(layout, c)
    } else {
        &&& !item.is_ignorable_whitespace
        &&& item.advance.steps == match inline_box.kind {
            InlineBoxKind::InFlow
            | InlineBoxKind::StartBoundary
            | InlineBoxKind::EndBoundary => inline_box.width.steps as int,
            _ => 0,
        }
    }
}

proof fn lemma_cluster_steps_adjacent(layout: LayoutData<Fixed>, from: int, at: int, to: int)
    requires
        from <= at <= to,
    ensures
        cluster_steps(layout, from, to) == cluster_steps(layout, from, at) + cluster_steps(
            layout,
            at,
            to,
        ),
    decreases at - from,
{
    if from < at {
        lemma_cluster_steps_adjacent(layout, from + 1, at, to);
    }
}

/// The sum of the advances of clusters.
proof fn lemma_advances(layout: LayoutData<Fixed>, from: int, to: int)
    requires
        lengths_fit(layout),
        0 <= from <= to <= layout.shaped_text.clusters@.len(),
    ensures
        layout.shaped_text.advances(Fixed { steps: 0 }, from, to).steps == cluster_steps(
            layout,
            from,
            to,
        ),
{
    lengths::lemma_parts_fit(layout, 0, 0, from, to);
    lengths::lemma_advances_steps(layout, Fixed { steps: 0 }, from, to);
}

proof fn lemma_ignorable(layout: LayoutData<Fixed>, item: LineItemData<Fixed>)
    requires
        layout.wf(),
        is_in_text(layout, item),
        item.spec_is_text_run(),
        item.shaped_cluster_range.start < item.shaped_cluster_range.end,
    ensures
        ({
            let clusters = item.shaped_cluster_range;
            let first = layout.shaped_text.clusters@[clusters.start as int].chars.start;
            let last = layout.shaped_text.clusters@[clusters.end - 1].chars.end;
            item.with_ignorable(layout).is_ignorable_whitespace == forall|c: int|
                first <= c < last ==> #[trigger] is_ignorable(layout, c)
        }),
{
    let clusters = item.shaped_cluster_range;
    let start = clusters.start as int;
    let end = clusters.end - 1;
    let first = layout.shaped_text.clusters@[start].chars.start;
    let last = layout.shaped_text.clusters@[end].chars.end;
    assert(layout.shaped_text.clusters@[start].chars.start
        < layout.shaped_text.clusters@[start].chars.end);
    assert(layout.shaped_text.clusters@[end].chars.start
        < layout.shaped_text.clusters@[end].chars.end);
    assert forall|c: int| first <= c < last implies layout.removable(
        #[trigger] layout.shaped_text.characters@[c],
    ) == is_ignorable(layout, c) by {}
    if item.with_ignorable(layout).is_ignorable_whitespace {
        assert forall|c: int| first <= c < last implies #[trigger] is_ignorable(layout, c) by {
            assert(layout.removable(layout.shaped_text.characters@[c]));
        }
    }
    if forall|c: int| first <= c < last ==> #[trigger] is_ignorable(layout, c) {
        assert forall|c: int| first <= c < last implies layout.removable(
            #[trigger] layout.shaped_text.characters@[c],
        ) by {
            assert(is_ignorable(layout, c));
        }
    }
}

proof fn lemma_reset_keeps_extents(
    layout: LayoutData<Fixed>,
    items: Seq<LineItemData<Fixed>>,
    from: int,
    at: int,
    to: int,
)
    requires
        layout.wf(),
        lengths_fit(layout),
        0 <= from <= at <= to <= items.len(),
        forall|i: int|
            from <= i < to ==> is_in_text(layout, #[trigger] items[i]) && has_its_extent(
                layout,
                items[i],
            ),
    ensures
        ({
            let reset = line_items::reset_levels(layout, items, from, at, to);
            &&& to <= reset.to <= reset.items.len()
            &&& forall|i: int|
                from <= i < reset.to ==> has_its_extent(layout, #[trigger] reset.items[i])
        }),
    decreases at - from,
{
    if at > from {
        let item = items[at - 1];
        assert(is_in_text(layout, item));
        let clusters = item.shaped_cluster_range;
        let split = layout.shaped_text.whitespace_start(
            clusters.start as int,
            clusters.end as int,
        );
        if !item.spec_is_text_run() {
            lemma_reset_keeps_extents(layout, items, from, at - 1, to);
        } else {
            layout.shaped_text.lemma_whitespace_start(clusters.start as int, clusters.end as int);
            if split == clusters.end {
            } else if split == clusters.start {
                let reset = LineItemData { bidi_level: layout.base_level, ..item };
                lemma_reset_keeps_extents(layout, items.update(at - 1, reset), from, at - 1, to);
            } else {
                let head = line_items::head_of(layout, item, split);
                let tail = line_items::tail_of(layout, item, split);
                lemma_parts_have_their_extents(layout, item, split);
                let parts = items.update(at - 1, head).insert(at, tail);
                assert forall|i: int| from <= i < to + 1 implies has_its_extent(
                    layout,
                    #[trigger] parts[i],
                ) by {
                    if i > at {
                        assert(parts[i] == items[i - 1]);
                    } else if i < at - 1 {
                        assert(parts[i] == items[i]);
                    }
                }
            }
        }
    }
}

proof fn lemma_parts_have_their_extents(
    layout: LayoutData<Fixed>,
    item: LineItemData<Fixed>,
    split: int,
)
    requires
        layout.wf(),
        lengths_fit(layout),
        item.spec_is_text_run(),
        is_in_text(layout, item),
        has_its_extent(layout, item),
        item.shaped_cluster_range.start < split < item.shaped_cluster_range.end,
    ensures
        has_its_extent(layout, line_items::head_of(layout, item, split)),
        has_its_extent(layout, line_items::tail_of(layout, item, split)),
{
    let start = item.shaped_cluster_range.start as int;
    let end = item.shaped_cluster_range.end as int;
    lemma_cluster_steps_adjacent(layout, start, split, end);
    lemma_advances(layout, start, split);
    lemma_advances(layout, split, end);
    let head = line_items::head_of(layout, item, split);
    let tail = line_items::tail_of(layout, item, split);
    lemma_ignorable(layout, head);
    lemma_ignorable(layout, tail);
}

/// The committed boxes have their lengths.
spec fn boxes_have_lengths(
    layout: LayoutData<Fixed>,
    items: Seq<LineItemData<Fixed>>,
    from: int,
) -> bool {
    forall|i: int|
        from <= i < items.len() && !(#[trigger] items[i]).spec_is_text_run() ==> has_its_extent(
            layout,
            items[i],
        )
}

proof fn lemma_committed_boxes(
    layout: LayoutData<Fixed>,
    line: LineState<Fixed>,
    item: int,
    so_far: Commit<Fixed>,
    from: int,
)
    requires
        0 <= from,
        boxes_have_lengths(layout, so_far.items, from),
    ensures
        boxes_have_lengths(layout, commit::commit_items(layout, line, item, so_far).items, from),
    decreases line.items.end - item,
{
    if item < line.items.end {
        if !layout.spec_is_text(item) {
            let next = Commit {
                items: so_far.items.push(layout.committed_box(item)),
                last: LayoutItemKind::InlineBox,
                ..so_far
            };
            lemma_committed_boxes(layout, line, item + 1, next, from);
        } else if layout.nothing_left(line, item) {
            lemma_committed_boxes(layout, line, item + 1, so_far, from);
        } else {
            let next = Commit {
                items: so_far.items.push(layout.committed_text(line, item, so_far.items)),
                last: LayoutItemKind::TextRun,
                text: true,
            };
            lemma_committed_boxes(layout, line, item + 1, next, from);
        }
    }
}

proof fn lemma_ordered_extents(
    layout: LayoutData<Fixed>,
    items: Seq<LineItemData<Fixed>>,
    from: int,
)
    requires
        layout.wf(),
        lengths_fit(layout),
        0 <= from <= items.len(),
        advances::are_in_text(layout, items, from, items.len() as int),
        boxes_have_lengths(layout, items, from),
    ensures
        ({
            let to = items.len() as int;
            let (ordered, end) = finish_line::ordered_items(layout, items, from, to);
            &&& to <= end <= ordered.len()
            &&& forall|i: int| from <= i < end ==> has_its_extent(layout, #[trigger] ordered[i])
        }),
{
    let to = items.len() as int;
    let measured = line_items::measured(layout, items, from, to);
    assert forall|i: int| from <= i < to implies is_in_text(layout, #[trigger] measured[i])
        && has_its_extent(layout, measured[i]) by {
        assert(is_in_text(layout, items[i]));
        if items[i].spec_is_text_run() {
            let clusters = items[i].shaped_cluster_range;
            lemma_advances(layout, clusters.start as int, clusters.end as int);
            if clusters.start < clusters.end {
                lemma_ignorable(layout, items[i]);
            }
        }
    }
    lemma_reset_keeps_extents(layout, measured, from, to, to);
    let reset = line_items::reset_levels(layout, measured, from, to, to);
    reorder::lemma_reordered_same_items(reset.items, from, reset.to);
    let ordered = finish_line::ordered_items(layout, items, from, to).0;
    assert forall|i: int| from <= i < reset.to implies has_its_extent(
        layout,
        #[trigger] ordered[i],
    ) by {
        if ordered != reset.items {
            assert(reorder::occurs_in(ordered[i], reset.items, from, reset.to));
        }
    }
}

/// The items of a finished line.
proof fn lemma_finished_items(
    layout: LayoutData<Fixed>,
    progress: Progress<Fixed>,
    reason: BreakReason,
    max_advance: Fixed,
    indent: Fixed,
)
    requires
        layout.wf(),
        lengths_fit(layout),
        keeps_white_space(layout),
        advances::can_finish(layout, progress),
    ensures
        ({
            let next = progress.with_line(layout, reason, max_advance, indent);
            let range = next.lines.last().item_range;
            &&& progress.items.len() <= range.start <= range.end
            &&& forall|i: int|
                range.start <= i < range.end ==> has_its_extent(layout, #[trigger] next.items[i])
        }),
{
    let state = progress.state;
    let line = state.line;
    layout.lemma_clusters_before_bound(line.items.end as int);
    assert(commit::clamped(layout, line) == line);
    let items = commit::commit_of_line(layout, line, progress.items).items;
    let from = progress.items.len() as int;
    let to = items.len() as int;
    let nothing = Commit::<Fixed> {
        items: progress.items,
        last: LayoutItemKind::TextRun,
        text: false,
    };
    advances::lemma_committed_in_text(
        layout,
        line,
        state.item_idx as int,
        line.items.start as int,
        nothing,
        from,
    );
    lemma_committed_boxes(layout, line, line.items.start as int, nothing, from);
    advances::lemma_ordered_in_text(layout, items, from);
    lemma_ordered_extents(layout, items, from);
    let (ordered, end) = finish_line::ordered_items(layout, items, from, to);
    advances::lemma_nothing_is_removed(layout, Trailing::nothing(), ordered, from, end);
    let new_line = progress.new_line(layout, reason, max_advance, indent);
    let lines = progress.lines.push(new_line);
    assert(lines.last() == new_line);
    let next = progress.with_line(layout, reason, max_advance, indent);
    assert(next.lines.last() == progress.finished_line(layout, reason, max_advance, indent).line);
}

/// The items of a line have the extents of what they hold, where no white space is
/// removed. It is so of the first line, and of every line after a line.
pub proof fn lemma_items_have_their_extents(
    layout: LayoutData<Fixed>,
    progress: Progress<Fixed>,
)
    requires
        layout.wf(),
        layout.edges_hold_content(),
        lengths_fit(layout),
        has_whole_breaks(layout),
        keeps_white_space(layout),
        layout.items@.len() > 0,
        !progress.done,
        coverage::keeps_text(layout, progress.state),
        box_lines::boxes_are_in_place(layout, progress.state),
        advances::advances_are_kept(layout, progress.state),
        coverage::committed_next(layout, progress).len() < usize::MAX,
    ensures
        ({
            let (next, yielded) = progress.next(layout);
            let range = next.lines.last().item_range;
            yielded matches Some(YieldData::LineBreak(_)) ==> {
                &&& progress.items.len() <= range.start <= range.end
                &&& forall|i: int|
                    range.start <= i < range.end ==> has_its_extent(
                        layout,
                        #[trigger] next.items[i],
                    )
            }
        }),
{
    let available = progress.available(layout);
    let indent = progress.indent(layout);
    let step = scan::scan(layout, progress.state, progress.state.item_idx as int, available);
    coverage::lemma_aligned_scan(layout, progress.state, available);
    box_lines::lemma_scan_in_place(layout, progress.state, available);
    advances::lemma_scan_keeps_advance(layout, progress.state, available);
    let scanned = Progress { prev_state: Some(progress.state), state: step.state, ..progress };
    match step.flow {
        Flow::Continue => {
            let ended = scanned.at_end(step.state);
            lemma_finished_items(layout, ended, BreakReason::NoBreak, available, indent);
        },
        Flow::Break(reason) => {
            lemma_finished_items(layout, scanned, reason, available, indent);
        },
        _ => {},
    }
}

} // verus!
