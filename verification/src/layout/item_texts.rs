//! The items of a line have the text of their clusters.

use crate::layout::box_lines;
use crate::layout::break_lines::Progress;
use crate::layout::commit;
use crate::layout::commit::Commit;
use crate::layout::coverage;
use crate::layout::coverage::line_is_aligned;
use crate::layout::data::{BreakReason, LayoutData, LayoutItemKind, LineItemData};
use crate::layout::finish_line;
use crate::layout::line_items;
use crate::layout::reorder;
use crate::layout::scan;
use crate::layout::scan::Flow;
use crate::layout::state::LineState;
use crate::layout::trailing::Trailing;
use crate::scalar::Scalar;
use vstd::prelude::*;

verus! {

/// Neither characters nor text are left out between clusters.
#[verifier::opaque]
pub open spec fn is_contiguous<T: Scalar>(layout: LayoutData<T>) -> bool {
    let clusters = layout.shaped_text.clusters@;
    let characters = layout.shaped_text.characters@;
    &&& forall|c: int|
        0 < c < clusters.len() ==> (#[trigger] clusters[c]).chars.start == clusters[c
            - 1].chars.end
    &&& forall|i: int|
        0 < i < characters.len() ==> (#[trigger] characters[i]).text.start == characters[i
            - 1].text.end
}

/// The number of the characters `from..to` that begin a grapheme.
pub open spec fn graphemes_between<T: Scalar>(layout: LayoutData<T>, from: int, to: int) -> nat
    decreases to - from,
{
    if from >= to {
        0
    } else {
        graphemes_between(layout, from, to - 1) + if layout.shaped_text.characters@[to
            - 1].grapheme_start {
            1nat
        } else {
            0
        }
    }
}

/// The character with which the clusters from `cluster` on start, in a run.
pub open spec fn character_at<T: Scalar>(layout: LayoutData<T>, run: int, cluster: int) -> int {
    let clusters = layout.shaped_text.clusters@;
    let first = layout.shaped_text.runs@[run].clusters.start as int;
    if cluster <= first {
        clusters[first].chars.start as int
    } else {
        clusters[cluster - 1].chars.end as int
    }
}

/// An item of text has clusters of its run, at the run's level or the
/// paragraph's, and the text of these clusters. Its graphemes are those of its
/// clusters, counted from the start of the run.
pub open spec fn has_its_text<T: Scalar>(layout: LayoutData<T>, item: LineItemData<T>) -> bool {
    let text = layout.shaped_text;
    let clusters = item.shaped_cluster_range;
    let run = text.runs@[item.index as int];
    let first = text.clusters@[run.clusters.start as int].chars.start as int;
    item.kind == LayoutItemKind::TextRun ==> {
        &&& item.index < text.runs@.len()
        &&& run.clusters.start <= clusters.start <= clusters.end <= run.clusters.end
        &&& clusters.start < clusters.end ==> {
            &&& item.bidi_level == run.bidi_level || item.bidi_level == layout.base_level
            &&& item.text_range.start == text.characters@[
                text.clusters@[clusters.start as int].chars.start as int
            ].text.start
            &&& item.text_range.end == text.characters@[text.clusters@[clusters.end
                - 1].chars.end - 1].text.end
        }
        &&& item.grapheme_range.start == graphemes_between(
            layout,
            first,
            character_at(layout, item.index as int, clusters.start as int),
        )
        &&& item.grapheme_range.end == graphemes_between(
            layout,
            first,
            character_at(layout, item.index as int, clusters.end as int),
        )
    }
}

/// All items have the text of their clusters.
pub open spec fn have_their_text<T: Scalar>(
    layout: LayoutData<T>,
    items: Seq<LineItemData<T>>,
) -> bool {
    forall|i: int| 0 <= i < items.len() ==> has_its_text(layout, #[trigger] items[i])
}

proof fn lemma_contiguous<T: Scalar>(layout: LayoutData<T>, cluster: int)
    requires
        is_contiguous(layout),
        0 < cluster < layout.shaped_text.clusters@.len(),
    ensures
        layout.shaped_text.clusters@[cluster].chars.start == layout.shaped_text.clusters@[cluster
            - 1].chars.end,
{
    reveal(is_contiguous);
}

proof fn lemma_contiguous_text<T: Scalar>(layout: LayoutData<T>, character: int)
    requires
        is_contiguous(layout),
        0 < character < layout.shaped_text.characters@.len(),
    ensures
        layout.shaped_text.characters@[character].text.start
            == layout.shaped_text.characters@[character - 1].text.end,
{
    reveal(is_contiguous);
}

proof fn lemma_graphemes<T: Scalar>(layout: LayoutData<T>, from: int, to: int)
    ensures
        graphemes_between(layout, from, to) == layout.shaped_text.graphemes(from, to),
    decreases to - from,
{
    if from < to {
        lemma_graphemes(layout, from, to - 1);
    }
}

/// The graphemes of clusters, counted on from those of the clusters before them.
proof fn lemma_cluster_graphemes<T: Scalar>(
    layout: LayoutData<T>,
    run: int,
    from: int,
    to: int,
)
    requires
        layout.wf(),
        is_contiguous(layout),
        0 <= run < layout.shaped_text.runs@.len(),
        layout.shaped_text.runs@[run].clusters.start <= from <= to
            <= layout.shaped_text.runs@[run].clusters.end,
    ensures
        ({
            let start = layout.shaped_text.runs@[run].clusters.start as int;
            let first = layout.shaped_text.clusters@[start].chars.start as int;
            &&& graphemes_between(layout, first, character_at(layout, run, to))
                == graphemes_between(layout, first, character_at(layout, run, from))
                + layout.shaped_text.cluster_graphemes(from, to)
            &&& graphemes_between(layout, first, character_at(layout, run, to)) <= usize::MAX
            &&& from < to ==> character_at(layout, run, from)
                == layout.shaped_text.clusters@[from].chars.start
        }),
{
    let text = layout.shaped_text;
    let start = text.runs@[run].clusters.start as int;
    let first = text.clusters@[start].chars.start as int;
    assert(text.runs@[run].clusters.end <= text.clusters@.len());
    let a = character_at(layout, run, from);
    let b = character_at(layout, run, to);
    lemma_graphemes(layout, first, a);
    lemma_graphemes(layout, first, b);
    assert(text.clusters@[start].chars.start < text.clusters@[start].chars.end);
    if start < from {
        assert(text.clusters@[from - 1].chars.start < text.clusters@[from - 1].chars.end);
        if start < from - 1 {
            assert(text.clusters@[start].chars.end <= text.clusters@[from - 1].chars.start);
        }
    }
    if start < to {
        assert(text.clusters@[to - 1].chars.end <= text.characters@.len());
        if start < to - 1 {
            assert(text.clusters@[start].chars.end <= text.clusters@[to - 1].chars.start);
        }
    }
    if from < to {
        assert(text.clusters@[from].chars.start < text.clusters@[from].chars.end);
        if start < from {
            lemma_contiguous(layout, from);
        }
        if from < to - 1 {
            assert(text.clusters@[from].chars.end <= text.clusters@[to - 1].chars.start);
        }
        text.lemma_graphemes_split(first, a, b);
    }
    text.lemma_graphemes_bound(first, b);
    assert(text.characters.len() == text.characters@.len());
}

proof fn lemma_committed_text<T: Scalar>(
    layout: LayoutData<T>,
    line: LineState<T>,
    item_idx: int,
    item: int,
    committed: Seq<LineItemData<T>>,
)
    requires
        layout.wf(),
        is_contiguous(layout),
        line_is_aligned(layout, line, item_idx, line.clusters.end as int),
        line.items.start <= item < line.items.end <= layout.items@.len(),
        layout.spec_is_text(item),
        !layout.nothing_left(line, item),
        have_their_text(layout, committed),
    ensures
        has_its_text(layout, layout.committed_text(line, item, committed)),
{
    let run = layout.items@[item].index as int;
    let clusters = layout.committed_clusters(line, item);
    coverage::lemma_run_bounds(layout, item);
    coverage::lemma_committed_position(layout, line, item_idx, item);
    layout.lemma_clusters_before_monotone(item, line.items.end - 1);
    layout.lemma_clusters_before_monotone(item, item + 1);
    let start = layout.shaped_text.runs@[run].clusters.start as int;
    lemma_cluster_graphemes(layout, run, start, clusters.start as int);
    lemma_cluster_graphemes(layout, run, clusters.start as int, clusters.end as int);
    commit::lemma_last_text(committed, committed.len() as int);
}

proof fn lemma_committed_texts<T: Scalar>(
    layout: LayoutData<T>,
    line: LineState<T>,
    item_idx: int,
    item: int,
    so_far: Commit<T>,
)
    requires
        layout.wf(),
        is_contiguous(layout),
        line_is_aligned(layout, line, item_idx, line.clusters.end as int),
        line.items.start <= item <= line.items.end <= layout.items@.len(),
        have_their_text(layout, so_far.items),
    ensures
        have_their_text(layout, commit::commit_items(layout, line, item, so_far).items),
        so_far.items.len() <= commit::commit_items(layout, line, item, so_far).items.len(),
    decreases line.items.end - item,
{
    if item < line.items.end {
        if !layout.spec_is_text(item) {
            let next = Commit {
                items: so_far.items.push(layout.committed_box(item)),
                last: LayoutItemKind::InlineBox,
                ..so_far
            };
            lemma_committed_texts(layout, line, item_idx, item + 1, next);
        } else if layout.nothing_left(line, item) {
            lemma_committed_texts(layout, line, item_idx, item + 1, so_far);
        } else {
            lemma_committed_text(layout, line, item_idx, item, so_far.items);
            let next = Commit {
                items: so_far.items.push(layout.committed_text(line, item, so_far.items)),
                last: LayoutItemKind::TextRun,
                text: true,
            };
            lemma_committed_texts(layout, line, item_idx, item + 1, next);
        }
    }
}

proof fn lemma_parts_have_their_text<T: Scalar>(
    layout: LayoutData<T>,
    item: LineItemData<T>,
    split: int,
)
    requires
        layout.wf(),
        is_contiguous(layout),
        item.spec_is_text_run(),
        has_its_text(layout, item),
        item.shaped_cluster_range.start < split < item.shaped_cluster_range.end,
    ensures
        has_its_text(layout, line_items::head_of(layout, item, split)),
        has_its_text(layout, line_items::tail_of(layout, item, split)),
{
    let text = layout.shaped_text;
    let run = item.index as int;
    let start = item.shaped_cluster_range.start as int;
    let end = item.shaped_cluster_range.end as int;
    let last = text.runs@[run].clusters.end as int;
    lemma_cluster_graphemes(layout, run, start, split);
    lemma_cluster_graphemes(layout, run, split, end);
    assert(last <= text.clusters@.len());
    let at = text.clusters@[split].chars.start as int;
    lemma_contiguous(layout, split);
    assert(text.clusters@[split].chars.start < text.clusters@[split].chars.end);
    assert(text.clusters@[last - 1].chars.start < text.clusters@[last - 1].chars.end);
    assert(text.clusters@[split - 1].chars.start < text.clusters@[split - 1].chars.end);
    if split < last - 1 {
        assert(text.clusters@[split].chars.end <= text.clusters@[last - 1].chars.start);
    }
    assert(text.clusters@[split].chars.end <= text.characters@.len());
    lemma_contiguous_text(layout, at);
}

proof fn lemma_reset_keeps_text<T: Scalar>(
    layout: LayoutData<T>,
    items: Seq<LineItemData<T>>,
    from: int,
    at: int,
    to: int,
)
    requires
        layout.wf(),
        is_contiguous(layout),
        0 <= from <= at <= to <= items.len(),
        have_their_text(layout, items),
    ensures
        have_their_text(layout, line_items::reset_levels(layout, items, from, at, to).items),
        items.len() <= line_items::reset_levels(layout, items, from, at, to).items.len(),
        ({
            let reset = line_items::reset_levels(layout, items, from, at, to);
            &&& from <= reset.to <= reset.items.len()
            &&& reset.to <= to + 1
        }),
    decreases at - from,
{
    if at > from {
        let item = items[at - 1];
        assert(has_its_text(layout, item));
        let clusters = item.shaped_cluster_range;
        let split = layout.shaped_text.whitespace_start(
            clusters.start as int,
            clusters.end as int,
        );
        if !item.spec_is_text_run() {
            lemma_reset_keeps_text(layout, items, from, at - 1, to);
        } else {
            layout.shaped_text.lemma_whitespace_start(clusters.start as int, clusters.end as int);
            if split == clusters.end {
            } else if split == clusters.start {
                let reset = LineItemData { bidi_level: layout.base_level, ..item };
                lemma_reset_keeps_text(layout, items.update(at - 1, reset), from, at - 1, to);
            } else {
                let head = line_items::head_of(layout, item, split);
                let tail = line_items::tail_of(layout, item, split);
                lemma_parts_have_their_text(layout, item, split);
                let parts = items.update(at - 1, head).insert(at, tail);
                assert forall|i: int| 0 <= i < parts.len() implies has_its_text(
                    layout,
                    #[trigger] parts[i],
                ) by {
                    if i > at {
                        assert(parts[i] == items[i - 1]);
                    } else if i < at - 1 {
                        assert(parts[i] == items[i]);
                    }
                }
            }
        }
    }
}

proof fn lemma_ordered_texts<T: Scalar>(
    layout: LayoutData<T>,
    items: Seq<LineItemData<T>>,
    from: int,
    to: int,
)
    requires
        layout.wf(),
        is_contiguous(layout),
        0 <= from <= to <= items.len(),
        have_their_text(layout, items),
    ensures
        ({
            let (ordered, end) = finish_line::ordered_items(layout, items, from, to);
            &&& have_their_text(layout, ordered)
            &&& end <= ordered.len()
            &&& end <= to + 1
        }),
{
    let measured = line_items::measured(layout, items, from, to);
    assert forall|i: int| 0 <= i < measured.len() implies has_its_text(
        layout,
        #[trigger] measured[i],
    ) by {
        assert(has_its_text(layout, items[i]));
    }
    lemma_reset_keeps_text(layout, measured, from, to, to);
    let reset = line_items::reset_levels(layout, measured, from, to, to);
    reorder::lemma_reordered_same_items(reset.items, from, reset.to);
    let ordered = finish_line::ordered_items(layout, items, from, to).0;
    assert forall|i: int| 0 <= i < ordered.len() implies has_its_text(
        layout,
        #[trigger] ordered[i],
    ) by {
        if ordered != reset.items {
            if from <= i < reset.to {
                assert(reorder::occurs_in(ordered[i], reset.items, from, reset.to));
            } else {
                assert(ordered[i] == reset.items[i]);
            }
        }
    }
}

proof fn lemma_removal_keeps_text<T: Scalar>(
    layout: LayoutData<T>,
    items: Seq<LineItemData<T>>,
    removed: Seq<(usize, usize)>,
    count: int,
)
    requires
        have_their_text(layout, items),
        forall|i: int| 0 <= i < count ==> (#[trigger] removed[i]).0 < items.len(),
    ensures
        have_their_text(layout, finish_line::items_without(layout, items, removed, count)),
        finish_line::items_without(layout, items, removed, count).len() == items.len(),
    decreases count,
{
    if count > 0 {
        lemma_removal_keeps_text(layout, items, removed, count - 1);
        let rest = finish_line::items_without(layout, items, removed, count - 1);
        let (at, cluster) = removed[count - 1];
        let next = finish_line::items_without(layout, items, removed, count);
        if at < rest.len() {
            assert(has_its_text(layout, rest[at as int]));
            let without = finish_line::without_cluster(layout, rest[at as int], cluster as int);
            assert(has_its_text(layout, without));
            assert forall|i: int| 0 <= i < next.len() implies has_its_text(
                layout,
                #[trigger] next[i],
            ) by {
                if i != at {
                    assert(next[i] == rest[i]);
                }
            }
        }
    }
}

/// Clusters are removed from items of the line.
spec fn are_items_before<T: Scalar>(trailing: Trailing<T>, bound: int) -> bool {
    forall|i: int| 0 <= i < trailing.removed.len() ==> (#[trigger] trailing.removed[i]).0 < bound
}

proof fn lemma_removed_clusters<T: Scalar>(
    layout: LayoutData<T>,
    trailing: Trailing<T>,
    item: usize,
    from: int,
    to: int,
    backwards: bool,
    bound: int,
)
    requires
        item < bound,
        are_items_before(trailing, bound),
    ensures
        are_items_before(trailing.with_clusters(layout, item, from, to, backwards), bound),
    decreases to - from,
{
    if !trailing.ended && from < to {
        if backwards {
            let next = trailing.with_cluster(layout, item, (to - 1) as usize);
            lemma_removed_clusters(layout, next, item, from, to - 1, backwards, bound);
        } else {
            let next = trailing.with_cluster(layout, item, from as usize);
            lemma_removed_clusters(layout, next, item, from + 1, to, backwards, bound);
        }
    }
}

proof fn lemma_removed_items<T: Scalar>(
    layout: LayoutData<T>,
    trailing: Trailing<T>,
    items: Seq<LineItemData<T>>,
    from: int,
    to: int,
    bound: int,
)
    requires
        0 <= from,
        to <= bound,
        to <= usize::MAX,
        are_items_before(trailing, bound),
    ensures
        are_items_before(trailing.with_items(layout, items, from, to), bound),
    decreases to - from,
{
    if !trailing.ended && from < to {
        let item = if layout.spec_is_rtl() {
            from
        } else {
            to - 1
        };
        let data = items[item];
        lemma_removed_clusters(
            layout,
            trailing,
            item as usize,
            data.shaped_cluster_range.start as int,
            data.shaped_cluster_range.end as int,
            data.spec_is_rtl() == layout.spec_is_rtl(),
            bound,
        );
        let next = trailing.with_item(layout, items, item as usize);
        if layout.spec_is_rtl() {
            lemma_removed_items(layout, next, items, from + 1, to, bound);
        } else {
            lemma_removed_items(layout, next, items, from, to - 1, bound);
        }
    }
}

/// An empty item at the end of a run has the place of that end.
proof fn lemma_empty_item_has_its_text<T: Scalar>(layout: LayoutData<T>, run: int)
    requires
        layout.wf(),
        is_contiguous(layout),
        0 <= run < layout.shaped_text.runs@.len() <= usize::MAX,
    ensures
        has_its_text(layout, finish_line::empty_run_item(layout, run)),
{
    let clusters = layout.shaped_text.runs@[run].clusters;
    lemma_cluster_graphemes(layout, run, clusters.start as int, clusters.end as int);
}

proof fn lemma_last_run_with_text<T: Scalar>(layout: LayoutData<T>, count: int)
    requires
        0 <= count <= layout.shaped_text.runs@.len(),
    ensures
        layout.shaped_text.last_run_with_text(count) matches Some(run) ==> 0 <= run < count,
    decreases count,
{
    if count > 0 {
        lemma_last_run_with_text(layout, count - 1);
    }
}

/// The items of a finished line, with those of the lines before it.
proof fn lemma_finished_texts<T: Scalar>(
    layout: LayoutData<T>,
    progress: Progress<T>,
    reason: BreakReason,
    max_advance: T,
    indent: T,
)
    requires
        layout.wf(),
        is_contiguous(layout),
        ({
            let line = commit::clamped(layout, progress.state.line);
            line_is_aligned(
                layout,
                line,
                progress.state.item_idx as int,
                line.clusters.end as int,
            )
        }),
        commit::commit_of_line(layout, progress.state.line, progress.items).items.len()
            < usize::MAX,
        have_their_text(layout, progress.items),
    ensures
        have_their_text(
            layout,
            progress.with_line(layout, reason, max_advance, indent).items,
        ),
{
    let state = progress.state;
    let line = commit::clamped(layout, state.line);
    let items = commit::commit_of_line(layout, state.line, progress.items).items;
    layout.lemma_clusters_before_bound(line.items.end as int);
    let nothing = Commit { items: progress.items, last: LayoutItemKind::TextRun, text: false };
    lemma_committed_texts(
        layout,
        line,
        state.item_idx as int,
        line.items.start as int,
        nothing,
    );
    let from = progress.items.len() as int;
    let to = items.len() as int;
    lemma_ordered_texts(layout, items, from, to);
    let new_line = progress.new_line(layout, reason, max_advance, indent);
    let lines = progress.lines.push(new_line);
    assert(lines.last() == new_line);
    let line_height = state.line.box_metrics.spec_line_height();
    let filled = finish_line::filled_line(layout, new_line, items, line_height);
    let (ordered, end) = finish_line::ordered_items(layout, items, from, to);
    let removed = Trailing::nothing().with_items(layout, ordered, from, end).removed;
    lemma_removed_items(
        layout,
        Trailing::nothing(),
        ordered,
        from,
        end,
        ordered.len() as int,
    );
    lemma_removal_keeps_text(layout, ordered, removed, removed.len() as int);
    let count = layout.shaped_text.runs@.len() as int;
    assert(layout.shaped_text.runs.len() == count);
    lemma_last_run_with_text(layout, count);
    if let Some(run) = layout.shaped_text.last_run_with_text(count) {
        lemma_empty_item_has_its_text(layout, run);
        let pushed = filled.items.push(finish_line::empty_run_item(layout, run));
        assert(have_their_text(layout, pushed));
    }
}

/// The items of all lines have the text of their clusters, if those of the lines
/// before had it. Before the first line there are none.
pub proof fn lemma_items_have_their_text<T: Scalar>(layout: LayoutData<T>, progress: Progress<T>)
    requires
        layout.wf(),
        is_contiguous(layout),
        layout.edges_hold_content(),
        !progress.done,
        coverage::keeps_text(layout, progress.state),
        box_lines::boxes_are_in_place(layout, progress.state),
        coverage::committed_next(layout, progress).len() < usize::MAX,
        have_their_text(layout, progress.items),
    ensures
        have_their_text(layout, progress.next(layout).0.items),
{
    let available = progress.available(layout);
    let indent = progress.indent(layout);
    let step = scan::scan(layout, progress.state, progress.state.item_idx as int, available);
    coverage::lemma_aligned_scan(layout, progress.state, available);
    box_lines::lemma_scan_in_place(layout, progress.state, available);
    let scanned = Progress { prev_state: Some(progress.state), state: step.state, ..progress };
    match step.flow {
        Flow::Continue => {
            let ended = scanned.at_end(step.state);
            layout.lemma_clusters_before_bound(step.state.line.items.end as int);
            if layout.items@.len() == 0 {
                assert(commit::clamped(layout, ended.state.line) == step.state.line);
            }
            lemma_finished_texts(layout, ended, BreakReason::NoBreak, available, indent);
        },
        Flow::Break(reason) => {
            layout.lemma_clusters_before_bound(step.state.line.items.end as int);
            assert(commit::clamped(layout, step.state.line) == step.state.line);
            lemma_finished_texts(layout, scanned, reason, available, indent);
        },
        _ => {},
    }
}

} // verus!
