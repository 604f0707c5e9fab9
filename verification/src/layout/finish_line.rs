//! Finishing a committed line: visual order, hanging white space and metrics.

use crate::layout::commit;
use crate::layout::data::{
    BreakReason, LayoutData, LayoutItemKind, LineData, LineItemData, LineMetrics,
};
use crate::layout::line_items;
use crate::layout::reorder;
use crate::layout::shaped::{ShapedText, Span};
use crate::layout::state::{BreakerState, Extents};
use crate::layout::trailing;
use crate::layout::trailing::{Trailing, TrailingScan};
use crate::scalar::Scalar;
use vstd::prelude::*;

verus! {

/// `x` kept between `low` and `high`; `high` where the two cross.
pub open spec fn spec_clamped<T: Scalar>(x: T, low: T, high: T) -> T {
    let raised = if x.spec_lt(low) {
        low
    } else {
        x
    };
    if high.spec_lt(raised) {
        high
    } else {
        raised
    }
}

fn clamped<T: Scalar>(x: T, low: T, high: T) -> (r: T)
    ensures
        r == spec_clamped(x, low, high),
{
    let raised = if x.lt(low) {
        low
    } else {
        x
    };
    if high.lt(raised) {
        high
    } else {
        raised
    }
}

/// How much of the white space at a line's end hangs. What hangs conditionally
/// hangs in full at a soft wrap, and elsewhere only as far as it does not fit.
/// What lies inward of it hangs only if it hangs in full.
pub open spec fn hanging_advance<T: Scalar>(
    reason: BreakReason,
    advance: T,
    max_advance: T,
    trailing: Trailing<T>,
) -> T {
    let conditional = match reason {
        BreakReason::Regular | BreakReason::Emergency => trailing.conditional,
        BreakReason::Explicit | BreakReason::NoBreak => spec_clamped(
            advance.spec_minus(max_advance),
            T::spec_zero(),
            trailing.conditional,
        ),
    };
    if trailing.conditional.spec_le(conditional) {
        conditional.spec_plus(trailing.unconditional)
    } else {
        conditional
    }
}

/// An item without the advance of a cluster, whose text counts as removed.
pub open spec fn without_cluster<T: Scalar>(
    layout: LayoutData<T>,
    item: LineItemData<T>,
    cluster: int,
) -> LineItemData<T> {
    let characters = layout.shaped_text.characters@;
    let chars = layout.shaped_text.clusters@[cluster].chars;
    let text = Span {
        start: characters[chars.start as int].text.start,
        end: characters[chars.end - 1].text.end,
    };
    let removed = item.removed_text_range;
    LineItemData {
        removed_text_range: if removed.start >= removed.end {
            text
        } else {
            Span {
                start: if text.start < removed.start {
                    text.start
                } else {
                    removed.start
                },
                end: if text.end > removed.end {
                    text.end
                } else {
                    removed.end
                },
            }
        },
        advance: item.advance.spec_minus(layout.shaped_text.clusters@[cluster].advance),
        ..item
    }
}

/// The items without the advance of the first `count` removed clusters.
pub open spec fn items_without<T: Scalar>(
    layout: LayoutData<T>,
    items: Seq<LineItemData<T>>,
    removed: Seq<(usize, usize)>,
    count: int,
) -> Seq<LineItemData<T>>
    decreases count,
{
    if count <= 0 {
        items
    } else {
        let rest = items_without(layout, items, removed, count - 1);
        let (item, cluster) = removed[count - 1];
        rest.update(item as int, without_cluster(layout, rest[item as int], cluster as int))
    }
}

/// The advance of the first `count` removed clusters.
pub open spec fn removed_advance<T: Scalar>(
    layout: LayoutData<T>,
    removed: Seq<(usize, usize)>,
    count: int,
) -> T
    decreases count,
{
    if count <= 0 {
        T::spec_zero()
    } else {
        removed_advance(layout, removed, count - 1).spec_plus(
            layout.shaped_text.clusters@[removed[count - 1].1 as int].advance,
        )
    }
}

/// Takes the advance of removed clusters from their items. Returns the sum of
/// these advances.
fn remove_clusters<T: Scalar>(
    layout: &LayoutData<T>,
    items: &mut Vec<LineItemData<T>>,
    removed: &Vec<(usize, usize)>,
    from: usize,
    to: usize,
) -> (r: T)
    requires
        layout.wf(),
        from <= to <= old(items)@.len(),
        commit::items_wf(*layout, old(items)@, from as int, from as int),
        forall|i: int|
            0 <= i < removed@.len() ==> from <= (#[trigger] removed@[i]).0 < to && removed@[i].1
                < layout.shaped_text.clusters@.len(),
    ensures
        final(items)@ == items_without(
            *layout,
            old(items)@,
            removed@,
            removed@.len() as int,
        ),
        r == removed_advance(*layout, removed@, removed@.len() as int),
        commit::items_wf(*layout, final(items)@, from as int, from as int),
        final(items)@.len() == old(items)@.len(),
        forall|i: int| 0 <= i < from ==> #[trigger] final(items)@[i] == old(items)@[i],
{
    let mut sum = T::zero();
    let mut i: usize = 0;
    while i < removed.len()
        invariant
            layout.wf(),
            i <= removed@.len(),
            from <= to <= items@.len(),
            items@.len() == old(items)@.len(),
            commit::items_wf(*layout, items@, from as int, from as int),
            forall|k: int|
                0 <= k < removed@.len() ==> from <= (#[trigger] removed@[k]).0 < to && removed@[k].1
                    < layout.shaped_text.clusters@.len(),
            items@ == items_without(*layout, old(items)@, removed@, i as int),
            sum == removed_advance(*layout, removed@, i as int),
            forall|k: int| 0 <= k < from ==> #[trigger] items@[k] == old(items)@[k],
        decreases removed@.len() - i,
    {
        let (index, cluster) = removed[i];
        let data = layout.shaped_text.clusters[cluster];
        proof {
            assert(layout.shaped_text.clusters@[cluster as int].chars.end
                <= layout.shaped_text.characters@.len());
            assert(commit::line_item_wf(*layout, items@[index as int]));
        }
        let start = layout.shaped_text.characters[data.chars.start].text.start;
        let end = layout.shaped_text.characters[data.chars.end - 1].text.end;
        let mut item = items[index];
        if item.removed_text_range.is_empty() {
            item.removed_text_range = Span { start, end };
        } else {
            if start < item.removed_text_range.start {
                item.removed_text_range.start = start;
            }
            if end > item.removed_text_range.end {
                item.removed_text_range.end = end;
            }
        }
        item.advance = item.advance.minus(data.advance);
        items[index] = item;
        sum = sum.plus(data.advance);
        i = i + 1;
    }
    sum
}

impl<T: Scalar> LineMetrics<T> {
    /// The metrics with the line placed at the state's position.
    pub open spec fn placed(
        self,
        state: BreakerState<T>,
        line_box: Extents<T>,
        content_box: Extents<T>,
        quantize: bool,
    ) -> Self {
        let top = T::spec_narrow(
            if quantize {
                T::spec_wide_round(state.line_y)
            } else {
                state.line_y
            },
        );
        let baseline = top.spec_plus(line_box.over);
        let bottom = baseline.spec_plus(line_box.under);
        LineMetrics {
            baseline,
            block_min_coord: top,
            block_max_coord: if quantize {
                bottom.spec_round()
            } else {
                bottom
            },
            content_block_min_coord: baseline.spec_minus(content_box.over),
            content_block_max_coord: baseline.spec_plus(content_box.under),
            inline_min_coord: state.line_x,
            inline_max_coord: state.line_x.spec_plus(state.line_max_advance),
            ..self
        }
    }

    /// The extents of the line box over and under the baseline.
    pub open spec fn line_box(self) -> Extents<T> {
        Extents {
            over: self.baseline.spec_minus(self.block_min_coord),
            under: self.block_max_coord.spec_minus(self.baseline),
        }
    }

    /// The extents of the content over and under the baseline.
    pub open spec fn content_box(self) -> Extents<T> {
        Extents {
            over: self.baseline.spec_minus(self.content_block_min_coord),
            under: self.content_block_max_coord.spec_minus(self.baseline),
        }
    }

    /// The metrics of an empty line after a line with these metrics.
    pub open spec fn of_empty_line_after(self) -> Self {
        LineMetrics {
            advance: T::spec_zero(),
            trailing_whitespace: T::spec_zero(),
            ..self
        }
    }

    fn place(
        &mut self,
        state: &BreakerState<T>,
        line_box: Extents<T>,
        content_box: Extents<T>,
        quantize: bool,
    )
        ensures
            *final(self) == old(self).placed(*state, line_box, content_box, quantize),
    {
        let top = if quantize {
            T::narrow(T::wide_round(state.line_y))
        } else {
            T::narrow(state.line_y)
        };
        self.baseline = top.plus(line_box.over);
        self.block_min_coord = top;
        let bottom = self.baseline.plus(line_box.under);
        self.block_max_coord = if quantize {
            bottom.round()
        } else {
            bottom
        };
        self.content_block_min_coord = self.baseline.minus(content_box.over);
        self.content_block_max_coord = self.baseline.plus(content_box.under);
        self.inline_min_coord = state.line_x;
        self.inline_max_coord = state.line_x.plus(state.line_max_advance);
    }
}

impl<T: Scalar> ShapedText<T> {
    /// The last of the first `count` runs that holds text.
    pub open spec fn last_run_with_text(self, count: int) -> Option<int>
        decreases count,
    {
        if count <= 0 {
            None
        } else if self.runs@[count - 1].text.start < self.runs@[count - 1].text.end {
            Some(count - 1)
        } else {
            self.last_run_with_text(count - 1)
        }
    }

    fn find_last_run_with_text(&self) -> (r: Option<usize>)
        ensures
            match self.last_run_with_text(self.runs@.len() as int) {
                Some(run) => r matches Some(found) && found == run < self.runs@.len(),
                None => r is None,
            },
    {
        let mut count: usize = self.runs.len();
        while count > 0
            invariant
                count <= self.runs@.len(),
                self.last_run_with_text(self.runs@.len() as int) == self.last_run_with_text(
                    count as int,
                ),
            decreases count,
        {
            if !self.runs[count - 1].text.is_empty() {
                return Some(count - 1);
            }
            count = count - 1;
        }
        None
    }
}

/// An empty item at the end of a run. It stands on an empty last line, so that
/// a cursor has a place there.
pub open spec fn empty_run_item<T: Scalar>(layout: LayoutData<T>, run: int) -> LineItemData<T> {
    let data = layout.shaped_text.runs@[run];
    let graphemes = layout.shaped_text.cluster_graphemes(
        data.clusters.start as int,
        data.clusters.end as int,
    ) as usize;
    LineItemData {
        kind: LayoutItemKind::TextRun,
        index: run as usize,
        bidi_level: 0,
        advance: T::spec_zero(),
        is_ignorable_whitespace: false,
        text_range: Span { start: data.text.end, end: data.text.end },
        removed_text_range: Span { start: 0, end: 0 },
        shaped_cluster_range: Span { start: data.clusters.end, end: data.clusters.end },
        grapheme_range: Span { start: graphemes, end: graphemes },
    }
}

/// A line and the line items of all lines.
pub struct Finished<T: Scalar> {
    pub line: LineData<T>,
    pub items: Seq<LineItemData<T>>,
}

/// The items of a line in visual order, with white space at its end at the
/// paragraph's level, and the end of the line's items.
pub open spec fn ordered_items<T: Scalar>(
    layout: LayoutData<T>,
    items: Seq<LineItemData<T>>,
    from: int,
    to: int,
) -> (Seq<LineItemData<T>>, int) {
    let measured = line_items::measured(layout, items, from, to);
    let reset = line_items::reset_levels(layout, measured, from, to, to);
    let reorders = line_items::has_levels(measured, from, to) || reset.changed;
    (
        if reorders && reset.to - from > 1 {
            reorder::reordered(reset.items, from, reset.to)
        } else {
            reset.items
        },
        reset.to,
    )
}

/// The line with the extent of its content, as if it had content.
pub open spec fn filled_line<T: Scalar>(
    layout: LayoutData<T>,
    line: LineData<T>,
    items: Seq<LineItemData<T>>,
    line_height: T,
) -> Finished<T> {
    let from = line.item_range.start as int;
    let to = line.item_range.end as int;
    let (ordered, end) = ordered_items(layout, items, from, to);
    let spaces = trailing::justifiable_in_items(layout, 0, ordered, from, end);
    let trailing = Trailing::nothing().with_items(layout, ordered, from, end);
    let removed = trailing.removed;
    let advance = line.metrics.advance.spec_minus(
        removed_advance(layout, removed, removed.len() as int),
    );
    Finished {
        line: LineData {
            text_range: line_items::line_text_range(layout, items, from, to),
            item_range: Span { start: from as usize, end: end as usize },
            num_spaces: if spaces > trailing.spaces {
                (spaces - trailing.spaces) as usize
            } else {
                0
            },
            metrics: LineMetrics {
                offset: T::spec_zero(),
                line_height,
                advance,
                trailing_whitespace: hanging_advance(
                    line.break_reason,
                    advance,
                    line.max_advance,
                    trailing,
                ),
                ..line.metrics
            },
            ..line
        },
        items: items_without(layout, ordered, removed, removed.len() as int),
    }
}

/// A committed line when it is finished. A line without content after another
/// line takes its height from that line; if nothing at all is on it, an empty
/// run is put there.
pub open spec fn finished_line<T: Scalar>(
    layout: LayoutData<T>,
    state: BreakerState<T>,
    previous: Option<LineMetrics<T>>,
    line: LineData<T>,
    items: Seq<LineItemData<T>>,
    line_height: T,
) -> Finished<T> {
    let filled = filled_line(layout, line, items, line_height);
    let from = line.item_range.start as int;
    let bare = line_items::is_bare(layout, items, from, line.item_range.end as int);
    match previous {
        Some(previous) if bare => {
            let metrics = previous.of_empty_line_after().placed(
                state,
                previous.line_box(),
                previous.content_box(),
                layout.quantize,
            );
            let run = layout.shaped_text.last_run_with_text(layout.shaped_text.runs@.len() as int);
            match run {
                Some(run) if filled.line.item_range.spec_is_empty() => Finished {
                    line: LineData {
                        metrics,
                        item_range: Span {
                            start: filled.items.len() as usize,
                            end: (filled.items.len() + 1) as usize,
                        },
                        ..filled.line
                    },
                    items: filled.items.push(empty_run_item(layout, run)),
                },
                _ => Finished { line: LineData { metrics, ..filled.line }, ..filled },
            }
        },
        _ => Finished {
            line: LineData {
                metrics: filled.line.metrics.placed(
                    state,
                    state.line.box_metrics.line_box,
                    state.line.box_metrics.content_box,
                    layout.quantize,
                ),
                ..filled.line
            },
            ..filled
        },
    }
}

/// The last of the lines when it is finished.
pub open spec fn finished_last_line<T: Scalar>(
    layout: LayoutData<T>,
    state: BreakerState<T>,
    lines: Seq<LineData<T>>,
    items: Seq<LineItemData<T>>,
    line_height: T,
) -> Finished<T> {
    let previous = if lines.len() > 1 {
        Some(lines[lines.len() - 2].metrics)
    } else {
        None
    };
    finished_line(layout, state, previous, lines.last(), items, line_height)
}

/// A line with content has an item.
proof fn lemma_line_has_an_item<T: Scalar>(
    layout: LayoutData<T>,
    items: Seq<LineItemData<T>>,
    from: int,
    to: int,
)
    requires
        !line_items::is_bare(layout, items, from, to),
        line_items::has_no_text(items, from, to),
    ensures
        from < to,
        !items[from].spec_is_text_run(),
{
}

/// Puts the items of a line in order. Returns the new end of the line's items.
fn order_items<T: Scalar>(
    layout: &LayoutData<T>,
    items: &mut Vec<LineItemData<T>>,
    from: usize,
    to: usize,
) -> (r: usize)
    requires
        layout.wf(),
        from <= to,
        to == old(items)@.len(),
        commit::items_wf(*layout, old(items)@, from as int, to as int),
    ensures
        final(items)@ == ordered_items(*layout, old(items)@, from as int, to as int).0,
        r == ordered_items(*layout, old(items)@, from as int, to as int).1,
        r == final(items)@.len(),
        from <= r,
        commit::items_wf(*layout, final(items)@, from as int, from as int),
        forall|i: int| 0 <= i < from ==> #[trigger] final(items)@[i] == old(items)@[i],
{
    line_items::measure_items(layout, items, from, to);
    let has_levels = line_items::find_levels(items, from, to);
    let (end, changed) = line_items::reset_trailing_levels(layout, items, from, to);
    if (has_levels || changed) && end - from > 1 {
        let ghost before = items@;
        reorder::reorder_line_items(items, from, end);
        proof {
            assert forall|i: int| 0 <= i < items@.len() implies commit::line_item_wf(
                *layout,
                #[trigger] items@[i],
            ) by {
                if from <= i < end {
                    assert(reorder::occurs_in(items@[i], before, from as int, end as int));
                } else {
                    assert(items@[i] == before[i]);
                }
            }
        }
    }
    end
}

/// Orders the items of a committed line and computes the extent of its
/// content.
fn fill_line<T: Scalar>(
    layout: &LayoutData<T>,
    line: &LineData<T>,
    items: &mut Vec<LineItemData<T>>,
    bare: bool,
    line_height: T,
) -> (r: LineData<T>)
    requires
        layout.wf(),
        line.item_range.start <= line.item_range.end,
        line.item_range.end == old(items)@.len(),
        commit::items_wf(
            *layout,
            old(items)@,
            line.item_range.start as int,
            old(items)@.len() as int,
        ),
        bare == line_items::is_bare(
            *layout,
            old(items)@,
            line.item_range.start as int,
            line.item_range.end as int,
        ),
    ensures
        r == filled_line(*layout, *line, old(items)@, line_height).line,
        final(items)@ == filled_line(*layout, *line, old(items)@, line_height).items,
        commit::items_wf(*layout, final(items)@, 0, 0),
        r.item_range.start == line.item_range.start,
        r.item_range.end == final(items)@.len(),
        line.item_range.start <= final(items)@.len(),
        forall|i: int|
            0 <= i < line.item_range.start ==> #[trigger] final(items)@[i] == old(items)@[i],
{
    let from = line.item_range.start;
    let to = line.item_range.end;
    let text_range = if bare {
        Span { start: layout.text_len, end: layout.text_len }
    } else {
        match line_items::text_hull_of(items, from, to) {
            Some(hull) => hull,
            None => {
                proof {
                    lemma_line_has_an_item(*layout, items@, from as int, to as int);
                    assert(commit::line_item_wf(*layout, items@[from as int]));
                }
                let index = layout.inline_boxes[items[from].index].index;
                let place = if index < layout.text_len {
                    index
                } else {
                    layout.text_len
                };
                Span { start: place, end: place }
            },
        }
    };
    let end = order_items(layout, items, from, to);
    let spaces = trailing::count_justifiable(layout, items, from, end);
    let trailing = TrailingScan::of_line(layout, items, from, end);
    let removed = remove_clusters(layout, items, &trailing.removed, from, end);

    let mut line = *line;
    line.text_range = text_range;
    line.item_range.end = end;
    line.num_spaces = if spaces > trailing.spaces {
        spaces - trailing.spaces
    } else {
        0
    };
    line.metrics.offset = T::zero();
    line.metrics.line_height = line_height;
    line.metrics.advance = line.metrics.advance.minus(removed);
    let conditional = match line.break_reason {
        BreakReason::Regular | BreakReason::Emergency => trailing.conditional,
        BreakReason::Explicit | BreakReason::NoBreak => clamped(
            line.metrics.advance.minus(line.max_advance),
            T::zero(),
            trailing.conditional,
        ),
    };
    line.metrics.trailing_whitespace = if trailing.conditional.le(conditional) {
        conditional.plus(trailing.unconditional)
    } else {
        conditional
    };
    line
}

/// Finishes the last line: orders its items and computes its text range, its
/// metrics and its number of justifiable spaces.
pub(crate) fn finish_line<T: Scalar>(
    layout: &LayoutData<T>,
    lines: &mut Vec<LineData<T>>,
    items: &mut Vec<LineItemData<T>>,
    state: &BreakerState<T>,
    line_height: T,
)
    requires
        layout.wf(),
        old(lines)@.len() > 0,
        old(lines)@.last().item_range.start <= old(lines)@.last().item_range.end,
        old(lines)@.last().item_range.end == old(items)@.len(),
        commit::items_wf(
            *layout,
            old(items)@,
            old(lines)@.last().item_range.start as int,
            old(items)@.len() as int,
        ),
    ensures
        ({
            let finished = finished_last_line(
                *layout,
                *state,
                old(lines)@,
                old(items)@,
                line_height,
            );
            &&& final(lines)@ == old(lines)@.update(old(lines)@.len() - 1, finished.line)
            &&& final(items)@ == finished.items
        }),
        commit::items_wf(*layout, final(items)@, 0, 0),
        old(lines)@.last().item_range.start <= final(items)@.len(),
        forall|i: int|
            0 <= i < old(lines)@.last().item_range.start ==> #[trigger] final(items)@[i] == old(
                items,
            )@[i],
{
    let index: usize = lines.len() - 1;
    let committed = lines[index];
    let bare = line_items::is_bare_line(
        layout,
        items,
        committed.item_range.start,
        committed.item_range.end,
    );
    let mut line = fill_line(layout, &committed, items, bare, line_height);
    let mut line_box = state.line.box_metrics.line_box;
    let mut content_box = state.line.box_metrics.content_box;
    if bare && index > 0 {
        let previous = lines[index - 1].metrics;
        line_box =
        Extents {
            over: previous.baseline.minus(previous.block_min_coord),
            under: previous.block_max_coord.minus(previous.baseline),
        };
        content_box =
        Extents {
            over: previous.baseline.minus(previous.content_block_min_coord),
            under: previous.content_block_max_coord.minus(previous.baseline),
        };
        line.metrics = previous;
        line.metrics.advance = T::zero();
        line.metrics.trailing_whitespace = T::zero();
        if line.item_range.is_empty() {
            if let Some(run) = layout.shaped_text.find_last_run_with_text() {
                push_empty_run(layout, items, run);
                line.item_range = Span { start: items.len() - 1, end: items.len() };
            }
        }
    }
    line.metrics.place(state, line_box, content_box, layout.quantize);
    lines[index] = line;
}

fn push_empty_run<T: Scalar>(
    layout: &LayoutData<T>,
    items: &mut Vec<LineItemData<T>>,
    run: usize,
)
    requires
        layout.wf(),
        run < layout.shaped_text.runs@.len(),
        commit::items_wf(*layout, old(items)@, 0, 0),
    ensures
        final(items)@ == old(items)@.push(empty_run_item(*layout, run as int)),
        commit::items_wf(*layout, final(items)@, 0, 0),
{
    let data = layout.shaped_text.runs[run];
    let graphemes = layout.shaped_text.count_graphemes(data.clusters.start, data.clusters.end);
    proof {
        layout.shaped_text.lemma_graphemes_before(
            data.clusters.start as int,
            data.clusters.end as int,
        );
    }
    items.push(
        LineItemData {
            kind: LayoutItemKind::TextRun,
            index: run,
            bidi_level: 0,
            advance: T::zero(),
            is_ignorable_whitespace: false,
            text_range: Span { start: data.text.end, end: data.text.end },
            removed_text_range: Span { start: 0, end: 0 },
            shaped_cluster_range: Span { start: data.clusters.end, end: data.clusters.end },
            grapheme_range: Span { start: graphemes, end: graphemes },
        },
    );
}

} // verus!
