//! Lines of a number of characters.

use crate::layout::box_lines;
use crate::layout::break_lines::Progress;
use crate::layout::char_scan::Count;
use crate::layout::commit;
use crate::layout::coverage;
use crate::layout::data::{BreakReason, LayoutData, LineItemData};
use crate::layout::extent;
use crate::layout::plain_lines;
use crate::layout::scan;
use crate::layout::shaped::Span;
use crate::layout::state::BreakerState;
use crate::scalar::Scalar;
use vstd::prelude::*;

verus! {

/// A paragraph of text alone, in which every atom is one cluster of one
/// character.
pub open spec fn has_single_characters<T: Scalar>(layout: LayoutData<T>) -> bool {
    &&& forall|item: int| 0 <= item < layout.items@.len() ==> #[trigger] layout.spec_is_text(item)
    &&& forall|i: int|
        0 <= i < layout.shaped_text.clusters@.len() ==> {
            let cluster = #[trigger] layout.shaped_text.clusters@[i];
            cluster.grapheme_start && cluster.chars.end == cluster.chars.start + 1
        }
}

/// The number of characters of the paragraph.
pub open spec fn length_of<T: Scalar>(layout: LayoutData<T>) -> int {
    layout.clusters_before(layout.items@.len() as int)
}

/// The next cluster is in the next item, or both are past the end.
pub open spec fn is_in_place<T: Scalar>(layout: LayoutData<T>, state: BreakerState<T>) -> bool {
    let item = state.item_idx as int;
    &&& item <= layout.items@.len()
    &&& layout.clusters_before(item) <= state.cluster_idx
    &&& if item < layout.items@.len() {
        state.cluster_idx < layout.clusters_before(item + 1)
    } else {
        state.cluster_idx == length_of(layout)
    }
}

proof fn lemma_counted_run<T: Scalar>(
    layout: LayoutData<T>,
    count: Count<T>,
    item: int,
    limit: u32,
)
    requires
        layout.wf(),
        has_single_characters(layout),
        0 <= item < layout.items@.len(),
        layout.clusters_before(item) <= count.state.cluster_idx <= layout.clusters_before(
            item + 1,
        ),
        count.chars <= limit,
        !count.full,
    ensures
        ({
            let run = layout.items@[item].index as int;
            let cursor = count.state.cluster_idx as int;
            let after = count.with_run(layout, run, cursor, limit);
            let left = layout.clusters_before(item + 1) - cursor;
            let room = limit - count.chars;
            &&& after.state.item_idx == count.state.item_idx
            &&& after.full == (left > room)
            &&& after.full ==> after.chars == limit && after.state.cluster_idx == cursor + room
            &&& !after.full ==> after.chars == count.chars + left && after.state.cluster_idx
                == cursor + left
        }),
    decreases layout.clusters_before(item + 1) - count.state.cluster_idx,
{
    let run = layout.items@[item].index as int;
    let cursor = count.state.cluster_idx as int;
    coverage::lemma_run_bounds(layout, item);
    layout.lemma_clusters_before_bound(item + 1);
    let bound = layout.shaped_text.runs@[run].clusters.end as int;
    if cursor < bound && count.chars < limit {
        layout.shaped_text.lemma_atom_end(cursor, bound);
        if cursor + 1 < bound {
            assert(layout.shaped_text.clusters@[cursor + 1].grapheme_start);
        }
        assert(layout.shaped_text.atom_end(cursor, bound) == cursor + 1);
        assert(layout.shaped_text.clusters@[cursor].chars.end
            == layout.shaped_text.clusters@[cursor].chars.start + 1);
        let next = count.with_atom(layout, scan::atom_info(layout, run, cursor));
        assert(next.chars == count.chars + 1);
        assert(next.state.cluster_idx == cursor + 1);
        lemma_counted_run(layout, next, item, limit);
    }
}

proof fn lemma_counted_items<T: Scalar>(layout: LayoutData<T>, count: Count<T>, limit: u32)
    requires
        layout.wf(),
        has_single_characters(layout),
        is_in_place(layout, count.state),
        count.chars <= limit,
        !count.full,
    ensures
        ({
            let cursor = count.state.cluster_idx as int;
            let after = count.with_items(layout, count.state.item_idx as int, limit);
            let left = length_of(layout) - cursor;
            let room = limit - count.chars;
            &&& is_in_place(layout, after.state)
            &&& after.full == (left > room)
            &&& after.full ==> after.chars == limit && after.state.cluster_idx == cursor + room
            &&& !after.full ==> after.chars == count.chars + left && after.state.cluster_idx
                == cursor + left
        }),
    decreases layout.items@.len() - count.state.item_idx,
{
    let item = count.state.item_idx as int;
    let cursor = count.state.cluster_idx as int;
    if item < layout.items@.len() {
        assert(layout.spec_is_text(item));
        assert(layout.item_wf(item));
        layout.lemma_clusters_before_monotone(item + 1, layout.items@.len() as int);
        let run = layout.items@[item].index as int;
        coverage::lemma_run_bounds(layout, item);
        if count.chars < limit {
            lemma_counted_run(layout, count, item, limit);
            let filled = count.with_run(layout, run, cursor, limit);
            if !filled.full {
                let next = Count { state: scan::after_run(filled.state), ..filled };
                if item + 1 < layout.items@.len() {
                    assert(layout.spec_is_text(item + 1));
                    coverage::lemma_run_bounds(layout, item + 1);
                }
                lemma_counted_items(layout, next, limit);
            }
        }
    }
}

impl<T: Scalar> Progress<T> {
    /// The breaker after a number of calls that each break a line of the same
    /// number of characters.
    #[verifier::opaque]
    pub open spec fn after_counts(self, layout: LayoutData<T>, max_chars: u32, calls: nat) -> Self
        decreases calls,
    {
        if calls == 0 {
            self
        } else {
            self.after_counts(layout, max_chars, (calls - 1) as nat).next_with_length(
                layout,
                max_chars,
            )
        }
    }
}

proof fn lemma_first_count<T: Scalar>(layout: LayoutData<T>, max_chars: u32)
    ensures
        Progress::start(layout).after_counts(layout, max_chars, 0) == Progress::start(layout),
{
    reveal(Progress::after_counts);
}

proof fn lemma_next_count<T: Scalar>(layout: LayoutData<T>, max_chars: u32, calls: nat)
    ensures
        Progress::start(layout).after_counts(layout, max_chars, calls + 1) == Progress::start(
            layout,
        ).after_counts(layout, max_chars, calls).next_with_length(layout, max_chars),
{
    reveal(Progress::after_counts);
}

/// A line of a number of characters holds exactly as many of them, or the rest
/// of the paragraph if there are no more, which ends it.
pub proof fn lemma_counted_line_is_full<T: Scalar>(
    layout: LayoutData<T>,
    progress: Progress<T>,
    max_chars: u32,
)
    requires
        layout.wf(),
        has_single_characters(layout),
        is_in_place(layout, progress.state),
        !progress.done,
    ensures
        ({
            let limit: u32 = if max_chars == 0 {
                1
            } else {
                max_chars
            };
            let next = progress.next_with_length(layout, max_chars);
            let left = length_of(layout) - progress.state.cluster_idx;
            &&& next.done == (left <= limit)
            &&& next.lines.len() == progress.lines.len() + 1
            &&& is_in_place(layout, next.state)
            &&& next.state.cluster_idx == progress.state.cluster_idx + if left <= limit {
                left
            } else {
                limit as int
            }
            &&& next.state.line.clusters.start == next.state.cluster_idx
        }),
{
    let limit: u32 = if max_chars == 0 {
        1
    } else {
        max_chars
    };
    lemma_counted_items(
        layout,
        Count { state: progress.state, chars: 0, reason: BreakReason::Regular, full: false },
        limit,
    );
}

/// Text of `n` characters breaks into lines of `k` of them: each call breaks a
/// line until the paragraph is done, which is after `n / k` lines, rounded up,
/// and after one line at least. Every line but the last holds exactly `k`
/// characters, and the last one the rest. White space and line breaks count
/// like other characters. Further calls change nothing.
pub proof fn lemma_counted_lines<T: Scalar>(layout: LayoutData<T>, max_chars: u32, calls: nat)
    requires
        layout.wf(),
        has_single_characters(layout),
    ensures
        ({
            let k: int = if max_chars == 0 {
                1
            } else {
                max_chars as int
            };
            let n = length_of(layout);
            let progress = Progress::start(layout).after_counts(layout, max_chars, calls);
            // Whether each of the calls breaks a line.
            let breaks = calls <= 1 || (calls - 1) * k < n;
            &&& progress.done == (calls > 0 && calls * k >= n)
            &&& breaks ==> progress.lines.len() == calls && progress.state.line.clusters.start
                == if calls * k < n {
                calls * k
            } else {
                n
            }
            &&& progress.done ==> progress.next_with_length(layout, max_chars) == progress
        }),
    decreases calls,
{
    lemma_counted_progress(layout, max_chars, calls);
}

proof fn lemma_counted_progress<T: Scalar>(layout: LayoutData<T>, max_chars: u32, calls: nat)
    requires
        layout.wf(),
        has_single_characters(layout),
    ensures
        ({
            let k: int = if max_chars == 0 {
                1
            } else {
                max_chars as int
            };
            let n = length_of(layout);
            let progress = Progress::start(layout).after_counts(layout, max_chars, calls);
            let breaks = calls <= 1 || (calls - 1) * k < n;
            let start = if calls * k < n {
                calls * k
            } else {
                n
            };
            &&& progress.done == (calls > 0 && calls * k >= n)
            &&& breaks ==> progress.lines.len() == calls && progress.state.line.clusters.start
                == start
            &&& !progress.done ==> is_in_place(layout, progress.state)
                && progress.state.cluster_idx == start
        }),
    decreases calls,
{
    let k: int = if max_chars == 0 {
        1
    } else {
        max_chars as int
    };
    let n = length_of(layout);
    layout.lemma_clusters_before_monotone(0, layout.items@.len() as int);
    if calls == 0 {
        lemma_first_count(layout, max_chars);
        assert(calls * k == 0) by (nonlinear_arith)
            requires
                calls == 0,
        ;
        if layout.items@.len() > 0 {
            assert(layout.spec_is_text(0));
            coverage::lemma_run_bounds(layout, 0);
            layout.lemma_clusters_before_monotone(1, layout.items@.len() as int);
        }
    } else {
        let before = (calls - 1) as nat;
        lemma_counted_progress(layout, max_chars, before);
        lemma_next_count(layout, max_chars, before);
        let progress = Progress::start(layout).after_counts(layout, max_chars, before);
        assert(calls * k == before * k + k) by (nonlinear_arith)
            requires
                calls == before + 1,
        ;
        if before == 0 {
            assert(before * k == 0) by (nonlinear_arith)
                requires
                    before == 0,
            ;
        } else {
            assert(before * k == (before - 1) * k + k) by (nonlinear_arith);
        }
        if !progress.done {
            lemma_counted_line_is_full(layout, progress, max_chars);
        }
    }
}

// ---------------------------------------------------------------------------
// The text of the lines.

/// The items of the line of characters that is broken next, as they are
/// committed, after those of the lines before it.
#[verifier::opaque]
pub open spec fn counted_items<T: Scalar>(
    layout: LayoutData<T>,
    progress: Progress<T>,
    max_chars: u32,
) -> Seq<LineItemData<T>> {
    let limit: u32 = if max_chars == 0 {
        1
    } else {
        max_chars
    };
    let filled = Count {
        state: progress.state,
        chars: 0,
        reason: BreakReason::Regular,
        full: false,
    }.with_items(layout, progress.state.item_idx as int, limit);
    let line = if filled.full {
        filled.state.line
    } else {
        progress.at_end(filled.state).state.line
    };
    commit::commit_of_line(layout, line, progress.items).items
}

/// The line that is filled next keeps all text.
#[verifier::opaque]
spec fn is_ready<T: Scalar>(layout: LayoutData<T>, progress: Progress<T>) -> bool {
    let state = progress.state;
    let item = state.item_idx as int;
    let cluster = state.cluster_idx as int;
    &&& coverage::line_is_aligned(layout, state.line, item, cluster)
    &&& box_lines::line_is_in_place(layout, state.line, item, cluster)
}

proof fn lemma_start_is_ready<T: Scalar>(layout: LayoutData<T>)
    requires
        layout.wf(),
    ensures
        is_ready(layout, Progress::start(layout)),
{
    reveal(is_ready);
    layout.lemma_clusters_before_monotone(0, 1);
}

/// The line of characters that is broken next, before it is finished, and its
/// reason.
spec fn counted_line<T: Scalar>(
    layout: LayoutData<T>,
    progress: Progress<T>,
    limit: u32,
) -> (Progress<T>, BreakReason) {
    let filled = Count {
        state: progress.state,
        chars: 0,
        reason: BreakReason::Regular,
        full: false,
    }.with_items(layout, progress.state.item_idx as int, limit);
    let begun = Progress { prev_state: Some(progress.state), ..progress };
    if filled.full {
        (Progress { state: filled.state, ..begun }, filled.reason)
    } else {
        (begun.at_end(filled.state), BreakReason::NoBreak)
    }
}

proof fn lemma_counted_line_can_finish<T: Scalar>(
    layout: LayoutData<T>,
    progress: Progress<T>,
    limit: u32,
)
    requires
        layout.wf(),
        has_single_characters(layout),
        layout.items@.len() > 0,
        is_ready(layout, progress),
        counted_items(layout, progress, limit).len() < usize::MAX,
        limit > 0,
    ensures
        ({
            let line = counted_line(layout, progress, limit).0;
            &&& plain_lines::can_finish(layout, line)
            &&& line.state.line.clusters.start == progress.state.line.clusters.start
            &&& line.state.line.clusters.end == line.state.cluster_idx
            &&& line.lines == progress.lines
        }),
{
    reveal(is_ready);
    reveal(counted_items);
    let start = Count {
        state: progress.state,
        chars: 0,
        reason: BreakReason::Regular,
        full: false,
    };
    coverage::lemma_aligned_count(layout, start, limit);
    box_lines::lemma_count_in_place(layout, start, limit);
    assert(layout.has_no_atomic_boxes());
    let filled = start.with_items(layout, progress.state.item_idx as int, limit);
    let line = filled.state.line;
    let last = line.items.end - 1;
    if 0 <= last < layout.items@.len() {
        assert(layout.spec_is_text(last));
        coverage::lemma_run_bounds(layout, last);
    }
    layout.lemma_clusters_before_monotone(line.items.end as int, layout.items@.len() as int);
}

proof fn lemma_counted_is_ready<T: Scalar>(
    layout: LayoutData<T>,
    progress: Progress<T>,
    max_chars: u32,
)
    requires
        layout.wf(),
        !progress.done,
        is_ready(layout, progress),
    ensures
        ({
            let next = progress.next_with_length(layout, max_chars);
            !next.done ==> is_ready(layout, next)
        }),
{
    reveal(is_ready);
    coverage::lemma_counted_lines_hold_all_text(layout, progress, max_chars);
    box_lines::lemma_counted_lines_hold_all_boxes(layout, progress, max_chars);
}

/// The line of a paragraph without items stands at the end of the text.
proof fn lemma_counted_text_of_nothing<T: Scalar>(
    layout: LayoutData<T>,
    progress: Progress<T>,
    max_chars: u32,
)
    requires
        layout.items@.len() == 0,
        !progress.done,
        is_ready(layout, progress),
        progress.items.len() < usize::MAX,
    ensures
        ({
            let next = progress.next_with_length(layout, max_chars);
            &&& next.lines.drop_last() == progress.lines
            &&& next.lines.len() > 0
            &&& next.lines.last().text_range == extent::text_between(
                layout,
                progress.state.line.clusters.start as int,
                next.state.line.clusters.start as int,
            )
        }),
{
    reveal(is_ready);
    let next = progress.next_with_length(layout, max_chars);
    assert(next.lines.drop_last() =~= progress.lines);
}

/// A line of characters has the text of its clusters.
proof fn lemma_counted_text<T: Scalar>(
    layout: LayoutData<T>,
    progress: Progress<T>,
    max_chars: u32,
)
    requires
        layout.wf(),
        has_single_characters(layout),
        extent::text_is_in_order(layout),
        !progress.done,
        is_ready(layout, progress),
        counted_items(layout, progress, max_chars).len() < usize::MAX,
    ensures
        ({
            let next = progress.next_with_length(layout, max_chars);
            &&& next.lines.drop_last() == progress.lines
            &&& next.lines.len() > 0
            &&& next.lines.last().text_range == extent::text_between(
                layout,
                progress.state.line.clusters.start as int,
                next.state.line.clusters.start as int,
            )
        }),
{
    let limit: u32 = if max_chars == 0 {
        1
    } else {
        max_chars
    };
    assert(counted_items(layout, progress, limit) == counted_items(layout, progress, max_chars))
        by {
        reveal(counted_items);
    }
    if layout.items@.len() == 0 {
        assert(progress.items.len() < usize::MAX) by {
            reveal(counted_items);
            reveal(is_ready);
        }
        lemma_counted_text_of_nothing(layout, progress, max_chars);
    } else {
        assert(plain_lines::is_text_alone(layout));
        lemma_counted_line_can_finish(layout, progress, limit);
        let (line, reason) = counted_line(layout, progress, limit);
        let indent = progress.indent(layout);
        plain_lines::lemma_line_has_its_text(layout, line, reason, T::spec_largest(), indent);
        assert(progress.next_with_length(layout, max_chars) == line.with_line(
            layout,
            reason,
            T::spec_largest(),
            indent,
        ));
    }
}

/// The items of every line that a number of calls break can be indexed.
pub open spec fn counted_items_fit<T: Scalar>(
    layout: LayoutData<T>,
    max_chars: u32,
    calls: nat,
) -> bool {
    forall|call: nat|
        call < calls ==> counted_items(
            layout,
            #[trigger] Progress::start(layout).after_counts(layout, max_chars, call),
            max_chars,
        ).len() < usize::MAX
}

/// The text of the characters from `i * k` on, `k` of them or as many as are
/// left.
pub open spec fn text_of_line<T: Scalar>(layout: LayoutData<T>, k: int, i: int) -> Span {
    let n = length_of(layout);
    extent::text_between(
        layout,
        i * k,
        if (i + 1) * k < n {
            (i + 1) * k
        } else {
            n
        },
    )
}

/// The text ranges of lines of `k` characters tile the text: the line at `i`
/// has the text of the characters from `i * k` on, `k` of them or as many as are
/// left.
pub proof fn lemma_counted_text_ranges<T: Scalar>(
    layout: LayoutData<T>,
    max_chars: u32,
    calls: nat,
)
    requires
        layout.wf(),
        has_single_characters(layout),
        extent::text_is_in_order(layout),
        counted_items_fit(layout, max_chars, calls),
    ensures
        ({
            let k: int = if max_chars == 0 {
                1
            } else {
                max_chars as int
            };
            let lines = Progress::start(layout).after_counts(layout, max_chars, calls).lines;
            forall|i: int|
                0 <= i < lines.len() ==> (#[trigger] lines[i]).text_range == text_of_line(
                    layout,
                    k,
                    i,
                )
        }),
{
    lemma_counted_ranges(layout, max_chars, calls);
}

proof fn lemma_counted_range<T: Scalar>(layout: LayoutData<T>, max_chars: u32, calls: nat)
    requires
        layout.wf(),
        has_single_characters(layout),
        extent::text_is_in_order(layout),
        ({
            let progress = Progress::start(layout).after_counts(layout, max_chars, calls);
            &&& !progress.done
            &&& is_ready(layout, progress)
            &&& counted_items(layout, progress, max_chars).len() < usize::MAX
        }),
    ensures
        ({
            let k: int = if max_chars == 0 {
                1
            } else {
                max_chars as int
            };
            let progress = Progress::start(layout).after_counts(layout, max_chars, calls);
            let next = Progress::start(layout).after_counts(layout, max_chars, calls + 1);
            &&& progress.lines.len() == calls
            &&& next.lines.drop_last() == progress.lines
            &&& next.lines.len() == calls + 1
            &&& next.lines.last().text_range == text_of_line(layout, k, calls as int)
            &&& !next.done ==> is_ready(layout, next)
        }),
{
    let k: int = if max_chars == 0 {
        1
    } else {
        max_chars as int
    };
    let progress = Progress::start(layout).after_counts(layout, max_chars, calls);
    let next = progress.next_with_length(layout, max_chars);
    lemma_next_count(layout, max_chars, calls);
    lemma_counted_progress(layout, max_chars, calls);
    lemma_counted_progress(layout, max_chars, calls + 1);
    lemma_counted_text(layout, progress, max_chars);
    lemma_counted_is_ready(layout, progress, max_chars);
    layout.lemma_clusters_before_monotone(0, layout.items@.len() as int);
    assert(calls > 0 ==> (calls - 1) * k < calls * k) by (nonlinear_arith)
        requires
            k > 0,
    ;
    assert(calls == 0 ==> calls * k == 0) by (nonlinear_arith);
}

/// Once the paragraph is done nothing changes.
proof fn lemma_counts_end<T: Scalar>(layout: LayoutData<T>, max_chars: u32, calls: nat)
    requires
        Progress::start(layout).after_counts(layout, max_chars, calls).done,
    ensures
        Progress::start(layout).after_counts(layout, max_chars, calls + 1) == Progress::start(
            layout,
        ).after_counts(layout, max_chars, calls),
{
    lemma_next_count(layout, max_chars, calls);
}

proof fn lemma_counted_ranges<T: Scalar>(layout: LayoutData<T>, max_chars: u32, calls: nat)
    requires
        layout.wf(),
        has_single_characters(layout),
        extent::text_is_in_order(layout),
        counted_items_fit(layout, max_chars, calls),
    ensures
        ({
            let k: int = if max_chars == 0 {
                1
            } else {
                max_chars as int
            };
            let progress = Progress::start(layout).after_counts(layout, max_chars, calls);
            let lines = progress.lines;
            &&& !progress.done ==> is_ready(layout, progress)
            &&& forall|i: int|
                0 <= i < lines.len() ==> (#[trigger] lines[i]).text_range == text_of_line(
                    layout,
                    k,
                    i,
                )
        }),
    decreases calls,
{
    let k: int = if max_chars == 0 {
        1
    } else {
        max_chars as int
    };
    let start = Progress::start(layout);
    if calls == 0 {
        lemma_start_is_ready(layout);
        lemma_first_count(layout, max_chars);
    } else {
        let before = (calls - 1) as nat;
        let progress = start.after_counts(layout, max_chars, before);
        let next = start.after_counts(layout, max_chars, calls);
        lemma_counted_ranges(layout, max_chars, before);
        if progress.done {
            lemma_counts_end(layout, max_chars, before);
        } else {
            lemma_counted_range(layout, max_chars, before);
            assert forall|i: int| 0 <= i < next.lines.len() implies (
            #[trigger] next.lines[i]).text_range == text_of_line(layout, k, i) by {
                if i < progress.lines.len() {
                    assert(next.lines[i] == next.lines.drop_last()[i]);
                } else {
                    assert(next.lines[i] == next.lines.last());
                }
            }
        }
    }
}

} // verus!
