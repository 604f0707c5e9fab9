//! The visual order of a line, cluster by cluster.

use crate::layout::coverage;
use crate::layout::data::LineItemData;
use crate::layout::reorder;
use crate::scalar::Scalar;
use vstd::prelude::*;

verus! {

// ---------------------------------------------------------------------------
// Clusters in visual order.

/// The end of the run of clusters of at least the given level that starts at
/// `at`.
pub open spec fn cluster_run_end(levels: spec_fn(int) -> u8, level: int, at: int, to: int) -> int
    decreases to - at,
{
    if at >= to || levels(at) < level {
        at
    } else {
        cluster_run_end(levels, level, at + 1, to)
    }
}

/// A run of clusters ends past its start, inside the range.
pub proof fn lemma_cluster_run_end(levels: spec_fn(int) -> u8, level: int, at: int, to: int)
    ensures
        at <= cluster_run_end(levels, level, at, to),
        at <= to ==> cluster_run_end(levels, level, at, to) <= to,
        at < to && levels(at) >= level ==> at < cluster_run_end(levels, level, at, to),
    decreases to - at,
{
    if at < to && levels(at) >= level {
        lemma_cluster_run_end(levels, level, at + 1, to);
    }
}

/// The clusters `from..to` in visual order, as far as levels from `level` up
/// decide it: every run of clusters of at least that level is put in order by
/// the higher levels, and reversed.
pub open spec fn visual_clusters(
    levels: spec_fn(int) -> u8,
    level: int,
    from: int,
    to: int,
) -> Seq<int>
    decreases 256 - level, to - from,
{
    if from >= to {
        Seq::empty()
    } else if level > 255 || levels(from) < level {
        seq![from] + visual_clusters(levels, level, from + 1, to)
    } else {
        let end = cluster_run_end(levels, level, from, to);
        proof {
            lemma_cluster_run_end(levels, level, from, to);
        }
        visual_clusters(levels, level + 1, from, end).reverse() + visual_clusters(
            levels,
            level,
            end,
            to,
        )
    }
}

/// The clusters `from..to` in logical order.
pub open spec fn logical_clusters(from: int, to: int) -> Seq<int> {
    Seq::new(
        (if from <= to {
            to - from
        } else {
            0
        }) as nat,
        |i: int| from + i,
    )
}

pub(crate) proof fn lemma_lower_clusters_stay(
    levels: spec_fn(int) -> u8,
    level: int,
    from: int,
    at: int,
    to: int,
)
    requires
        from <= at <= to,
        forall|c: int| from <= c < at ==> #[trigger] levels(c) < level,
    ensures
        visual_clusters(levels, level, from, to) == logical_clusters(from, at) + visual_clusters(
            levels,
            level,
            at,
            to,
        ),
    decreases at - from,
{
    if from < at {
        assert(levels(from) < level);
        lemma_lower_clusters_stay(levels, level, from + 1, at, to);
        assert(logical_clusters(from, at) =~= seq![from] + logical_clusters(from + 1, at));
        assert(visual_clusters(levels, level, from, to) =~= logical_clusters(from, at)
            + visual_clusters(levels, level, at, to));
    } else {
        assert(visual_clusters(levels, level, from, to) =~= logical_clusters(from, at)
            + visual_clusters(levels, level, at, to));
    }
}

proof fn lemma_cluster_run(
    levels: spec_fn(int) -> u8,
    level: int,
    from: int,
    at: int,
    to: int,
)
    requires
        from <= at <= to,
        forall|c: int| from <= c < at ==> #[trigger] levels(c) >= level,
        at == to || levels(at) < level,
    ensures
        cluster_run_end(levels, level, from, to) == at,
    decreases at - from,
{
    if from < at {
        assert(levels(from) >= level);
        lemma_cluster_run(levels, level, from + 1, at, to);
    }
}

// ---------------------------------------------------------------------------
// The clusters of items.

/// The clusters of an item when the levels from `level` up have been reversed:
/// each of these levels that the item has turns its clusters round.
pub open spec fn clusters_of<T: Scalar>(item: LineItemData<T>, level: int) -> Seq<int> {
    let clusters = item.shaped_cluster_range;
    let logical = logical_clusters(clusters.start as int, clusters.end as int);
    if !item.spec_is_text_run() {
        Seq::empty()
    } else if item.bidi_level >= level && (item.bidi_level - level + 1) % 2 == 1 {
        logical.reverse()
    } else {
        logical
    }
}

/// The clusters of the items `from..to`, item after item.
pub open spec fn flattened<T: Scalar>(
    items: Seq<LineItemData<T>>,
    level: int,
    from: int,
    to: int,
) -> Seq<int>
    decreases to - from,
{
    if from >= to {
        Seq::empty()
    } else {
        flattened(items, level, from, to - 1) + clusters_of(items[to - 1], level)
    }
}

/// Items can be looked at in two parts.
pub proof fn lemma_flattened_adjacent<T: Scalar>(
    items: Seq<LineItemData<T>>,
    level: int,
    from: int,
    at: int,
    to: int,
)
    requires
        from <= at <= to,
    ensures
        flattened(items, level, from, to) == flattened(items, level, from, at) + flattened(
            items,
            level,
            at,
            to,
        ),
    decreases to - at,
{
    if at < to {
        lemma_flattened_adjacent(items, level, from, at, to - 1);
    }
    assert(flattened(items, level, from, to) =~= flattened(items, level, from, at) + flattened(
        items,
        level,
        at,
        to,
    ));
}

proof fn lemma_flattened_same<T: Scalar>(
    a: Seq<LineItemData<T>>,
    b: Seq<LineItemData<T>>,
    level: int,
    from: int,
    to: int,
)
    requires
        forall|i: int| from <= i < to ==> #[trigger] a[i] == b[i],
    ensures
        flattened(a, level, from, to) == flattened(b, level, from, to),
    decreases to - from,
{
    if from < to {
        lemma_flattened_same(a, b, level, from, to - 1);
        assert(a[to - 1] == b[to - 1]);
    }
}

proof fn lemma_reverse_of_sum(a: Seq<int>, b: Seq<int>)
    ensures
        (a + b).reverse() == b.reverse() + a.reverse(),
{
    assert((a + b).reverse() =~= b.reverse() + a.reverse());
}

/// One more level turns the clusters of an item round.
proof fn lemma_turned_item<T: Scalar>(item: LineItemData<T>, level: int)
    requires
        item.bidi_level >= level,
    ensures
        clusters_of(item, level) == clusters_of(item, level + 1).reverse(),
{
    let n = item.bidi_level - level;
    assert((n + 1) % 2 == 1 <==> n % 2 == 0);
    assert(clusters_of(item, level) =~= clusters_of(item, level + 1).reverse());
}

/// Reversing items of at least a level reverses their clusters.
proof fn lemma_flattened_reversed<T: Scalar>(
    items: Seq<LineItemData<T>>,
    out: Seq<LineItemData<T>>,
    level: int,
    from: int,
    to: int,
    count: int,
)
    requires
        0 <= from <= to <= items.len(),
        0 <= count <= to - from,
        forall|i: int| from <= i < to ==> (#[trigger] items[i]).bidi_level >= level,
        forall|i: int| from <= i < to ==> #[trigger] out[i] == items[from + to - 1 - i],
    ensures
        flattened(out, level, from, from + count) == flattened(
            items,
            level + 1,
            to - count,
            to,
        ).reverse(),
    decreases count,
{
    if count > 0 {
        let item = items[to - count];
        lemma_flattened_reversed(items, out, level, from, to, count - 1);
        assert(out[from + count - 1] == item);
        lemma_flattened_adjacent(items, level + 1, to - count, to - count + 1, to);
        assert(flattened(items, level + 1, to - count, to - count + 1) =~= clusters_of(
            item,
            level + 1,
        )) by {
            reveal_with_fuel(flattened, 2);
        }
        lemma_turned_item(item, level);
        lemma_reverse_of_sum(
            clusters_of(item, level + 1),
            flattened(items, level + 1, to - count + 1, to),
        );
    } else {
        assert(flattened(out, level, from, from) =~= flattened(
            items,
            level + 1,
            to,
            to,
        ).reverse());
    }
}

// ---------------------------------------------------------------------------
// Levels and parts of a line.

/// The lowest of the levels is reversed last.
proof fn lemma_lowest_is_last<T: Scalar>(
    items: Seq<LineItemData<T>>,
    level: int,
    lowest: int,
    from: int,
    to: int,
)
    requires
        lowest <= level,
    ensures
        reorder::reverse_levels(items, level, lowest, from, to) == reorder::reverse_runs(
            reorder::reverse_levels(items, level, lowest + 1, from, to),
            lowest as u8,
            from,
            to,
        ),
    decreases level - lowest,
{
    reveal_with_fuel(reorder::reverse_levels, 2);
    if lowest < level {
        lemma_lowest_is_last(
            reorder::reverse_runs(items, level as u8, from, to),
            level - 1,
            lowest,
            from,
            to,
        );
    }
}

/// The line can be cut before `at`: an item beside it is below the level.
spec fn is_cut<T: Scalar>(
    items: Seq<LineItemData<T>>,
    level: int,
    from: int,
    to: int,
    at: int,
) -> bool {
    ||| at == from
    ||| at == to
    ||| items[at - 1].bidi_level < level
    ||| items[at].bidi_level < level
}

proof fn lemma_runs_of_part<T: Scalar>(
    a: Seq<LineItemData<T>>,
    b: Seq<LineItemData<T>>,
    level: u8,
    lowest: int,
    from: int,
    to: int,
    start: int,
    end: int,
)
    requires
        0 <= from <= start <= end <= to <= a.len(),
        a.len() == b.len(),
        lowest <= level,
        is_cut(a, lowest, from, to, start),
        is_cut(a, lowest, from, to, end),
        forall|i: int| start <= i < end ==> #[trigger] a[i] == b[i],
    ensures
        ({
            let next = reorder::reverse_runs(a, level, from, to);
            let other = reorder::reverse_runs(b, level, start, end);
            &&& next.len() == a.len()
            &&& other.len() == b.len()
            &&& is_cut(next, lowest, from, to, start)
            &&& is_cut(next, lowest, from, to, end)
            &&& forall|i: int| start <= i < end ==> #[trigger] next[i] == other[i]
        }),
{
    let next = reorder::reverse_runs(a, level, from, to);
    let other = reorder::reverse_runs(b, level, start, end);
    reorder::lemma_reversed_runs(a, level, from, to);
    reorder::lemma_reversed_runs(b, level, start, end);
    assert forall|i: int| start <= i < end implies #[trigger] next[i] == other[i] by {
        if a[i].bidi_level < level {
            assert(next[i] == a[i]);
            assert(other[i] == b[i]);
        } else {
            let run = reorder::lemma_run_of(a, level, from, to, i);
            if run.1 > end {
                assert(a[end - 1].bidi_level >= level);
                assert(a[end].bidi_level >= level);
            }
            if run.0 < start {
                assert(a[start - 1].bidi_level >= level);
                assert(a[start].bidi_level >= level);
            }
            assert forall|j: int| run.0 <= j < run.1 implies (#[trigger] b[j]).bidi_level
                >= level by {
                assert(a[j] == b[j]);
            }
            if run.0 > start {
                assert(a[run.0 - 1] == b[run.0 - 1]);
            }
            if run.1 < end {
                assert(a[run.1] == b[run.1]);
            }
            assert(reorder::is_run(b, level, start, end, run.0, run.1));
            assert(reorder::is_run(a, level, from, to, run.0, run.1));
            assert(next[i] == a[run.0 + run.1 - 1 - i]);
            assert(other[i] == b[run.0 + run.1 - 1 - i]);
        }
    }
    if from < start < to {
        if a[start - 1].bidi_level < lowest {
            assert(next[start - 1] == a[start - 1]);
        } else {
            assert(next[start] == a[start]);
        }
    }
    if from < end < to {
        if a[end - 1].bidi_level < lowest {
            assert(next[end - 1] == a[end - 1]);
        } else {
            assert(next[end] == a[end]);
        }
    }
}

/// A part that can be cut out is reordered by itself.
proof fn lemma_levels_of_part<T: Scalar>(
    a: Seq<LineItemData<T>>,
    b: Seq<LineItemData<T>>,
    level: int,
    lowest: int,
    from: int,
    to: int,
    start: int,
    end: int,
)
    requires
        0 <= from <= start <= end <= to <= a.len(),
        a.len() == b.len(),
        0 <= lowest,
        level <= 255,
        is_cut(a, lowest, from, to, start),
        is_cut(a, lowest, from, to, end),
        forall|i: int| start <= i < end ==> #[trigger] a[i] == b[i],
    ensures
        ({
            let next = reorder::reverse_levels(a, level, lowest, from, to);
            let other = reorder::reverse_levels(b, level, lowest, start, end);
            forall|i: int| start <= i < end ==> #[trigger] next[i] == other[i]
        }),
    decreases level - lowest + 1,
{
    let next = reorder::reverse_levels(a, level, lowest, from, to);
    let other = reorder::reverse_levels(b, level, lowest, start, end);
    if level >= lowest {
        let a_next = reorder::reverse_runs(a, level as u8, from, to);
        let b_next = reorder::reverse_runs(b, level as u8, start, end);
        lemma_runs_of_part(a, b, level as u8, lowest, from, to, start, end);
        lemma_levels_of_part(a_next, b_next, level - 1, lowest, from, to, start, end);
        assert(next == reorder::reverse_levels(a_next, level - 1, lowest, from, to));
        assert(other == reorder::reverse_levels(b_next, level - 1, lowest, start, end));
    } else {
        assert(next == a);
        assert(other == b);
    }
}

// ---------------------------------------------------------------------------
// Items in visual order hold the clusters in visual order.

/// Text items are not empty, and at the level of their clusters.
pub open spec fn has_levels<T: Scalar>(
    items: Seq<LineItemData<T>>,
    levels: spec_fn(int) -> u8,
    from: int,
    to: int,
) -> bool {
    forall|i: int|
        from <= i < to && (#[trigger] items[i]).spec_is_text_run() ==> {
            let clusters = items[i].shaped_cluster_range;
            &&& clusters.start < clusters.end
            &&& forall|c: int|
                clusters.start <= c < clusters.end ==> #[trigger] levels(c) == items[i].bidi_level
        }
}

/// No box is below the levels of both clusters beside it. The items `from..to`
/// start at the cluster `at` of a line with the clusters `start..end`.
pub open spec fn boxes_fit<T: Scalar>(
    items: Seq<LineItemData<T>>,
    levels: spec_fn(int) -> u8,
    from: int,
    to: int,
    at: int,
    start: int,
    end: int,
) -> bool
    decreases to - from,
{
    if from >= to {
        true
    } else if items[from].spec_is_text_run() {
        boxes_fit(
            items,
            levels,
            from + 1,
            to,
            items[from].shaped_cluster_range.end as int,
            start,
            end,
        )
    } else {
        &&& start < at < end ==> items[from].bidi_level >= levels(at - 1)
            || items[from].bidi_level >= levels(at)
        &&& boxes_fit(items, levels, from + 1, to, at, start, end)
    }
}

/// A line can be looked at in two parts.
proof fn lemma_parts_of_line<T: Scalar>(
    items: Seq<LineItemData<T>>,
    levels: spec_fn(int) -> u8,
    from: int,
    middle: int,
    to: int,
    at: int,
    until: int,
    start: int,
    end: int,
) -> (split: int)
    requires
        from <= middle <= to,
        coverage::text_follows(items, from, to, at, until),
        boxes_fit(items, levels, from, to, at, start, end),
        has_levels(items, levels, from, to),
    ensures
        coverage::text_follows(items, from, middle, at, split),
        coverage::text_follows(items, middle, to, split, until),
        boxes_fit(items, levels, from, middle, at, start, end),
        boxes_fit(items, levels, middle, to, split, start, end),
        at <= split <= until,
    decreases to - from,
{
    if from < to {
        let next = if items[from].spec_is_text_run() {
            items[from].shaped_cluster_range.end as int
        } else {
            at
        };
        if from < middle {
            lemma_parts_of_line(items, levels, from + 1, middle, to, next, until, start, end)
        } else {
            let _ = lemma_parts_of_line(
                items,
                levels,
                from + 1,
                from + 1,
                to,
                next,
                until,
                start,
                end,
            );
            at
        }
    } else {
        at
    }
}

/// All clusters of items of at least a level are of at least that level.
proof fn lemma_clusters_of_run<T: Scalar>(
    items: Seq<LineItemData<T>>,
    levels: spec_fn(int) -> u8,
    level: int,
    from: int,
    to: int,
    at: int,
    until: int,
)
    requires
        coverage::text_follows(items, from, to, at, until),
        has_levels(items, levels, from, to),
        forall|i: int| from <= i < to ==> (#[trigger] items[i]).bidi_level >= level,
    ensures
        forall|c: int| at <= c < until ==> #[trigger] levels(c) >= level,
    decreases to - from,
{
    if from < to {
        let next = if items[from].spec_is_text_run() {
            items[from].shaped_cluster_range.end as int
        } else {
            at
        };
        assert(items[from].bidi_level >= level);
        lemma_clusters_of_run(items, levels, level, from + 1, to, next, until);
    }
}

/// After a run of items the run of clusters ends too.
proof fn lemma_run_of_clusters_ends<T: Scalar>(
    items: Seq<LineItemData<T>>,
    levels: spec_fn(int) -> u8,
    level: int,
    from: int,
    to: int,
    at: int,
    until: int,
    start: int,
    end: int,
)
    requires
        coverage::text_follows(items, from, to, at, until),
        has_levels(items, levels, from, to),
        boxes_fit(items, levels, from, to, at, start, end),
        from < to ==> items[from].bidi_level < level,
        start < at,
        until <= end,
        levels(at - 1) >= level,
    ensures
        at >= until || levels(at) < level,
{
    if from < to && items[from].spec_is_text_run() {
        assert(levels(at) == items[from].bidi_level);
    }
}

/// Items whose levels from `level` up have been reversed hold their clusters in
/// the visual order that these levels make.
proof fn lemma_reversed_levels<T: Scalar>(
    items: Seq<LineItemData<T>>,
    levels: spec_fn(int) -> u8,
    level: int,
    from: int,
    to: int,
    at: int,
    until: int,
    start: int,
    end: int,
)
    requires
        0 <= from <= to <= items.len(),
        1 <= level <= 256,
        coverage::text_follows(items, from, to, at, until),
        has_levels(items, levels, from, to),
        boxes_fit(items, levels, from, to, at, start, end),
        start <= at,
        until <= end,
    ensures
        flattened(reorder::reverse_levels(items, 255, level, from, to), level, from, to)
            == visual_clusters(levels, level, at, until),
    decreases 256 - level, to - from,
{
    let out = reorder::reverse_levels(items, 255, level, from, to);
    if from >= to {
    } else if items[from].bidi_level < level {
        let split = lemma_parts_of_line(
            items,
            levels,
            from,
            from + 1,
            to,
            at,
            until,
            start,
            end,
        );
        reveal_with_fuel(coverage::text_follows, 2);
        reveal_with_fuel(flattened, 2);
        let rest = reorder::reverse_levels(items, 255, level, from + 1, to);
        let first = reorder::reverse_levels(items, 255, level, from, from + 1);
        lemma_levels_of_part(items, items, 255, level, from, to, from + 1, to);
        lemma_levels_of_part(items, items, 255, level, from, to, from, from + 1);
        lemma_single_item_stays(items, 255, level, from);
        assert(out[from] == items[from]);
        lemma_reversed_levels(items, levels, level, from + 1, to, split, until, start, end);
        lemma_flattened_same(out, rest, level, from + 1, to);
        lemma_flattened_adjacent(out, level, from, from + 1, to);
        if items[from].spec_is_text_run() {
            assert forall|c: int| at <= c < split implies #[trigger] levels(c) < level by {
                assert(levels(c) == items[from].bidi_level);
            }
            assert(flattened(out, level, from, from + 1) =~= logical_clusters(at, split));
        } else {
            assert(flattened(out, level, from, from + 1) =~= logical_clusters(at, split));
        }
        lemma_lower_clusters_stay(levels, level, at, split, until);
    } else {
        let run = reorder::lemma_run_of(items, level as u8, from, to, from);
        let middle = run.1;
        assert(run.0 == from);
        let split = lemma_parts_of_line(items, levels, from, middle, to, at, until, start, end);
        let part = reorder::reverse_levels(items, 255, level, from, middle);
        let inner = reorder::reverse_levels(items, 255, level + 1, from, middle);
        let rest = reorder::reverse_levels(items, 255, level, middle, to);
        lemma_levels_of_part(items, items, 255, level, from, to, from, middle);
        lemma_levels_of_part(items, items, 255, level, from, to, middle, to);
        lemma_lowest_is_last(items, 255, level, from, middle);
        reorder::lemma_reverse_levels_same(items, 255, level + 1, from, middle);
        assert forall|i: int| from <= i < middle implies (#[trigger] inner[i]).bidi_level
            >= level by {
            assert(reorder::occurs_in(inner[i], items, from, middle));
        }
        reorder::lemma_reversed_runs(inner, level as u8, from, middle);
        assert(reorder::is_run(inner, level as u8, from, middle, from, middle));
        lemma_flattened_reversed(inner, part, level, from, middle, middle - from);
        lemma_reversed_levels(items, levels, level + 1, from, middle, at, split, start, end);
        lemma_reversed_levels(items, levels, level, middle, to, split, until, start, end);
        lemma_flattened_same(out, part, level, from, middle);
        lemma_flattened_same(out, rest, level, middle, to);
        lemma_flattened_adjacent(out, level, from, middle, to);
        lemma_clusters_of_run(items, levels, level, from, middle, at, split);
        if at < split {
            assert(levels(split - 1) >= level);
            lemma_run_of_clusters_ends(
                items,
                levels,
                level,
                middle,
                to,
                split,
                until,
                start,
                end,
            );
            lemma_cluster_run(levels, level, at, split, until);
            assert(levels(at) >= level);
        } else {
            assert(visual_clusters(levels, level + 1, at, split).reverse() =~= Seq::empty());
            assert(flattened(out, level, from, to) =~= visual_clusters(levels, level, at, until));
        }
    }
}

proof fn lemma_single_item_stays<T: Scalar>(
    items: Seq<LineItemData<T>>,
    level: int,
    lowest: int,
    at: int,
)
    requires
        0 <= at < items.len(),
        items[at].bidi_level < lowest,
        level <= 255,
    ensures
        reorder::reverse_levels(items, level, lowest, at, at + 1)[at] == items[at],
    decreases level - lowest + 1,
{
    if level >= lowest {
        let next = reorder::reverse_runs(items, level as u8, at, at + 1);
        reorder::lemma_reversed_runs(items, level as u8, at, at + 1);
        assert(next[at] == items[at]);
        lemma_single_item_stays(next, level - 1, lowest, at);
    }
}

// ---------------------------------------------------------------------------
// Reordering a line reverses all levels.

/// Levels that no item has do not matter.
proof fn lemma_higher_levels<T: Scalar>(
    items: Seq<LineItemData<T>>,
    level: int,
    highest: int,
    lowest: int,
    from: int,
    to: int,
)
    requires
        0 <= from <= to <= items.len(),
        0 <= highest <= level <= 255,
        0 <= lowest,
        forall|i: int| from <= i < to ==> (#[trigger] items[i]).bidi_level <= highest,
    ensures
        reorder::reverse_levels(items, level, lowest, from, to) == reorder::reverse_levels(
            items,
            highest,
            lowest,
            from,
            to,
        ),
    decreases level - highest,
{
    if level > highest {
        let next = reorder::reverse_runs(items, level as u8, from, to);
        reorder::lemma_reversed_runs(items, level as u8, from, to);
        assert(next =~= items);
        lemma_higher_levels(items, level - 1, highest, lowest, from, to);
    }
}

proof fn lemma_same_runs<T: Scalar>(
    items: Seq<LineItemData<T>>,
    level: u8,
    other: u8,
    from: int,
    to: int,
)
    requires
        0 <= from <= to <= items.len(),
        forall|i: int|
            from <= i < to ==> ((#[trigger] items[i]).bidi_level >= level) == (items[i].bidi_level
                >= other),
    ensures
        reorder::reverse_runs(items, level, from, to) == reorder::reverse_runs(
            items,
            other,
            from,
            to,
        ),
{
    let a = reorder::reverse_runs(items, level, from, to);
    let b = reorder::reverse_runs(items, other, from, to);
    reorder::lemma_reversed_runs(items, level, from, to);
    reorder::lemma_reversed_runs(items, other, from, to);
    assert forall|i: int| 0 <= i < items.len() implies #[trigger] a[i] == b[i] by {
        if from <= i < to && items[i].bidi_level >= level {
            let run = reorder::lemma_run_of(items, level, from, to, i);
            assert(reorder::is_run(items, level, from, to, run.0, run.1));
            assert(reorder::is_run(items, other, from, to, run.0, run.1));
            assert(a[i] == items[run.0 + run.1 - 1 - i]);
            assert(b[i] == items[run.0 + run.1 - 1 - i]);
        } else {
            assert(a[i] == items[i]);
            assert(b[i] == items[i]);
        }
    }
    assert(a =~= b);
}

/// Below the lowest odd level, levels undo each other in pairs.
proof fn lemma_lower_levels<T: Scalar>(
    items: Seq<LineItemData<T>>,
    odd: int,
    lowest: int,
    from: int,
    to: int,
)
    requires
        0 <= from <= to <= items.len(),
        1 <= odd <= lowest <= 255,
        odd % 2 == 1,
        lowest % 2 == 1,
        forall|i: int|
            from <= i < to && (#[trigger] items[i]).bidi_level % 2 == 1 ==> items[i].bidi_level
                >= lowest,
    ensures
        reorder::reverse_levels(items, 255, odd, from, to) == reorder::reverse_levels(
            items,
            255,
            lowest,
            from,
            to,
        ),
    decreases lowest - odd,
{
    if odd < lowest {
        lemma_lower_levels(items, odd + 2, lowest, from, to);
        let above = reorder::reverse_levels(items, 255, odd + 2, from, to);
        lemma_lowest_is_last(items, 255, odd + 1, from, to);
        lemma_lowest_is_last(items, 255, odd, from, to);
        let once = reorder::reverse_runs(above, (odd + 1) as u8, from, to);
        reorder::lemma_reverse_levels_same(items, 255, odd + 2, from, to);
        reorder::lemma_reverse_runs_same(above, (odd + 1) as u8, from, from, to);
        assert forall|i: int| from <= i < to implies ((#[trigger] once[i]).bidi_level
            >= odd as u8) == (once[i].bidi_level >= (odd + 1) as u8) by {
            assert(reorder::occurs_in(once[i], above, from, to));
            let j = choose|j: int| from <= j < to && #[trigger] above[j] == once[i];
            assert(reorder::occurs_in(above[j], items, from, to));
            let k = choose|k: int| from <= k < to && #[trigger] items[k] == above[j];
            assert(items[k].bidi_level != odd);
        }
        lemma_same_runs(once, odd as u8, (odd + 1) as u8, from, to);
        reorder::lemma_reversing_runs_twice(above, (odd + 1) as u8, from, to);
    }
}

proof fn lemma_lowest_odd_is_odd<T: Scalar>(items: Seq<LineItemData<T>>, from: int, to: int)
    ensures
        reorder::lowest_odd_level(items, from, to) % 2 == 1,
    decreases to - from,
{
    if from < to {
        lemma_lowest_odd_is_odd(items, from, to - 1);
    }
}

/// The items of a line in visual order hold its clusters in visual order.
pub proof fn lemma_reordered_clusters<T: Scalar>(
    items: Seq<LineItemData<T>>,
    levels: spec_fn(int) -> u8,
    from: int,
    to: int,
    start: int,
    end: int,
)
    requires
        0 <= from <= to <= items.len(),
        coverage::text_follows(items, from, to, start, end),
        has_levels(items, levels, from, to),
        boxes_fit(items, levels, from, to, start, start, end),
    ensures
        flattened(reorder::reordered(items, from, to), 1, from, to) == visual_clusters(
            levels,
            1,
            start,
            end,
        ),
{
    let highest = reorder::highest_level(items, from, to) as int;
    let lowest = reorder::lowest_odd_level(items, from, to) as int;
    assert forall|i: int| from <= i < to implies (#[trigger] items[i]).bidi_level <= highest by {
        reorder::lemma_level_of_item(items, from, to, i);
    }
    assert forall|i: int|
        from <= i < to && (#[trigger] items[i]).bidi_level % 2 == 1 implies items[i].bidi_level
        >= lowest by {
        reorder::lemma_level_of_item(items, from, to, i);
    }
    lemma_lowest_odd_is_odd(items, from, to);
    lemma_higher_levels(items, 255, highest, lowest, from, to);
    lemma_lower_levels(items, 1, lowest, from, to);
    lemma_reversed_levels(items, levels, 1, from, to, start, end, start, end);
}

} // verus!
