//! The text and the extent of a line.

use crate::inline_box::InlineBoxKind;
use crate::layout::coverage;
use crate::layout::data::{LayoutData, LineData, LineItemData, LineMetrics};
use crate::layout::finish_line;
use crate::layout::line_items;
use crate::layout::measured::same_shaped_text;
use crate::layout::reorder;
use crate::layout::shaped::Span;
use crate::layout::trailing;
use crate::layout::trailing::Trailing;
use crate::layout::visual;
use crate::layout::visual::{boxes_fit, flattened, has_levels, logical_clusters, visual_clusters};
use crate::scalar::Scalar;
use vstd::prelude::*;

verus! {

// ---------------------------------------------------------------------------
// The text of a line.

/// Characters come in the order of the source text.
pub open spec fn text_is_in_order<T: Scalar>(layout: LayoutData<T>) -> bool {
    let characters = layout.shaped_text.characters@;
    forall|i: int, j: int|
        0 <= i <= j < characters.len() ==> (#[trigger] characters[i]).text.start <= (
        #[trigger] characters[j]).text.start && characters[i].text.end <= characters[j].text.end
}

/// The source text of the clusters `from..to` of a line; the end of the text if
/// there are none.
pub open spec fn text_between<T: Scalar>(layout: LayoutData<T>, from: int, to: int) -> Span {
    if from < to {
        layout.text_of_clusters(Span { start: from as usize, end: to as usize })
    } else {
        Span { start: layout.text_len, end: layout.text_len }
    }
}

/// A text item holds text, at its place in the source text.
pub open spec fn holds_text<T: Scalar>(layout: LayoutData<T>, item: LineItemData<T>) -> bool {
    item.spec_is_text_run() ==> {
        &&& item.shaped_cluster_range.start < item.shaped_cluster_range.end
            <= layout.shaped_text.clusters@.len()
        &&& item.text_range == layout.text_of_clusters(item.shaped_cluster_range)
    }
}

/// The item is text or a box out of flow.
pub open spec fn is_plain_item<T: Scalar>(layout: LayoutData<T>, item: LineItemData<T>) -> bool {
    !item.spec_is_text_run() ==> layout.inline_boxes@[item.index as int].kind
        == InlineBoxKind::OutOfFlow
}

spec fn are_plain<T: Scalar>(
    layout: LayoutData<T>,
    items: Seq<LineItemData<T>>,
    from: int,
    to: int,
) -> bool {
    forall|i: int| from <= i < to ==> is_plain_item(layout, #[trigger] items[i])
}

/// Text that follows on ends where its last item ends.
proof fn lemma_text_follows_last<T: Scalar>(
    items: Seq<LineItemData<T>>,
    from: int,
    to: int,
    at: int,
    end: int,
)
    requires
        from < to,
        coverage::text_follows(items, from, to, at, end),
    ensures
        if items[to - 1].spec_is_text_run() {
            &&& items[to - 1].shaped_cluster_range.end == end
            &&& coverage::text_follows(
                items,
                from,
                to - 1,
                at,
                items[to - 1].shaped_cluster_range.start as int,
            )
        } else {
            coverage::text_follows(items, from, to - 1, at, end)
        },
    decreases to - from,
{
    let next = if items[from].spec_is_text_run() {
        items[from].shaped_cluster_range.end as int
    } else {
        at
    };
    if from + 1 < to {
        lemma_text_follows_last(items, from + 1, to, next, end);
    } else {
        reveal_with_fuel(coverage::text_follows, 2);
    }
}

proof fn lemma_text_goes_on<T: Scalar>(
    items: Seq<LineItemData<T>>,
    levels: spec_fn(int) -> u8,
    from: int,
    to: int,
    at: int,
    end: int,
)
    requires
        has_levels(items, levels, from, to),
        coverage::text_follows(items, from, to, at, end),
    ensures
        at <= end,
    decreases to - from,
{
    if from < to {
        let next = if items[from].spec_is_text_run() {
            items[from].shaped_cluster_range.end as int
        } else {
            at
        };
        lemma_text_goes_on(items, levels, from + 1, to, next, end);
    }
}

/// The clusters of the items end before `end`.
proof fn lemma_levels_before<T: Scalar>(
    items: Seq<LineItemData<T>>,
    levels: spec_fn(int) -> u8,
    from: int,
    to: int,
    at: int,
    end: int,
)
    requires
        has_levels(items, levels, from, to),
        coverage::text_follows(items, from, to, at, end),
    ensures
        forall|i: int|
            from <= i < to && (#[trigger] items[i]).spec_is_text_run()
                ==> items[i].shaped_cluster_range.end <= end,
    decreases to - from,
{
    if from < to {
        let next = if items[from].spec_is_text_run() {
            items[from].shaped_cluster_range.end as int
        } else {
            at
        };
        lemma_levels_before(items, levels, from + 1, to, next, end);
        lemma_text_goes_on(items, levels, from + 1, to, next, end);
    }
}

proof fn lemma_same_text_before<T: Scalar>(
    a: Seq<LineItemData<T>>,
    b: Seq<LineItemData<T>>,
    from: int,
    to: int,
    at: int,
    end: int,
)
    requires
        forall|i: int| from <= i < to ==> #[trigger] a[i] == b[i],
        coverage::text_follows(a, from, to, at, end),
    ensures
        coverage::text_follows(b, from, to, at, end),
    decreases to - from,
{
    if from < to {
        let next = if a[from].spec_is_text_run() {
            a[from].shaped_cluster_range.end as int
        } else {
            at
        };
        assert(a[from] == b[from]);
        lemma_same_text_before(a, b, from + 1, to, next, end);
    }
}

/// The text of the items is that of their clusters.
proof fn lemma_hull_of_text<T: Scalar>(
    layout: LayoutData<T>,
    items: Seq<LineItemData<T>>,
    from: int,
    to: int,
    at: int,
    end: int,
)
    requires
        layout.wf(),
        text_is_in_order(layout),
        0 <= from <= to <= items.len(),
        forall|i: int| from <= i < to ==> holds_text(layout, #[trigger] items[i]),
        coverage::text_follows(items, from, to, at, end),
        0 <= at,
    ensures
        at <= end,
        line_items::text_hull(items, from, to) == if at < end {
            text_between(layout, at, end)
        } else {
            Span { start: usize::MAX, end: 0 }
        },
        line_items::has_no_text(items, from, to) == (at == end),
        at < end ==> end <= layout.shaped_text.clusters@.len(),
    decreases to - from,
{
    if from < to {
        lemma_text_follows_last(items, from, to, at, end);
        let last = items[to - 1];
        assert(holds_text(layout, last));
        if last.spec_is_text_run() {
            let middle = last.shaped_cluster_range.start as int;
            lemma_hull_of_text(layout, items, from, to - 1, at, middle);
            let clusters = layout.shaped_text.clusters@;
            let characters = layout.shaped_text.characters@;
            if at < middle {
                assert(clusters[at].chars.start < clusters[at].chars.end);
                assert(clusters[at].chars.end <= clusters[middle].chars.start);
                assert(clusters[middle - 1].chars.end <= clusters[end - 1].chars.start);
                assert(clusters[end - 1].chars.start < clusters[end - 1].chars.end);
                assert(clusters[middle - 1].chars.start < clusters[middle - 1].chars.end);
                assert(clusters[middle].chars.start < clusters[middle].chars.end);
                assert(characters[clusters[at].chars.start as int].text.start
                    <= characters[clusters[middle].chars.start as int].text.start);
                assert(characters[clusters[middle - 1].chars.end - 1].text.end
                    <= characters[clusters[end - 1].chars.end - 1].text.end);
            }
        } else {
            lemma_hull_of_text(layout, items, from, to - 1, at, end);
        }
        assert(line_items::has_no_text(items, from, to) == (!last.spec_is_text_run()
            && line_items::has_no_text(items, from, to - 1)));
    }
}

// ---------------------------------------------------------------------------
// The spaces of a line.

/// The number of the clusters that justification may stretch.
pub open spec fn spaces_among<T: Scalar>(layout: LayoutData<T>, clusters: Seq<int>) -> nat
    decreases clusters.len(),
{
    if clusters.len() == 0 {
        0
    } else {
        spaces_among(layout, clusters.drop_last()) + if layout.spec_is_justifiable(
            clusters.last(),
        ) {
            1nat
        } else {
            0
        }
    }
}

proof fn lemma_spaces_among_sum<T: Scalar>(layout: LayoutData<T>, a: Seq<int>, b: Seq<int>)
    ensures
        spaces_among(layout, a + b) == spaces_among(layout, a) + spaces_among(layout, b),
    decreases b.len(),
{
    if b.len() == 0 {
        assert(a + b =~= a);
    } else {
        assert((a + b).drop_last() =~= a + b.drop_last());
        lemma_spaces_among_sum(layout, a, b.drop_last());
    }
}

proof fn lemma_spaces_among_reverse<T: Scalar>(layout: LayoutData<T>, clusters: Seq<int>)
    ensures
        spaces_among(layout, clusters.reverse()) == spaces_among(layout, clusters),
    decreases clusters.len(),
{
    if clusters.len() > 0 {
        let last = seq![clusters.last()];
        assert(clusters.reverse() =~= last + clusters.drop_last().reverse());
        lemma_spaces_among_sum(layout, last, clusters.drop_last().reverse());
        lemma_spaces_among_reverse(layout, clusters.drop_last());
        reveal_with_fuel(spaces_among, 2);
        assert(last.drop_last() =~= Seq::empty());
    }
}

/// A sum, or the largest number.
pub open spec fn capped(sum: int) -> usize {
    if sum <= usize::MAX {
        sum as usize
    } else {
        usize::MAX
    }
}

proof fn lemma_justifiable_clusters<T: Scalar>(
    layout: LayoutData<T>,
    count: usize,
    from: int,
    to: int,
)
    ensures
        trailing::justifiable_clusters(layout, count, from, to) == capped(
            count + spaces_among(layout, logical_clusters(from, to)),
        ),
    decreases to - from,
{
    if from < to {
        let first = seq![from];
        let next = if layout.spec_is_justifiable(from) {
            trailing::one_more(count)
        } else {
            count
        };
        lemma_justifiable_clusters(layout, next, from + 1, to);
        assert(logical_clusters(from, to) =~= first + logical_clusters(from + 1, to));
        lemma_spaces_among_sum(layout, first, logical_clusters(from + 1, to));
        reveal_with_fuel(spaces_among, 2);
        assert(first.drop_last() =~= Seq::empty());
    }
}

proof fn lemma_justifiable_in_items<T: Scalar>(
    layout: LayoutData<T>,
    count: usize,
    items: Seq<LineItemData<T>>,
    from: int,
    to: int,
)
    ensures
        trailing::justifiable_in_items(layout, count, items, from, to) == capped(
            count + spaces_among(layout, flattened(items, 1, from, to)),
        ),
    decreases to - from,
{
    if from < to {
        let item = items[from];
        let clusters = item.shaped_cluster_range;
        let logical = logical_clusters(clusters.start as int, clusters.end as int);
        let first = visual::clusters_of(item, 1);
        visual::lemma_flattened_adjacent(items, 1, from, from + 1, to);
        assert(flattened(items, 1, from, from + 1) =~= first) by {
            reveal_with_fuel(flattened, 2);
        }
        lemma_spaces_among_sum(layout, first, flattened(items, 1, from + 1, to));
        if item.spec_is_text_run() {
            let next = trailing::justifiable_clusters(
                layout,
                count,
                clusters.start as int,
                clusters.end as int,
            );
            lemma_justifiable_clusters(layout, count, clusters.start as int, clusters.end as int);
            lemma_spaces_among_reverse(layout, logical);
            lemma_justifiable_in_items(layout, next, items, from + 1, to);
        } else {
            lemma_justifiable_in_items(layout, count, items, from + 1, to);
        }
    } else {
        assert(flattened(items, 1, from, to) =~= Seq::empty());
    }
}

// ---------------------------------------------------------------------------
// White space at the end of a line.

/// Two scans have found the same, whatever items they found it in.
pub open spec fn same_trailing<T: Scalar>(a: Trailing<T>, b: Trailing<T>) -> bool {
    &&& a == (Trailing { removed: a.removed, ..b })
    &&& a.removed.len() == b.removed.len()
    &&& forall|i: int|
        0 <= i < a.removed.len() ==> (#[trigger] a.removed[i]).1 == b.removed[i].1
}

proof fn lemma_same_cluster_seen<T: Scalar>(
    layout: LayoutData<T>,
    a: Trailing<T>,
    b: Trailing<T>,
    item: usize,
    other_item: usize,
    cluster: usize,
)
    requires
        same_trailing(a, b),
    ensures
        same_trailing(
            a.with_cluster(layout, item, cluster),
            b.with_cluster(layout, other_item, cluster),
        ),
{
}

/// What a scan of the clusters finds, one after the other, until it ends.
pub open spec fn seen<T: Scalar>(
    trailing: Trailing<T>,
    layout: LayoutData<T>,
    clusters: Seq<int>,
) -> Trailing<T>
    decreases clusters.len(),
{
    if trailing.ended || clusters.len() == 0 {
        trailing
    } else {
        seen(
            trailing.with_cluster(layout, 0, clusters[0] as usize),
            layout,
            clusters.drop_first(),
        )
    }
}

proof fn lemma_seen_in_parts<T: Scalar>(
    trailing: Trailing<T>,
    layout: LayoutData<T>,
    a: Seq<int>,
    b: Seq<int>,
)
    ensures
        seen(trailing, layout, a + b) == seen(seen(trailing, layout, a), layout, b),
    decreases a.len(),
{
    if a.len() == 0 {
        assert(a + b =~= b);
    } else if !trailing.ended {
        assert((a + b).drop_first() =~= a.drop_first() + b);
        lemma_seen_in_parts(
            trailing.with_cluster(layout, 0, a[0] as usize),
            layout,
            a.drop_first(),
            b,
        );
    }
}

/// What is found in the clusters of an item, from either end.
proof fn lemma_clusters_seen<T: Scalar>(
    layout: LayoutData<T>,
    a: Trailing<T>,
    b: Trailing<T>,
    item: usize,
    from: int,
    to: int,
    backwards: bool,
)
    requires
        same_trailing(a, b),
    ensures
        same_trailing(
            a.with_clusters(layout, item, from, to, backwards),
            seen(
                b,
                layout,
                if backwards {
                    logical_clusters(from, to).reverse()
                } else {
                    logical_clusters(from, to)
                },
            ),
        ),
    decreases to - from,
{
    let logical = logical_clusters(from, to);
    if !a.ended && from < to {
        if backwards {
            let cluster = (to - 1) as usize;
            lemma_same_cluster_seen(layout, a, b, item, 0, cluster);
            lemma_clusters_seen(
                layout,
                a.with_cluster(layout, item, cluster),
                b.with_cluster(layout, 0, cluster),
                item,
                from,
                to - 1,
                backwards,
            );
            assert(logical.reverse()[0] == to - 1);
            assert(logical.reverse().drop_first() =~= logical_clusters(from, to - 1).reverse());
        } else {
            let cluster = from as usize;
            lemma_same_cluster_seen(layout, a, b, item, 0, cluster);
            lemma_clusters_seen(
                layout,
                a.with_cluster(layout, item, cluster),
                b.with_cluster(layout, 0, cluster),
                item,
                from + 1,
                to,
                backwards,
            );
            assert(logical.drop_first() =~= logical_clusters(from + 1, to));
        }
    }
}

/// What is found in an item, from the paragraph's end edge.
proof fn lemma_item_seen<T: Scalar>(
    layout: LayoutData<T>,
    a: Trailing<T>,
    b: Trailing<T>,
    items: Seq<LineItemData<T>>,
    item: usize,
)
    requires
        same_trailing(a, b),
        is_plain_item(layout, items[item as int]),
    ensures
        ({
            let clusters = visual::clusters_of(items[item as int], 1);
            same_trailing(
                a.with_item(layout, items, item),
                seen(
                    b,
                    layout,
                    if layout.spec_is_rtl() {
                        clusters
                    } else {
                        clusters.reverse()
                    },
                ),
            )
        }),
{
    let data = items[item as int];
    let range = data.shaped_cluster_range;
    let logical = logical_clusters(range.start as int, range.end as int);
    if data.spec_is_text_run() {
        lemma_clusters_seen(
            layout,
            a,
            b,
            item,
            range.start as int,
            range.end as int,
            data.spec_is_rtl() == layout.spec_is_rtl(),
        );
        assert(logical.reverse().reverse() =~= logical);
    } else {
        assert(Seq::<int>::empty().reverse() =~= Seq::empty());
    }
}

/// From left to right, the scan sees the clusters from the last to the first.
proof fn lemma_items_seen<T: Scalar>(
    layout: LayoutData<T>,
    a: Trailing<T>,
    b: Trailing<T>,
    items: Seq<LineItemData<T>>,
    from: int,
    to: int,
)
    requires
        !layout.spec_is_rtl(),
        same_trailing(a, b),
        0 <= from <= to <= items.len(),
        to <= usize::MAX,
        are_plain(layout, items, from, to),
    ensures
        same_trailing(
            a.with_items(layout, items, from, to),
            seen(b, layout, flattened(items, 1, from, to).reverse()),
        ),
    decreases to - from,
{
    if from < to && !a.ended {
        let last = (to - 1) as usize;
        let clusters = visual::clusters_of(items[to - 1], 1);
        let rest = flattened(items, 1, from, to - 1);
        assert(is_plain_item(layout, items[to - 1]));
        lemma_item_seen(layout, a, b, items, last);
        assert(flattened(items, 1, from, to).reverse() =~= clusters.reverse() + rest.reverse());
        lemma_seen_in_parts(b, layout, clusters.reverse(), rest.reverse());
        lemma_items_seen(
            layout,
            a.with_item(layout, items, last),
            seen(b, layout, clusters.reverse()),
            items,
            from,
            to - 1,
        );
    }
}

/// From right to left, it sees them from the first to the last.
proof fn lemma_items_seen_from_right<T: Scalar>(
    layout: LayoutData<T>,
    a: Trailing<T>,
    b: Trailing<T>,
    items: Seq<LineItemData<T>>,
    from: int,
    to: int,
)
    requires
        layout.spec_is_rtl(),
        same_trailing(a, b),
        0 <= from <= to <= items.len(),
        to <= usize::MAX,
        are_plain(layout, items, from, to),
    ensures
        same_trailing(
            a.with_items(layout, items, from, to),
            seen(b, layout, flattened(items, 1, from, to)),
        ),
    decreases to - from,
{
    if from < to && !a.ended {
        let first = from as usize;
        let clusters = visual::clusters_of(items[from], 1);
        let rest = flattened(items, 1, from + 1, to);
        assert(is_plain_item(layout, items[from]));
        lemma_item_seen(layout, a, b, items, first);
        visual::lemma_flattened_adjacent(items, 1, from, from + 1, to);
        assert(flattened(items, 1, from, from + 1) =~= clusters) by {
            reveal_with_fuel(flattened, 2);
        }
        lemma_seen_in_parts(b, layout, clusters, rest);
        lemma_items_seen_from_right(
            layout,
            a.with_item(layout, items, first),
            seen(b, layout, clusters),
            items,
            from + 1,
            to,
        );
    }
}

proof fn lemma_removed_advance<T: Scalar>(
    layout: LayoutData<T>,
    a: Trailing<T>,
    b: Trailing<T>,
    count: int,
)
    requires
        same_trailing(a, b),
        count <= a.removed.len(),
    ensures
        finish_line::removed_advance(layout, a.removed, count) == finish_line::removed_advance(
            layout,
            b.removed,
            count,
        ),
    decreases count,
{
    if count > 0 {
        lemma_removed_advance(layout, a, b, count - 1);
        assert(a.removed[count - 1].1 == b.removed[count - 1].1);
    }
}

// ---------------------------------------------------------------------------
// The levels of a line.

/// The levels of the clusters of a line: those of the text, but for white space
/// at the end of the line, which has the paragraph's level.
pub open spec fn line_levels<T: Scalar>(
    layout: LayoutData<T>,
    levels: spec_fn(int) -> u8,
    start: int,
    end: int,
) -> spec_fn(int) -> u8 {
    let spaces = layout.shaped_text.whitespace_start(start, end);
    |c: int|
        if c >= spaces {
            layout.base_level
        } else {
            levels(c)
        }
}

/// White space at the end is passed over.
proof fn lemma_whitespace_passed<T: Scalar>(
    layout: LayoutData<T>,
    start: int,
    at: int,
    end: int,
)
    requires
        start <= at <= end,
        forall|c: int| at <= c < end ==> #[trigger] layout.shaped_text.spec_is_l1_whitespace(c),
    ensures
        layout.shaped_text.whitespace_start(start, end) == layout.shaped_text.whitespace_start(
            start,
            at,
        ),
    decreases end - at,
{
    if at < end {
        assert(layout.shaped_text.spec_is_l1_whitespace(end - 1));
        lemma_whitespace_passed(layout, start, at, end - 1);
    }
}

/// White space at the end starts where it starts in the last item.
proof fn lemma_whitespace_in_item<T: Scalar>(
    layout: LayoutData<T>,
    start: int,
    at: int,
    end: int,
)
    requires
        start <= at <= end,
    ensures
        ({
            let split = layout.shaped_text.whitespace_start(at, end);
            &&& at <= split <= end
            &&& forall|c: int|
                split <= c < end ==> #[trigger] layout.shaped_text.spec_is_l1_whitespace(c)
            &&& split > at ==> layout.shaped_text.whitespace_start(start, end) == split
        }),
    decreases end - at,
{
    if at < end && layout.shaped_text.spec_is_l1_whitespace(end - 1) {
        lemma_whitespace_in_item(layout, start, at, end - 1);
    }
}

/// Text items from the cluster `middle` on, at the paragraph's level.
spec fn is_at_end<T: Scalar>(
    layout: LayoutData<T>,
    items: Seq<LineItemData<T>>,
    at: int,
    to: int,
    middle: int,
) -> bool {
    forall|i: int|
        at <= i < to && (#[trigger] items[i]).spec_is_text_run() ==> {
            let clusters = items[i].shaped_cluster_range;
            &&& middle <= clusters.start < clusters.end
            &&& items[i].bidi_level == layout.base_level
        }
}

/// Items before the white space at the end have the levels of the text, those
/// in it the paragraph's.
proof fn lemma_levels_of_line<T: Scalar>(
    layout: LayoutData<T>,
    items: Seq<LineItemData<T>>,
    levels: spec_fn(int) -> u8,
    from: int,
    at: int,
    to: int,
    start: int,
    end: int,
)
    requires
        from <= at <= to,
        has_levels(items, levels, from, at),
        forall|i: int|
            from <= i < at && (#[trigger] items[i]).spec_is_text_run()
                ==> items[i].shaped_cluster_range.end <= layout.shaped_text.whitespace_start(
                start,
                end,
            ),
        is_at_end(layout, items, at, to, layout.shaped_text.whitespace_start(start, end)),
    ensures
        has_levels(items, line_levels(layout, levels, start, end), from, to),
{
    let line = line_levels(layout, levels, start, end);
    assert forall|i: int| from <= i < to && (#[trigger] items[i]).spec_is_text_run() implies {
        let clusters = items[i].shaped_cluster_range;
        &&& clusters.start < clusters.end
        &&& forall|c: int|
            clusters.start <= c < clusters.end ==> #[trigger] line(c) == items[i].bidi_level
    } by {
        let clusters = items[i].shaped_cluster_range;
        assert forall|c: int| clusters.start <= c < clusters.end implies #[trigger] line(c)
            == items[i].bidi_level by {
            if i < at {
                assert(levels(c) == items[i].bidi_level);
            }
        }
    }
}

/// After the reset, the items have the levels of the line. The items from `at`
/// on, with the clusters from `middle` on, are white space at the paragraph's
/// level.
proof fn lemma_reset_has_levels<T: Scalar>(
    layout: LayoutData<T>,
    items: Seq<LineItemData<T>>,
    levels: spec_fn(int) -> u8,
    from: int,
    at: int,
    to: int,
    start: int,
    middle: int,
    end: int,
)
    requires
        0 <= from <= at <= to <= items.len(),
        are_plain(layout, items, from, to),
        coverage::text_follows(items, from, at, start, middle),
        has_levels(items, levels, from, at),
        is_at_end(layout, items, at, to, middle),
        forall|c: int| middle <= c < end ==> #[trigger] layout.shaped_text.spec_is_l1_whitespace(
            c,
        ),
        start <= middle <= end,
    ensures
        ({
            let reset = line_items::reset_levels(layout, items, from, at, to);
            &&& are_plain(layout, reset.items, from, reset.to)
            &&& has_levels(reset.items, line_levels(layout, levels, start, end), from, reset.to)
            &&& to <= reset.to <= to + 1
            &&& reset.items.len() == items.len() + reset.to - to
            &&& !reset.changed ==> reset.items == items && reset.to == to
        }),
    decreases at - from,
{
    lemma_whitespace_passed(layout, start, middle, end);
    if at <= from {
        lemma_levels_of_line(layout, items, levels, from, at, to, start, end);
    } else {
        let item = items[at - 1];
        assert(is_plain_item(layout, item));
        lemma_text_follows_last(items, from, at, start, middle);
        if !item.spec_is_text_run() {
            lemma_reset_has_levels(layout, items, levels, from, at - 1, to, start, middle, end);
        } else {
            let first = item.shaped_cluster_range.start as int;
            lemma_text_goes_on(items, levels, from, at - 1, start, first);
            lemma_whitespace_in_item(layout, start, first, middle);
            let split = layout.shaped_text.whitespace_start(first, middle);
            if split == middle {
                lemma_levels_before(items, levels, from, at, start, middle);
                assert(layout.shaped_text.whitespace_start(start, middle) == middle);
                lemma_levels_of_line(layout, items, levels, from, at, to, start, end);
            } else if split == first {
                let reset = LineItemData { bidi_level: layout.base_level, ..item };
                let updated = items.update(at - 1, reset);
                lemma_same_text_before(items, updated, from, at - 1, start, first);
                lemma_reset_has_levels(
                    layout,
                    updated,
                    levels,
                    from,
                    at - 1,
                    to,
                    start,
                    first,
                    end,
                );
                if item.bidi_level == layout.base_level {
                    assert(updated =~= items);
                }
            } else {
                let head = line_items::head_of(layout, item, split);
                let tail = line_items::tail_of(layout, item, split);
                let parts = items.update(at - 1, head).insert(at, tail);
                lemma_levels_before(items, levels, from, at - 1, start, first);
                assert forall|i: int| from <= i < to + 1 implies is_plain_item(
                    layout,
                    #[trigger] parts[i],
                ) by {
                    if i > at {
                        assert(parts[i] == items[i - 1]);
                    } else if i < at - 1 {
                        assert(parts[i] == items[i]);
                    }
                }
                assert(parts[at - 1] == head);
                assert(parts[at] == tail);
                assert forall|i: int|
                    from <= i < at && (#[trigger] parts[i]).spec_is_text_run() implies {
                    let clusters = parts[i].shaped_cluster_range;
                    &&& clusters.start < clusters.end
                    &&& clusters.end <= split
                    &&& forall|c: int|
                        clusters.start <= c < clusters.end ==> #[trigger] levels(c)
                            == parts[i].bidi_level
                } by {
                    if i < at - 1 {
                        assert(parts[i] == items[i]);
                    }
                }
                assert forall|i: int|
                    at <= i < to + 1 && (#[trigger] parts[i]).spec_is_text_run() implies {
                    let clusters = parts[i].shaped_cluster_range;
                    &&& split <= clusters.start < clusters.end
                    &&& parts[i].bidi_level == layout.base_level
                } by {
                    if i > at {
                        assert(parts[i] == items[i - 1]);
                    }
                }
                lemma_levels_of_line(layout, parts, levels, from, at, to + 1, start, end);
            }
        }
    }
}

// ---------------------------------------------------------------------------
// Boxes and the levels beside them.

/// Where levels are lower, boxes fit all the more.
proof fn lemma_boxes_fit_lower<T: Scalar>(
    items: Seq<LineItemData<T>>,
    levels: spec_fn(int) -> u8,
    lower: spec_fn(int) -> u8,
    from: int,
    to: int,
    at: int,
    start: int,
    end: int,
)
    requires
        boxes_fit(items, levels, from, to, at, start, end),
        forall|c: int| start <= c < end ==> #[trigger] lower(c) <= levels(c),
    ensures
        boxes_fit(items, lower, from, to, at, start, end),
    decreases to - from,
{
    if from < to {
        let next = if items[from].spec_is_text_run() {
            items[from].shaped_cluster_range.end as int
        } else {
            at
        };
        lemma_boxes_fit_lower(items, levels, lower, from + 1, to, next, start, end);
        if start < at < end {
            assert(lower(at) <= levels(at));
            assert(lower(at - 1) <= levels(at - 1));
        }
    }
}

/// Boxes fit in items that hold the same text and the same boxes.
proof fn lemma_boxes_fit_same<T: Scalar>(
    a: Seq<LineItemData<T>>,
    b: Seq<LineItemData<T>>,
    levels: spec_fn(int) -> u8,
    from: int,
    to: int,
    at: int,
    start: int,
    end: int,
)
    requires
        boxes_fit(a, levels, from, to, at, start, end),
        forall|i: int|
            from <= i < to ==> (#[trigger] a[i]).kind == b[i].kind && a[i].shaped_cluster_range
                == b[i].shaped_cluster_range && (a[i].spec_is_text_run() || a[i].bidi_level
                == b[i].bidi_level),
    ensures
        boxes_fit(b, levels, from, to, at, start, end),
    decreases to - from,
{
    if from < to {
        let next = if a[from].spec_is_text_run() {
            a[from].shaped_cluster_range.end as int
        } else {
            at
        };
        assert(a[from].kind == b[from].kind);
        lemma_boxes_fit_same(a, b, levels, from + 1, to, next, start, end);
    }
}

proof fn lemma_boxes_fit_shifted<T: Scalar>(
    a: Seq<LineItemData<T>>,
    b: Seq<LineItemData<T>>,
    levels: spec_fn(int) -> u8,
    from: int,
    to: int,
    at: int,
    start: int,
    end: int,
)
    requires
        boxes_fit(a, levels, from, to, at, start, end),
        forall|i: int| from <= i < to ==> #[trigger] a[i] == b[i + 1],
    ensures
        boxes_fit(b, levels, from + 1, to + 1, at, start, end),
    decreases to - from,
{
    if from < to {
        let next = if a[from].spec_is_text_run() {
            a[from].shaped_cluster_range.end as int
        } else {
            at
        };
        assert(a[from] == b[from + 1]);
        lemma_boxes_fit_shifted(a, b, levels, from + 1, to, next, start, end);
    }
}

/// Splitting a text item moves no box.
proof fn lemma_boxes_fit_split<T: Scalar>(
    items: Seq<LineItemData<T>>,
    head: LineItemData<T>,
    tail: LineItemData<T>,
    levels: spec_fn(int) -> u8,
    split: int,
    from: int,
    to: int,
    at: int,
    start: int,
    end: int,
)
    requires
        0 <= from <= split < to <= items.len(),
        items[split].spec_is_text_run(),
        head.spec_is_text_run(),
        tail.spec_is_text_run(),
        tail.shaped_cluster_range.end == items[split].shaped_cluster_range.end,
        boxes_fit(items, levels, from, to, at, start, end),
    ensures
        boxes_fit(
            items.update(split, head).insert(split + 1, tail),
            levels,
            from,
            to + 1,
            at,
            start,
            end,
        ),
    decreases split - from,
{
    let parts = items.update(split, head).insert(split + 1, tail);
    if from < split {
        let next = if items[from].spec_is_text_run() {
            items[from].shaped_cluster_range.end as int
        } else {
            at
        };
        assert(parts[from] == items[from]);
        lemma_boxes_fit_split(items, head, tail, levels, split, from + 1, to, next, start, end);
    } else {
        assert(parts[split] == head);
        assert(parts[split + 1] == tail);
        assert forall|i: int| split + 1 <= i < to implies #[trigger] items[i] == parts[i + 1] by {
            assert(items.update(split, head)[i] == items[i]);
        }
        let next = items[split].shaped_cluster_range.end as int;
        lemma_boxes_fit_shifted(items, parts, levels, split + 1, to, next, start, end);
        assert(boxes_fit(
            parts,
            levels,
            split + 1,
            to + 1,
            head.shaped_cluster_range.end as int,
            start,
            end,
        ));
    }
}

/// The reset moves no box.
proof fn lemma_reset_fits<T: Scalar>(
    layout: LayoutData<T>,
    items: Seq<LineItemData<T>>,
    levels: spec_fn(int) -> u8,
    from: int,
    at: int,
    to: int,
    start: int,
    end: int,
)
    requires
        0 <= from <= at <= to <= items.len(),
        boxes_fit(items, levels, from, to, start, start, end),
    ensures
        ({
            let reset = line_items::reset_levels(layout, items, from, at, to);
            boxes_fit(reset.items, levels, from, reset.to, start, start, end)
        }),
    decreases at - from,
{
    if at > from {
        let item = items[at - 1];
        let clusters = item.shaped_cluster_range;
        let split = layout.shaped_text.whitespace_start(
            clusters.start as int,
            clusters.end as int,
        );
        if !item.spec_is_text_run() {
            lemma_reset_fits(layout, items, levels, from, at - 1, to, start, end);
        } else if split == clusters.end {
        } else if split == clusters.start {
            let reset = LineItemData { bidi_level: layout.base_level, ..item };
            let updated = items.update(at - 1, reset);
            lemma_boxes_fit_same(items, updated, levels, from, to, start, start, end);
            lemma_reset_fits(layout, updated, levels, from, at - 1, to, start, end);
        } else {
            lemma_boxes_fit_split(
                items,
                line_items::head_of(layout, item, split),
                line_items::tail_of(layout, item, split),
                levels,
                at - 1,
                from,
                to,
                start,
                start,
                end,
            );
        }
    }
}

// ---------------------------------------------------------------------------
// The line as a whole.

/// An item by itself stays where it is.
proof fn lemma_short_line_stays<T: Scalar>(
    items: Seq<LineItemData<T>>,
    level: int,
    lowest: int,
    from: int,
    to: int,
)
    requires
        0 <= from <= to <= items.len(),
        to - from <= 1,
        0 <= lowest,
        level <= 255,
    ensures
        reorder::reverse_levels(items, level, lowest, from, to) == items,
    decreases level - lowest + 1,
{
    if level >= lowest {
        let next = reorder::reverse_runs(items, level as u8, from, to);
        reorder::lemma_reversed_runs(items, level as u8, from, to);
        if from < to && items[from].bidi_level >= level {
            assert(reorder::is_run(items, level as u8, from, to, from, to));
            assert(next[from] == items[from]);
        }
        assert(next =~= items);
        lemma_short_line_stays(items, level - 1, lowest, from, to);
    }
}

/// The items of a line are put in order, whether or not there is anything to
/// reorder.
proof fn lemma_ordered_is_reordered<T: Scalar>(
    layout: LayoutData<T>,
    items: Seq<LineItemData<T>>,
    from: int,
    to: int,
)
    requires
        0 <= from <= to <= items.len(),
        ({
            let measured = line_items::measured(layout, items, from, to);
            let reset = line_items::reset_levels(layout, measured, from, to, to);
            &&& to <= reset.to <= reset.items.len()
            &&& !reset.changed ==> reset.items == measured && reset.to == to
        }),
    ensures
        ({
            let measured = line_items::measured(layout, items, from, to);
            let reset = line_items::reset_levels(layout, measured, from, to, to);
            finish_line::ordered_items(layout, items, from, to).0 == reorder::reordered(
                reset.items,
                from,
                reset.to,
            )
        }),
{
    let measured = line_items::measured(layout, items, from, to);
    let reset = line_items::reset_levels(layout, measured, from, to, to);
    if reset.to - from <= 1 {
        lemma_short_line_stays(
            reset.items,
            reorder::highest_level(reset.items, from, reset.to) as int,
            reorder::lowest_odd_level(reset.items, from, reset.to) as int,
            from,
            reset.to,
        );
    } else if !(line_items::has_levels(measured, from, to) || reset.changed) {
        reorder::lemma_left_to_right_stays(reset.items, from, reset.to);
    }
}

/// The clusters of a line in visual order.
pub open spec fn visual_line<T: Scalar>(
    layout: LayoutData<T>,
    levels: spec_fn(int) -> u8,
    start: int,
    end: int,
) -> Seq<int> {
    visual_clusters(line_levels(layout, levels, start, end), 1, start, end)
}

/// What the scan from the end edge of a line finds.
pub open spec fn trailing_of_line<T: Scalar>(
    layout: LayoutData<T>,
    levels: spec_fn(int) -> u8,
    start: int,
    end: int,
) -> Trailing<T> {
    let clusters = visual_line(layout, levels, start, end);
    seen(
        Trailing::nothing(),
        layout,
        if layout.spec_is_rtl() {
            clusters
        } else {
            clusters.reverse()
        },
    )
}

/// What a line is made of, in visual order, is found in its clusters.
proof fn lemma_ordered_line<T: Scalar>(
    layout: LayoutData<T>,
    items: Seq<LineItemData<T>>,
    levels: spec_fn(int) -> u8,
    from: int,
    start: int,
    end: int,
)
    requires
        0 <= from <= items.len() < usize::MAX,
        are_plain(layout, items, from, items.len() as int),
        coverage::text_follows(items, from, items.len() as int, start, end),
        has_levels(items, levels, from, items.len() as int),
        boxes_fit(items, levels, from, items.len() as int, start, start, end),
        forall|c: int| start <= c < end ==> layout.base_level <= #[trigger] levels(c),
    ensures
        ({
            let (ordered, to) = finish_line::ordered_items(
                layout,
                items,
                from,
                items.len() as int,
            );
            &&& trailing::justifiable_in_items(layout, 0, ordered, from, to) == capped(
                spaces_among(layout, visual_line(layout, levels, start, end)) as int,
            )
            &&& same_trailing(
                Trailing::nothing().with_items(layout, ordered, from, to),
                trailing_of_line(layout, levels, start, end),
            )
        }),
{
    let to = items.len() as int;
    let measured = line_items::measured(layout, items, from, to);
    let line = line_levels(layout, levels, start, end);
    assert forall|i: int|
        from <= i < items.len() && (#[trigger] items[i]).spec_is_text_run() implies
        items[i].shaped_cluster_range.start <= items[i].shaped_cluster_range.end by {}
    lemma_text_goes_on(items, levels, from, to, start, end);
    coverage::lemma_ordering_keeps_text(layout, items, from, start, end);
    assert(are_plain(layout, measured, from, to)) by {
        assert forall|i: int| from <= i < to implies is_plain_item(
            layout,
            #[trigger] measured[i],
        ) by {
            assert(is_plain_item(layout, items[i]));
        }
    }
    assert(has_levels(measured, levels, from, to)) by {
        assert forall|i: int|
            from <= i < to && (#[trigger] measured[i]).spec_is_text_run() implies {
            let clusters = measured[i].shaped_cluster_range;
            &&& clusters.start < clusters.end
            &&& forall|c: int|
                clusters.start <= c < clusters.end ==> #[trigger] levels(c)
                    == measured[i].bidi_level
        } by {
            assert(items[i].spec_is_text_run());
        }
    }
    lemma_measured_follows(layout, items, from, start, end);
    lemma_boxes_fit_same(items, measured, levels, from, to, start, start, end);
    lemma_boxes_fit_lower(measured, levels, line, from, to, start, start, end);
    lemma_reset_has_levels(layout, measured, levels, from, to, to, start, end, end);
    lemma_reset_fits(layout, measured, line, from, to, to, start, end);
    lemma_ordered_is_reordered(layout, items, from, to);
    let reset = line_items::reset_levels(layout, measured, from, to, to);
    let ordered = finish_line::ordered_items(layout, items, from, to).0;
    visual::lemma_reordered_clusters(reset.items, line, from, reset.to, start, end);
    reorder::lemma_reordered_same_items(reset.items, from, reset.to);
    assert forall|i: int| from <= i < reset.to implies is_plain_item(
        layout,
        #[trigger] ordered[i],
    ) by {
        assert(reorder::occurs_in(ordered[i], reset.items, from, reset.to));
    }
    lemma_justifiable_in_items(layout, 0, ordered, from, reset.to);
    let nothing = Trailing::<T>::nothing();
    if layout.spec_is_rtl() {
        lemma_items_seen_from_right(layout, nothing, nothing, ordered, from, reset.to);
    } else {
        lemma_items_seen(layout, nothing, nothing, ordered, from, reset.to);
    }
}

proof fn lemma_measured_follows<T: Scalar>(
    layout: LayoutData<T>,
    items: Seq<LineItemData<T>>,
    from: int,
    start: int,
    end: int,
)
    requires
        0 <= from <= items.len(),
        coverage::text_follows(items, from, items.len() as int, start, end),
    ensures
        coverage::text_follows(
            line_items::measured(layout, items, from, items.len() as int),
            from,
            items.len() as int,
            start,
            end,
        ),
{
    let measured = line_items::measured(layout, items, from, items.len() as int);
    coverage::lemma_same_text_follows(items, measured, from, items.len() as int, start, end);
}

/// The line that the clusters `start..end` make: its text, its spaces and the
/// extent of its content.
pub open spec fn line_of_text<T: Scalar>(
    layout: LayoutData<T>,
    line: LineData<T>,
    levels: spec_fn(int) -> u8,
    start: int,
    end: int,
    line_height: T,
) -> LineData<T> {
    let spaces = capped(spaces_among(layout, visual_line(layout, levels, start, end)) as int);
    let trailing = trailing_of_line(layout, levels, start, end);
    let removed = trailing.removed;
    let advance = line.metrics.advance.spec_minus(
        finish_line::removed_advance(layout, removed, removed.len() as int),
    );
    LineData {
        text_range: text_between(layout, start, end),
        num_spaces: if spaces > trailing.spaces {
            (spaces - trailing.spaces) as usize
        } else {
            0
        },
        metrics: LineMetrics {
            offset: T::spec_zero(),
            line_height,
            advance,
            trailing_whitespace: finish_line::hanging_advance(
                line.break_reason,
                advance,
                line.max_advance,
                trailing,
            ),
            ..line.metrics
        },
        ..line
    }
}

/// Two lines that differ at most in their items; where boxes do not fit the
/// levels beside them also in their advance, their hanging white space and their
/// spaces.
pub open spec fn same_line<T: Scalar>(a: LineData<T>, b: LineData<T>, fits: bool) -> bool {
    let same = if fits {
        a
    } else {
        LineData {
            num_spaces: b.num_spaces,
            metrics: LineMetrics {
                advance: b.metrics.advance,
                trailing_whitespace: b.metrics.trailing_whitespace,
                ..a.metrics
            },
            ..a
        }
    };
    same == (LineData { item_range: a.item_range, ..b })
}

/// A line of text and boxes out of flow is what its clusters make it.
pub proof fn lemma_filled_line<T: Scalar>(
    layout: LayoutData<T>,
    line: LineData<T>,
    items: Seq<LineItemData<T>>,
    levels: spec_fn(int) -> u8,
    start: int,
    end: int,
    line_height: T,
    fits: bool,
)
    requires
        layout.wf(),
        text_is_in_order(layout),
        line.item_range.start <= line.item_range.end,
        line.item_range.end == items.len() < usize::MAX,
        forall|i: int|
            line.item_range.start <= i < items.len() ==> is_plain_item(
                layout,
                #[trigger] items[i],
            ) && holds_text(layout, items[i]),
        coverage::text_follows(
            items,
            line.item_range.start as int,
            items.len() as int,
            start,
            end,
        ),
        0 <= start,
        fits ==> {
            let from = line.item_range.start as int;
            &&& has_levels(items, levels, from, items.len() as int)
            &&& boxes_fit(items, levels, from, items.len() as int, start, start, end)
            &&& forall|c: int| start <= c < end ==> layout.base_level <= #[trigger] levels(c)
        },
    ensures
        same_line(
            finish_line::filled_line(layout, line, items, line_height).line,
            line_of_text(layout, line, levels, start, end, line_height),
            fits,
        ),
        line_items::is_bare(
            layout,
            items,
            line.item_range.start as int,
            line.item_range.end as int,
        ) == (start == end),
        start <= end,
{
    let from = line.item_range.start as int;
    let to = items.len() as int;
    lemma_hull_of_text(layout, items, from, to, start, end);
    if fits {
        lemma_ordered_line(layout, items, levels, from, start, end);
        let (ordered, ordered_to) = finish_line::ordered_items(layout, items, from, to);
        let found = Trailing::nothing().with_items(layout, ordered, from, ordered_to);
        let expected = trailing_of_line(layout, levels, start, end);
        lemma_removed_advance(layout, found, expected, found.removed.len() as int);
    }
    if start == end {
        assert forall|i: int| from <= i < to implies line_items::is_placeholder(
            layout,
            #[trigger] items[i],
        ) by {
            assert(is_plain_item(layout, items[i]));
        }
    } else {
        let i = choose|i: int| from <= i < to && (#[trigger] items[i]).spec_is_text_run();
        assert(!line_items::is_placeholder(layout, items[i]));
    }
}

// ---------------------------------------------------------------------------
// The same text in two layouts.

proof fn lemma_same_spaces<T: Scalar>(a: LayoutData<T>, b: LayoutData<T>, clusters: Seq<int>)
    requires
        same_shaped_text(a, b),
    ensures
        spaces_among(a, clusters) == spaces_among(b, clusters),
    decreases clusters.len(),
{
    if clusters.len() > 0 {
        lemma_same_spaces(a, b, clusters.drop_last());
    }
}

proof fn lemma_same_seen<T: Scalar>(
    a: LayoutData<T>,
    b: LayoutData<T>,
    trailing: Trailing<T>,
    clusters: Seq<int>,
)
    requires
        same_shaped_text(a, b),
    ensures
        seen(trailing, a, clusters) == seen(trailing, b, clusters),
    decreases clusters.len(),
{
    if !trailing.ended && clusters.len() > 0 {
        let cluster = clusters[0] as usize;
        assert(trailing.with_cluster(a, 0, cluster) == trailing.with_cluster(b, 0, cluster));
        lemma_same_seen(a, b, trailing.with_cluster(a, 0, cluster), clusters.drop_first());
    }
}

proof fn lemma_same_whitespace<T: Scalar>(
    a: LayoutData<T>,
    b: LayoutData<T>,
    from: int,
    to: int,
)
    requires
        same_shaped_text(a, b),
    ensures
        a.shaped_text.whitespace_start(from, to) == b.shaped_text.whitespace_start(from, to),
    decreases to - from,
{
    if from < to && a.shaped_text.spec_is_l1_whitespace(to - 1) {
        lemma_same_whitespace(a, b, from, to - 1);
    }
}

proof fn lemma_same_removed<T: Scalar>(
    a: LayoutData<T>,
    b: LayoutData<T>,
    removed: Seq<(usize, usize)>,
    count: int,
)
    requires
        same_shaped_text(a, b),
    ensures
        finish_line::removed_advance(a, removed, count) == finish_line::removed_advance(
            b,
            removed,
            count,
        ),
    decreases count,
{
    if count > 0 {
        lemma_same_removed(a, b, removed, count - 1);
    }
}

/// The same clusters make the same line in layouts of the same text.
pub proof fn lemma_same_line_of_text<T: Scalar>(
    a: LayoutData<T>,
    b: LayoutData<T>,
    line: LineData<T>,
    other: LineData<T>,
    levels: spec_fn(int) -> u8,
    start: int,
    end: int,
    line_height: T,
)
    requires
        same_shaped_text(a, b),
        a.text_len == b.text_len,
        a.base_level == b.base_level,
        same_line(line, other, true),
    ensures
        same_line(
            line_of_text(a, line, levels, start, end, line_height),
            line_of_text(b, other, levels, start, end, line_height),
            true,
        ),
{
    lemma_same_whitespace(a, b, start, end);
    assert(line_levels(a, levels, start, end) =~= line_levels(b, levels, start, end));
    let clusters = visual_line(a, levels, start, end);
    lemma_same_spaces(a, b, clusters);
    lemma_same_seen(a, b, Trailing::nothing(), clusters);
    lemma_same_seen(a, b, Trailing::nothing(), clusters.reverse());
    let removed = trailing_of_line(a, levels, start, end).removed;
    lemma_same_removed(a, b, removed, removed.len() as int);
}

} // verus!
