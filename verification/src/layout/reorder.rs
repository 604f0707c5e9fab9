//! Visual order of the items of a line.

use crate::layout::data::LineItemData;
use crate::scalar::Scalar;
use vstd::prelude::*;

verus! {

/// The sequence with the elements `from..to` in reverse order.
pub open spec fn reversed<A>(s: Seq<A>, from: int, to: int) -> Seq<A> {
    Seq::new(
        s.len(),
        |i: int|
            if from <= i < to {
                s[from + to - 1 - i]
            } else {
                s[i]
            },
    )
}

/// The end of the run of items of at least the given level that starts at
/// `at`.
pub open spec fn run_end<T: Scalar>(items: Seq<LineItemData<T>>, level: u8, at: int, to: int) -> int
    decreases to - at,
{
    if at >= to || items[at].bidi_level < level {
        at
    } else {
        run_end(items, level, at + 1, to)
    }
}

/// The items with every run of at least the given level reversed, from `at`
/// on.
pub open spec fn reverse_runs<T: Scalar>(
    items: Seq<LineItemData<T>>,
    level: u8,
    at: int,
    to: int,
) -> Seq<LineItemData<T>>
    decreases to - at,
{
    if at >= to {
        items
    } else if items[at].bidi_level < level {
        reverse_runs(items, level, at + 1, to)
    } else {
        let end = run_end(items, level, at, to);
        proof {
            lemma_run_end(items, level, at, to);
        }
        reverse_runs(reversed(items, at, end), level, end, to)
    }
}

/// The items with the runs of each level reversed, from `level` down to
/// `lowest`.
pub open spec fn reverse_levels<T: Scalar>(
    items: Seq<LineItemData<T>>,
    level: int,
    lowest: int,
    from: int,
    to: int,
) -> Seq<LineItemData<T>>
    decreases level - lowest + 1,
{
    if level < lowest {
        items
    } else {
        reverse_levels(reverse_runs(items, level as u8, from, to), level - 1, lowest, from, to)
    }
}

/// The highest level of the items `from..to`.
pub open spec fn highest_level<T: Scalar>(
    items: Seq<LineItemData<T>>,
    from: int,
    to: int,
) -> u8
    decreases to - from,
{
    if from >= to {
        0
    } else {
        let rest = highest_level(items, from, to - 1);
        if items[to - 1].bidi_level > rest {
            items[to - 1].bidi_level
        } else {
            rest
        }
    }
}

/// The lowest odd level of the items `from..to`, or 255 if none is odd.
pub open spec fn lowest_odd_level<T: Scalar>(
    items: Seq<LineItemData<T>>,
    from: int,
    to: int,
) -> u8
    decreases to - from,
{
    if from >= to {
        255
    } else {
        let rest = lowest_odd_level(items, from, to - 1);
        if items[to - 1].bidi_level % 2 == 1 && items[to - 1].bidi_level < rest {
            items[to - 1].bidi_level
        } else {
            rest
        }
    }
}

/// The items with `from..to` in visual order (rule L2 of UAX #9): from the
/// highest level down to the lowest odd one, every run of items at that level
/// or higher is reversed.
pub open spec fn reordered<T: Scalar>(
    items: Seq<LineItemData<T>>,
    from: int,
    to: int,
) -> Seq<LineItemData<T>> {
    reverse_levels(
        items,
        highest_level(items, from, to) as int,
        lowest_odd_level(items, from, to) as int,
        from,
        to,
    )
}

/// Every item of one sequence is an item of the other, inside and outside of
/// the range `from..to` alike.
pub open spec fn same_items<A>(a: Seq<A>, b: Seq<A>, from: int, to: int) -> bool {
    &&& a.len() == b.len()
    &&& a.to_multiset() == b.to_multiset()
    &&& forall|i: int| 0 <= i < a.len() && !(from <= i < to) ==> #[trigger] a[i] == b[i]
    &&& forall|i: int| from <= i < to ==> occurs_in(#[trigger] a[i], b, from, to)
}

/// Whether a value is an element of `from..to` of a sequence.
pub open spec fn occurs_in<A>(value: A, s: Seq<A>, from: int, to: int) -> bool {
    exists|j: int| from <= j < to && #[trigger] s[j] == value
}

pub proof fn lemma_run_end<T: Scalar>(items: Seq<LineItemData<T>>, level: u8, at: int, to: int)
    ensures
        at <= run_end(items, level, at, to),
        at <= to ==> run_end(items, level, at, to) <= to,
        at < to && items[at].bidi_level >= level ==> at < run_end(items, level, at, to),
    decreases to - at,
{
    if at >= to || items[at].bidi_level < level {
    } else {
        lemma_run_end(items, level, at + 1, to);
    }
}

proof fn lemma_swap_multiset<A>(s: Seq<A>, i: int, j: int)
    requires
        0 <= i < s.len(),
        0 <= j < s.len(),
    ensures
        s.update(i, s[j]).update(j, s[i]).to_multiset() == s.to_multiset(),
{
    broadcast use vstd::seq_lib::group_to_multiset_ensures;

    let a = s.update(i, s[j]);
    vstd::seq_lib::to_multiset_update(s, i, s[j]);
    vstd::seq_lib::to_multiset_update(a, j, s[i]);
    assert(s.to_multiset().count(s[i]) > 0);
    assert(a.update(j, s[i]).to_multiset() =~= s.to_multiset());
}

proof fn lemma_reversed_same<A>(s: Seq<A>, from: int, to: int)
    requires
        0 <= from <= to <= s.len(),
    ensures
        same_items(reversed(s, from, to), s, from, to),
    decreases to - from,
{
    let r = reversed(s, from, to);
    assert forall|i: int| from <= i < to implies occurs_in(#[trigger] r[i], s, from, to) by {
        assert(r[i] == s[from + to - 1 - i]);
    }
    if to - from <= 1 {
        assert(r =~= s);
    } else {
        let inner = reversed(s, from + 1, to - 1);
        lemma_reversed_same(s, from + 1, to - 1);
        lemma_swap_multiset(inner, from, to - 1);
        assert(r =~= inner.update(from, inner[to - 1]).update(to - 1, inner[from]));
        assert(r.to_multiset() == s.to_multiset());
    }
    assert(forall|i: int| 0 <= i < r.len() && !(from <= i < to) ==> #[trigger] r[i] == s[i]);
}

proof fn lemma_same_items_trans<A>(a: Seq<A>, b: Seq<A>, c: Seq<A>, from: int, to: int)
    requires
        same_items(a, b, from, to),
        same_items(b, c, from, to),
    ensures
        same_items(a, c, from, to),
{
    assert forall|i: int| from <= i < to implies occurs_in(#[trigger] a[i], c, from, to) by {
        assert(occurs_in(a[i], b, from, to));
        let j = choose|j: int| from <= j < to && #[trigger] b[j] == a[i];
        assert(occurs_in(b[j], c, from, to));
    }
}

pub(crate) proof fn lemma_reverse_runs_same<T: Scalar>(
    items: Seq<LineItemData<T>>,
    level: u8,
    from: int,
    at: int,
    to: int,
)
    requires
        0 <= from <= at,
        to <= items.len(),
    ensures
        same_items(reverse_runs(items, level, at, to), items, from, to),
    decreases to - at,
{
    if at >= to {
        assert(forall|i: int| from <= i < to ==> occurs_in(#[trigger] items[i], items, from, to));
    } else if items[at].bidi_level < level {
        lemma_reverse_runs_same(items, level, from, at + 1, to);
    } else {
        let end = run_end(items, level, at, to);
        lemma_run_end(items, level, at, to);
        let next = reversed(items, at, end);
        lemma_reversed_same(items, at, end);
        assert(same_items(next, items, from, to)) by {
            assert forall|i: int| from <= i < to implies occurs_in(
                #[trigger] next[i],
                items,
                from,
                to,
            ) by {
                if at <= i < end {
                    assert(occurs_in(next[i], items, at, end));
                } else {
                    assert(next[i] == items[i]);
                }
            }
        }
        lemma_reverse_runs_same(next, level, from, end, to);
        lemma_same_items_trans(reverse_runs(items, level, at, to), next, items, from, to);
    }
}

pub(crate) proof fn lemma_reverse_levels_same<T: Scalar>(
    items: Seq<LineItemData<T>>,
    level: int,
    lowest: int,
    from: int,
    to: int,
)
    requires
        0 <= from,
        to <= items.len(),
    ensures
        same_items(reverse_levels(items, level, lowest, from, to), items, from, to),
    decreases level - lowest + 1,
{
    if level < lowest {
        assert(forall|i: int| from <= i < to ==> occurs_in(#[trigger] items[i], items, from, to));
    } else {
        let next = reverse_runs(items, level as u8, from, to);
        lemma_reverse_runs_same(items, level as u8, from, from, to);
        lemma_reverse_levels_same(next, level - 1, lowest, from, to);
        lemma_same_items_trans(
            reverse_levels(items, level, lowest, from, to),
            next,
            items,
            from,
            to,
        );
    }
}

/// Reordering neither drops nor duplicates an item, and moves none into or out
/// of the line.
pub proof fn lemma_reordered_same_items<T: Scalar>(
    items: Seq<LineItemData<T>>,
    from: int,
    to: int,
)
    requires
        0 <= from <= to <= items.len(),
    ensures
        same_items(reordered(items, from, to), items, from, to),
{
    lemma_reverse_levels_same(
        items,
        highest_level(items, from, to) as int,
        lowest_odd_level(items, from, to) as int,
        from,
        to,
    );
}

proof fn lemma_level_bounds<T: Scalar>(items: Seq<LineItemData<T>>, from: int, to: int)
    ensures
        forall|i: int|
            from <= i < to ==> (#[trigger] items[i]).bidi_level <= highest_level(items, from, to),
        from < to ==> exists|i: int|
            from <= i < to && (#[trigger] items[i]).bidi_level == highest_level(items, from, to),
        (forall|i: int| from <= i < to ==> (#[trigger] items[i]).bidi_level % 2 == 0)
            ==> lowest_odd_level(items, from, to) == 255,
    decreases to - from,
{
    if from < to {
        lemma_level_bounds(items, from, to - 1);
        assert(items[to - 1].bidi_level <= highest_level(items, from, to));
        if items[to - 1].bidi_level <= highest_level(items, from, to - 1) && from < to - 1 {
            let i = choose|i: int|
                from <= i < to - 1 && (#[trigger] items[i]).bidi_level == highest_level(
                    items,
                    from,
                    to - 1,
                );
            assert(items[i].bidi_level == highest_level(items, from, to));
        }
    }
}

/// A line without right-to-left items stays in logical order.
pub proof fn lemma_left_to_right_stays<T: Scalar>(
    items: Seq<LineItemData<T>>,
    from: int,
    to: int,
)
    requires
        0 <= from <= to <= items.len(),
        forall|i: int| from <= i < to ==> (#[trigger] items[i]).bidi_level % 2 == 0,
    ensures
        reordered(items, from, to) == items,
{
    lemma_level_bounds(items, from, to);
    if from < to {
        let i = choose|i: int|
            from <= i < to && (#[trigger] items[i]).bidi_level == highest_level(items, from, to);
        assert(items[i].bidi_level % 2 == 0);
    }
}

proof fn lemma_run_of_level<T: Scalar>(
    items: Seq<LineItemData<T>>,
    level: u8,
    at: int,
    to: int,
)
    requires
        at <= to,
        forall|i: int| at <= i < to ==> (#[trigger] items[i]).bidi_level == level,
    ensures
        run_end(items, level, at, to) == to,
    decreases to - at,
{
    if at < to {
        assert(items[at].bidi_level == level);
        lemma_run_of_level(items, level, at + 1, to);
    }
}

proof fn lemma_uniform_levels<T: Scalar>(
    items: Seq<LineItemData<T>>,
    level: u8,
    from: int,
    to: int,
)
    requires
        from < to,
        level % 2 == 1,
        forall|i: int| from <= i < to ==> (#[trigger] items[i]).bidi_level == level,
    ensures
        highest_level(items, from, to) == level,
        lowest_odd_level(items, from, to) == level,
    decreases to - from,
{
    assert(items[to - 1].bidi_level == level);
    if from < to - 1 {
        lemma_uniform_levels(items, level, from, to - 1);
    } else {
        reveal_with_fuel(highest_level, 2);
        reveal_with_fuel(lowest_odd_level, 2);
    }
}

/// A line whose items are all at one right-to-left level is reversed.
pub proof fn lemma_right_to_left_reverses<T: Scalar>(
    items: Seq<LineItemData<T>>,
    level: u8,
    from: int,
    to: int,
)
    requires
        0 <= from < to <= items.len(),
        level % 2 == 1,
        forall|i: int| from <= i < to ==> (#[trigger] items[i]).bidi_level == level,
    ensures
        reordered(items, from, to) == reversed(items, from, to),
{
    lemma_uniform_levels(items, level, from, to);
    lemma_run_of_level(items, level, from, to);
    assert(items[from].bidi_level == level);
    reveal_with_fuel(reverse_levels, 2);
    reveal_with_fuel(reverse_runs, 2);
}

/// Puts the items `from..to` in visual order.
pub fn reorder_line_items<T: Scalar>(items: &mut Vec<LineItemData<T>>, from: usize, to: usize)
    requires
        from <= to <= old(items)@.len(),
    ensures
        final(items)@ == reordered(old(items)@, from as int, to as int),
        same_items(final(items)@, old(items)@, from as int, to as int),
{
    let mut max_level: u8 = 0;
    let mut lowest_odd: u8 = 255;
    let mut i: usize = from;
    while i < to
        invariant
            from <= i <= to <= items@.len(),
            max_level == highest_level(items@, from as int, i as int),
            lowest_odd == lowest_odd_level(items@, from as int, i as int),
        decreases to - i,
    {
        let level: u8 = items[i].bidi_level;
        if level > max_level {
            max_level = level;
        }
        if level % 2 == 1 && level < lowest_odd {
            lowest_odd = level;
        }
        i = i + 1;
    }
    proof {
        lemma_reordered_same_items(items@, from as int, to as int);
    }
    let ghost target = reordered(items@, from as int, to as int);
    // One more than the next level, which may be below zero.
    let mut above: u16 = max_level as u16 + 1;
    while above > lowest_odd as u16
        invariant
            from <= to <= items@.len(),
            above <= 256,
            target == reverse_levels(
                items@,
                above - 1,
                lowest_odd as int,
                from as int,
                to as int,
            ),
        decreases above,
    {
        above = above - 1;
        reverse_runs_of_level(items, above as u8, from, to);
    }
}

fn reverse_runs_of_level<T: Scalar>(
    items: &mut Vec<LineItemData<T>>,
    level: u8,
    from: usize,
    to: usize,
)
    requires
        from <= to <= old(items)@.len(),
    ensures
        final(items)@ == reverse_runs(old(items)@, level, from as int, to as int),
        final(items)@.len() == old(items)@.len(),
{
    let ghost target = reverse_runs(items@, level, from as int, to as int);
    let mut i: usize = from;
    while i < to
        invariant
            from <= i <= to <= items@.len(),
            items@.len() == old(items)@.len(),
            target == reverse_runs(items@, level, i as int, to as int),
        decreases to - i,
    {
        let mut end: usize = i;
        while end < to && items[end].bidi_level >= level
            invariant
                i <= end <= to <= items@.len(),
                run_end(items@, level, i as int, to as int) == run_end(
                    items@,
                    level,
                    end as int,
                    to as int,
                ),
            decreases to - end,
        {
            end = end + 1;
        }
        if end == i {
            i = i + 1;
        } else {
            reverse_range(items, i, end);
            i = end;
        }
    }
}

fn reverse_range<T: Scalar>(items: &mut Vec<LineItemData<T>>, from: usize, to: usize)
    requires
        from < to <= old(items)@.len(),
    ensures
        final(items)@ == reversed(old(items)@, from as int, to as int),
{
    let mut j: usize = from;
    let mut k: usize = to - 1;
    while j < k
        invariant
            from <= j <= k + 1,
            k < to <= items@.len(),
            items@.len() == old(items)@.len(),
            j + k == from + to - 1,
            forall|i: int|
                0 <= i < items@.len() ==> #[trigger] items@[i] == if j <= i <= k {
                    old(items)@[i]
                } else {
                    reversed(old(items)@, from as int, to as int)[i]
                },
        decreases k + 1 - j,
    {
        let first = items[j];
        items[j] = items[k];
        items[k] = first;
        j = j + 1;
        k = k - 1;
    }
    assert(items@ =~= reversed(old(items)@, from as int, to as int));
}

// ---------------------------------------------------------------------------
// Reordering twice.

/// A stretch of items of at least the given level that cannot be longer.
pub open spec fn is_run<T: Scalar>(
    items: Seq<LineItemData<T>>,
    level: u8,
    from: int,
    to: int,
    start: int,
    end: int,
) -> bool {
    &&& from <= start < end <= to
    &&& forall|i: int| start <= i < end ==> (#[trigger] items[i]).bidi_level >= level
    &&& start == from || items[start - 1].bidi_level < level
    &&& end == to || items[end].bidi_level < level
}

proof fn lemma_run_is_unique<T: Scalar>(
    items: Seq<LineItemData<T>>,
    level: u8,
    from: int,
    to: int,
    a: (int, int),
    b: (int, int),
    i: int,
)
    requires
        is_run(items, level, from, to, a.0, a.1),
        is_run(items, level, from, to, b.0, b.1),
        a.0 <= i < a.1,
        b.0 <= i < b.1,
    ensures
        a == b,
{
    if a.0 < b.0 {
        assert(items[b.0 - 1].bidi_level >= level);
    }
    if b.0 < a.0 {
        assert(items[a.0 - 1].bidi_level >= level);
    }
    if a.1 < b.1 {
        assert(items[a.1].bidi_level >= level);
    }
    if b.1 < a.1 {
        assert(items[b.1].bidi_level >= level);
    }
}

/// The start of the run that an item is in.
spec fn run_start<T: Scalar>(items: Seq<LineItemData<T>>, level: u8, from: int, at: int) -> int
    decreases at - from,
{
    if at <= from || items[at - 1].bidi_level < level {
        at
    } else {
        run_start(items, level, from, at - 1)
    }
}

proof fn lemma_run_start<T: Scalar>(items: Seq<LineItemData<T>>, level: u8, from: int, at: int)
    requires
        from <= at,
    ensures
        ({
            let start = run_start(items, level, from, at);
            &&& from <= start <= at
            &&& forall|i: int| start <= i < at ==> (#[trigger] items[i]).bidi_level >= level
            &&& start == from || items[start - 1].bidi_level < level
        }),
    decreases at - from,
{
    if at > from && items[at - 1].bidi_level >= level {
        lemma_run_start(items, level, from, at - 1);
    }
}

proof fn lemma_run_stops<T: Scalar>(items: Seq<LineItemData<T>>, level: u8, at: int, to: int)
    requires
        at <= to,
    ensures
        ({
            let end = run_end(items, level, at, to);
            &&& at <= end <= to
            &&& forall|i: int| at <= i < end ==> (#[trigger] items[i]).bidi_level >= level
            &&& end == to || items[end].bidi_level < level
        }),
    decreases to - at,
{
    if at < to && items[at].bidi_level >= level {
        lemma_run_stops(items, level, at + 1, to);
    }
}

/// The run that an item is in.
pub(crate) proof fn lemma_run_of<T: Scalar>(
    items: Seq<LineItemData<T>>,
    level: u8,
    from: int,
    to: int,
    i: int,
) -> (run: (int, int))
    requires
        from <= i < to,
        items[i].bidi_level >= level,
    ensures
        is_run(items, level, from, to, run.0, run.1),
        run.0 <= i < run.1,
{
    lemma_run_start(items, level, from, i);
    lemma_run_stops(items, level, i, to);
    (run_start(items, level, from, i), run_end(items, level, i, to))
}

/// No run goes across a position.
spec fn is_cut<T: Scalar>(
    items: Seq<LineItemData<T>>,
    level: u8,
    from: int,
    to: int,
    at: int,
) -> bool {
    at == from || at == to || items[at - 1].bidi_level < level || items[at].bidi_level < level
}

proof fn lemma_reverse_runs_outside<T: Scalar>(
    items: Seq<LineItemData<T>>,
    level: u8,
    at: int,
    to: int,
    i: int,
)
    requires
        0 <= at <= to <= items.len(),
        0 <= i < items.len(),
        i < at || i >= to || items[i].bidi_level < level,
    ensures
        reverse_runs(items, level, at, to).len() == items.len(),
        reverse_runs(items, level, at, to)[i] == items[i],
    decreases to - at,
{
    if at < to {
        if items[at].bidi_level < level {
            lemma_reverse_runs_outside(items, level, at + 1, to, i);
        } else {
            lemma_run_stops(items, level, at, to);
            lemma_run_end(items, level, at, to);
            let end = run_end(items, level, at, to);
            let next = reversed(items, at, end);
            assert(!(at <= i < end));
            assert(next[i] == items[i]);
            lemma_reverse_runs_outside(next, level, end, to, i);
        }
    }
}

proof fn lemma_reverse_runs_inside<T: Scalar>(
    items: Seq<LineItemData<T>>,
    level: u8,
    from: int,
    at: int,
    to: int,
    run: (int, int),
    i: int,
)
    requires
        0 <= from <= at <= to <= items.len(),
        is_cut(items, level, from, to, at),
        is_run(items, level, from, to, run.0, run.1),
        at <= run.0 <= i < run.1,
    ensures
        reverse_runs(items, level, at, to)[i] == items[run.0 + run.1 - 1 - i],
    decreases to - at,
{
    assert(items[run.0].bidi_level >= level);
    if items[at].bidi_level < level {
        assert(is_cut(items, level, from, to, at + 1));
        lemma_reverse_runs_inside(items, level, from, at + 1, to, run, i);
    } else {
        lemma_run_stops(items, level, at, to);
        lemma_run_end(items, level, at, to);
        let end = run_end(items, level, at, to);
        let next = reversed(items, at, end);
        assert(is_run(items, level, from, to, at, end));
        if run.0 < end {
            lemma_run_is_unique(items, level, from, to, run, (at, end), run.0);
            lemma_reverse_runs_outside(next, level, end, to, i);
        } else {
            assert(end < to);
            assert(run.0 > end);
            assert forall|k: int| run.0 <= k < run.1 implies (#[trigger] next[k]).bidi_level
                >= level by {
                assert(next[k] == items[k]);
            }
            assert(next[run.0 - 1] == items[run.0 - 1]);
            if run.1 < to {
                assert(next[run.1] == items[run.1]);
            }
            assert(next[end] == items[end]);
            lemma_reverse_runs_inside(next, level, from, end, to, run, i);
        }
    }
}

/// The runs of one level reversed, item by item.
pub(crate) proof fn lemma_reversed_runs<T: Scalar>(
    items: Seq<LineItemData<T>>,
    level: u8,
    from: int,
    to: int,
)
    requires
        0 <= from <= to <= items.len(),
    ensures
        ({
            let out = reverse_runs(items, level, from, to);
            &&& out.len() == items.len()
            &&& forall|i: int|
                0 <= i < items.len() && (i < from || i >= to || items[i].bidi_level < level)
                    ==> #[trigger] out[i] == items[i]
            &&& forall|start: int, end: int, i: int|
                #[trigger] is_run(items, level, from, to, start, end) && start <= i < end
                    ==> #[trigger] out[i] == items[start + end - 1 - i]
        }),
{
    let out = reverse_runs(items, level, from, to);
    lemma_reverse_runs_same(items, level, from, from, to);
    assert forall|i: int|
        0 <= i < items.len() && (i < from || i >= to || items[i].bidi_level < level) implies
        #[trigger] out[i] == items[i] by {
        lemma_reverse_runs_outside(items, level, from, to, i);
    }
    assert forall|start: int, end: int, i: int|
        #[trigger] is_run(items, level, from, to, start, end) && start <= i < end implies
        #[trigger] out[i] == items[start + end - 1 - i] by {
        lemma_reverse_runs_inside(items, level, from, from, to, (start, end), i);
    }
}

/// Reversing the runs of a level mirrors the runs of that and higher levels in
/// them.
proof fn lemma_mirrored_run<T: Scalar>(
    items: Seq<LineItemData<T>>,
    level: u8,
    higher: u8,
    from: int,
    to: int,
    outer: (int, int),
    inner: (int, int),
)
    requires
        0 <= from <= to <= items.len(),
        level <= higher,
        is_run(items, level, from, to, outer.0, outer.1),
        is_run(items, higher, from, to, inner.0, inner.1),
        outer.0 <= inner.0,
        inner.1 <= outer.1,
    ensures
        is_run(
            reverse_runs(items, level, from, to),
            higher,
            from,
            to,
            outer.0 + outer.1 - inner.1,
            outer.0 + outer.1 - inner.0,
        ),
{
    let out = reverse_runs(items, level, from, to);
    let sum = outer.0 + outer.1;
    lemma_reversed_runs(items, level, from, to);
    assert(is_run(items, level, from, to, outer.0, outer.1));
    assert forall|i: int| sum - inner.1 <= i < sum - inner.0 implies (#[trigger] out[i]).bidi_level
        >= higher by {
        assert(out[i] == items[sum - 1 - i]);
    }
    let start = sum - inner.1;
    let end = sum - inner.0;
    if inner.1 < outer.1 {
        assert(out[start - 1] == items[inner.1]);
    } else if outer.0 > from {
        assert(out[outer.0 - 1] == items[outer.0 - 1]);
    }
    if inner.0 > outer.0 {
        assert(out[end] == items[inner.0 - 1]);
    } else if outer.1 < to {
        assert(out[outer.1] == items[outer.1]);
    }
}

/// A run of a higher level lies in a run of the lower one.
proof fn lemma_inner_run<T: Scalar>(
    items: Seq<LineItemData<T>>,
    level: u8,
    higher: u8,
    from: int,
    to: int,
    outer: (int, int),
    inner: (int, int),
    i: int,
)
    requires
        level <= higher,
        is_run(items, level, from, to, outer.0, outer.1),
        is_run(items, higher, from, to, inner.0, inner.1),
        outer.0 <= i < outer.1,
        inner.0 <= i < inner.1,
    ensures
        outer.0 <= inner.0,
        inner.1 <= outer.1,
{
    if inner.0 < outer.0 {
        assert(items[outer.0 - 1].bidi_level >= higher);
    }
    if outer.1 < inner.1 {
        assert(items[outer.1].bidi_level >= higher);
    }
}

/// Reversing the runs of a higher level keeps the runs of a lower one.
proof fn lemma_outer_run_is_kept<T: Scalar>(
    items: Seq<LineItemData<T>>,
    level: u8,
    higher: u8,
    from: int,
    to: int,
    outer: (int, int),
)
    requires
        0 <= from <= to <= items.len(),
        level <= higher,
        is_run(items, level, from, to, outer.0, outer.1),
    ensures
        is_run(reverse_runs(items, higher, from, to), level, from, to, outer.0, outer.1),
{
    let out = reverse_runs(items, higher, from, to);
    lemma_reversed_runs(items, higher, from, to);
    assert forall|i: int| outer.0 <= i < outer.1 implies (#[trigger] out[i]).bidi_level
        >= level by {
        if items[i].bidi_level >= higher {
            let run = lemma_run_of(items, higher, from, to, i);
            assert(is_run(items, higher, from, to, run.0, run.1));
            assert(out[i] == items[run.0 + run.1 - 1 - i]);
        } else {
            assert(out[i] == items[i]);
        }
    }
    if outer.0 > from {
        assert(out[outer.0 - 1] == items[outer.0 - 1]);
    }
    if outer.1 < to {
        assert(out[outer.1] == items[outer.1]);
    }
}

pub(crate) proof fn lemma_reversing_runs_twice<T: Scalar>(
    items: Seq<LineItemData<T>>,
    level: u8,
    from: int,
    to: int,
)
    requires
        0 <= from <= to <= items.len(),
    ensures
        reverse_runs(reverse_runs(items, level, from, to), level, from, to) == items,
{
    let once = reverse_runs(items, level, from, to);
    let twice = reverse_runs(once, level, from, to);
    lemma_reversed_runs(items, level, from, to);
    lemma_reversed_runs(once, level, from, to);
    assert forall|i: int| 0 <= i < items.len() implies #[trigger] twice[i] == items[i] by {
        if from <= i < to && items[i].bidi_level >= level {
            let run = lemma_run_of(items, level, from, to, i);
            lemma_outer_run_is_kept(items, level, level, from, to, run);
            assert(is_run(once, level, from, to, run.0, run.1));
            assert(twice[i] == once[run.0 + run.1 - 1 - i]);
            assert(is_run(items, level, from, to, run.0, run.1));
        } else {
            assert(once[i] == items[i]);
        }
    }
    assert(twice =~= items);
}

/// The runs of two levels can be reversed in either order.
proof fn lemma_reversals_commute<T: Scalar>(
    items: Seq<LineItemData<T>>,
    level: u8,
    higher: u8,
    from: int,
    to: int,
)
    requires
        0 <= from <= to <= items.len(),
        level < higher,
    ensures
        reverse_runs(reverse_runs(items, level, from, to), higher, from, to) == reverse_runs(
            reverse_runs(items, higher, from, to),
            level,
            from,
            to,
        ),
{
    let low = reverse_runs(items, level, from, to);
    let high = reverse_runs(items, higher, from, to);
    let low_high = reverse_runs(low, higher, from, to);
    let high_low = reverse_runs(high, level, from, to);
    lemma_reversed_runs(items, level, from, to);
    lemma_reversed_runs(items, higher, from, to);
    lemma_reversed_runs(low, higher, from, to);
    lemma_reversed_runs(high, level, from, to);
    assert forall|i: int| 0 <= i < items.len() implies #[trigger] low_high[i] == high_low[i] by {
        if from <= i < to && items[i].bidi_level >= level {
            let outer = lemma_run_of(items, level, from, to, i);
            let twin = outer.0 + outer.1 - 1 - i;
            lemma_outer_run_is_kept(items, level, higher, from, to, outer);
            assert(is_run(high, level, from, to, outer.0, outer.1));
            assert(high_low[i] == high[twin]);
            assert(is_run(items, level, from, to, outer.0, outer.1));
            assert(low[i] == items[twin]);
            if items[twin].bidi_level >= higher {
                let inner = lemma_run_of(items, higher, from, to, twin);
                lemma_inner_run(items, level, higher, from, to, outer, inner, twin);
                lemma_mirrored_run(items, level, higher, from, to, outer, inner);
                let start = outer.0 + outer.1 - inner.1;
                let end = outer.0 + outer.1 - inner.0;
                assert(is_run(low, higher, from, to, start, end));
                assert(low_high[i] == low[start + end - 1 - i]);
                assert(low[start + end - 1 - i] == items[inner.0 + inner.1 - 1 - twin]);
                assert(is_run(items, higher, from, to, inner.0, inner.1));
                assert(high[twin] == items[inner.0 + inner.1 - 1 - twin]);
            } else {
                assert(high[twin] == items[twin]);
                assert(low_high[i] == low[i]);
            }
        } else {
            assert(low[i] == items[i]);
            assert(high[i] == items[i]);
            assert(low_high[i] == low[i]);
            assert(high_low[i] == high[i]);
        }
    }
    assert(low_high =~= high_low);
}

proof fn lemma_reversal_passes_levels<T: Scalar>(
    items: Seq<LineItemData<T>>,
    higher: u8,
    level: int,
    lowest: int,
    from: int,
    to: int,
)
    requires
        0 <= from <= to <= items.len(),
        0 <= lowest,
        level < higher,
    ensures
        reverse_runs(reverse_levels(items, level, lowest, from, to), higher, from, to)
            == reverse_levels(reverse_runs(items, higher, from, to), level, lowest, from, to),
    decreases level - lowest + 1,
{
    if level >= lowest {
        let next = reverse_runs(items, level as u8, from, to);
        lemma_reversed_runs(items, level as u8, from, to);
        lemma_reversal_passes_levels(next, higher, level - 1, lowest, from, to);
        lemma_reversals_commute(items, level as u8, higher, from, to);
    }
}

proof fn lemma_reversing_levels_twice<T: Scalar>(
    items: Seq<LineItemData<T>>,
    level: int,
    lowest: int,
    from: int,
    to: int,
)
    requires
        0 <= from <= to <= items.len(),
        0 <= lowest,
        level <= 255,
    ensures
        reverse_levels(
            reverse_levels(items, level, lowest, from, to),
            level,
            lowest,
            from,
            to,
        ) == items,
    decreases level - lowest + 1,
{
    if level >= lowest {
        let next = reverse_runs(items, level as u8, from, to);
        lemma_reversed_runs(items, level as u8, from, to);
        lemma_reversal_passes_levels(next, level as u8, level - 1, lowest, from, to);
        lemma_reversing_runs_twice(items, level as u8, from, to);
        lemma_reversing_levels_twice(items, level - 1, lowest, from, to);
    }
}

/// The levels of items that occur in another sequence are no higher than the
/// highest there, and their lowest odd one no lower.
proof fn lemma_levels_of_part<T: Scalar>(
    a: Seq<LineItemData<T>>,
    b: Seq<LineItemData<T>>,
    from: int,
    at: int,
    to: int,
)
    requires
        from <= at <= to,
        forall|i: int| from <= i < to ==> occurs_in(#[trigger] a[i], b, from, to),
    ensures
        highest_level(a, from, at) <= highest_level(b, from, to),
        lowest_odd_level(a, from, at) >= lowest_odd_level(b, from, to),
    decreases at - from,
{
    if from < at {
        lemma_levels_of_part(a, b, from, at - 1, to);
        assert(occurs_in(a[at - 1], b, from, to));
        let j = choose|j: int| from <= j < to && #[trigger] b[j] == a[at - 1];
        lemma_level_of_item(b, from, to, j);
    }
}

pub(crate) proof fn lemma_level_of_item<T: Scalar>(
    items: Seq<LineItemData<T>>,
    from: int,
    to: int,
    i: int,
)
    requires
        from <= i < to,
    ensures
        items[i].bidi_level <= highest_level(items, from, to),
        items[i].bidi_level % 2 == 1 ==> lowest_odd_level(items, from, to) <= items[i].bidi_level,
    decreases to - from,
{
    if i < to - 1 {
        lemma_level_of_item(items, from, to - 1, i);
    }
}

/// Reordering twice restores the order.
pub proof fn lemma_reordering_twice_restores<T: Scalar>(
    items: Seq<LineItemData<T>>,
    from: int,
    to: int,
)
    requires
        0 <= from <= to <= items.len(),
    ensures
        reordered(reordered(items, from, to), from, to) == items,
{
    let level = highest_level(items, from, to) as int;
    let lowest = lowest_odd_level(items, from, to) as int;
    let out = reordered(items, from, to);
    lemma_reverse_levels_same(items, level, lowest, from, to);
    lemma_reversing_levels_twice(items, level, lowest, from, to);
    lemma_reverse_levels_same(out, level, lowest, from, to);
    lemma_levels_of_part(items, out, from, to, to);
    lemma_levels_of_part(out, items, from, to, to);
}

proof fn lemma_levels_keep_stretch<T: Scalar>(
    items: Seq<LineItemData<T>>,
    level: int,
    lowest: int,
    from: int,
    to: int,
    stretch: (int, int),
)
    requires
        0 <= from <= to <= items.len(),
        0 <= lowest <= 255,
        level <= 255,
        is_run(items, lowest as u8, from, to, stretch.0, stretch.1),
    ensures
        ({
            let out = reverse_levels(items, level, lowest, from, to);
            &&& is_run(out, lowest as u8, from, to, stretch.0, stretch.1)
            &&& forall|i: int|
                stretch.0 <= i < stretch.1 ==> occurs_in(
                    #[trigger] out[i],
                    items,
                    stretch.0,
                    stretch.1,
                )
        }),
    decreases level - lowest + 1,
{
    if level < lowest {
        assert forall|i: int| stretch.0 <= i < stretch.1 implies occurs_in(
            #[trigger] items[i],
            items,
            stretch.0,
            stretch.1,
        ) by {
            assert(items[i] == items[i]);
        }
    } else {
        let next = reverse_runs(items, level as u8, from, to);
        let out = reverse_levels(items, level, lowest, from, to);
        lemma_reversed_runs(items, level as u8, from, to);
        lemma_outer_run_is_kept(items, lowest as u8, level as u8, from, to, stretch);
        lemma_levels_keep_stretch(next, level - 1, lowest, from, to, stretch);
        assert forall|i: int| stretch.0 <= i < stretch.1 implies occurs_in(
            #[trigger] out[i],
            items,
            stretch.0,
            stretch.1,
        ) by {
            assert(occurs_in(out[i], next, stretch.0, stretch.1));
            let j = choose|j: int| stretch.0 <= j < stretch.1 && #[trigger] next[j] == out[i];
            if items[j].bidi_level >= level {
                let run = lemma_run_of(items, level as u8, from, to, j);
                lemma_inner_run(items, lowest as u8, level as u8, from, to, stretch, run, j);
                assert(is_run(items, level as u8, from, to, run.0, run.1));
                assert(next[j] == items[run.0 + run.1 - 1 - j]);
            } else {
                assert(next[j] == items[j]);
            }
        }
    }
}

proof fn lemma_levels_keep_lower<T: Scalar>(
    items: Seq<LineItemData<T>>,
    level: int,
    lowest: int,
    from: int,
    to: int,
    i: int,
)
    requires
        0 <= from <= to <= items.len(),
        0 <= lowest,
        level <= 255,
        0 <= i < items.len(),
        items[i].bidi_level < lowest,
    ensures
        reverse_levels(items, level, lowest, from, to)[i] == items[i],
    decreases level - lowest + 1,
{
    if level >= lowest {
        let next = reverse_runs(items, level as u8, from, to);
        lemma_reversed_runs(items, level as u8, from, to);
        assert(next[i] == items[i]);
        lemma_levels_keep_lower(next, level - 1, lowest, from, to, i);
    }
}

/// Items move only within a stretch of items at or above the lowest odd level:
/// the items of such a stretch keep its places as a set, and all other items
/// stay where they are.
pub proof fn lemma_stretches_keep_their_places<T: Scalar>(
    items: Seq<LineItemData<T>>,
    from: int,
    to: int,
    start: int,
    end: int,
)
    requires
        0 <= from <= to <= items.len(),
        is_run(items, lowest_odd_level(items, from, to), from, to, start, end),
    ensures
        ({
            let lowest = lowest_odd_level(items, from, to);
            let out = reordered(items, from, to);
            &&& is_run(out, lowest, from, to, start, end)
            &&& forall|i: int|
                start <= i < end ==> occurs_in(#[trigger] out[i], items, start, end)
            &&& forall|i: int|
                start <= i < end ==> occurs_in(#[trigger] items[i], out, start, end)
            &&& forall|i: int|
                from <= i < to && items[i].bidi_level < lowest ==> #[trigger] out[i] == items[i]
        }),
{
    let lowest = lowest_odd_level(items, from, to);
    let level = highest_level(items, from, to) as int;
    let out = reordered(items, from, to);
    lemma_levels_keep_stretch(items, level, lowest as int, from, to, (start, end));
    lemma_reverse_levels_same(items, level, lowest as int, from, to);
    lemma_reversing_levels_twice(items, level, lowest as int, from, to);
    lemma_levels_keep_stretch(out, level, lowest as int, from, to, (start, end));
    assert forall|i: int| from <= i < to && items[i].bidi_level < lowest implies
        #[trigger] out[i] == items[i] by {
        lemma_levels_keep_lower(items, level, lowest as int, from, to, i);
    }
}

} // verus!
