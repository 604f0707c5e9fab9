//! Lengths of fixed-point layouts as whole numbers of steps.

use crate::inline_box::InlineBoxKind;
use crate::layout::data::LayoutData;
use crate::layout::shaped::{Boundary, Whitespace};
use crate::scalar::Fixed;
use vstd::prelude::*;

verus! {

/// The distance of a number from zero.
pub open spec fn size_of_number(n: int) -> int {
    if n < 0 {
        -n
    } else {
        n
    }
}

/// A cluster is a forced break.
pub open spec fn is_forced_break(layout: LayoutData<Fixed>, cluster: int) -> bool {
    let text = layout.shaped_text;
    text.characters@[text.clusters@[cluster].chars.start as int].whitespace == Whitespace::Newline
}

/// The advances of the clusters `from..to` that are no forced breaks, added up.
pub open spec fn text_steps(layout: LayoutData<Fixed>, from: int, to: int) -> int
    decreases to - from,
{
    if from >= to {
        0
    } else {
        text_steps(layout, from, to - 1) + if is_forced_break(layout, to - 1) {
            0
        } else {
            layout.shaped_text.clusters@[to - 1].advance.steps as int
        }
    }
}

/// The sizes of the advances of the clusters `from..to`, added up.
pub open spec fn text_size(layout: LayoutData<Fixed>, from: int, to: int) -> int
    decreases to - from,
{
    if from >= to {
        0
    } else {
        text_size(layout, from, to - 1) + size_of_number(
            layout.shaped_text.clusters@[to - 1].advance.steps as int,
        )
    }
}

/// The width that an item takes up beside text: atomic boxes and inline edges
/// take up their widths, other boxes nothing.
pub open spec fn box_steps(layout: LayoutData<Fixed>, item: int) -> int {
    let inline_box = layout.inline_boxes@[layout.items@[item].index as int];
    if layout.spec_is_text(item) {
        0
    } else {
        match inline_box.kind {
            InlineBoxKind::InFlow
            | InlineBoxKind::StartBoundary
            | InlineBoxKind::EndBoundary => inline_box.width.steps as int,
            _ => 0,
        }
    }
}

/// The widths of the boxes among the items `from..to`, added up.
pub open spec fn boxes_steps(layout: LayoutData<Fixed>, from: int, to: int) -> int
    decreases to - from,
{
    if from >= to {
        0
    } else {
        boxes_steps(layout, from, to - 1) + box_steps(layout, to - 1)
    }
}

pub open spec fn boxes_size(layout: LayoutData<Fixed>, from: int, to: int) -> int
    decreases to - from,
{
    if from >= to {
        0
    } else {
        boxes_size(layout, from, to - 1) + size_of_number(box_steps(layout, to - 1))
    }
}

/// All lengths together can be represented.
pub open spec fn lengths_fit(layout: LayoutData<Fixed>) -> bool {
    text_size(layout, 0, layout.shaped_text.clusters@.len() as int) + boxes_size(
        layout,
        0,
        layout.items@.len() as int,
    ) <= i64::MAX
}

/// A grapheme is a forced break as a whole or not at all, and a line cannot be
/// wrapped right before one.
pub open spec fn has_whole_breaks(layout: LayoutData<Fixed>) -> bool {
    let clusters = layout.shaped_text.clusters@;
    &&& forall|c: int|
        0 < c < clusters.len() && !(#[trigger] clusters[c]).grapheme_start ==> is_forced_break(
            layout,
            c,
        ) == is_forced_break(layout, c - 1)
    &&& forall|c: int|
        0 <= c < clusters.len() && #[trigger] is_forced_break(layout, c)
            ==> layout.shaped_text.spec_first_character(c).boundary != Boundary::Line
}

pub proof fn lemma_text_steps_adjacent(layout: LayoutData<Fixed>, from: int, at: int, to: int)
    requires
        from <= at <= to,
    ensures
        text_steps(layout, from, to) == text_steps(layout, from, at) + text_steps(layout, at, to),
    decreases to - at,
{
    if at < to {
        lemma_text_steps_adjacent(layout, from, at, to - 1);
    }
}

pub proof fn lemma_text_size_adjacent(layout: LayoutData<Fixed>, from: int, at: int, to: int)
    requires
        from <= at <= to,
    ensures
        text_size(layout, from, to) == text_size(layout, from, at) + text_size(layout, at, to),
        text_size(layout, from, at) >= 0,
        text_size(layout, at, to) >= 0,
    decreases to - from,
{
    if at < to {
        lemma_text_size_adjacent(layout, from, at, to - 1);
    } else if from < at {
        lemma_text_size_adjacent(layout, from, at - 1, at - 1);
    }
}

pub proof fn lemma_boxes_steps_adjacent(layout: LayoutData<Fixed>, from: int, at: int, to: int)
    requires
        from <= at <= to,
    ensures
        boxes_steps(layout, from, to) == boxes_steps(layout, from, at) + boxes_steps(
            layout,
            at,
            to,
        ),
    decreases to - at,
{
    if at < to {
        lemma_boxes_steps_adjacent(layout, from, at, to - 1);
    }
}

proof fn lemma_boxes_size_adjacent(layout: LayoutData<Fixed>, from: int, at: int, to: int)
    requires
        from <= at <= to,
    ensures
        boxes_size(layout, from, to) == boxes_size(layout, from, at) + boxes_size(layout, at, to),
        boxes_size(layout, from, at) >= 0,
        boxes_size(layout, at, to) >= 0,
    decreases to - from,
{
    if at < to {
        lemma_boxes_size_adjacent(layout, from, at, to - 1);
    } else if from < at {
        lemma_boxes_size_adjacent(layout, from, at - 1, at - 1);
    }
}

proof fn lemma_text_steps_size(layout: LayoutData<Fixed>, from: int, to: int)
    ensures
        size_of_number(text_steps(layout, from, to)) <= text_size(layout, from, to),
    decreases to - from,
{
    if from < to {
        lemma_text_steps_size(layout, from, to - 1);
    }
}

proof fn lemma_boxes_steps_size(layout: LayoutData<Fixed>, from: int, to: int)
    ensures
        size_of_number(boxes_steps(layout, from, to)) <= boxes_size(layout, from, to),
    decreases to - from,
{
    if from < to {
        lemma_boxes_steps_size(layout, from, to - 1);
    }
}

/// Every part of a layout whose lengths fit has a length that fits.
pub proof fn lemma_parts_fit(
    layout: LayoutData<Fixed>,
    first: int,
    item: int,
    start: int,
    end: int,
)
    requires
        lengths_fit(layout),
        0 <= first <= item <= layout.items@.len(),
        0 <= start <= end <= layout.shaped_text.clusters@.len(),
    ensures
        size_of_number(
            boxes_steps(layout, first, item) + text_steps(layout, start, end),
        ) <= i64::MAX,
        text_size(layout, start, end) <= i64::MAX,
        size_of_number(boxes_steps(layout, first, item)) + text_size(layout, start, end)
            <= i64::MAX,
{
    let all = layout.shaped_text.clusters@.len() as int;
    let items = layout.items@.len() as int;
    lemma_text_size_adjacent(layout, 0, start, all);
    lemma_text_size_adjacent(layout, start, end, all);
    lemma_boxes_size_adjacent(layout, 0, first, items);
    lemma_boxes_size_adjacent(layout, first, item, items);
    lemma_text_steps_size(layout, start, end);
    lemma_boxes_steps_size(layout, first, item);
}

/// The advances of clusters, all of them.
pub open spec fn cluster_steps(layout: LayoutData<Fixed>, from: int, to: int) -> int
    decreases to - from,
{
    if from >= to {
        0
    } else {
        layout.shaped_text.clusters@[from].advance.steps + cluster_steps(layout, from + 1, to)
    }
}

proof fn lemma_cluster_steps_size(layout: LayoutData<Fixed>, from: int, to: int)
    ensures
        size_of_number(cluster_steps(layout, from, to)) <= text_size(layout, from, to),
        text_size(layout, from, to) >= 0,
    decreases to - from,
{
    if from < to {
        lemma_cluster_steps_size(layout, from + 1, to);
        lemma_text_size_adjacent(layout, from, from + 1, to);
        reveal_with_fuel(text_size, 2);
    }
}

pub(crate) proof fn lemma_advances_steps(layout: LayoutData<Fixed>, acc: Fixed, from: int, to: int)
    requires
        size_of_number(acc.steps as int) + text_size(layout, from, to) <= i64::MAX,
    ensures
        layout.shaped_text.advances(acc, from, to).steps == acc.steps + cluster_steps(
            layout,
            from,
            to,
        ),
    decreases to - from,
{
    if from < to {
        let advance = layout.shaped_text.clusters@[from].advance;
        lemma_text_size_adjacent(layout, from, from + 1, to);
        reveal_with_fuel(text_size, 2);
        let next = Fixed { steps: (acc.steps + advance.steps) as i64 };
        lemma_advances_steps(layout, next, from + 1, to);
    }
}

proof fn lemma_steps_of_atom(layout: LayoutData<Fixed>, from: int, at: int, bound: int)
    requires
        has_whole_breaks(layout),
        0 <= from <= at < bound <= layout.shaped_text.clusters@.len(),
        is_forced_break(layout, at) == is_forced_break(layout, from),
    ensures
        ({
            let end = layout.shaped_text.atom_end(at, bound);
            &&& is_forced_break(layout, from) ==> text_steps(layout, at, end) == 0
            &&& !is_forced_break(layout, from) ==> text_steps(layout, at, end) == cluster_steps(
                layout,
                at,
                end,
            )
        }),
    decreases bound - at,
{
    let end = layout.shaped_text.atom_end(at, bound);
    layout.shaped_text.lemma_atom_end(at, bound);
    lemma_text_steps_adjacent(layout, at, at + 1, end);
    reveal_with_fuel(text_steps, 2);
    reveal_with_fuel(cluster_steps, 2);
    if at + 1 < bound && !layout.shaped_text.clusters@[at + 1].grapheme_start {
        lemma_steps_of_atom(layout, from, at + 1, bound);
    }
}

/// The advance of an atom is that of its clusters.
pub proof fn lemma_atom_steps(layout: LayoutData<Fixed>, from: int, bound: int)
    requires
        has_whole_breaks(layout),
        lengths_fit(layout),
        0 <= from < bound <= layout.shaped_text.clusters@.len(),
    ensures
        ({
            let end = layout.shaped_text.atom_end(from, bound);
            let advance = layout.shaped_text.spec_atom(from, bound).advance;
            &&& from < end <= bound
            &&& is_forced_break(layout, from) ==> text_steps(layout, from, end) == 0
            &&& !is_forced_break(layout, from) ==> text_steps(layout, from, end) == advance.steps
        }),
{
    let end = layout.shaped_text.atom_end(from, bound);
    layout.shaped_text.lemma_atom_end(from, bound);
    lemma_parts_fit(layout, 0, 0, from, end);
    lemma_text_size_adjacent(layout, from, from + 1, end);
    reveal_with_fuel(text_size, 2);
    lemma_advances_steps(layout, layout.shaped_text.clusters@[from].advance, from + 1, end);
    lemma_steps_of_atom(layout, from, from, bound);
}

/// Forced breaks have no advance, and no advance is negative.
pub open spec fn has_plain_advances(layout: LayoutData<Fixed>) -> bool {
    forall|c: int|
        0 <= c < layout.shaped_text.clusters@.len() ==> {
            let advance = (#[trigger] layout.shaped_text.clusters@[c]).advance.steps;
            advance >= 0 && (is_forced_break(layout, c) ==> advance == 0)
        }
}

proof fn lemma_plain_steps(layout: LayoutData<Fixed>, from: int, to: int)
    requires
        has_plain_advances(layout),
        0 <= from <= to <= layout.shaped_text.clusters@.len(),
    ensures
        cluster_steps(layout, from, to) == text_steps(layout, from, to),
        text_steps(layout, from, to) >= 0,
    decreases to - from,
{
    if from < to {
        lemma_plain_steps(layout, from + 1, to);
        lemma_text_steps_adjacent(layout, from, from + 1, to);
        reveal_with_fuel(text_steps, 2);
        assert(layout.shaped_text.clusters@[from].advance.steps >= 0);
    }
}

/// More text is not narrower.
pub proof fn lemma_text_steps_grow(layout: LayoutData<Fixed>, a: int, b: int, c: int, d: int)
    requires
        has_plain_advances(layout),
        0 <= a <= b <= c <= d <= layout.shaped_text.clusters@.len(),
    ensures
        0 <= text_steps(layout, b, c) <= text_steps(layout, a, d),
{
    lemma_plain_steps(layout, a, b);
    lemma_plain_steps(layout, b, c);
    lemma_plain_steps(layout, c, d);
    lemma_text_steps_adjacent(layout, a, b, d);
    lemma_text_steps_adjacent(layout, b, c, d);
}

/// The advance of any atom is that of its clusters where forced breaks have none.
pub proof fn lemma_plain_atom_steps(layout: LayoutData<Fixed>, from: int, bound: int)
    requires
        has_plain_advances(layout),
        lengths_fit(layout),
        0 <= from < bound <= layout.shaped_text.clusters@.len(),
    ensures
        ({
            let end = layout.shaped_text.atom_end(from, bound);
            &&& from < end <= bound
            &&& layout.shaped_text.spec_atom(from, bound).advance.steps == text_steps(
                layout,
                from,
                end,
            )
        }),
{
    let end = layout.shaped_text.atom_end(from, bound);
    layout.shaped_text.lemma_atom_end(from, bound);
    lemma_parts_fit(layout, 0, 0, from, end);
    lemma_text_size_adjacent(layout, from, from + 1, end);
    reveal_with_fuel(text_size, 2);
    lemma_advances_steps(layout, layout.shaped_text.clusters@[from].advance, from + 1, end);
    lemma_plain_steps(layout, from, end);
}

} // verus!
