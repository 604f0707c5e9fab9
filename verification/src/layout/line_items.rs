//! The items of a committed line: their extent, and their levels at its end.

use crate::inline_box::InlineBoxKind;
use crate::layout::commit;
use crate::layout::data::{LayoutData, LineItemData};
use crate::layout::shaped::{ShapedText, Span, Whitespace};
use crate::scalar::Scalar;
use vstd::prelude::*;

verus! {

// ---------------------------------------------------------------------------
// Advances and ranges.

/// A line item with its advance and white-space flag computed from its
/// clusters.
pub open spec fn measured_item<T: Scalar>(
    layout: LayoutData<T>,
    item: LineItemData<T>,
) -> LineItemData<T> {
    if item.spec_is_text_run() {
        let clusters = item.shaped_cluster_range;
        LineItemData {
            advance: layout.shaped_text.advances(
                T::spec_zero(),
                clusters.start as int,
                clusters.end as int,
            ),
            ..item.with_ignorable(layout)
        }
    } else {
        item
    }
}

/// The items with those of a line measured.
pub open spec fn measured<T: Scalar>(
    layout: LayoutData<T>,
    items: Seq<LineItemData<T>>,
    from: int,
    to: int,
) -> Seq<LineItemData<T>> {
    Seq::new(
        items.len(),
        |i: int|
            if from <= i < to {
                measured_item(layout, items[i])
            } else {
                items[i]
            },
    )
}

/// Whether an item is neither text nor contributes to the advance.
pub open spec fn is_placeholder<T: Scalar>(layout: LayoutData<T>, item: LineItemData<T>) -> bool {
    !item.spec_is_text_run()
        && !layout.inline_boxes@[item.index as int].kind.spec_contributes_advance()
}

/// A line without content: whatever is on it takes up no space.
pub open spec fn is_bare<T: Scalar>(
    layout: LayoutData<T>,
    items: Seq<LineItemData<T>>,
    from: int,
    to: int,
) -> bool {
    forall|i: int| from <= i < to ==> is_placeholder(layout, #[trigger] items[i])
}

/// The smallest range that holds the text of the items; where none of them is
/// text, a range whose start is past its end.
pub open spec fn text_hull<T: Scalar>(items: Seq<LineItemData<T>>, from: int, to: int) -> Span
    decreases to - from,
{
    if from >= to {
        Span { start: usize::MAX, end: 0 }
    } else {
        let rest = text_hull(items, from, to - 1);
        let item = items[to - 1];
        if item.spec_is_text_run() {
            Span {
                start: if item.text_range.start < rest.start {
                    item.text_range.start
                } else {
                    rest.start
                },
                end: if item.text_range.end > rest.end {
                    item.text_range.end
                } else {
                    rest.end
                },
            }
        } else {
            rest
        }
    }
}

/// None of the items is text.
pub open spec fn has_no_text<T: Scalar>(items: Seq<LineItemData<T>>, from: int, to: int) -> bool {
    forall|i: int| from <= i < to ==> !(#[trigger] items[i]).spec_is_text_run()
}

/// Where a box stands in the text, at the latest at its end.
pub open spec fn text_place<T: Scalar>(layout: LayoutData<T>, item: LineItemData<T>) -> usize {
    let index = layout.inline_boxes@[item.index as int].index;
    if index < layout.text_len {
        index
    } else {
        layout.text_len
    }
}

/// The source text of a line. A line without content stands at the end of the
/// text, one with boxes alone at the place of the first of them.
pub open spec fn line_text_range<T: Scalar>(
    layout: LayoutData<T>,
    items: Seq<LineItemData<T>>,
    from: int,
    to: int,
) -> Span {
    if is_bare(layout, items, from, to) {
        Span { start: layout.text_len, end: layout.text_len }
    } else if has_no_text(items, from, to) {
        let place = text_place(layout, items[from]);
        Span { start: place, end: place }
    } else {
        text_hull(items, from, to)
    }
}

pub open spec fn has_levels<T: Scalar>(items: Seq<LineItemData<T>>, from: int, to: int) -> bool {
    exists|i: int| from <= i < to && (#[trigger] items[i]).bidi_level != 0
}

// ---------------------------------------------------------------------------
// Trailing white space takes the paragraph's level.

impl<T: Scalar> ShapedText<T> {
    /// The position in the source text of a character boundary of a run.
    pub open spec fn spec_text_byte_at(self, run: int, character: int) -> usize {
        let clusters = self.runs@[run].clusters;
        if character == self.spec_chars_of(clusters.start as int, clusters.end as int).end {
            self.characters@[character - 1].text.end
        } else {
            self.characters@[character].text.start
        }
    }

    /// The position in the source text of a character boundary of a run.
    pub fn text_byte_at(&self, run: usize, character: usize) -> (r: usize)
        requires
            self.wf(),
            run < self.runs@.len(),
            character < self.characters@.len(),
        ensures
            r == self.spec_text_byte_at(run as int, character as int),
    {
        let clusters = self.runs[run].clusters;
        let chars = self.chars_of(clusters.start, clusters.end);
        if character == chars.end {
            self.characters[character - 1].text.end
        } else {
            self.characters[character].text.start
        }
    }

    /// White space to which rule L1 of UAX #9 applies.
    pub open spec fn spec_is_l1_whitespace(self, cluster: int) -> bool {
        let first = self.spec_first_character(cluster);
        first.spec_is_line_end_space() || first.whitespace == Whitespace::Newline
    }

    /// Where the white space at the end of the clusters `from..to` starts.
    pub open spec fn whitespace_start(self, from: int, to: int) -> int
        decreases to - from,
    {
        if from >= to || !self.spec_is_l1_whitespace(to - 1) {
            to
        } else {
            self.whitespace_start(from, to - 1)
        }
    }

    pub proof fn lemma_whitespace_start(self, from: int, to: int)
        requires
            from <= to,
        ensures
            from <= self.whitespace_start(from, to) <= to,
        decreases to - from,
    {
        if from < to && self.spec_is_l1_whitespace(to - 1) {
            self.lemma_whitespace_start(from, to - 1);
        }
    }

    fn find_whitespace_start(&self, from: usize, to: usize) -> (r: usize)
        requires
            self.wf(),
            from <= to <= self.clusters@.len(),
        ensures
            r == self.whitespace_start(from as int, to as int),
            from <= r <= to,
    {
        let mut start: usize = to;
        while start > from
            invariant_except_break
                self.whitespace_start(from as int, to as int) == self.whitespace_start(
                    from as int,
                    start as int,
                ),
            invariant
                self.wf(),
                from <= start <= to <= self.clusters@.len(),
            ensures
                start == self.whitespace_start(from as int, to as int),
            decreases start,
        {
            let first = self.first_character(start - 1);
            if !(first.is_line_end_space() || first.whitespace == Whitespace::Newline) {
                break;
            }
            start = start - 1;
        }
        start
    }
}

/// The part of a text item before the cluster `split`.
pub open spec fn head_of<T: Scalar>(
    layout: LayoutData<T>,
    item: LineItemData<T>,
    split: int,
) -> LineItemData<T> {
    let shaped = layout.shaped_text;
    let end = item.shaped_cluster_range.end as int;
    LineItemData {
        shaped_cluster_range: Span { end: split as usize, ..item.shaped_cluster_range },
        grapheme_range: Span {
            end: (item.grapheme_range.end - shaped.cluster_graphemes(split, end)) as usize,
            ..item.grapheme_range
        },
        text_range: Span {
            end: shaped.spec_text_byte_at(
                item.index as int,
                shaped.clusters@[split].chars.start as int,
            ),
            ..item.text_range
        },
        advance: item.advance.spec_minus(shaped.advances(T::spec_zero(), split, end)),
        ..item
    }.with_ignorable(layout)
}

/// The part of a text item from the cluster `split` on, at the paragraph's
/// level.
pub open spec fn tail_of<T: Scalar>(
    layout: LayoutData<T>,
    item: LineItemData<T>,
    split: int,
) -> LineItemData<T> {
    let shaped = layout.shaped_text;
    let end = item.shaped_cluster_range.end as int;
    LineItemData {
        bidi_level: layout.base_level,
        shaped_cluster_range: Span { start: split as usize, ..item.shaped_cluster_range },
        grapheme_range: Span {
            start: (item.grapheme_range.end - shaped.cluster_graphemes(split, end)) as usize,
            ..item.grapheme_range
        },
        text_range: Span {
            start: shaped.spec_text_byte_at(
                item.index as int,
                shaped.clusters@[split].chars.start as int,
            ),
            ..item.text_range
        },
        advance: shaped.advances(T::spec_zero(), split, end),
        ..item
    }.with_ignorable(layout)
}

/// What resetting the levels at a line's end leads to.
pub struct LevelReset<T: Scalar> {
    /// The line items of all lines.
    pub items: Seq<LineItemData<T>>,
    /// The end of the line's items.
    pub to: int,
    /// Whether a level changed or an item was split.
    pub changed: bool,
}

/// Gives the white space at the end of the items `from..at` the paragraph's
/// level (rule L1 of UAX #9). The item in which it starts is split. Boxes that
/// are not atomic are transparent.
pub open spec fn reset_levels<T: Scalar>(
    layout: LayoutData<T>,
    items: Seq<LineItemData<T>>,
    from: int,
    at: int,
    to: int,
) -> LevelReset<T>
    decreases at - from,
{
    let item = items[at - 1];
    let clusters = item.shaped_cluster_range;
    let split = layout.shaped_text.whitespace_start(clusters.start as int, clusters.end as int);
    if at <= from {
        LevelReset { items, to, changed: false }
    } else if !item.spec_is_text_run() {
        if layout.inline_boxes@[item.index as int].kind == InlineBoxKind::InFlow {
            LevelReset { items, to, changed: false }
        } else {
            reset_levels(layout, items, from, at - 1, to)
        }
    } else if split == clusters.end {
        LevelReset { items, to, changed: false }
    } else if split == clusters.start {
        let reset = LineItemData { bidi_level: layout.base_level, ..item };
        let rest = reset_levels(layout, items.update(at - 1, reset), from, at - 1, to);
        LevelReset { changed: rest.changed || item.bidi_level != layout.base_level, ..rest }
    } else {
        LevelReset {
            items: items.update(at - 1, head_of(layout, item, split)).insert(
                at,
                tail_of(layout, item, split),
            ),
            to: to + 1,
            changed: true,
        }
    }
}

proof fn lemma_split_item_wf<T: Scalar>(layout: LayoutData<T>, item: LineItemData<T>, split: int)
    requires
        layout.wf(),
        item.spec_is_text_run(),
        commit::line_item_wf(layout, item),
        commit::fresh_item_wf(layout, item),
        item.shaped_cluster_range.start < split < item.shaped_cluster_range.end,
    ensures
        layout.shaped_text.cluster_graphemes(split, item.shaped_cluster_range.end as int)
            <= item.grapheme_range.end - item.grapheme_range.start,
        commit::line_item_wf(layout, head_of(layout, item, split)),
        commit::line_item_wf(layout, tail_of(layout, item, split)),
{
    let shaped = layout.shaped_text;
    let start = item.shaped_cluster_range.start as int;
    let end = item.shaped_cluster_range.end as int;
    assert(shaped.clusters@[start].chars.end <= shaped.clusters@[split].chars.start);
    if split < end - 1 {
        assert(shaped.clusters@[split].chars.end <= shaped.clusters@[end - 1].chars.start);
    }
    shaped.lemma_graphemes_split(
        shaped.clusters@[start].chars.start as int,
        shaped.clusters@[split].chars.start as int,
        shaped.clusters@[end - 1].chars.end as int,
    );
    shaped.lemma_graphemes_split(
        0,
        shaped.clusters@[split].chars.start as int,
        shaped.clusters@[end - 1].chars.end as int,
    );
}

/// Measures the items `from..to`.
pub(crate) fn measure_items<T: Scalar>(
    layout: &LayoutData<T>,
    items: &mut Vec<LineItemData<T>>,
    from: usize,
    to: usize,
)
    requires
        layout.wf(),
        from <= to <= old(items)@.len(),
        commit::items_wf(*layout, old(items)@, from as int, to as int),
    ensures
        final(items)@ == measured(*layout, old(items)@, from as int, to as int),
        commit::items_wf(*layout, final(items)@, from as int, to as int),
{
    let mut i: usize = from;
    while i < to
        invariant
            layout.wf(),
            from <= i <= to <= items@.len(),
            items@.len() == old(items)@.len(),
            commit::items_wf(*layout, items@, from as int, to as int),
            forall|k: int|
                0 <= k < items@.len() ==> #[trigger] items@[k] == if from <= k < i {
                    measured_item(*layout, old(items)@[k])
                } else {
                    old(items)@[k]
                },
        decreases to - i,
    {
        let mut item = items[i];
        if item.is_text_run() {
            proof {
                assert(commit::line_item_wf(*layout, items@[i as int]));
                assert(commit::fresh_item_wf(*layout, items@[i as int]));
            }
            item.compute_ignorable_whitespace(layout);
            item.advance = layout.shaped_text.advance_of(
                item.shaped_cluster_range.start,
                item.shaped_cluster_range.end,
            );
            items[i] = item;
        }
        i = i + 1;
    }
    assert(items@ =~= measured(*layout, old(items)@, from as int, to as int));
}

pub(crate) fn is_bare_line<T: Scalar>(
    layout: &LayoutData<T>,
    items: &Vec<LineItemData<T>>,
    from: usize,
    to: usize,
) -> (r: bool)
    requires
        from <= to <= items@.len(),
        commit::items_wf(*layout, items@, from as int, from as int),
    ensures
        r == is_bare(*layout, items@, from as int, to as int),
{
    let mut i: usize = from;
    while i < to
        invariant
            from <= i <= to <= items@.len(),
            commit::items_wf(*layout, items@, from as int, from as int),
            is_bare(*layout, items@, from as int, i as int),
        decreases to - i,
    {
        let item = items[i];
        proof {
            assert(commit::line_item_wf(*layout, items@[i as int]));
        }
        if item.is_text_run() || layout.inline_boxes[item.index].kind.contributes_advance() {
            assert(!is_placeholder(*layout, items@[i as int]));
            return false;
        }
        i = i + 1;
    }
    true
}

/// The smallest range that holds the text of the items, if any of them is text.
pub(crate) fn text_hull_of<T: Scalar>(
    items: &Vec<LineItemData<T>>,
    from: usize,
    to: usize,
) -> (r: Option<Span>)
    requires
        from <= to <= items@.len(),
    ensures
        match r {
            Some(hull) => hull == text_hull(items@, from as int, to as int) && !has_no_text(
                items@,
                from as int,
                to as int,
            ),
            None => has_no_text(items@, from as int, to as int),
        },
{
    let mut found = false;
    let mut hull = Span { start: usize::MAX, end: 0 };
    let mut i: usize = from;
    while i < to
        invariant
            from <= i <= to <= items@.len(),
            hull == text_hull(items@, from as int, i as int),
            found == !has_no_text(items@, from as int, i as int),
        decreases to - i,
    {
        let item = items[i];
        if item.is_text_run() {
            found = true;
            if item.text_range.start < hull.start {
                hull.start = item.text_range.start;
            }
            if item.text_range.end > hull.end {
                hull.end = item.text_range.end;
            }
        }
        i = i + 1;
    }
    if found {
        Some(hull)
    } else {
        None
    }
}

pub(crate) fn find_levels<T: Scalar>(items: &Vec<LineItemData<T>>, from: usize, to: usize) -> (r: bool)
    requires
        from <= to <= items@.len(),
    ensures
        r == has_levels(items@, from as int, to as int),
{
    let mut i: usize = from;
    while i < to
        invariant
            from <= i <= to <= items@.len(),
            !has_levels(items@, from as int, i as int),
        decreases to - i,
    {
        if items[i].bidi_level != 0 {
            assert(items@[i as int].bidi_level != 0);
            return true;
        }
        i = i + 1;
    }
    false
}

fn split_item<T: Scalar>(layout: &LayoutData<T>, item: &LineItemData<T>, split: usize) -> (r: (
    LineItemData<T>,
    LineItemData<T>,
))
    requires
        layout.wf(),
        item.spec_is_text_run(),
        commit::line_item_wf(*layout, *item),
        commit::fresh_item_wf(*layout, *item),
        item.shaped_cluster_range.start < split < item.shaped_cluster_range.end,
    ensures
        r.0 == head_of(*layout, *item, split as int),
        r.1 == tail_of(*layout, *item, split as int),
        commit::line_item_wf(*layout, r.0),
        commit::line_item_wf(*layout, r.1),
{
    proof {
        lemma_split_item_wf(*layout, *item, split as int);
    }
    let end = item.shaped_cluster_range.end;
    let split_text = layout.shaped_text.text_byte_at(
        item.index,
        layout.shaped_text.clusters[split].chars.start,
    );
    let advance = layout.shaped_text.advance_of(split, end);
    let graphemes = layout.shaped_text.count_graphemes(split, end);

    let mut tail = *item;
    tail.bidi_level = layout.base_level;
    tail.advance = advance;
    tail.shaped_cluster_range.start = split;
    tail.grapheme_range.start = item.grapheme_range.end - graphemes;
    tail.text_range.start = split_text;
    tail.compute_ignorable_whitespace(layout);

    let mut head = *item;
    head.shaped_cluster_range.end = split;
    head.grapheme_range.end = item.grapheme_range.end - graphemes;
    head.text_range.end = split_text;
    head.advance = item.advance.minus(advance);
    head.compute_ignorable_whitespace(layout);
    (head, tail)
}

/// Gives the white space at the end of the line the paragraph's level. Returns
/// the new end of the line's items and whether anything changed.
pub(crate) fn reset_trailing_levels<T: Scalar>(
    layout: &LayoutData<T>,
    items: &mut Vec<LineItemData<T>>,
    from: usize,
    to: usize,
) -> (r: (usize, bool))
    requires
        layout.wf(),
        from <= to <= old(items)@.len(),
        commit::items_wf(*layout, old(items)@, from as int, to as int),
    ensures
        ({
            let reset = reset_levels(*layout, old(items)@, from as int, to as int, to as int);
            &&& final(items)@ == reset.items
            &&& r.0 == reset.to
            &&& r.1 == reset.changed
        }),
        commit::items_wf(*layout, final(items)@, from as int, from as int),
        to <= r.0,
        final(items)@.len() - r.0 == old(items)@.len() - to,
        forall|i: int| 0 <= i < from ==> #[trigger] final(items)@[i] == old(items)@[i],
{
    let mut changed = false;
    let mut at: usize = to;
    let ghost target = reset_levels(*layout, items@, from as int, to as int, to as int);
    while at > from
        invariant
            layout.wf(),
            from <= at <= to <= items@.len(),
            items@.len() == old(items)@.len(),
            forall|i: int| 0 <= i < from ==> #[trigger] items@[i] == old(items)@[i],
            commit::items_wf(*layout, items@, from as int, to as int),
            target == reset_levels(*layout, old(items)@, from as int, to as int, to as int),
            ({
                let rest = reset_levels(*layout, items@, from as int, at as int, to as int);
                &&& target.items == rest.items
                &&& target.to == rest.to
                &&& target.changed == (changed || rest.changed)
            }),
        decreases at,
    {
        at = at - 1;
        let mut item = items[at];
        proof {
            assert(commit::line_item_wf(*layout, items@[at as int]));
            assert(commit::fresh_item_wf(*layout, items@[at as int]));
        }
        if !item.is_text_run() {
            if layout.inline_boxes[item.index].kind == InlineBoxKind::InFlow {
                return (to, changed);
            }
            continue;
        }
        let clusters = item.shaped_cluster_range;
        let split = layout.shaped_text.find_whitespace_start(clusters.start, clusters.end);
        if split == clusters.end {
            return (to, changed);
        }
        if split == clusters.start {
            if item.bidi_level != layout.base_level {
                changed = true;
            }
            item.bidi_level = layout.base_level;
            items[at] = item;
            continue;
        }
        let (head, tail) = split_item(layout, &item, split);
        items[at] = head;
        items.insert(at + 1, tail);
        assert(items.len() == items@.len());
        return (to + 1, true);
    }
    (to, changed)
}

} // verus!
