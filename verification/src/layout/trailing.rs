//! White space at the visual end of a line.

use crate::inline_box::InlineBoxKind;
use crate::layout::commit;
use crate::layout::data::{LayoutData, LineItemData};
use crate::layout::shaped::{Span, Whitespace};
use crate::scalar::Scalar;
use crate::style::EndOfLineWhitespace;
use vstd::prelude::*;

verus! {

/// What becomes of a cluster at the end of a line.
#[derive(Clone, Copy, Debug, PartialEq, Eq, Structural)]
pub enum TrailingWhitespaceHang {
    /// It hangs whatever the reason for the break.
    Unconditional,
    /// It is removed if it is at the line's end.
    Removed,
    /// It hangs in full at a soft wrap, and only as needed at other breaks.
    Conditional,
    /// A forced break without an advance: look further inward.
    Skip,
    /// Content, or white space that takes up space.
    End,
}

impl<T: Scalar> LayoutData<T> {
    pub open spec fn spec_trailing_whitespace_hang(self, cluster: int) -> TrailingWhitespaceHang {
        let first = self.shaped_text.spec_first_character(cluster);
        let end_of_line = self.spec_style_of(first).spec_end_of_line();
        match first.whitespace {
            Whitespace::Newline => TrailingWhitespaceHang::Skip,
            Whitespace::NoBreakSpace => TrailingWhitespaceHang::End,
            Whitespace::Space | Whitespace::Tab => match end_of_line {
                EndOfLineWhitespace::TakesUpSpace => TrailingWhitespaceHang::End,
                EndOfLineWhitespace::Remove => TrailingWhitespaceHang::Removed,
                EndOfLineWhitespace::Hang => TrailingWhitespaceHang::Conditional,
            },
            Whitespace::NotSpace => if first.spec_is_ideographic_space() && end_of_line
                != EndOfLineWhitespace::TakesUpSpace {
                TrailingWhitespaceHang::Unconditional
            } else {
                TrailingWhitespaceHang::End
            },
        }
    }

    /// What becomes of a cluster at the end of a line.
    pub fn trailing_whitespace_hang(&self, cluster: usize) -> (r: TrailingWhitespaceHang)
        requires
            self.wf(),
            cluster < self.shaped_text.clusters@.len(),
        ensures
            r == self.spec_trailing_whitespace_hang(cluster as int),
    {
        let first = self.shaped_text.first_character(cluster);
        proof {
            assert(self.shaped_text.clusters@[cluster as int].chars.start
                < self.shaped_text.characters@.len());
        }
        let end_of_line = self.style_of(&first).end_of_line();
        match first.whitespace {
            Whitespace::Newline => TrailingWhitespaceHang::Skip,
            Whitespace::NoBreakSpace => TrailingWhitespaceHang::End,
            Whitespace::Space | Whitespace::Tab => match end_of_line {
                EndOfLineWhitespace::TakesUpSpace => TrailingWhitespaceHang::End,
                EndOfLineWhitespace::Remove => TrailingWhitespaceHang::Removed,
                EndOfLineWhitespace::Hang => TrailingWhitespaceHang::Conditional,
            },
            Whitespace::NotSpace => if first.is_ideographic_space() && end_of_line
                != EndOfLineWhitespace::TakesUpSpace {
                TrailingWhitespaceHang::Unconditional
            } else {
                TrailingWhitespaceHang::End
            },
        }
    }

    /// Whether justification may stretch a cluster.
    pub open spec fn spec_is_justifiable(self, cluster: int) -> bool {
        &&& self.shaped_text.clusters@[cluster].grapheme_start
        &&& self.shaped_text.spec_first_character(cluster).whitespace.spec_is_space_or_nbsp()
    }

    pub fn is_justifiable(&self, cluster: usize) -> (r: bool)
        requires
            self.wf(),
            cluster < self.shaped_text.clusters@.len(),
        ensures
            r == self.spec_is_justifiable(cluster as int),
    {
        self.shaped_text.clusters[cluster].grapheme_start && self.shaped_text.first_character(
            cluster,
        ).whitespace.is_space_or_nbsp()
    }

    pub open spec fn spec_is_rtl(self) -> bool {
        self.base_level % 2 == 1
    }

    /// Whether the paragraph runs from right to left.
    pub fn is_rtl(&self) -> (r: bool)
        ensures
            r == self.spec_is_rtl(),
    {
        self.base_level % 2 == 1
    }
}

pub open spec fn one_more(n: usize) -> usize {
    if n < usize::MAX {
        (n + 1) as usize
    } else {
        n
    }
}

fn count_one_more(n: usize) -> (r: usize)
    ensures
        r == one_more(n),
{
    if n < usize::MAX {
        n + 1
    } else {
        n
    }
}

/// `count` plus the number of justifiable clusters in `from..to`.
pub open spec fn justifiable_clusters<T: Scalar>(
    layout: LayoutData<T>,
    count: usize,
    from: int,
    to: int,
) -> usize
    decreases to - from,
{
    if from >= to {
        count
    } else {
        justifiable_clusters(
            layout,
            if layout.spec_is_justifiable(from) {
                one_more(count)
            } else {
                count
            },
            from + 1,
            to,
        )
    }
}

/// `count` plus the number of justifiable clusters in the items `from..to`.
pub open spec fn justifiable_in_items<T: Scalar>(
    layout: LayoutData<T>,
    count: usize,
    items: Seq<LineItemData<T>>,
    from: int,
    to: int,
) -> usize
    decreases to - from,
{
    if from >= to {
        count
    } else {
        let clusters = items[from].shaped_cluster_range;
        justifiable_in_items(
            layout,
            if items[from].spec_is_text_run() {
                justifiable_clusters(layout, count, clusters.start as int, clusters.end as int)
            } else {
                count
            },
            items,
            from + 1,
            to,
        )
    }
}

/// What the scan from a line's visual end inward has found.
pub struct Trailing<T: Scalar> {
    /// The advance that hangs unconditionally.
    pub unconditional: T,
    /// The advance that hangs conditionally.
    pub conditional: T,
    /// Nothing further inward hangs conditionally.
    pub past_conditional_edge: bool,
    /// Nothing further inward is removed.
    pub seen_hanging: bool,
    /// The number of justifiable spaces among the white space.
    pub spaces: usize,
    /// The clusters to be removed, each with the index of its item.
    pub removed: Seq<(usize, usize)>,
    /// Content was found.
    pub ended: bool,
}

impl<T: Scalar> Trailing<T> {
    pub open spec fn nothing() -> Self {
        Trailing {
            unconditional: T::spec_zero(),
            conditional: T::spec_zero(),
            past_conditional_edge: false,
            seen_hanging: false,
            spaces: 0,
            removed: Seq::empty(),
            ended: false,
        }
    }

    /// Looks at one more cluster.
    pub open spec fn with_cluster(self, layout: LayoutData<T>, item: usize, cluster: usize) -> Self {
        let hang = layout.spec_trailing_whitespace_hang(cluster as int);
        let advance = layout.shaped_text.clusters@[cluster as int].advance;
        let counted = Trailing {
            spaces: if layout.spec_is_justifiable(cluster as int) {
                one_more(self.spaces)
            } else {
                self.spaces
            },
            ..self
        };
        match hang {
            TrailingWhitespaceHang::Skip => self,
            TrailingWhitespaceHang::End => Trailing { ended: true, ..self },
            TrailingWhitespaceHang::Removed if !self.seen_hanging => Trailing {
                removed: self.removed.push((item, cluster)),
                ..counted
            },
            TrailingWhitespaceHang::Conditional if !self.past_conditional_edge => Trailing {
                seen_hanging: true,
                conditional: self.conditional.spec_plus(advance),
                ..counted
            },
            _ => Trailing {
                seen_hanging: true,
                past_conditional_edge: true,
                unconditional: self.unconditional.spec_plus(advance),
                ..counted
            },
        }
    }

    /// Looks at the clusters `from..to` of an item, from either end.
    pub open spec fn with_clusters(
        self,
        layout: LayoutData<T>,
        item: usize,
        from: int,
        to: int,
        backwards: bool,
    ) -> Self
        decreases to - from,
    {
        if self.ended || from >= to {
            self
        } else if backwards {
            self.with_cluster(layout, item, (to - 1) as usize).with_clusters(
                layout,
                item,
                from,
                to - 1,
                backwards,
            )
        } else {
            self.with_cluster(layout, item, from as usize).with_clusters(
                layout,
                item,
                from + 1,
                to,
                backwards,
            )
        }
    }

    /// Looks at one more item. An atomic box is content; other boxes are
    /// transparent.
    pub open spec fn with_item(
        self,
        layout: LayoutData<T>,
        items: Seq<LineItemData<T>>,
        item: usize,
    ) -> Self {
        let data = items[item as int];
        let clusters = data.shaped_cluster_range;
        if data.spec_is_text_run() {
            self.with_clusters(
                layout,
                item,
                clusters.start as int,
                clusters.end as int,
                data.spec_is_rtl() == layout.spec_is_rtl(),
            )
        } else if layout.inline_boxes@[data.index as int].kind == InlineBoxKind::InFlow {
            Trailing { ended: true, ..self }
        } else {
            self
        }
    }

    /// Looks at the items `from..to`, from the paragraph's end edge inward.
    pub open spec fn with_items(
        self,
        layout: LayoutData<T>,
        items: Seq<LineItemData<T>>,
        from: int,
        to: int,
    ) -> Self
        decreases to - from,
    {
        if self.ended || from >= to {
            self
        } else if layout.spec_is_rtl() {
            self.with_item(layout, items, from as usize).with_items(layout, items, from + 1, to)
        } else {
            self.with_item(layout, items, (to - 1) as usize).with_items(layout, items, from, to - 1)
        }
    }
}

/// The state of a scan from a line's visual end inward.
pub struct TrailingScan<T: Scalar> {
    pub unconditional: T,
    pub conditional: T,
    pub past_conditional_edge: bool,
    pub seen_hanging: bool,
    pub spaces: usize,
    pub removed: Vec<(usize, usize)>,
    pub ended: bool,
}

impl<T: Scalar> TrailingScan<T> {
    pub open spec fn found(self) -> Trailing<T> {
        Trailing {
            unconditional: self.unconditional,
            conditional: self.conditional,
            past_conditional_edge: self.past_conditional_edge,
            seen_hanging: self.seen_hanging,
            spaces: self.spaces,
            removed: self.removed@,
            ended: self.ended,
        }
    }

    /// The clusters to be removed exist.
    pub open spec fn wf(self, layout: LayoutData<T>, from: int, to: int) -> bool {
        forall|i: int|
            0 <= i < self.removed@.len() ==> from <= (#[trigger] self.removed@[i]).0 < to
                && self.removed@[i].1 < layout.shaped_text.clusters@.len()
    }

    fn see_cluster(
        &mut self,
        layout: &LayoutData<T>,
        item: usize,
        cluster: usize,
        Ghost(from): Ghost<int>,
        Ghost(to): Ghost<int>,
    )
        requires
            layout.wf(),
            cluster < layout.shaped_text.clusters@.len(),
            from <= item < to,
            old(self).wf(*layout, from, to),
        ensures
            final(self).found() == old(self).found().with_cluster(*layout, item, cluster),
            final(self).wf(*layout, from, to),
    {
        let hang = layout.trailing_whitespace_hang(cluster);
        match hang {
            TrailingWhitespaceHang::Skip => {
                return;
            },
            TrailingWhitespaceHang::End => {
                self.ended = true;
                return;
            },
            _ => {},
        }
        let advance = layout.shaped_text.clusters[cluster].advance;
        if layout.is_justifiable(cluster) {
            self.spaces = count_one_more(self.spaces);
        }
        if hang == TrailingWhitespaceHang::Removed && !self.seen_hanging {
            self.removed.push((item, cluster));
        } else if hang == TrailingWhitespaceHang::Conditional && !self.past_conditional_edge {
            self.seen_hanging = true;
            self.conditional = self.conditional.plus(advance);
        } else {
            self.seen_hanging = true;
            self.past_conditional_edge = true;
            self.unconditional = self.unconditional.plus(advance);
        }
    }

    fn see_clusters(
        &mut self,
        layout: &LayoutData<T>,
        item: usize,
        clusters: Span,
        backwards: bool,
        Ghost(from): Ghost<int>,
        Ghost(to): Ghost<int>,
    )
        requires
            layout.wf(),
            clusters.start <= clusters.end <= layout.shaped_text.clusters@.len(),
            from <= item < to,
            old(self).wf(*layout, from, to),
        ensures
            final(self).found() == old(self).found().with_clusters(
                *layout,
                item,
                clusters.start as int,
                clusters.end as int,
                backwards,
            ),
            final(self).wf(*layout, from, to),
    {
        let ghost target = self.found().with_clusters(
            *layout,
            item,
            clusters.start as int,
            clusters.end as int,
            backwards,
        );
        let mut start: usize = clusters.start;
        let mut end: usize = clusters.end;
        while start < end && !self.ended
            invariant
                layout.wf(),
                from <= item < to,
                start <= end <= layout.shaped_text.clusters@.len(),
                self.wf(*layout, from, to),
                target == self.found().with_clusters(
                    *layout,
                    item,
                    start as int,
                    end as int,
                    backwards,
                ),
            decreases end - start,
        {
            if backwards {
                end = end - 1;
                self.see_cluster(layout, item, end, Ghost(from), Ghost(to));
            } else {
                self.see_cluster(layout, item, start, Ghost(from), Ghost(to));
                start = start + 1;
            }
        }
    }

    /// Scans the items `from..to` from the paragraph's end edge inward.
    pub fn of_line(
        layout: &LayoutData<T>,
        items: &Vec<LineItemData<T>>,
        from: usize,
        to: usize,
    ) -> (r: Self)
        requires
            layout.wf(),
            from <= to <= items@.len(),
            commit::items_wf(*layout, items@, from as int, from as int),
        ensures
            r.found() == Trailing::nothing().with_items(*layout, items@, from as int, to as int),
            r.wf(*layout, from as int, to as int),
    {
        let mut scan = TrailingScan {
            unconditional: T::zero(),
            conditional: T::zero(),
            past_conditional_edge: false,
            seen_hanging: false,
            spaces: 0,
            removed: Vec::new(),
            ended: false,
        };
        assert(scan.found() == Trailing::<T>::nothing());
        let is_rtl = layout.is_rtl();
        let mut start: usize = from;
        let mut end: usize = to;
        let ghost target = Trailing::nothing().with_items(
            *layout,
            items@,
            from as int,
            to as int,
        );
        while start < end && !scan.ended
            invariant
                layout.wf(),
                is_rtl == layout.spec_is_rtl(),
                from <= start <= end <= to <= items@.len(),
                commit::items_wf(*layout, items@, from as int, from as int),
                scan.wf(*layout, from as int, to as int),
                target == scan.found().with_items(*layout, items@, start as int, end as int),
            decreases end - start,
        {
            let index: usize = if is_rtl {
                start
            } else {
                end - 1
            };
            if is_rtl {
                start = start + 1;
            } else {
                end = end - 1;
            }
            let item = items[index];
            proof {
                assert(commit::line_item_wf(*layout, items@[index as int]));
            }
            if item.is_text_run() {
                scan.see_clusters(
                    layout,
                    index,
                    item.shaped_cluster_range,
                    item.is_rtl() == is_rtl,
                    Ghost(from as int),
                    Ghost(to as int),
                );
            } else if layout.inline_boxes[item.index].kind == InlineBoxKind::InFlow {
                scan.ended = true;
            }
        }
        scan
    }
}

pub fn count_justifiable<T: Scalar>(
    layout: &LayoutData<T>,
    items: &Vec<LineItemData<T>>,
    from: usize,
    to: usize,
) -> (r: usize)
    requires
        layout.wf(),
        from <= to <= items@.len(),
        commit::items_wf(*layout, items@, from as int, from as int),
    ensures
        r == justifiable_in_items(*layout, 0, items@, from as int, to as int),
{
    let mut count: usize = 0;
    let mut i: usize = from;
    while i < to
        invariant
            layout.wf(),
            from <= i <= to <= items@.len(),
            commit::items_wf(*layout, items@, from as int, from as int),
            justifiable_in_items(*layout, 0, items@, from as int, to as int)
                == justifiable_in_items(*layout, count, items@, i as int, to as int),
        decreases to - i,
    {
        let item = items[i];
        proof {
            assert(commit::line_item_wf(*layout, items@[i as int]));
        }
        if item.is_text_run() {
            let clusters = item.shaped_cluster_range;
            let ghost before = count;
            let mut cluster: usize = clusters.start;
            while cluster < clusters.end
                invariant
                    layout.wf(),
                    clusters.start <= cluster <= clusters.end,
                    clusters.end <= layout.shaped_text.clusters@.len(),
                    justifiable_clusters(
                        *layout,
                        before,
                        clusters.start as int,
                        clusters.end as int,
                    ) == justifiable_clusters(
                        *layout,
                        count,
                        cluster as int,
                        clusters.end as int,
                    ),
                decreases clusters.end - cluster,
            {
                if layout.is_justifiable(cluster) {
                    count = count_one_more(count);
                }
                cluster = cluster + 1;
            }
        }
        i = i + 1;
    }
    count
}

} // verus!
