//! Laws of the edges of inlines.

use crate::inline_box::InlineBoxKind;
use crate::layout::content_widths::Measure;
use crate::layout::data::LayoutData;
use crate::layout::measured;
use crate::layout::measured::{text_width, MeasuredItem};
use crate::layout::scan;
use crate::layout::shaped::{Boundary, Whitespace};
use crate::layout::state::BreakerState;
use crate::scalar::{Fixed, Scalar};
use crate::style::OverflowWrap;
use vstd::prelude::*;

verus! {

impl<T: Scalar> LayoutData<T> {
    /// The items `from..to` are edges and boxes out of flow, and leave at least
    /// one of `depth` open edges, or of those they open inside these, open all
    /// along.
    pub open spec fn stays_open(self, from: int, to: int, depth: nat) -> bool
        decreases to - from,
    {
        if from >= to {
            true
        } else {
            let kind = self.inline_boxes@[self.items@[from].index as int].kind;
            &&& !self.spec_is_text(from)
            &&& match kind {
                InlineBoxKind::StartBoundary => self.stays_open(from + 1, to, depth + 1),
                InlineBoxKind::EndBoundary => depth > 1 && self.stays_open(
                    from + 1,
                    to,
                    (depth - 1) as nat,
                ),
                InlineBoxKind::OutOfFlow => self.stays_open(from + 1, to, depth),
                _ => false,
            }
        }
    }

    /// `acc` and the widths of the edges `from..to`, added in order.
    pub open spec fn edge_widths(self, acc: T, from: int, to: int) -> T
        decreases to - from,
    {
        if from >= to {
            acc
        } else {
            let inline_box = self.inline_boxes@[self.items@[from].index as int];
            let next = if inline_box.kind == InlineBoxKind::OutOfFlow {
                acc
            } else {
                acc.spec_plus(inline_box.width)
            };
            self.edge_widths(next, from + 1, to)
        }
    }
}

/// Open edges move to the next line with the content that follows them, with
/// all edges between them and that content, as long as one of them is open.
/// Scanning either breaks the line at an earlier opportunity, or comes to the
/// item after the edges with the break before what follows still standing
/// before the outermost edge.
pub proof fn lemma_nested_edges_move_with_content<T: Scalar>(
    layout: LayoutData<T>,
    state: BreakerState<T>,
    to: int,
    max_advance: T,
)
    requires
        layout.wf(),
        state.pending_inline_start.wf(),
        state.pending_inline_start.depth() > 0,
        state.item_idx <= to <= layout.items@.len(),
        state.pending_inline_start.depth() + to - state.item_idx <= usize::MAX,
        layout.stays_open(state.item_idx as int, to, state.pending_inline_start.depth()),
    ensures
        ({
            let step = scan::scan(layout, state, state.item_idx as int, max_advance);
            step.flow is Break || exists|reached: BreakerState<T>|
                {
                    &&& step == #[trigger] scan::scan(layout, reached, to, max_advance)
                    &&& reached.item_idx == to
                    &&& reached.content_boundary() == state.content_boundary()
                }
        }),
    decreases to - state.item_idx,
{
    let item = state.item_idx as int;
    let whole = scan::scan(layout, state, item, max_advance);
    if item < to {
        assert(layout.item_wf(item));
        let step = scan::box_step(layout, state, item, max_advance);
        let next = step.state;
        if step.flow is Continue {
            assert(next.item_idx == item + 1);
            assert(next.content_boundary() == state.content_boundary());
            lemma_nested_edges_move_with_content(layout, next, to, max_advance);
            assert(whole == scan::scan(layout, next, item + 1, max_advance));
            if !(whole.flow is Break) {
                let reached = choose|reached: BreakerState<T>|
                    {
                        &&& whole == #[trigger] scan::scan(layout, reached, to, max_advance)
                        &&& reached.item_idx == to
                        &&& reached.content_boundary() == next.content_boundary()
                    };
                assert(whole == scan::scan(layout, reached, to, max_advance));
            }
        } else {
            assert(step.flow is Break);
            assert(whole == step);
        }
    } else {
        assert(whole == scan::scan(layout, state, to, max_advance));
    }
}

/// In the intrinsic widths, too, open edges belong to the content that follows
/// them, with all edges between them and that content: all of these start the
/// segment of that content where the line can be broken before it.
pub proof fn lemma_nested_edges_are_measured_with_content<T: Scalar>(
    layout: LayoutData<T>,
    measure: Measure<T>,
    from: int,
    to: int,
)
    requires
        layout.wf(),
        0 <= from <= to <= layout.items@.len(),
        measure.open_edges > 0,
        measure.open_edges + to - from <= usize::MAX,
        !measure.break_after_pending,
        !measure.text_ended,
        layout.stays_open(from, to, measure.open_edges as nat),
    ensures
        exists|reached: Measure<T>|
            {
                &&& measure.with_items(layout, from) == #[trigger] reached.with_items(layout, to)
                &&& reached.pending_inline_start == layout.edge_widths(
                    measure.pending_inline_start,
                    from,
                    to,
                )
                &&& reached.running_min == layout.edge_widths(measure.running_min, from, to)
                &&& reached.running_max == layout.edge_widths(measure.running_max, from, to)
                &&& reached.min == measure.min
                &&& reached.with_break_before_edges().running_min == reached.pending_inline_start
            },
    decreases to - from,
{
    if from < to {
        assert(layout.item_wf(from));
        let data = layout.items@[from];
        let boxed = measure.with_box(layout.inline_boxes@[data.index as int]);
        let next = match data.style_after {
            Some(style) => Measure {
                text_wrap_mode: layout.styles@[style as int].text_wrap_mode,
                ..boxed
            },
            None => boxed,
        };
        assert(measure.with_items(layout, from) == next.with_items(layout, from + 1));
        lemma_nested_edges_are_measured_with_content(layout, next, from + 1, to);
        let reached = choose|reached: Measure<T>|
            {
                &&& next.with_items(layout, from + 1) == #[trigger] reached.with_items(layout, to)
                &&& reached.pending_inline_start == layout.edge_widths(
                    next.pending_inline_start,
                    from + 1,
                    to,
                )
                &&& reached.running_min == layout.edge_widths(next.running_min, from + 1, to)
                &&& reached.running_max == layout.edge_widths(next.running_max, from + 1, to)
                &&& reached.min == next.min
                &&& reached.with_break_before_edges().running_min == reached.pending_inline_start
            };
        assert(measure.with_items(layout, from) == reached.with_items(layout, to));
    } else {
        assert(measure.with_items(layout, from) == measure.with_items(layout, to));
    }
}

// ---------------------------------------------------------------------------
// Signed widths.

/// The atoms are text without white space in which no line can be broken.
pub open spec fn is_unbreakable(atoms: Seq<MeasuredItem<Fixed>>) -> bool {
    forall|i: int|
        0 <= i < atoms.len() ==> (#[trigger] atoms[i] matches MeasuredItem::Atom {
            first,
            style,
            ..
        } && first.whitespace == Whitespace::NotSpace && first.boundary != Boundary::Line
            && !first.spec_is_line_end_space() && style.overflow_wrap != OverflowWrap::Anywhere)
}

/// No sum on the way leaves the range of lengths.
pub open spec fn width_fits(atoms: Seq<MeasuredItem<Fixed>>, acc: int) -> bool
    decreases atoms.len(),
{
    &&& i64::MIN <= acc <= i64::MAX
    &&& atoms.len() > 0 ==> width_fits(atoms.skip(1), acc + atoms[0]->advance.steps)
}

proof fn lemma_unbreakable_text(measure: Measure<Fixed>, atoms: Seq<MeasuredItem<Fixed>>)
    requires
        is_unbreakable(atoms),
        measure.running_min == measure.running_max,
        measure.min_trailing_whitespace.steps == 0,
        measure.max_trailing_whitespace.steps == 0,
        !measure.break_after_pending,
        width_fits(atoms, measure.running_min.steps as int),
    ensures
        ({
            let after = measure.with_measured(atoms);
            &&& after.min == measure.min
            &&& after.max == measure.max
            &&& after.running_min.steps == text_width(atoms, measure.running_min.steps as int)
            &&& after.running_max == after.running_min
            &&& after.min_trailing_whitespace.steps == 0
            &&& after.max_trailing_whitespace.steps == 0
            &&& !after.break_after_pending
        }),
    decreases atoms.len(),
{
    if atoms.len() > 0 {
        let rest = atoms.skip(1);
        let next = measure.with_measured_item(atoms[0]);
        assert(atoms[0] is Atom);
        assert(width_fits(rest, measure.running_min.steps + atoms[0]->advance.steps));
        assert(next.running_min.steps == measure.running_min.steps + atoms[0]->advance.steps);
        assert forall|i: int| 0 <= i < rest.len() implies (
        #[trigger] rest[i] matches MeasuredItem::Atom { first, style, .. } && first.whitespace
            == Whitespace::NotSpace && first.boundary != Boundary::Line
            && !first.spec_is_line_end_space() && style.overflow_wrap
            != OverflowWrap::Anywhere) by {
            assert(rest[i] == atoms[i + 1]);
        }
        lemma_unbreakable_text(next, rest);
    }
}

proof fn lemma_text_width_bound(atoms: Seq<MeasuredItem<Fixed>>, acc: int)
    requires
        is_unbreakable(atoms),
        width_fits(atoms, acc),
    ensures
        i64::MIN <= text_width(atoms, acc) <= i64::MAX,
    decreases atoms.len(),
{
    if atoms.len() > 0 {
        let rest = atoms.skip(1);
        assert(atoms[0] is Atom);
        assert forall|i: int| 0 <= i < rest.len() implies (
        #[trigger] rest[i] matches MeasuredItem::Atom { first, style, .. } && first.whitespace
            == Whitespace::NotSpace && first.boundary != Boundary::Line
            && !first.spec_is_line_end_space() && style.overflow_wrap
            != OverflowWrap::Anywhere) by {
            assert(rest[i] == atoms[i + 1]);
        }
        lemma_text_width_bound(rest, acc + atoms[0]->advance.steps);
    }
}

/// The number of steps, or zero where it is negative.
pub open spec fn at_least_zero(steps: int) -> int {
    if steps < 0 {
        0
    } else {
        steps
    }
}

/// The signed widths of an opening and a closing edge add up with the run of
/// text between them to one unbreakable segment: the intrinsic widths of text
/// in an inline are those of the text and both edges together. A negative edge
/// makes them smaller, down to zero. The widest line is no less wide than the
/// opening edge alone.
pub proof fn lemma_signed_edges_add_up(
    plain: LayoutData<Fixed>,
    edged: LayoutData<Fixed>,
    atoms: Seq<MeasuredItem<Fixed>>,
    opening: MeasuredItem<Fixed>,
    closing: MeasuredItem<Fixed>,
)
    requires
        plain.wf(),
        edged.wf(),
        plain.measured_from(0) == seq![MeasuredItem::Run] + atoms,
        edged.measured_from(0) == seq![opening] + (seq![MeasuredItem::Run] + atoms)
            + seq![closing],
        is_unbreakable(atoms),
        opening matches MeasuredItem::Box { kind: InlineBoxKind::StartBoundary, .. },
        closing matches MeasuredItem::Box { kind: InlineBoxKind::EndBoundary, .. },
        width_fits(atoms, 0),
        width_fits(atoms, opening->width.steps as int),
        i64::MIN <= text_width(atoms, opening->width.steps as int) + closing->width.steps
            <= i64::MAX,
    ensures
        ({
            let width = text_width(atoms, 0);
            let opened = opening->width.steps as int;
            let total = width + opened + closing->width.steps;
            &&& plain.content_widths().min.steps == at_least_zero(width)
            &&& plain.content_widths().max.steps == at_least_zero(width)
            &&& edged.content_widths().min.steps == at_least_zero(total)
            &&& edged.content_widths().max.steps == if total < opened {
                at_least_zero(opened)
            } else {
                at_least_zero(total)
            }
        }),
{
    lemma_plain_text_widths(plain, atoms);
    lemma_edged_text_widths(edged, atoms, opening, closing);
    measured::lemma_text_width_after(atoms, 0, opening->width.steps as int);
}

proof fn lemma_plain_text_widths(plain: LayoutData<Fixed>, atoms: Seq<MeasuredItem<Fixed>>)
    requires
        plain.wf(),
        plain.measured_from(0) == seq![MeasuredItem::Run] + atoms,
        is_unbreakable(atoms),
        width_fits(atoms, 0),
    ensures
        plain.content_widths().min.steps == at_least_zero(text_width(atoms, 0)),
        plain.content_widths().max.steps == at_least_zero(text_width(atoms, 0)),
{
    let start = Measure::<Fixed>::start(
        plain.styles@[plain.root_style_index as int].text_wrap_mode,
    );
    let marker = seq![MeasuredItem::<Fixed>::Run];
    assert((marker + atoms).len() > 0);
    measured::lemma_measure_of_flow(plain, start, 0);
    measured::lemma_measure_of_sum(start, marker, atoms);
    measured::lemma_measure_of_one(start, MeasuredItem::Run);
    let entered = start.before_item();
    lemma_unbreakable_text(entered, atoms);
    lemma_text_width_bound(atoms, 0);
    assert(plain.content_widths() == entered.with_measured(atoms).widths());
}

proof fn lemma_edged_text_widths(
    edged: LayoutData<Fixed>,
    atoms: Seq<MeasuredItem<Fixed>>,
    opening: MeasuredItem<Fixed>,
    closing: MeasuredItem<Fixed>,
)
    requires
        edged.wf(),
        edged.measured_from(0) == seq![opening] + (seq![MeasuredItem::Run] + atoms)
            + seq![closing],
        is_unbreakable(atoms),
        opening matches MeasuredItem::Box { kind: InlineBoxKind::StartBoundary, .. },
        closing matches MeasuredItem::Box { kind: InlineBoxKind::EndBoundary, .. },
        width_fits(atoms, opening->width.steps as int),
        i64::MIN <= text_width(atoms, opening->width.steps as int) + closing->width.steps
            <= i64::MAX,
    ensures
        ({
            let opened = opening->width.steps as int;
            let total = text_width(atoms, opened) + closing->width.steps;
            &&& edged.content_widths().min.steps == at_least_zero(total)
            &&& edged.content_widths().max.steps == if total < opened {
                at_least_zero(opened)
            } else {
                at_least_zero(total)
            }
        }),
{
    let start = Measure::<Fixed>::start(
        edged.styles@[edged.root_style_index as int].text_wrap_mode,
    );
    let text = seq![MeasuredItem::<Fixed>::Run] + atoms;
    let opened = start.with_measured_item(opening);
    let inside = opened.before_item();
    let content = inside.with_measured(atoms);
    let after = content.with_measured_item(closing);
    assert((seq![opening] + text + seq![closing]).len() > 0);
    assert(edged.content_widths() == after.widths()) by {
        measured::lemma_measure_of_flow(edged, start, 0);
        measured::lemma_measure_of_sum(start, seq![opening] + text, seq![closing]);
        measured::lemma_measure_of_sum(start, seq![opening], text);
        measured::lemma_measure_of_one(start, opening);
        measured::lemma_measure_of_sum(opened, seq![MeasuredItem::<Fixed>::Run], atoms);
        measured::lemma_measure_of_one(opened, MeasuredItem::Run);
        measured::lemma_measure_of_one(content, closing);
    }
    lemma_unbreakable_text(inside, atoms);
    lemma_text_width_bound(atoms, opening->width.steps as int);
}

} // verus!
