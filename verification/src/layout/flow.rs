//! What of a paragraph is in flow. Boxes out of flow have no part in it, so
//! that they change no line.

use crate::inline_box::InlineBoxKind;
use crate::layout::break_lines::{Progress, YieldData};
use crate::layout::coverage;
use crate::layout::data::{BreakReason, LayoutData};
use crate::layout::measured::{
    ends_at_grapheme, lemma_atom_end_in_text, lemma_same_atom, lemma_same_sum, same_shaped_text,
};
use crate::layout::scan;
use crate::layout::scan::{AtomInfo, Flow};
use crate::layout::shaped::{Atom, Character, FontMetrics, Whitespace};
use crate::layout::state::{BreakerState, LineBoxMetrics, LineState, PrevBoundaryState};
use crate::scalar::{Fixed, Scalar};
use crate::style::{Style, TextWrapMode};
use vstd::prelude::*;

verus! {

/// Something in flow.
pub enum FlowItem<T: Scalar> {
    Atom {
        atom: Atom<T>,
        first: Character,
        style: Style<T>,
        metrics: FontMetrics<T>,
        line_height: T,
        /// The atom is a carriage return whose line feed follows at once.
        joins_line_feed: bool,
    },
    Box {
        kind: InlineBoxKind,
        width: T,
        height: T,
        baseline: Option<T>,
        /// The wrap mode that becomes current after the box.
        text_wrap_mode: Option<TextWrapMode>,
    },
}

impl<T: Scalar> LayoutData<T> {
    /// Whether a box is out of flow. A box that the caller places is so where
    /// `custom` says so.
    pub open spec fn is_out_of_flow(self, item: int, custom: bool) -> bool {
        let kind = self.inline_boxes@[self.items@[item].index as int].kind;
        &&& !self.spec_is_text(item)
        &&& self.items@[item].style_after is None
        &&& kind == InlineBoxKind::OutOfFlow || (custom && kind == InlineBoxKind::CustomOutOfFlow)
    }

    /// The end of the clusters of a text item.
    pub open spec fn text_end(self, item: int) -> int {
        self.shaped_text.runs@[self.items@[item].index as int].clusters.end as int
    }

    pub open spec fn joins_line_feed(self, item: int, info: AtomInfo<T>) -> bool {
        let characters = self.shaped_text.characters@;
        let end = info.atom.chars.end as int;
        let adjacent = info.atom.clusters.end < self.text_end(item) || (item + 1
            < self.items@.len() && self.spec_is_text(item + 1));
        &&& characters[end - 1].source_char == '\r'
        &&& adjacent
        &&& end < characters.len()
        &&& characters[end].whitespace == Whitespace::Newline
        &&& characters[end].source_char == '\n'
    }

    pub open spec fn flow_atom(self, item: int, cursor: int) -> FlowItem<T> {
        let run = self.items@[item].index as int;
        let info = scan::atom_info(self, run, cursor);
        FlowItem::Atom {
            atom: info.atom,
            first: info.first,
            style: info.style,
            metrics: self.shaped_text.runs@[run].font_metrics,
            line_height: self.runs@[run].line_height,
            joins_line_feed: self.joins_line_feed(item, info),
        }
    }

    pub open spec fn flow_box(self, item: int) -> FlowItem<T> {
        let inline_box = self.inline_boxes@[self.items@[item].index as int];
        FlowItem::Box {
            kind: inline_box.kind,
            width: inline_box.width,
            height: inline_box.height,
            baseline: inline_box.baseline,
            text_wrap_mode: match self.items@[item].style_after {
                Some(style) => Some(self.styles@[style as int].text_wrap_mode),
                None => None,
            },
        }
    }

    /// What is in flow from an item on, of its text from the cluster `cursor`
    /// on.
    pub open spec fn flow_from(self, item: int, cursor: int, custom: bool) -> Seq<FlowItem<T>>
        decreases self.items@.len() - item, self.text_end(item) - cursor,
    {
        if item >= self.items@.len() {
            Seq::empty()
        } else if self.spec_is_text(item) {
            if cursor < self.text_end(item) {
                proof {
                    self.shaped_text.lemma_atom_end(cursor, self.text_end(item));
                }
                seq![self.flow_atom(item, cursor)] + self.flow_from(
                    item,
                    self.shaped_text.atom_end(cursor, self.text_end(item)),
                    custom,
                )
            } else {
                self.flow_from(item + 1, cursor, custom)
            }
        } else if self.is_out_of_flow(item, custom) {
            self.flow_from(item + 1, cursor, custom)
        } else {
            seq![self.flow_box(item)] + self.flow_from(item + 1, cursor, custom)
        }
    }
}

// ---------------------------------------------------------------------------
// The flow of plain text.

/// All that there is in flow is text, in runs that end between graphemes and
/// have the given metrics and line height. No carriage return is cut off from
/// its line feed.
pub open spec fn is_plain<T: Scalar>(
    layout: LayoutData<T>,
    metrics: spec_fn(int) -> (FontMetrics<T>, T),
    custom: bool,
) -> bool {
    forall|item: int|
        0 <= item < layout.items@.len() ==> {
            let run = layout.items@[item].index as int;
            let end = layout.text_end(item);
            &&& #[trigger] layout.spec_is_text(item) || layout.is_out_of_flow(item, custom)
            &&& ends_at_grapheme(layout, item)
            &&& layout.spec_is_text(item) ==> forall|cluster: int|
                layout.clusters_before(item) <= cluster < end ==> #[trigger] metrics(cluster) == (
                    layout.shaped_text.runs@[run].font_metrics,
                    layout.runs@[run].line_height,
                )
            &&& layout.spec_is_text(item) && 0 < end < layout.shaped_text.clusters@.len() && !(item
                + 1 < layout.items@.len() && layout.spec_is_text(item + 1))
                ==> layout.shaped_text.characters@[layout.shaped_text.clusters@[end
                - 1].chars.end - 1].source_char != '\r'
        }
}

/// The text of a paragraph from a cluster on, as it is in flow.
pub open spec fn plain_flow<T: Scalar>(
    layout: LayoutData<T>,
    metrics: spec_fn(int) -> (FontMetrics<T>, T),
    cursor: int,
) -> Seq<FlowItem<T>>
    decreases layout.shaped_text.clusters@.len() - cursor,
{
    let len = layout.shaped_text.clusters@.len() as int;
    if cursor >= len {
        Seq::empty()
    } else {
        proof {
            layout.shaped_text.lemma_atom_end(cursor, len);
        }
        let characters = layout.shaped_text.characters@;
        let first = layout.shaped_text.spec_first_character(cursor);
        let atom = layout.shaped_text.spec_atom(cursor, len);
        let end = atom.chars.end as int;
        seq![
            FlowItem::Atom {
                atom,
                first,
                style: layout.spec_style_of(first),
                metrics: metrics(cursor).0,
                line_height: metrics(cursor).1,
                joins_line_feed: layout.shaped_text.atom_end(cursor, len) < len && characters[end
                    - 1].source_char == '\r' && end < characters.len()
                    && characters[end].whitespace == Whitespace::Newline
                    && characters[end].source_char == '\n',
            },
        ] + plain_flow(layout, metrics, layout.shaped_text.atom_end(cursor, len))
    }
}

proof fn lemma_plain_flow<T: Scalar>(
    layout: LayoutData<T>,
    metrics: spec_fn(int) -> (FontMetrics<T>, T),
    custom: bool,
    item: int,
    cursor: int,
)
    requires
        layout.wf(),
        is_plain(layout, metrics, custom),
        0 <= item <= layout.items@.len(),
        layout.clusters_before(layout.items@.len() as int) == layout.shaped_text.clusters@.len(),
        layout.clusters_before(item) <= cursor,
        item < layout.items@.len() ==> cursor <= layout.clusters_before(item + 1),
        item == layout.items@.len() ==> cursor == layout.clusters_before(item),
    ensures
        layout.flow_from(item, cursor, custom) == plain_flow(layout, metrics, cursor),
    decreases layout.items@.len() - item, layout.clusters_before(item + 1) - cursor,
{
    if item < layout.items@.len() {
        assert(layout.spec_is_text(item) || layout.is_out_of_flow(item, custom));
        let next = item + 1;
        if next < layout.items@.len() {
            layout.lemma_clusters_before_monotone(next, next + 1);
        }
        if layout.spec_is_text(item) {
            coverage::lemma_run_bounds(layout, item);
            let end = layout.text_end(item);
            let len = layout.shaped_text.clusters@.len() as int;
            layout.lemma_clusters_before_monotone(next, layout.items@.len() as int);
            if cursor < end {
                layout.shaped_text.lemma_atom_end(cursor, end);
                lemma_atom_end_in_text(layout, cursor, end);
                let atom_end = layout.shaped_text.atom_end(cursor, end);
                lemma_plain_flow(layout, metrics, custom, item, atom_end);
                if next < layout.items@.len() && layout.spec_is_text(next) {
                    coverage::lemma_run_bounds(layout, next);
                    layout.lemma_clusters_before_monotone(
                        next + 1,
                        layout.items@.len() as int,
                    );
                }
                assert(metrics(cursor) == (
                    layout.shaped_text.runs@[layout.items@[item].index as int].font_metrics,
                    layout.runs@[layout.items@[item].index as int].line_height,
                ));
            } else {
                lemma_plain_flow(layout, metrics, custom, next, cursor);
            }
        } else {
            lemma_plain_flow(layout, metrics, custom, next, cursor);
        }
    }
}

proof fn lemma_plain_flow_of_same_text<T: Scalar>(
    a: LayoutData<T>,
    b: LayoutData<T>,
    metrics: spec_fn(int) -> (FontMetrics<T>, T),
    cursor: int,
)
    requires
        same_shaped_text(a, b),
    ensures
        plain_flow(a, metrics, cursor) == plain_flow(b, metrics, cursor),
    decreases a.shaped_text.clusters@.len() - cursor,
{
    let len = a.shaped_text.clusters@.len() as int;
    if cursor < len {
        a.shaped_text.lemma_atom_end(cursor, len);
        lemma_same_atom(a, b, cursor, len);
        lemma_plain_flow_of_same_text(a, b, metrics, a.shaped_text.atom_end(cursor, len));
    }
}

/// Text has the same flow with boxes out of flow as it has without them,
/// wherever they are put between its graphemes.
pub proof fn lemma_boxes_out_of_flow_leave_the_flow<T: Scalar>(
    a: LayoutData<T>,
    b: LayoutData<T>,
    metrics: spec_fn(int) -> (FontMetrics<T>, T),
    custom: bool,
)
    requires
        a.wf(),
        b.wf(),
        same_shaped_text(a, b),
        is_plain(a, metrics, custom),
        is_plain(b, metrics, custom),
        a.clusters_before(a.items@.len() as int) == a.shaped_text.clusters@.len(),
        b.clusters_before(b.items@.len() as int) == b.shaped_text.clusters@.len(),
    ensures
        a.flow_from(0, 0, custom) == b.flow_from(0, 0, custom),
{
    a.lemma_clusters_before_monotone(0, 1);
    b.lemma_clusters_before_monotone(0, 1);
    lemma_plain_flow(a, metrics, custom, 0, 0);
    lemma_plain_flow(b, metrics, custom, 0, 0);
    lemma_plain_flow_of_same_text(a, b, metrics, 0);
}

// ---------------------------------------------------------------------------
// Lines.

/// A length that zero does not exceed.
pub open spec fn is_neutral<T: Scalar>(length: T) -> bool {
    length.spec_larger(T::spec_zero()) == length
}

/// Zero is a whole number, and lengths only grow away from it.
pub open spec fn zero_is_neutral<T: Scalar>() -> bool {
    &&& T::spec_zero().spec_round() == T::spec_zero()
    &&& is_neutral(T::spec_zero())
    &&& forall|length: T, other: T|
        is_neutral(length) ==> #[trigger] is_neutral(length.spec_larger(other))
}

pub open spec fn metrics_are_neutral<T: Scalar>(metrics: LineBoxMetrics<T>) -> bool {
    &&& is_neutral(metrics.line_box.over)
    &&& is_neutral(metrics.line_box.under)
    &&& is_neutral(metrics.content_box.over)
    &&& is_neutral(metrics.content_box.under)
}

/// Two lines with the same content in flow; their items may differ.
pub open spec fn same_line_flow<T: Scalar>(a: LineState<T>, b: LineState<T>) -> bool {
    &&& a == (LineState { items: a.items, ..b })
    &&& metrics_are_neutral(a.box_metrics)
    &&& !a.max_height_exceeded
}

pub open spec fn same_place<T: Scalar>(
    a: LayoutData<T>,
    b: LayoutData<T>,
    one: PrevBoundaryState<T>,
    other: PrevBoundaryState<T>,
) -> bool {
    &&& one.item_idx <= a.items@.len()
    &&& other.item_idx <= b.items@.len()
    &&& one.cluster_idx == other.cluster_idx
    &&& a.flow_from(one.item_idx as int, one.cluster_idx as int, false) == b.flow_from(
        other.item_idx as int,
        other.cluster_idx as int,
        false,
    )
    &&& one.after_break_spaces_space == other.after_break_spaces_space
    &&& same_line_flow(one.state, other.state)
}

pub open spec fn same_opportunity<T: Scalar>(
    a: LayoutData<T>,
    b: LayoutData<T>,
    one: Option<PrevBoundaryState<T>>,
    other: Option<PrevBoundaryState<T>>,
) -> bool {
    match (one, other) {
        (Some(one), Some(other)) => same_place(a, b, one, other),
        (None, None) => true,
        _ => false,
    }
}

/// The height of lines is not limited.
pub open spec fn height_is_free<T: Scalar>(state: BreakerState<T>) -> bool {
    forall|height: T| !#[trigger] state.line_max_height.spec_lt(height)
}

/// Two breakers are at the same place of the same flow.
#[verifier::opaque]
pub open spec fn same_flow<T: Scalar>(
    a: LayoutData<T>,
    b: LayoutData<T>,
    one: BreakerState<T>,
    other: BreakerState<T>,
) -> bool {
    &&& same_place(a, b, one.spec_boundary_state(), other.spec_boundary_state())
    &&& same_opportunity(a, b, one.prev_boundary, other.prev_boundary)
    &&& same_opportunity(a, b, one.emergency_boundary, other.emergency_boundary)
    &&& one.pending_inline_start.opening is None
    &&& other.pending_inline_start.opening is None
    &&& one.prev_atom_was_break_spaces_space == other.prev_atom_was_break_spaces_space
    &&& one.last_content_text_wrap_mode == other.last_content_text_wrap_mode
    &&& one.propagating_break_after == other.propagating_break_after
    &&& one.line_max_advance == other.line_max_advance
    &&& one.line_max_height == other.line_max_height
    &&& one.line_x == other.line_x
    &&& one.line_y == other.line_y
    &&& height_is_free(one)
}

/// The layouts can be compared line by line: no box opens an inline edge, and
/// none is left to the caller to place.
pub open spec fn has_simple_boxes<T: Scalar>(layout: LayoutData<T>) -> bool {
    forall|item: int|
        0 <= item < layout.items@.len() && !#[trigger] layout.spec_is_text(item) ==> {
            let kind = layout.inline_boxes@[layout.items@[item].index as int].kind;
            kind != InlineBoxKind::StartBoundary && kind != InlineBoxKind::CustomOutOfFlow
        }
}

/// Two atoms of the same text, in runs of the same metrics.
spec fn same_info<T: Scalar>(
    a: LayoutData<T>,
    b: LayoutData<T>,
    one: AtomInfo<T>,
    other: AtomInfo<T>,
) -> bool {
    &&& one == (AtomInfo { run: one.run, ..other })
    &&& a.shaped_text.runs@[one.run].font_metrics == b.shaped_text.runs@[other.run].font_metrics
    &&& a.runs@[one.run].line_height == b.runs@[other.run].line_height
    &&& a.quantize == b.quantize
}

/// After the atom the flow goes on the same.
spec fn same_rest<T: Scalar>(
    a: LayoutData<T>,
    b: LayoutData<T>,
    one: BreakerState<T>,
    other: BreakerState<T>,
    next: usize,
) -> bool {
    a.flow_from(one.item_idx as int, next as int, false) == b.flow_from(
        other.item_idx as int,
        next as int,
        false,
    )
}

proof fn lemma_same_after_atom<T: Scalar>(
    a: LayoutData<T>,
    b: LayoutData<T>,
    one: BreakerState<T>,
    other: BreakerState<T>,
    info: AtomInfo<T>,
    other_info: AtomInfo<T>,
    next_x: T,
)
    requires
        zero_is_neutral::<T>(),
        same_flow(a, b, one, other),
        same_info(a, b, info, other_info),
        same_rest(a, b, one, other, info.atom.clusters.end),
    ensures
        ({
            let next = scan::append_atom(a, one, info, next_x);
            let other_next = scan::append_atom(b, other, other_info, next_x);
            &&& same_flow(a, b, next, other_next)
            &&& same_flow(a, b, next.with_opportunity(true), other_next.with_opportunity(true))
        }),
{
    reveal(same_flow);
}

proof fn lemma_same_entered<T: Scalar>(
    a: LayoutData<T>,
    b: LayoutData<T>,
    one: BreakerState<T>,
    other: BreakerState<T>,
    mode: TextWrapMode,
)
    requires
        same_flow(a, b, one, other),
    ensures
        same_flow(a, b, one.with_content(mode), other.with_content(mode)),
        same_flow(a, b, one.with_hanging_whitespace(mode), other.with_hanging_whitespace(mode)),
        one.line.x == other.line.x,
        !one.line.max_height_exceeded,
        !other.line.max_height_exceeded,
        one.line.text_wrap_mode == other.line.text_wrap_mode,
        one.item_idx <= a.items@.len(),
        other.item_idx <= b.items@.len(),
        one.cluster_idx == other.cluster_idx,
        a.flow_from(one.item_idx as int, one.cluster_idx as int, false) == b.flow_from(
            other.item_idx as int,
            other.cluster_idx as int,
            false,
        ),
        same_opportunity(a, b, one.prev_boundary, other.prev_boundary),
        same_opportunity(a, b, one.emergency_boundary, other.emergency_boundary),
{
    reveal(same_flow);
}

proof fn lemma_same_opportunity_before<T: Scalar>(
    a: LayoutData<T>,
    b: LayoutData<T>,
    one: BreakerState<T>,
    other: BreakerState<T>,
    info: AtomInfo<T>,
    other_info: AtomInfo<T>,
)
    requires
        same_flow(a, b, one, other),
        same_info(a, b, info, other_info),
    ensures
        same_flow(
            a,
            b,
            scan::with_opportunity_before_atom(one, info),
            scan::with_opportunity_before_atom(other, other_info),
        ),
        same_flow(
            a,
            b,
            scan::entering_atom(one, info),
            scan::entering_atom(other, other_info),
        ),
{
    reveal(same_flow);
}

/// Breaking at an opportunity leads to the same place.
proof fn lemma_same_break<T: Scalar>(
    a: LayoutData<T>,
    b: LayoutData<T>,
    one: BreakerState<T>,
    other: BreakerState<T>,
)
    requires
        same_flow(a, b, one, other),
    ensures
        one.prev_boundary is Some ==> same_flow(
            a,
            b,
            (BreakerState { prev_boundary: None, ..one }).at_boundary(one.prev_boundary->0),
            (BreakerState { prev_boundary: None, ..other }).at_boundary(other.prev_boundary->0),
        ),
        one.emergency_boundary is Some ==> same_flow(
            a,
            b,
            (BreakerState { emergency_boundary: None, ..one }).at_boundary(
                one.emergency_boundary->0,
            ),
            (BreakerState { emergency_boundary: None, ..other }).at_boundary(
                other.emergency_boundary->0,
            ),
        ),
        same_flow(
            a,
            b,
            one.at_boundary(one.spec_boundary_state()),
            other.at_boundary(other.spec_boundary_state()),
        ),
{
    reveal(same_flow);
}

/// What a step over an atom leads to: both breakers go on after the atom, or
/// break at the same place.
spec fn same_steps<T: Scalar>(
    a: LayoutData<T>,
    b: LayoutData<T>,
    one: BreakerState<T>,
    other: BreakerState<T>,
    next: usize,
    step: scan::Step<T>,
    other_step: scan::Step<T>,
) -> bool {
    &&& step.flow == other_step.flow
    &&& step.flow is Continue || step.flow is Break
    &&& same_flow(a, b, step.state, other_step.state)
    &&& step.flow is Continue ==> {
        &&& step.state.item_idx == one.item_idx
        &&& other_step.state.item_idx == other.item_idx
        &&& step.state.cluster_idx == next
        &&& other_step.state.cluster_idx == next
    }
}

proof fn lemma_same_fitting_step<T: Scalar>(
    a: LayoutData<T>,
    b: LayoutData<T>,
    state: BreakerState<T>,
    other_state: BreakerState<T>,
    info: AtomInfo<T>,
    other_info: AtomInfo<T>,
    next_x: T,
)
    requires
        zero_is_neutral::<T>(),
        same_flow(a, b, state, other_state),
        same_info(a, b, info, other_info),
        same_rest(a, b, state, other_state, info.atom.clusters.end),
    ensures
        same_steps(
            a,
            b,
            state,
            other_state,
            info.atom.clusters.end,
            scan::fitting_step(a, state, info, next_x),
            scan::fitting_step(b, other_state, other_info, next_x),
        ),
{
    let mode = info.style.text_wrap_mode;
    lemma_same_entered(a, b, state, other_state, mode);
    if info.hangs_or_is_removed() {
        lemma_same_after_atom(
            a,
            b,
            state.with_hanging_whitespace(mode),
            other_state.with_hanging_whitespace(mode),
            info,
            other_info,
            next_x,
        );
    } else {
        lemma_same_after_atom(
            a,
            b,
            state.with_content(mode),
            other_state.with_content(mode),
            info,
            other_info,
            next_x,
        );
    }
}

proof fn lemma_same_overflowing_step<T: Scalar>(
    a: LayoutData<T>,
    b: LayoutData<T>,
    state: BreakerState<T>,
    other_state: BreakerState<T>,
    info: AtomInfo<T>,
    other_info: AtomInfo<T>,
    next_x: T,
    wraps: bool,
)
    requires
        zero_is_neutral::<T>(),
        same_flow(a, b, state, other_state),
        same_info(a, b, info, other_info),
        same_rest(a, b, state, other_state, info.atom.clusters.end),
    ensures
        same_steps(
            a,
            b,
            state,
            other_state,
            info.atom.clusters.end,
            scan::overflowing_step(a, state, info, next_x, wraps),
            scan::overflowing_step(b, other_state, other_info, next_x, wraps),
        ),
{
    let mode = info.style.text_wrap_mode;
    lemma_same_entered(a, b, state, other_state, mode);
    lemma_same_break(a, b, state, other_state);
    lemma_same_after_atom(
        a,
        b,
        state.with_content(mode),
        other_state.with_content(mode),
        info,
        other_info,
        next_x,
    );
    lemma_same_after_atom(
        a,
        b,
        state.with_hanging_whitespace(mode),
        other_state.with_hanging_whitespace(mode),
        info,
        other_info,
        next_x,
    );
}

proof fn lemma_same_newline_step<T: Scalar>(
    a: LayoutData<T>,
    b: LayoutData<T>,
    state: BreakerState<T>,
    other_state: BreakerState<T>,
    info: AtomInfo<T>,
    other_info: AtomInfo<T>,
)
    requires
        zero_is_neutral::<T>(),
        same_flow(a, b, state, other_state),
        same_info(a, b, info, other_info),
        same_rest(a, b, state, other_state, info.atom.clusters.end),
        scan::is_cr_before_lf(a, state, info) == scan::is_cr_before_lf(
            b,
            other_state,
            other_info,
        ),
    ensures
        same_steps(
            a,
            b,
            state,
            other_state,
            info.atom.clusters.end,
            scan::newline_step(a, state, info),
            scan::newline_step(b, other_state, other_info),
        ),
{
    let mode = info.style.text_wrap_mode;
    lemma_same_entered(a, b, state, other_state, mode);
    lemma_same_after_atom(
        a,
        b,
        state.with_content(mode),
        other_state.with_content(mode),
        info,
        other_info,
        state.line.x,
    );
}

proof fn lemma_same_text_step<T: Scalar>(
    a: LayoutData<T>,
    b: LayoutData<T>,
    one: BreakerState<T>,
    other: BreakerState<T>,
    max_advance: T,
)
    requires
        a.wf(),
        b.wf(),
        a.quantize == b.quantize,
        zero_is_neutral::<T>(),
        same_flow(a, b, one, other),
        one.item_idx < a.items@.len(),
        other.item_idx < b.items@.len(),
        a.spec_is_text(one.item_idx as int),
        b.spec_is_text(other.item_idx as int),
        one.cluster_idx < a.text_end(one.item_idx as int),
        other.cluster_idx < b.text_end(other.item_idx as int),
    ensures
        ({
            let run = a.items@[one.item_idx as int].index as int;
            let other_run = b.items@[other.item_idx as int].index as int;
            let info = scan::atom_info(a, run, one.cluster_idx as int);
            let other_info = scan::atom_info(b, other_run, other.cluster_idx as int);
            let step = scan::text_step(a, one, info, max_advance);
            let other_step = scan::text_step(b, other, other_info, max_advance);
            &&& step.flow == other_step.flow
            &&& step.flow is Continue || step.flow is Break
            &&& same_flow(a, b, step.state, other_step.state)
            &&& step.flow is Continue ==> step.state.item_idx == one.item_idx
                && other_step.state.item_idx == other.item_idx && step.state.cluster_idx
                == info.atom.clusters.end && other_step.state.cluster_idx
                == info.atom.clusters.end
        }),
{
    let item = one.item_idx as int;
    let other_item = other.item_idx as int;
    let cursor = one.cluster_idx as int;
    let run = a.items@[item].index as int;
    let other_run = b.items@[other_item].index as int;
    assert(a.item_wf(item));
    assert(b.item_wf(other_item));
    let info = scan::atom_info(a, run, cursor);
    let other_info = scan::atom_info(b, other_run, cursor);
    let mode = info.style.text_wrap_mode;
    lemma_same_entered(a, b, one, other, mode);
    a.shaped_text.lemma_atom_end(cursor, a.text_end(item));
    b.shaped_text.lemma_atom_end(cursor, b.text_end(other_item));
    let next = a.shaped_text.atom_end(cursor, a.text_end(item));
    let other_next = b.shaped_text.atom_end(cursor, b.text_end(other_item));
    lemma_same_sum(
        a.flow_atom(item, cursor),
        a.flow_from(item, next, false),
        b.flow_atom(other_item, cursor),
        b.flow_from(other_item, other_next, false),
    );
    assert(info.atom.clusters.end == next);
    assert(other_info.atom.clusters.end == other_next);
    assert(same_info(a, b, info, other_info));
    let wraps = one.line.text_wrap_mode == TextWrapMode::Wrap;
    lemma_same_opportunity_before(a, b, one, other, info, other_info);
    let step = scan::text_step(a, one, info, max_advance);
    let other_step = scan::text_step(b, other, other_info, max_advance);
    if info.is_newline() && !(info.first.boundary == crate::layout::shaped::Boundary::Line
        && wraps) {
        let state = scan::entering_atom(one, info);
        let other_state = scan::entering_atom(other, other_info);
        assert(scan::is_cr_before_lf(a, state, info) == a.joins_line_feed(item, info));
        assert(scan::is_cr_before_lf(b, other_state, other_info) == b.joins_line_feed(
            other_item,
            other_info,
        ));
        lemma_same_newline_step(a, b, state, other_state, info, other_info);
        assert(step == scan::newline_step(a, state, info));
        assert(other_step == scan::newline_step(b, other_state, other_info));
    } else {
        let state = scan::with_opportunity_before_atom(one, info);
        let other_state = scan::with_opportunity_before_atom(other, other_info);
        let next_x = state.line.x.spec_plus(info.atom.advance);
        assert(state.item_idx == one.item_idx);
        assert(other_state.item_idx == other.item_idx);
        assert(state.line.x == other_state.line.x) by {
            reveal(same_flow);
        }
        if next_x.spec_le(max_advance) {
            lemma_same_fitting_step(a, b, state, other_state, info, other_info, next_x);
            assert(step == scan::fitting_step(a, state, info, next_x));
            assert(other_step == scan::fitting_step(b, other_state, other_info, next_x));
        } else {
            lemma_same_overflowing_step(
                a,
                b,
                state,
                other_state,
                info,
                other_info,
                next_x,
                wraps,
            );
            assert(step == scan::overflowing_step(a, state, info, next_x, wraps));
            assert(other_step == scan::overflowing_step(
                b,
                other_state,
                other_info,
                next_x,
                wraps,
            ));
        }
    }
}

#[verifier::rlimit(60)]
proof fn lemma_same_box_step<T: Scalar>(
    a: LayoutData<T>,
    b: LayoutData<T>,
    one: BreakerState<T>,
    other: BreakerState<T>,
    max_advance: T,
)
    requires
        a.wf(),
        b.wf(),
        a.quantize == b.quantize,
        zero_is_neutral::<T>(),
        has_simple_boxes(a),
        has_simple_boxes(b),
        same_flow(a, b, one, other),
        one.item_idx < a.items@.len(),
        other.item_idx < b.items@.len(),
        !a.spec_is_text(one.item_idx as int),
        !b.spec_is_text(other.item_idx as int),
        !a.is_out_of_flow(one.item_idx as int, false),
        !b.is_out_of_flow(other.item_idx as int, false),
    ensures
        ({
            let step = scan::box_step(a, one, one.item_idx as int, max_advance);
            let other_step = scan::box_step(b, other, other.item_idx as int, max_advance);
            &&& step.flow == other_step.flow
            &&& step.flow is Continue || step.flow is Break
            &&& same_flow(a, b, step.state, other_step.state)
            &&& step.flow is Continue ==> step.state.item_idx == one.item_idx + 1
                && other_step.state.item_idx == other.item_idx + 1
        }),
{
    reveal(same_flow);
    let item = one.item_idx as int;
    let other_item = other.item_idx as int;
    let cursor = one.cluster_idx as int;
    assert(a.item_wf(item));
    assert(b.item_wf(other_item));
    lemma_same_sum(
        a.flow_box(item),
        a.flow_from(item + 1, cursor, false),
        b.flow_box(other_item),
        b.flow_from(other_item + 1, cursor, false),
    );
}

/// A box out of flow leaves the breaker at the same place of the flow.
proof fn lemma_out_of_flow_step<T: Scalar>(
    a: LayoutData<T>,
    b: LayoutData<T>,
    one: BreakerState<T>,
    other: BreakerState<T>,
    max_advance: T,
)
    requires
        a.wf(),
        zero_is_neutral::<T>(),
        same_flow(a, b, one, other),
        one.item_idx < a.items@.len(),
        a.is_out_of_flow(one.item_idx as int, false),
    ensures
        ({
            let step = scan::box_step(a, one, one.item_idx as int, max_advance);
            &&& step.flow is Continue
            &&& step.state.item_idx == one.item_idx + 1
            &&& same_flow(a, b, step.state, other)
        }),
{
    reveal(same_flow);
    let metrics = one.line.box_metrics;
    let zero = T::spec_zero();
    assert(metrics.with_inline_box(zero, zero, a.quantize) == metrics);
}

proof fn lemma_same_flow_is_symmetric<T: Scalar>(
    a: LayoutData<T>,
    b: LayoutData<T>,
    one: BreakerState<T>,
    other: BreakerState<T>,
)
    requires
        same_flow(a, b, one, other),
    ensures
        same_flow(b, a, other, one),
{
    reveal(same_flow);
}

proof fn lemma_same_after_run<T: Scalar>(
    a: LayoutData<T>,
    b: LayoutData<T>,
    one: BreakerState<T>,
    other: BreakerState<T>,
)
    requires
        a.items@.len() < usize::MAX,
        same_flow(a, b, one, other),
        one.item_idx < a.items@.len(),
        a.spec_is_text(one.item_idx as int),
        one.cluster_idx >= a.text_end(one.item_idx as int),
    ensures
        same_flow(a, b, scan::after_run(one), other),
        scan::after_run(one).item_idx == one.item_idx + 1,
{
    reveal(same_flow);
}

pub(crate) proof fn lemma_same_scan<T: Scalar>(
    a: LayoutData<T>,
    b: LayoutData<T>,
    one: BreakerState<T>,
    other: BreakerState<T>,
    max_advance: T,
)
    requires
        a.wf(),
        b.wf(),
        a.quantize == b.quantize,
        zero_is_neutral::<T>(),
        has_simple_boxes(a),
        has_simple_boxes(b),
        same_flow(a, b, one, other),
    ensures
        ({
            let step = scan::scan(a, one, one.item_idx as int, max_advance);
            let other_step = scan::scan(b, other, other.item_idx as int, max_advance);
            &&& step.flow == other_step.flow
            &&& step.flow is Continue || step.flow is Break
            &&& same_flow(a, b, step.state, other_step.state)
        }),
    decreases
            a.items@.len() - one.item_idx + b.items@.len() - other.item_idx,
            a.shaped_text.clusters@.len() - one.cluster_idx,
{
    let item = one.item_idx as int;
    let other_item = other.item_idx as int;
    let cursor = one.cluster_idx as int;
    lemma_same_entered(a, b, one, other, TextWrapMode::Wrap);
    let inside = item < a.items@.len();
    let other_inside = other_item < b.items@.len();
    if inside {
        assert(a.item_wf(item));
    }
    if other_inside {
        assert(b.item_wf(other_item));
    }
    if inside && a.spec_is_text(item) && cursor >= a.text_end(item) {
        let next = scan::after_run(one);
        lemma_same_after_run(a, b, one, other);
        assert(scan::scan(a, one, item, max_advance) == scan::scan(
            a,
            next,
            item + 1,
            max_advance,
        ));
        lemma_same_scan(a, b, next, other, max_advance);
    } else if other_inside && b.spec_is_text(other_item) && cursor >= b.text_end(other_item) {
        let next = scan::after_run(other);
        lemma_same_flow_is_symmetric(a, b, one, other);
        lemma_same_after_run(b, a, other, one);
        lemma_same_flow_is_symmetric(b, a, next, one);
        assert(scan::scan(b, other, other_item, max_advance) == scan::scan(
            b,
            next,
            other_item + 1,
            max_advance,
        ));
        lemma_same_scan(a, b, one, next, max_advance);
    } else if inside && a.is_out_of_flow(item, false) {
        lemma_out_of_flow_step(a, b, one, other, max_advance);
        let next = scan::box_step(a, one, item, max_advance).state;
        lemma_same_scan(a, b, next, other, max_advance);
    } else if other_inside && b.is_out_of_flow(other_item, false) {
        lemma_same_flow_is_symmetric(a, b, one, other);
        lemma_out_of_flow_step(b, a, other, one, max_advance);
        let next = scan::box_step(b, other, other_item, max_advance).state;
        lemma_same_flow_is_symmetric(b, a, next, one);
        lemma_same_scan(a, b, one, next, max_advance);
    } else {
        let flow = a.flow_from(item, cursor, false);
        let other_flow = b.flow_from(other_item, cursor, false);
        assert(inside == (flow.len() > 0));
        assert(other_inside == (other_flow.len() > 0));
        if inside {
            assert(flow[0] == if a.spec_is_text(item) {
                a.flow_atom(item, cursor)
            } else {
                a.flow_box(item)
            });
            assert(other_flow[0] == if b.spec_is_text(other_item) {
                b.flow_atom(other_item, cursor)
            } else {
                b.flow_box(other_item)
            });
            if a.spec_is_text(item) {
                assert(b.spec_is_text(other_item));
                lemma_same_text_step(a, b, one, other, max_advance);
                let run = a.items@[item].index as int;
                let other_run = b.items@[other_item].index as int;
                let step = scan::text_step(a, one, scan::atom_info(a, run, cursor), max_advance);
                let other_step = scan::text_step(
                    b,
                    other,
                    scan::atom_info(b, other_run, cursor),
                    max_advance,
                );
                a.shaped_text.lemma_atom_end(cursor, a.text_end(item));
                b.shaped_text.lemma_atom_end(cursor, b.text_end(other_item));
                if step.flow is Continue {
                    lemma_same_scan(a, b, step.state, other_step.state, max_advance);
                    lemma_scan_goes_on(a, one, max_advance);
                    lemma_scan_goes_on(b, other, max_advance);
                } else {
                    assert(scan::scan(a, one, item, max_advance) == step);
                    assert(scan::scan(b, other, other_item, max_advance) == other_step);
                }
            } else {
                assert(!b.spec_is_text(other_item));
                lemma_same_box_step(a, b, one, other, max_advance);
                let step = scan::box_step(a, one, item, max_advance);
                let other_step = scan::box_step(b, other, other_item, max_advance);
                if step.flow is Continue {
                    lemma_same_scan(a, b, step.state, other_step.state, max_advance);
                }
            }
        }
    }
}

/// Scanning goes on after an atom.
proof fn lemma_scan_goes_on<T: Scalar>(
    layout: LayoutData<T>,
    state: BreakerState<T>,
    max_advance: T,
)
    requires
        state.item_idx < layout.items@.len(),
        layout.spec_is_text(state.item_idx as int),
        state.cluster_idx < layout.text_end(state.item_idx as int),
        ({
            let item = state.item_idx as int;
            let run = layout.items@[item].index as int;
            let step = scan::text_step(
                layout,
                state,
                scan::atom_info(layout, run, state.cluster_idx as int),
                max_advance,
            );
            &&& step.flow is Continue
            &&& step.state.item_idx == item
            &&& step.state.cluster_idx == layout.shaped_text.atom_end(
                state.cluster_idx as int,
                layout.text_end(item),
            )
        }),
    ensures
        ({
            let item = state.item_idx as int;
            let run = layout.items@[item].index as int;
            let step = scan::text_step(
                layout,
                state,
                scan::atom_info(layout, run, state.cluster_idx as int),
                max_advance,
            );
            scan::scan(layout, state, item, max_advance) == scan::scan(
                layout,
                step.state,
                item,
                max_advance,
            )
        }),
{
    let item = state.item_idx as int;
    let run = layout.items@[item].index as int;
    let cursor = state.cluster_idx as int;
    let step = scan::text_step(layout, state, scan::atom_info(layout, run, cursor), max_advance);
    assert(scan::scan_run(layout, state, run, cursor, max_advance) == scan::scan_run(
        layout,
        step.state,
        run,
        step.state.cluster_idx as int,
        max_advance,
    ));
}

/// What two breakers have led to so far is alike: the lines end for the same
/// reasons, and the next line starts at the same cluster and the same height,
/// at the same place of the flow.
pub open spec fn same_progress<T: Scalar>(
    a: LayoutData<T>,
    b: LayoutData<T>,
    one: Progress<T>,
    other: Progress<T>,
) -> bool {
    &&& one.done == other.done
    &&& one.lines.len() == other.lines.len()
    &&& forall|i: int|
        0 <= i < one.lines.len() ==> (#[trigger] one.lines[i]).break_reason
            == other.lines[i].break_reason && one.lines[i].indent == other.lines[i].indent
            && one.lines[i].max_advance == other.lines[i].max_advance
    &&& one.state.line.clusters == other.state.line.clusters
    &&& one.state.line_y == other.state.line_y
    &&& !one.done ==> same_flow(a, b, one.state, other.state)
}

/// The layouts have the same content in flow, and are indented and rounded
/// alike. Neither opens inline edges or has boxes for the caller to place.
pub open spec fn same_paragraph<T: Scalar>(a: LayoutData<T>, b: LayoutData<T>) -> bool {
    &&& a.flow_from(0, 0, false) == b.flow_from(0, 0, false)
    &&& has_simple_boxes(a)
    &&& has_simple_boxes(b)
    &&& a.quantize == b.quantize
    &&& a.indent_amount == b.indent_amount
    &&& a.indent_options == b.indent_options
    &&& a.text_len == b.text_len
    &&& a.text_len > 0 || (a.inline_boxes@.len() == 0) == (b.inline_boxes@.len() == 0)
    &&& a.items@.len() > 0
    &&& b.items@.len() > 0
    &&& a.styles@[a.root_style_index as int].text_wrap_mode
        == b.styles@[b.root_style_index as int].text_wrap_mode
}

pub(crate) proof fn lemma_same_after_line<T: Scalar>(
    a: LayoutData<T>,
    b: LayoutData<T>,
    one: Progress<T>,
    other: Progress<T>,
    reason: BreakReason,
    max_advance: T,
    indent: T,
)
    requires
        zero_is_neutral::<T>(),
        same_flow(a, b, one.state, other.state),
    ensures
        ({
            let next = one.with_line(a, reason, max_advance, indent);
            let other_next = other.with_line(b, reason, max_advance, indent);
            &&& same_flow(a, b, next.state, other_next.state)
            &&& next.state.line.clusters == other_next.state.line.clusters
            &&& next.state.line_y == other_next.state.line_y
            &&& next.lines.len() == one.lines.len() + 1
            &&& other_next.lines.len() == other.lines.len() + 1
            &&& next.lines.drop_last() == one.lines
            &&& other_next.lines.drop_last() == other.lines
            &&& next.lines.last().break_reason == reason
            &&& other_next.lines.last().break_reason == reason
            &&& next.lines.last().indent == indent
            &&& other_next.lines.last().indent == indent
            &&& next.lines.last().max_advance == max_advance
            &&& other_next.lines.last().max_advance == max_advance
            &&& next.done == one.done
            &&& other_next.done == other.done
        }),
{
    reveal(same_flow);
    let next = one.with_line(a, reason, max_advance, indent);
    let other_next = other.with_line(b, reason, max_advance, indent);
    assert(next.lines.drop_last() =~= one.lines);
    assert(other_next.lines.drop_last() =~= other.lines);
}

pub(crate) proof fn lemma_same_at_end<T: Scalar>(
    a: LayoutData<T>,
    b: LayoutData<T>,
    one: Progress<T>,
    other: Progress<T>,
    state: BreakerState<T>,
    other_state: BreakerState<T>,
)
    requires
        same_flow(a, b, state, other_state),
    ensures
        same_flow(a, b, one.at_end(state).state, other.at_end(other_state).state),
{
    reveal(same_flow);
}

pub(crate) proof fn lemma_same_next<T: Scalar>(
    a: LayoutData<T>,
    b: LayoutData<T>,
    one: Progress<T>,
    other: Progress<T>,
)
    requires
        a.wf(),
        b.wf(),
        zero_is_neutral::<T>(),
        same_paragraph(a, b),
        same_progress(a, b, one, other),
        !one.done,
    ensures
        same_progress(a, b, one.next(a).0, other.next(b).0),
        one.next(a).1 matches Some(YieldData::LineBreak(_)),
        other.next(b).1 matches Some(YieldData::LineBreak(_)),
{
    let indent = one.indent(a);
    let available = one.available(a);
    if one.lines.len() > 0 {
        assert(one.lines[one.lines.len() - 1].break_reason == other.lines[one.lines.len()
            - 1].break_reason);
    }
    assert(other.indent(b) == indent);
    assert(one.state.line_max_advance == other.state.line_max_advance) by {
        reveal(same_flow);
    }
    assert(other.available(b) == available);
    lemma_same_scan(a, b, one.state, other.state, available);
    let step = scan::scan(a, one.state, one.state.item_idx as int, available);
    let other_step = scan::scan(b, other.state, other.state.item_idx as int, available);
    let scanned = Progress { prev_state: Some(one.state), state: step.state, ..one };
    let other_scanned = Progress {
        prev_state: Some(other.state),
        state: other_step.state,
        ..other
    };
    match step.flow {
        Flow::Continue => {
            lemma_same_at_end(a, b, scanned, other_scanned, step.state, other_step.state);
            lemma_same_after_line(
                a,
                b,
                scanned.at_end(step.state),
                other_scanned.at_end(other_step.state),
                BreakReason::NoBreak,
                available,
                indent,
            );
        },
        Flow::Break(reason) => {
            lemma_same_after_line(a, b, scanned, other_scanned, reason, available, indent);
        },
        _ => {},
    }
    let next = one.next(a).0;
    let other_next = other.next(b).0;
    assert forall|i: int| 0 <= i < next.lines.len() implies (#[trigger] next.lines[i]).break_reason
        == other_next.lines[i].break_reason && next.lines[i].indent == other_next.lines[i].indent
        && next.lines[i].max_advance == other_next.lines[i].max_advance by {
        if i < one.lines.len() {
            assert(next.lines[i] == next.lines.drop_last()[i]);
            assert(other_next.lines[i] == other_next.lines.drop_last()[i]);
            assert(one.lines[i].break_reason == other.lines[i].break_reason);
        } else {
            assert(next.lines[i] == next.lines.last());
            assert(other_next.lines[i] == other_next.lines.last());
        }
    }
}

/// A step that breaks a line is the next line.
pub(crate) proof fn lemma_step_is_line<T: Scalar>(layout: LayoutData<T>, progress: Progress<T>)
    requires
        progress.next(layout).1 matches Some(YieldData::LineBreak(_)),
    ensures
        progress.advanced(layout) == progress.next(layout).0,
        !progress.is_stuck(layout),
{
    reveal(Progress::advanced);
    reveal(Progress::is_stuck);
}

pub(crate) proof fn lemma_done_is_stuck<T: Scalar>(layout: LayoutData<T>, progress: Progress<T>)
    requires
        progress.done,
    ensures
        progress.is_stuck(layout),
{
    reveal(Progress::is_stuck);
}

proof fn lemma_same_steps<T: Scalar>(
    a: LayoutData<T>,
    b: LayoutData<T>,
    one: Progress<T>,
    other: Progress<T>,
    steps: nat,
)
    requires
        a.wf(),
        b.wf(),
        zero_is_neutral::<T>(),
        same_paragraph(a, b),
        same_progress(a, b, one, other),
    ensures
        ({
            let last = one.after_steps(a, steps);
            let other_last = other.after_steps(b, steps);
            &&& same_progress(a, b, last, other_last)
            &&& last.is_stuck(a) == last.done
            &&& other_last.is_stuck(b) == other_last.done
        }),
    decreases steps,
{
    if steps > 0 {
        lemma_same_steps(a, b, one, other, (steps - 1) as nat);
        let before = one.after_steps(a, (steps - 1) as nat);
        let other_before = other.after_steps(b, (steps - 1) as nat);
        if !before.done {
            lemma_same_next(a, b, before, other_before);
            lemma_step_is_line(a, before);
            lemma_step_is_line(b, other_before);
        }
    }
    let last = one.after_steps(a, steps);
    let other_last = other.after_steps(b, steps);
    if last.done {
        lemma_done_is_stuck(a, last);
        lemma_done_is_stuck(b, other_last);
    } else {
        lemma_same_next(a, b, last, other_last);
        lemma_step_is_line(a, last);
        lemma_step_is_line(b, other_last);
    }
}

/// Boxes out of flow change no line. Two layouts with the same content in flow,
/// broken for the same advance, break into as many lines. Line by line these
/// start at the same cluster and the same height and end for the same reason,
/// whatever boxes out of flow the layouts have.
pub proof fn lemma_lines_are_those_of_the_flow<T: Scalar>(
    a: LayoutData<T>,
    b: LayoutData<T>,
    max_advance: T,
    steps: nat,
)
    requires
        a.wf(),
        b.wf(),
        zero_is_neutral::<T>(),
        forall|height: T| !#[trigger] T::spec_largest().spec_lt(height),
        same_paragraph(a, b),
    ensures
        ({
            let one = Progress::start(a).with_limit(max_advance).after_steps(a, steps);
            let other = Progress::start(b).with_limit(max_advance).after_steps(b, steps);
            &&& same_progress(a, b, one, other)
            &&& one.is_stuck(a) == other.is_stuck(b)
        }),
{
    let one = Progress::start(a).with_limit(max_advance);
    let other = Progress::start(b).with_limit(max_advance);
    assert(same_flow(a, b, one.state, other.state)) by {
        reveal(same_flow);
    }
    lemma_same_steps(a, b, one, other, steps);
}

/// Fixed-point lengths are of the kind on which boxes out of flow have no
/// effect.
pub proof fn lemma_fixed_lengths_are_neutral()
    ensures
        zero_is_neutral::<Fixed>(),
        forall|height: Fixed| !#[trigger] Fixed::spec_largest().spec_lt(height),
{
}

} // verus!
