//! Laws of line breaking and of intrinsic widths.

use crate::inline_box::InlineBoxKind;
use crate::layout::break_lines::{Progress, YieldData};
use crate::layout::content_widths::Measure;
use crate::layout::data::{BreakReason, LayoutData};
use crate::layout::scan;
use crate::layout::scan::{AtomInfo, Flow, Step};
use crate::layout::shaped::Boundary;
use crate::layout::state::{BreakerState, LineState};
use crate::scalar::Scalar;
use crate::style::TextWrapMode;
use vstd::prelude::*;

verus! {

/// The step does not end the line, or does so at a forced break.
pub open spec fn breaks_only_explicitly<T: Scalar>(step: Step<T>) -> bool {
    step.flow matches Flow::Break(reason) ==> reason == BreakReason::Explicit
}

// ---------------------------------------------------------------------------
// Without wrapping.

/// No style permits wrapping.
pub open spec fn never_wraps<T: Scalar>(layout: LayoutData<T>) -> bool {
    forall|i: int|
        0 <= i < layout.styles@.len() ==> (#[trigger] layout.styles@[i]).text_wrap_mode
            == TextWrapMode::NoWrap
}

/// The line has no opportunity to be broken.
pub open spec fn has_no_opportunity<T: Scalar>(state: BreakerState<T>) -> bool {
    &&& state.line.text_wrap_mode == TextWrapMode::NoWrap
    &&& state.last_content_text_wrap_mode != Some(TextWrapMode::Wrap)
    &&& state.prev_boundary is None
    &&& state.emergency_boundary is None
    &&& !state.propagating_break_after
}

proof fn lemma_no_wrap_text<T: Scalar>(
    layout: LayoutData<T>,
    state: BreakerState<T>,
    info: AtomInfo<T>,
    max_advance: T,
)
    requires
        has_no_opportunity(state),
        info.style.text_wrap_mode == TextWrapMode::NoWrap,
    ensures
        breaks_only_explicitly(scan::text_step(layout, state, info, max_advance)),
        has_no_opportunity(scan::text_step(layout, state, info, max_advance).state),
{
}

proof fn lemma_no_wrap_run<T: Scalar>(
    layout: LayoutData<T>,
    state: BreakerState<T>,
    run: int,
    cursor: int,
    max_advance: T,
)
    requires
        layout.wf(),
        never_wraps(layout),
        0 <= run < layout.shaped_text.runs@.len(),
        0 <= cursor,
        has_no_opportunity(state),
    ensures
        breaks_only_explicitly(scan::scan_run(layout, state, run, cursor, max_advance)),
        has_no_opportunity(scan::scan_run(layout, state, run, cursor, max_advance).state),
    decreases layout.shaped_text.runs@[run].clusters.end - cursor,
{
    let bound = layout.shaped_text.runs@[run].clusters.end as int;
    if cursor < bound {
        let info = scan::atom_info(layout, run, cursor);
        let step = scan::text_step(layout, state, info, max_advance);
        assert(layout.shaped_text.clusters@[cursor].chars.start
            < layout.shaped_text.characters@.len());
        lemma_no_wrap_text(layout, state, info, max_advance);
        if step.flow is Continue {
            layout.shaped_text.lemma_atom_end(cursor, bound);
            lemma_no_wrap_run(
                layout,
                step.state,
                run,
                layout.shaped_text.atom_end(cursor, bound),
                max_advance,
            );
        }
    }
}

proof fn lemma_no_wrap_box<T: Scalar>(
    layout: LayoutData<T>,
    state: BreakerState<T>,
    item: int,
    max_advance: T,
)
    requires
        layout.wf(),
        never_wraps(layout),
        0 <= item < layout.items@.len(),
        has_no_opportunity(state),
    ensures
        breaks_only_explicitly(scan::box_step(layout, state, item, max_advance)),
        has_no_opportunity(scan::box_step(layout, state, item, max_advance).state),
{
    assert(layout.item_wf(item));
}

proof fn lemma_no_wrap_scan<T: Scalar>(
    layout: LayoutData<T>,
    state: BreakerState<T>,
    item: int,
    max_advance: T,
)
    requires
        layout.wf(),
        never_wraps(layout),
        0 <= item,
        has_no_opportunity(state),
    ensures
        breaks_only_explicitly(scan::scan(layout, state, item, max_advance)),
        has_no_opportunity(scan::scan(layout, state, item, max_advance).state),
    decreases layout.items@.len() - item,
{
    if item < layout.items@.len() {
        assert(layout.item_wf(item));
        if layout.spec_is_text(item) {
            let run = layout.items@[item].index as int;
            let step = scan::scan_run(layout, state, run, state.cluster_idx as int, max_advance);
            lemma_no_wrap_run(layout, state, run, state.cluster_idx as int, max_advance);
            if step.flow is Continue {
                lemma_no_wrap_scan(layout, scan::after_run(step.state), item + 1, max_advance);
            }
        } else {
            let step = scan::box_step(layout, state, item, max_advance);
            lemma_no_wrap_box(layout, state, item, max_advance);
            if step.flow is Continue {
                lemma_no_wrap_scan(layout, step.state, item + 1, max_advance);
            }
        }
    }
}

/// A paragraph in which no style permits wrapping is broken only at its forced
/// breaks and its end, whatever does not fit. So it starts, and so it stays
/// from line to line.
pub proof fn lemma_no_wrap_breaks_only_explicitly<T: Scalar>(
    layout: LayoutData<T>,
    progress: Progress<T>,
)
    requires
        layout.wf(),
        never_wraps(layout),
    ensures
        layout.items@.len() > 0 ==> has_no_opportunity(Progress::start(layout).state),
        has_no_opportunity(progress.state) ==> {
            let (next, yielded) = progress.next(layout);
            &&& has_no_opportunity(next.state)
            &&& yielded matches Some(YieldData::LineBreak(data)) ==> data.reason
                == BreakReason::Explicit || data.reason == BreakReason::NoBreak
        },
{
    if has_no_opportunity(progress.state) {
        lemma_no_wrap_scan(
            layout,
            progress.state,
            progress.state.item_idx as int,
            progress.available(layout),
        );
    }
}

// ---------------------------------------------------------------------------
// Without a limit.

/// Nothing exceeds the advance.
pub open spec fn is_unlimited<T: Scalar>(advance: T) -> bool {
    forall|x: T| #![trigger x.spec_le(advance)] #![trigger advance.spec_lt(x)]
        x.spec_le(advance) && !advance.spec_lt(x)
}

proof fn lemma_unlimited_run<T: Scalar>(
    layout: LayoutData<T>,
    state: BreakerState<T>,
    run: int,
    cursor: int,
    max_advance: T,
)
    requires
        is_unlimited(max_advance),
    ensures
        breaks_only_explicitly(scan::scan_run(layout, state, run, cursor, max_advance)),
    decreases layout.shaped_text.runs@[run].clusters.end - cursor,
{
    let bound = layout.shaped_text.runs@[run].clusters.end as int;
    if cursor < bound {
        let step = scan::text_step(
            layout,
            state,
            scan::atom_info(layout, run, cursor),
            max_advance,
        );
        if step.flow is Continue {
            layout.shaped_text.lemma_atom_end(cursor, bound);
            lemma_unlimited_run(
                layout,
                step.state,
                run,
                layout.shaped_text.atom_end(cursor, bound),
                max_advance,
            );
        }
    }
}

proof fn lemma_unlimited_scan<T: Scalar>(
    layout: LayoutData<T>,
    state: BreakerState<T>,
    item: int,
    max_advance: T,
)
    requires
        is_unlimited(max_advance),
    ensures
        breaks_only_explicitly(scan::scan(layout, state, item, max_advance)),
    decreases layout.items@.len() - item,
{
    if item < layout.items@.len() {
        if layout.spec_is_text(item) {
            let run = layout.items@[item].index as int;
            let step = scan::scan_run(layout, state, run, state.cluster_idx as int, max_advance);
            lemma_unlimited_run(layout, state, run, state.cluster_idx as int, max_advance);
            if step.flow is Continue {
                lemma_unlimited_scan(layout, scan::after_run(step.state), item + 1, max_advance);
            }
        } else {
            let step = scan::box_step(layout, state, item, max_advance);
            if step.flow is Continue {
                lemma_unlimited_scan(layout, step.state, item + 1, max_advance);
            }
        }
    }
}

/// Where the advance available to a line is not limited, the line ends only at
/// a forced break or with the paragraph.
pub proof fn lemma_unlimited_breaks_only_explicitly<T: Scalar>(
    layout: LayoutData<T>,
    progress: Progress<T>,
)
    requires
        is_unlimited(progress.available(layout)),
    ensures
        progress.next(layout).1 matches Some(YieldData::LineBreak(data)) ==> data.reason
            == BreakReason::Explicit || data.reason == BreakReason::NoBreak,
{
    lemma_unlimited_scan(
        layout,
        progress.state,
        progress.state.item_idx as int,
        progress.available(layout),
    );
}

// ---------------------------------------------------------------------------
// Forced breaks.

/// A forced break ends the line, if the line is not too high for it. A carriage
/// return that its line feed follows at once leaves the break to the line feed,
/// so that the pair makes one break.
pub proof fn lemma_forced_break<T: Scalar>(
    layout: LayoutData<T>,
    state: BreakerState<T>,
    info: AtomInfo<T>,
    max_advance: T,
)
    requires
        info.is_newline(),
        info.first.boundary != Boundary::Line,
        !state.line.max_height_exceeded,
    ensures
        ({
            let flow = scan::text_step(layout, state, info, max_advance).flow;
            if scan::is_cr_before_lf(layout, state, info) {
                flow is Continue
            } else {
                flow == Flow::<T>::Break(BreakReason::Explicit)
            }
        }),
{
}

// ---------------------------------------------------------------------------
// Greedy filling and inline edges.

/// A line is not broken while its content fits: text that is no forced break is
/// put on the line, unless the line is too high.
pub proof fn lemma_fitting_text_stays<T: Scalar>(
    layout: LayoutData<T>,
    state: BreakerState<T>,
    info: AtomInfo<T>,
    max_advance: T,
)
    requires
        !info.is_newline(),
        state.line.x.spec_plus(info.atom.advance).spec_le(max_advance),
    ensures
        ({
            let flow = scan::text_step(layout, state, info, max_advance).flow;
            if state.line.max_height_exceeded {
                flow is MaxHeightExceeded
            } else {
                flow is Continue
            }
        }),
{
}

/// Opening edges move to the next line with the content that follows them: a
/// break before that content takes place before the edge.
pub proof fn lemma_opening_edge_moves_with_content<T: Scalar>(
    layout: LayoutData<T>,
    state: BreakerState<T>,
    item: int,
    max_advance: T,
)
    requires
        0 <= item < layout.items@.len(),
        layout.inline_boxes@[layout.items@[item].index as int].kind == InlineBoxKind::StartBoundary,
    ensures
        ({
            let step = scan::box_step(layout, state, item, max_advance);
            &&& step.flow is Continue
            &&& step.state.content_boundary() == state.content_boundary()
        }),
{
}

/// A closing edge stays with the content before it: where the line can be
/// broken after that content, it can be broken after the edge instead.
pub proof fn lemma_closing_edge_stays_with_content<T: Scalar>(
    layout: LayoutData<T>,
    state: BreakerState<T>,
    item: int,
    max_advance: T,
)
    requires
        0 <= item < layout.items@.len(),
        layout.inline_boxes@[layout.items@[item].index as int].kind == InlineBoxKind::EndBoundary,
        state.propagating_break_after,
    ensures
        ({
            let step = scan::box_step(layout, state, item, max_advance);
            &&& step.flow is Continue
            &&& step.state.prev_boundary matches Some(boundary)
            &&& boundary.state == step.state.line
            &&& boundary.item_idx == step.state.item_idx
            &&& boundary.cluster_idx == step.state.cluster_idx
        }),
{
}

// ---------------------------------------------------------------------------
// Boxes that take up no space.

/// A box out of flow takes its place on the line, and interrupts neither the
/// text's white space nor its wrapping: the line's content, its break
/// opportunities and its open edges stay as they were.
pub proof fn lemma_out_of_flow_is_transparent<T: Scalar>(
    layout: LayoutData<T>,
    state: BreakerState<T>,
    item: int,
    max_advance: T,
)
    requires
        0 <= item < layout.items@.len(),
        layout.inline_boxes@[layout.items@[item].index as int].kind == InlineBoxKind::OutOfFlow,
        layout.items@[item].style_after is None,
    ensures
        ({
            let step = scan::box_step(layout, state, item, max_advance);
            &&& step.flow is Continue
            &&& step.state == (BreakerState {
                item_idx: step.state.item_idx,
                line: LineState {
                    items: step.state.line.items,
                    box_metrics: step.state.line.box_metrics,
                    max_height_exceeded: step.state.line.max_height_exceeded,
                    ..state.line
                },
                ..state
            })
        }),
{
}

/// A box out of flow has no part in the intrinsic widths.
pub proof fn lemma_out_of_flow_has_no_intrinsic_width<T: Scalar>(
    layout: LayoutData<T>,
    measure: Measure<T>,
    item: int,
)
    requires
        0 <= item < layout.items@.len(),
        !layout.spec_is_text(item),
        ({
            let kind = layout.inline_boxes@[layout.items@[item].index as int].kind;
            kind == InlineBoxKind::OutOfFlow || kind == InlineBoxKind::CustomOutOfFlow
        }),
        layout.items@[item].style_after is None,
    ensures
        measure.with_items(layout, item) == measure.with_items(layout, item + 1),
{
}

} // verus!
