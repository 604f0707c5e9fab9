//! Scanning a paragraph for the end of the next line.

use crate::inline_box::{InlineBoundaryAffinity, InlineBox, InlineBoxKind};
use crate::layout::data::{BreakReason, LayoutData};
use crate::layout::shaped::{Atom, Boundary, Character, Whitespace};
use crate::layout::state::{BreakerState, LineState, PrevBoundaryState};
use crate::scalar::Scalar;
use crate::style::{
    EndOfLineWhitespace, OverflowWrap, Style, TextWrapMode, WhiteSpaceCollapse, WordBreak,
};
use vstd::prelude::*;

verus! {

/// A line that is too high for the space available to it.
#[derive(Clone, Copy, Debug)]
pub struct MaxHeightBreakData<T: Scalar> {
    /// The advance of the line so far.
    pub advance: T,
    /// The height of what did not fit.
    pub line_height: T,
}

/// A box that the caller has to place.
#[derive(Clone, Copy, Debug)]
pub struct BoxBreakData<T: Scalar> {
    /// The identifier that the caller gave the box.
    pub inline_box_id: u64,
    /// The index of the box in the layout.
    pub inline_box_index: usize,
    /// The advance of the line up to the box.
    pub advance: T,
}

/// How a step of the scan ends.
#[derive(Clone, Copy, Debug)]
pub enum Flow<T: Scalar> {
    /// The scan goes on.
    Continue,
    /// The line ends at the current position.
    Break(BreakReason),
    /// The line is too high.
    MaxHeightExceeded(MaxHeightBreakData<T>),
    /// A box has to be placed by the caller.
    InlineBoxBreak(BoxBreakData<T>),
}

/// A state and how the step that led to it ended.
pub struct Step<T: Scalar> {
    pub state: BreakerState<T>,
    pub flow: Flow<T>,
}

/// What the breaker reads of the atom that it looks at.
pub struct AtomInfo<T: Scalar> {
    pub atom: Atom<T>,
    pub first: Character,
    pub style: Style<T>,
    pub run: int,
}

impl<T: Scalar> AtomInfo<T> {
    /// A preserved space in `break-spaces`.
    pub open spec fn is_break_spaces_space(self) -> bool {
        &&& self.style.white_space_collapse == WhiteSpaceCollapse::BreakSpaces
        &&& self.first.spec_is_line_end_space()
    }

    /// White space that may hang or be removed at a line's end.
    pub open spec fn hangs_or_is_removed(self) -> bool {
        &&& self.first.spec_is_line_end_space()
        &&& self.style.spec_end_of_line() != EndOfLineWhitespace::TakesUpSpace
    }

    pub open spec fn is_newline(self) -> bool {
        self.first.whitespace == Whitespace::Newline
    }
}

/// The atom of a run that starts at the cluster `cursor`.
pub open spec fn atom_info<T: Scalar>(layout: LayoutData<T>, run: int, cursor: int) -> AtomInfo<T> {
    let bound = layout.shaped_text.runs@[run].clusters.end as int;
    let first = layout.shaped_text.spec_first_character(cursor);
    AtomInfo {
        atom: layout.shaped_text.spec_atom(cursor, bound),
        first,
        style: layout.spec_style_of(first),
        run,
    }
}

/// The state with the atom put on the line.
pub open spec fn append_atom<T: Scalar>(
    layout: LayoutData<T>,
    state: BreakerState<T>,
    info: AtomInfo<T>,
    next_x: T,
) -> BreakerState<T> {
    state.after_atom(
        info.atom,
        next_x,
        layout.shaped_text.runs@[info.run].font_metrics,
        layout.runs@[info.run].line_height,
        layout.quantize,
    )
}

pub open spec fn too_high<T: Scalar>(state: BreakerState<T>, line_height: T) -> Step<T> {
    Step {
        state,
        flow: Flow::MaxHeightExceeded(MaxHeightBreakData { advance: state.line.x, line_height }),
    }
}

pub open spec fn break_at<T: Scalar>(
    state: BreakerState<T>,
    boundary: PrevBoundaryState<T>,
    reason: BreakReason,
) -> Step<T> {
    Step { state: state.at_boundary(boundary), flow: Flow::Break(reason) }
}

pub open spec fn go_on<T: Scalar>(state: BreakerState<T>) -> Step<T> {
    Step { state, flow: Flow::Continue }
}

/// The atom ends in a carriage return whose line feed follows at once, so that
/// the line feed makes the break of the pair. Nothing may lie between the two:
/// the line feed is in the same run, or in the next item.
pub open spec fn is_cr_before_lf<T: Scalar>(
    layout: LayoutData<T>,
    state: BreakerState<T>,
    info: AtomInfo<T>,
) -> bool {
    let characters = layout.shaped_text.characters@;
    let end = info.atom.chars.end as int;
    let adjacent = info.atom.clusters.end < layout.shaped_text.runs@[info.run].clusters.end || (
    state.item_idx + 1 < layout.items@.len() && layout.spec_is_text(state.item_idx + 1));
    &&& characters[end - 1].source_char == '\r'
    &&& adjacent
    &&& end < characters.len()
    &&& characters[end].whitespace == Whitespace::Newline
    &&& characters[end].source_char == '\n'
}

/// The state in which an atom is looked at: the atom's own wrap mode and
/// whether it is a preserved space count from the next atom on.
pub open spec fn entering_atom<T: Scalar>(
    state: BreakerState<T>,
    info: AtomInfo<T>,
) -> BreakerState<T> {
    BreakerState {
        prev_atom_was_break_spaces_space: info.is_break_spaces_space(),
        line: LineState { text_wrap_mode: info.style.text_wrap_mode, ..state.line },
        ..state
    }
}

/// A forced break: it ends the line, unless it is the first half of a pair.
pub open spec fn newline_step<T: Scalar>(
    layout: LayoutData<T>,
    state: BreakerState<T>,
    info: AtomInfo<T>,
) -> Step<T> {
    let line_height = layout.runs@[info.run].line_height;
    if state.line.max_height_exceeded {
        too_high(state, line_height)
    } else {
        let next = append_atom(
            layout,
            state.with_content(info.style.text_wrap_mode),
            info,
            state.line.x,
        );
        Step {
            state: next,
            flow: if is_cr_before_lf(layout, state, info) {
                Flow::Continue
            } else {
                Flow::Break(BreakReason::Explicit)
            },
        }
    }
}

/// The state with the opportunity before an atom, if there is one. There is
/// none while the line is empty, so that content that overflows by itself does
/// not make further breaks.
pub open spec fn with_opportunity_before_atom<T: Scalar>(
    before: BreakerState<T>,
    info: AtomInfo<T>,
) -> BreakerState<T> {
    let state = entering_atom(before, info);
    let wraps = before.line.text_wrap_mode == TextWrapMode::Wrap;
    if !wraps || state.line.x.spec_same(T::spec_zero()) {
        state
    } else if info.first.boundary == Boundary::Line {
        state.with_opportunity_before_content(
            before.prev_atom_was_break_spaces_space || info.style.word_break
                == WordBreak::BreakAll,
        )
    } else if info.style.overflow_wrap != OverflowWrap::Normal {
        state.with_emergency_before_content()
    } else {
        state
    }
}

/// Puts an atom that fits on the line.
pub open spec fn fitting_step<T: Scalar>(
    layout: LayoutData<T>,
    state: BreakerState<T>,
    info: AtomInfo<T>,
    next_x: T,
) -> Step<T> {
    let mode = info.style.text_wrap_mode;
    if state.line.max_height_exceeded {
        too_high(state, layout.runs@[info.run].line_height)
    } else {
        let entered = if info.hangs_or_is_removed() {
            state.with_hanging_whitespace(mode)
        } else {
            state.with_content(mode)
        };
        let next = append_atom(layout, entered, info, next_x);
        go_on(
            if info.is_break_spaces_space() && mode == TextWrapMode::Wrap {
                next.with_opportunity(true)
            } else {
                next
            },
        )
    }
}

/// Breaks before an atom that does not fit, or puts it on the line where it
/// cannot be broken before.
///
/// White space that hangs or is removed is not considered for fit. A preserved
/// space in `break-spaces` can be broken after, so it uses no opportunity but
/// those that mode adds, and emergencies.
pub open spec fn overflowing_step<T: Scalar>(
    layout: LayoutData<T>,
    state: BreakerState<T>,
    info: AtomInfo<T>,
    next_x: T,
    wraps: bool,
) -> Step<T> {
    let mode = info.style.text_wrap_mode;
    let line_height = layout.runs@[info.run].line_height;
    let taken = BreakerState { prev_boundary: None, ..state };
    let emergency = BreakerState { emergency_boundary: None, ..state };
    if info.hangs_or_is_removed() && wraps {
        if state.line.max_height_exceeded {
            too_high(state, line_height)
        } else {
            go_on(append_atom(layout, state.with_hanging_whitespace(mode), info, next_x))
        }
    } else if info.is_break_spaces_space() && wraps {
        match (state.prev_boundary, state.emergency_boundary) {
            (Some(boundary), _) if boundary.after_break_spaces_space => break_at(
                taken,
                boundary,
                BreakReason::Regular,
            ),
            (_, Some(boundary)) => break_at(emergency, boundary, BreakReason::Emergency),
            _ => if state.line.max_height_exceeded {
                too_high(state, line_height)
            } else {
                go_on(
                    append_atom(layout, state.with_content(mode), info, next_x).with_opportunity(
                        true,
                    ),
                )
            },
        }
    } else {
        match (state.prev_boundary, state.emergency_boundary) {
            (Some(boundary), _) => break_at(taken, boundary, BreakReason::Regular),
            (_, Some(boundary)) => break_at(emergency, boundary, BreakReason::Emergency),
            _ => if state.line.max_height_exceeded {
                too_high(state, line_height)
            } else {
                go_on(append_atom(layout, state.with_content(mode), info, next_x))
            },
        }
    }
}

/// Looks at one atom of text.
pub open spec fn text_step<T: Scalar>(
    layout: LayoutData<T>,
    before: BreakerState<T>,
    info: AtomInfo<T>,
    max_advance: T,
) -> Step<T> {
    let wraps = before.line.text_wrap_mode == TextWrapMode::Wrap;
    if info.is_newline() && !(info.first.boundary == Boundary::Line && wraps) {
        newline_step(layout, entering_atom(before, info), info)
    } else {
        let state = with_opportunity_before_atom(before, info);
        let next_x = state.line.x.spec_plus(info.atom.advance);
        if next_x.spec_le(max_advance) {
            fitting_step(layout, state, info, next_x)
        } else {
            overflowing_step(layout, state, info, next_x, wraps)
        }
    }
}

/// Looks at the atoms of a run from the cluster `cursor` on.
pub open spec fn scan_run<T: Scalar>(
    layout: LayoutData<T>,
    state: BreakerState<T>,
    run: int,
    cursor: int,
    max_advance: T,
) -> Step<T>
    decreases layout.shaped_text.runs@[run].clusters.end - cursor,
{
    if cursor >= layout.shaped_text.runs@[run].clusters.end {
        go_on(state)
    } else {
        let bound = layout.shaped_text.runs@[run].clusters.end as int;
        let step = text_step(layout, state, atom_info(layout, run, cursor), max_advance);
        if step.flow is Continue {
            proof {
                layout.shaped_text.lemma_atom_end(cursor, bound);
            }
            scan_run(
                layout,
                step.state,
                run,
                layout.shaped_text.atom_end(cursor, bound),
                max_advance,
            )
        } else {
            step
        }
    }
}

/// The state with the style that becomes current after an item.
pub open spec fn with_style_after<T: Scalar>(
    layout: LayoutData<T>,
    state: BreakerState<T>,
    item: int,
) -> BreakerState<T> {
    match layout.items@[item].style_after {
        Some(style) => BreakerState {
            line: LineState {
                text_wrap_mode: layout.styles@[style as int].text_wrap_mode,
                ..state.line
            },
            ..state
        },
        None => state,
    }
}

/// Puts an item that takes up no space on the line.
pub open spec fn placeholder_step<T: Scalar>(
    layout: LayoutData<T>,
    state: BreakerState<T>,
    item: int,
) -> BreakerState<T> {
    let zero = T::spec_zero();
    with_style_after(
        layout,
        state.after_inline_box(state.line.x, zero, zero, layout.quantize),
        item,
    )
}

/// Puts an edge of an inline on the line.
pub open spec fn edge_step<T: Scalar>(
    layout: LayoutData<T>,
    state: BreakerState<T>,
    item: int,
    width: T,
) -> BreakerState<T> {
    let zero = T::spec_zero();
    with_style_after(
        layout,
        state.after_inline_box(state.line.x.spec_plus(width), zero, zero, layout.quantize),
        item,
    )
}

/// Puts an atomic box on the line.
pub open spec fn atomic_step<T: Scalar>(
    layout: LayoutData<T>,
    state: BreakerState<T>,
    item: int,
    inline_box: InlineBox<T>,
) -> BreakerState<T> {
    let appended = state.after_inline_box(
        state.line.x.spec_plus(inline_box.width),
        inline_box.spec_ascent(),
        inline_box.height.spec_minus(inline_box.spec_ascent()),
        layout.quantize,
    );
    let next = with_style_after(layout, appended, item).with_content(state.line.text_wrap_mode);
    BreakerState { prev_atom_was_break_spaces_space: false, ..next }
}

/// Whether the line can be broken before an atomic box: either style beside it
/// permits wrapping.
pub open spec fn can_break_before_box<T: Scalar>(state: BreakerState<T>) -> bool {
    state.line.text_wrap_mode == TextWrapMode::Wrap || state.last_content_text_wrap_mode == Some(
        TextWrapMode::Wrap,
    )
}

/// Breaks before an atomic box that does not fit, or puts it on the line.
pub open spec fn in_flow_step<T: Scalar>(
    layout: LayoutData<T>,
    before: BreakerState<T>,
    item: int,
    inline_box: InlineBox<T>,
    max_advance: T,
) -> Step<T> {
    let can_break = can_break_before_box(before);
    let boundary = before.content_boundary();
    let state = if can_break {
        BreakerState { pending_inline_start: InlineBoundaryAffinity::nothing(), ..before }
    } else {
        before
    };
    let next_x = state.line.x.spec_plus(inline_box.width);
    if max_advance.spec_lt(next_x) && can_break && boundary.state.has_content {
        break_at(state, boundary, BreakReason::Regular)
    } else if state.line_max_height.spec_lt(inline_box.height) {
        too_high(state, inline_box.height)
    } else {
        let next = atomic_step(layout, state, item, inline_box);
        go_on(
            if state.line.text_wrap_mode == TextWrapMode::Wrap {
                next.with_opportunity(false)
            } else {
                next
            },
        )
    }
}

/// Puts a closing edge on the line. It stays attached to the content before
/// it: where it does not fit, the line is broken before that content, unless
/// the content can only be broken after.
pub open spec fn end_boundary_step<T: Scalar>(
    layout: LayoutData<T>,
    state: BreakerState<T>,
    item: int,
    width: T,
    max_advance: T,
) -> Step<T> {
    let overflows = max_advance.spec_lt(state.line.x.spec_plus(width));
    match state.prev_boundary {
        Some(boundary) if overflows && !state.propagating_break_after => break_at(
            BreakerState { prev_boundary: None, ..state },
            boundary,
            BreakReason::Regular,
        ),
        _ => go_on(edge_step(layout, state, item, width).with_inline_end()),
    }
}

/// Looks at one inline box.
pub open spec fn box_step<T: Scalar>(
    layout: LayoutData<T>,
    state: BreakerState<T>,
    item: int,
    max_advance: T,
) -> Step<T> {
    let index = layout.items@[item].index;
    let inline_box = layout.inline_boxes@[index as int];
    match inline_box.kind {
        InlineBoxKind::CustomOutOfFlow => Step {
            state,
            flow: Flow::InlineBoxBreak(
                BoxBreakData {
                    inline_box_id: inline_box.id,
                    inline_box_index: index,
                    advance: state.line.x,
                },
            ),
        },
        InlineBoxKind::OutOfFlow => go_on(placeholder_step(layout, state, item)),
        InlineBoxKind::TextBoundary => go_on(
            BreakerState {
                pending_inline_start: InlineBoundaryAffinity::nothing(),
                ..placeholder_step(layout, state, item)
            },
        ),
        InlineBoxKind::StartBoundary => go_on(
            edge_step(layout, state.with_inline_start(), item, inline_box.width),
        ),
        InlineBoxKind::EndBoundary => end_boundary_step(
            layout,
            state,
            item,
            inline_box.width,
            max_advance,
        ),
        InlineBoxKind::InFlow => in_flow_step(layout, state, item, inline_box, max_advance),
    }
}

/// The state after a run has been consumed.
pub open spec fn after_run<T: Scalar>(state: BreakerState<T>) -> BreakerState<T> {
    BreakerState {
        run_idx: (state.run_idx + 1) as usize,
        item_idx: (state.item_idx + 1) as usize,
        ..state
    }
}

/// Looks at the items from `item` on, up to the end of a line or of the text.
pub open spec fn scan<T: Scalar>(
    layout: LayoutData<T>,
    state: BreakerState<T>,
    item: int,
    max_advance: T,
) -> Step<T>
    decreases layout.items@.len() - item,
{
    if item >= layout.items@.len() {
        go_on(state)
    } else if layout.spec_is_text(item) {
        let step = scan_run(
            layout,
            state,
            layout.items@[item].index as int,
            state.cluster_idx as int,
            max_advance,
        );
        if step.flow is Continue {
            scan(layout, after_run(step.state), item + 1, max_advance)
        } else {
            step
        }
    } else {
        let step = box_step(layout, state, item, max_advance);
        if step.flow is Continue {
            scan(layout, step.state, item + 1, max_advance)
        } else {
            step
        }
    }
}

} // verus!
