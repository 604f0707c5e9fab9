//! The scan for the end of the next line, step by step.

use crate::inline_box::{InlineBoundaryAffinity, InlineBox, InlineBoxKind};
use crate::layout::data::{BreakReason, LayoutData, LayoutItemKind};
use crate::layout::scan;
use crate::layout::scan::{AtomInfo, BoxBreakData, Flow, MaxHeightBreakData, Step};
use crate::layout::shaped::{Atom, Boundary, Character, Whitespace};
use crate::layout::state::BreakerState;
use crate::scalar::Scalar;
use crate::style::{
    EndOfLineWhitespace, OverflowWrap, Style, TextWrapMode, WhiteSpaceCollapse, WordBreak,
};
use vstd::prelude::*;

verus! {

impl<T: Scalar> BreakerState<T> {
    /// The state stands at a break: the line up to it can be committed, and
    /// the position lies past the start of the line.
    pub open spec fn at_break(self, layout: LayoutData<T>, line_start: nat) -> bool {
        &&& self.spec_boundary_state().wf(layout, line_start)
        &&& self.run_idx <= self.item_idx
        &&& line_start + self.line.clusters.start < self.item_idx + self.cluster_idx
    }

    /// The states agree in what a scan does not touch: the counts of lines and
    /// items, the line's geometry and where its text starts.
    pub open spec fn same_line(self, other: Self) -> bool {
        &&& self.items == other.items
        &&& self.lines == other.lines
        &&& self.line_x == other.line_x
        &&& self.line_y == other.line_y
        &&& self.layout_max_advance == other.layout_max_advance
        &&& self.line_max_advance == other.line_max_advance
        &&& self.line_max_height == other.line_max_height
        &&& self.line.clusters.start == other.line.clusters.start
    }

    /// The item that the state stands at is the run `run`.
    pub open spec fn in_run(self, layout: LayoutData<T>, run: int) -> bool {
        &&& self.item_idx < layout.items@.len()
        &&& layout.spec_is_text(self.item_idx as int)
        &&& layout.items@[self.item_idx as int].index == run
    }

    /// The item that the state stands at is an inline box.
    pub open spec fn at_box(self, layout: LayoutData<T>) -> bool {
        &&& self.item_idx < layout.items@.len()
        &&& !layout.spec_is_text(self.item_idx as int)
    }
}

/// What a step keeps of a consistent state.
pub open spec fn step_wf<T: Scalar>(step: Step<T>, layout: LayoutData<T>, line_start: nat) -> bool {
    match step.flow {
        Flow::Break(_) => step.state.at_break(layout, line_start),
        _ => step.state.wf(layout, line_start),
    }
}

pub proof fn lemma_append_atom_wf<T: Scalar>(
    layout: LayoutData<T>,
    state: BreakerState<T>,
    info: AtomInfo<T>,
    next_x: T,
    line_start: nat,
)
    requires
        layout.wf(),
        state.saved_wf(layout, line_start, state.prev_boundary),
        state.saved_wf(layout, line_start, state.emergency_boundary),
        state.saved_wf(layout, line_start, state.pending_inline_start.before()),
        state.pending_inline_start.depth() <= state.item_idx,
        state.prev_boundary matches Some(boundary) ==> boundary.state.has_content,
        state.emergency_boundary matches Some(boundary) ==> boundary.state.has_content,
        state.line.wf(layout, state.item_idx as int, state.cluster_idx as int),
        state.line.has_content,
        state.run_idx <= state.item_idx,
        line_start <= state.item_idx,
        state.in_run(layout, info.run),
        state.cluster_idx < layout.shaped_text.runs@[info.run].clusters.end,
        info == scan::atom_info(layout, info.run, state.cluster_idx as int),
    ensures
        scan::append_atom(layout, state, info, next_x).wf(layout, line_start),
        scan::append_atom(layout, state, info, next_x).in_run(layout, info.run),
        scan::append_atom(layout, state, info, next_x).cluster_idx == info.atom.clusters.end,
        scan::append_atom(layout, state, info, next_x).line.has_content,
        scan::append_atom(layout, state, info, next_x).at_break(layout, line_start),
{
    assert(layout.item_wf(state.item_idx as int));
    layout.shaped_text.lemma_atom_end(
        state.cluster_idx as int,
        layout.shaped_text.runs@[info.run].clusters.end as int,
    );
}

pub proof fn lemma_content_boundary_wf<T: Scalar>(
    layout: LayoutData<T>,
    state: BreakerState<T>,
    line_start: nat,
)
    requires
        state.wf(layout, line_start),
    ensures
        state.content_boundary().wf(layout, line_start),
        state.content_boundary().cluster_idx == state.cluster_idx,
        state.content_boundary().run_idx <= state.content_boundary().item_idx,
        state.content_boundary().state.clusters.start == state.line.clusters.start,
{
}

pub proof fn lemma_text_step_wf<T: Scalar>(
    layout: LayoutData<T>,
    before: BreakerState<T>,
    info: AtomInfo<T>,
    max_advance: T,
    line_start: nat,
)
    requires
        layout.wf(),
        before.wf(layout, line_start),
        before.in_run(layout, info.run),
        before.cluster_idx < layout.shaped_text.runs@[info.run].clusters.end,
        info == scan::atom_info(layout, info.run, before.cluster_idx as int),
    ensures
        ({
            let step = scan::text_step(layout, before, info, max_advance);
            &&& step_wf(step, layout, line_start)
            &&& step.state.same_line(before)
            &&& !(step.flow is InlineBoxBreak)
            &&& step.flow is Continue ==> step.state.item_idx == before.item_idx && step.state.cluster_idx == info.atom.clusters.end
        }),
{
    let wraps = before.line.text_wrap_mode == TextWrapMode::Wrap;
    let mode = info.style.text_wrap_mode;
    let entered = scan::entering_atom(before, info);
    assert(entered.wf(layout, line_start));
    if info.is_newline() && !(info.first.boundary == Boundary::Line && wraps) {
        lemma_append_atom_wf(layout, entered.with_content(mode), info, entered.line.x, line_start);
    } else {
        lemma_content_boundary_wf(layout, entered, line_start);
        let state = scan::with_opportunity_before_atom(before, info);
        assert(state.wf(layout, line_start));
        let next_x = state.line.x.spec_plus(info.atom.advance);
        lemma_append_atom_wf(layout, state.with_content(mode), info, next_x, line_start);
        lemma_append_atom_wf(
            layout,
            state.with_hanging_whitespace(mode),
            info,
            next_x,
            line_start,
        );
    }
}

pub proof fn lemma_after_inline_box_wf<T: Scalar>(
    layout: LayoutData<T>,
    state: BreakerState<T>,
    next_x: T,
    ascent: T,
    descent: T,
    line_start: nat,
)
    requires
        layout.wf(),
        state.positions_wf(layout, line_start),
        state.pending_inline_start.depth() <= state.item_idx + 1,
        state.at_box(layout),
    ensures
        state.after_inline_box(next_x, ascent, descent, layout.quantize).wf(layout, line_start),
        state.item_idx + 1 <= layout.items@.len() < usize::MAX,
        line_start + state.line.clusters.start < state.item_idx + 1 + state.cluster_idx,
{
    layout.lemma_clusters_before_monotone(state.line.items.end as int, state.item_idx + 1);
}

/// What a step over the box at the state's position keeps.
pub open spec fn box_step_wf<T: Scalar>(
    step: Step<T>,
    layout: LayoutData<T>,
    before: BreakerState<T>,
    line_start: nat,
) -> bool {
    &&& step_wf(step, layout, line_start)
    &&& step.state.same_line(before)
    &&& step.flow is Continue ==> step.state.item_idx == before.item_idx + 1
}

proof fn lemma_in_flow_step_wf<T: Scalar>(
    layout: LayoutData<T>,
    before: BreakerState<T>,
    inline_box: InlineBox<T>,
    max_advance: T,
    line_start: nat,
)
    requires
        layout.wf(),
        before.wf(layout, line_start),
        before.at_box(layout),
    ensures
        box_step_wf(
            scan::in_flow_step(layout, before, before.item_idx as int, inline_box, max_advance),
            layout,
            before,
            line_start,
        ),
{
    let state = if scan::can_break_before_box(before) {
        BreakerState { pending_inline_start: InlineBoundaryAffinity::nothing(), ..before }
    } else {
        before
    };
    lemma_content_boundary_wf(layout, before, line_start);
    assert(state.wf(layout, line_start));
    lemma_after_inline_box_wf(
        layout,
        state,
        state.line.x.spec_plus(inline_box.width),
        inline_box.spec_ascent(),
        inline_box.height.spec_minus(inline_box.spec_ascent()),
        line_start,
    );
}

proof fn lemma_edge_step_wf<T: Scalar>(
    layout: LayoutData<T>,
    before: BreakerState<T>,
    width: T,
    max_advance: T,
    line_start: nat,
)
    requires
        layout.wf(),
        before.wf(layout, line_start),
        before.at_box(layout),
    ensures
        box_step_wf(
            scan::end_boundary_step(layout, before, before.item_idx as int, width, max_advance),
            layout,
            before,
            line_start,
        ),
        box_step_wf(
            scan::go_on(
                scan::edge_step(layout, before.with_inline_start(), before.item_idx as int, width),
            ),
            layout,
            before,
            line_start,
        ),
{
    let zero = T::spec_zero();
    let next_x = before.line.x.spec_plus(width);
    lemma_after_inline_box_wf(layout, before, next_x, zero, zero, line_start);
    lemma_after_inline_box_wf(
        layout,
        before.with_inline_start(),
        next_x,
        zero,
        zero,
        line_start,
    );
}

pub proof fn lemma_box_step_wf<T: Scalar>(
    layout: LayoutData<T>,
    before: BreakerState<T>,
    max_advance: T,
    line_start: nat,
)
    requires
        layout.wf(),
        before.wf(layout, line_start),
        before.at_box(layout),
    ensures
        box_step_wf(
            scan::box_step(layout, before, before.item_idx as int, max_advance),
            layout,
            before,
            line_start,
        ),
{
    let item = before.item_idx as int;
    let inline_box = layout.inline_boxes@[layout.items@[item].index as int];
    let zero = T::spec_zero();
    match inline_box.kind {
        InlineBoxKind::InFlow => {
            lemma_in_flow_step_wf(layout, before, inline_box, max_advance, line_start);
        },
        InlineBoxKind::StartBoundary | InlineBoxKind::EndBoundary => {
            lemma_edge_step_wf(layout, before, inline_box.width, max_advance, line_start);
        },
        _ => {
            lemma_after_inline_box_wf(layout, before, before.line.x, zero, zero, line_start);
        },
    }
}

impl<T: Scalar> BreakerState<T> {
    fn max_height_break(&self, line_height: T) -> (r: Flow<T>)
        ensures
            (Step { state: *self, flow: r }) == scan::too_high(*self, line_height),
    {
        Flow::MaxHeightExceeded(MaxHeightBreakData { advance: self.line.x, line_height })
    }

    fn put_atom(
        &mut self,
        layout: &LayoutData<T>,
        run: usize,
        atom: &Atom<T>,
        next_x: T,
        Ghost(info): Ghost<AtomInfo<T>>,
    )
        requires
            info.atom == *atom,
            info.run == run,
            run < layout.shaped_text.runs@.len(),
            layout.runs@.len() == layout.shaped_text.runs@.len(),
            old(self).item_idx < usize::MAX,
        ensures
            *final(self) == scan::append_atom(*layout, *old(self), info, next_x),
    {
        self.append_atom_to_line(
            atom,
            next_x,
            &layout.shaped_text.runs[run].font_metrics,
            layout.runs[run].line_height,
            layout.quantize,
        );
    }

    fn is_cr_before_lf(
        &self,
        layout: &LayoutData<T>,
        run: usize,
        atom: &Atom<T>,
        Ghost(info): Ghost<AtomInfo<T>>,
    ) -> (r: bool)
        requires
            info.atom == *atom,
            info.run == run,
            layout.wf(),
            run < layout.shaped_text.runs@.len(),
            self.item_idx < layout.items@.len(),
            atom.chars.start < atom.chars.end <= layout.shaped_text.characters@.len(),
        ensures
            r == scan::is_cr_before_lf(*layout, *self, info),
    {
        let end = atom.chars.end;
        let adjacent = atom.clusters.end < layout.shaped_text.runs[run].clusters.end || (
        self.item_idx + 1 < layout.items.len() && layout.items[self.item_idx + 1].kind
            == LayoutItemKind::TextRun);
        layout.shaped_text.characters[end - 1].source_char == '\r' && adjacent && end
            < layout.shaped_text.characters.len() && layout.shaped_text.characters[end].whitespace
            == Whitespace::Newline && layout.shaped_text.characters[end].source_char == '\n'
    }

    fn step_newline(
        &mut self,
        layout: &LayoutData<T>,
        run: usize,
        atom: &Atom<T>,
        style: &Style<T>,
        Ghost(info): Ghost<AtomInfo<T>>,
    ) -> (r: Flow<T>)
        requires
            info.atom == *atom,
            info.run == run,
            info.style == *style,
            layout.wf(),
            run < layout.shaped_text.runs@.len(),
            old(self).item_idx < layout.items@.len(),
            atom.chars.start < atom.chars.end <= layout.shaped_text.characters@.len(),
        ensures
            (Step { state: *final(self), flow: r }) == scan::newline_step(
                *layout,
                *old(self),
                info,
            ),
    {
        if self.line.max_height_exceeded {
            return self.max_height_break(layout.runs[run].line_height);
        }
        let continues = self.is_cr_before_lf(layout, run, atom, Ghost(info));
        self.finish_content(style.text_wrap_mode);
        let x = self.line.x;
        self.put_atom(layout, run, atom, x, Ghost(info));
        if continues {
            Flow::Continue
        } else {
            Flow::Break(BreakReason::Explicit)
        }
    }

    fn step_overflowing(
        &mut self,
        layout: &LayoutData<T>,
        run: usize,
        atom: &Atom<T>,
        first: &Character,
        style: &Style<T>,
        next_x: T,
        wraps: bool,
        Ghost(info): Ghost<AtomInfo<T>>,
    ) -> (r: Flow<T>)
        requires
            info.atom == *atom,
            info.run == run,
            info.first == *first,
            info.style == *style,
            layout.wf(),
            run < layout.shaped_text.runs@.len(),
            old(self).item_idx < layout.items@.len(),
        ensures
            (Step { state: *final(self), flow: r }) == scan::overflowing_step(
                *layout,
                *old(self),
                info,
                next_x,
                wraps,
            ),
    {
        let is_space = first.is_line_end_space();
        let hangs = is_space && style.end_of_line() != EndOfLineWhitespace::TakesUpSpace;
        let is_break_spaces_space = is_space && style.white_space_collapse
            == WhiteSpaceCollapse::BreakSpaces;
        let line_height = layout.runs[run].line_height;
        if hangs && wraps {
            if self.line.max_height_exceeded {
                return self.max_height_break(line_height);
            }
            self.finish_hanging_whitespace(style.text_wrap_mode);
            self.put_atom(layout, run, atom, next_x, Ghost(info));
            return Flow::Continue;
        }
        let only_after_space = is_break_spaces_space && wraps;
        if let Some(boundary) = self.prev_boundary {
            if !only_after_space || boundary.after_break_spaces_space {
                self.prev_boundary = None;
                self.reset_to(boundary);
                return Flow::Break(BreakReason::Regular);
            }
        }
        if let Some(boundary) = self.emergency_boundary {
            self.emergency_boundary = None;
            self.reset_to(boundary);
            return Flow::Break(BreakReason::Emergency);
        }
        if self.line.max_height_exceeded {
            return self.max_height_break(line_height);
        }
        self.finish_content(style.text_wrap_mode);
        self.put_atom(layout, run, atom, next_x, Ghost(info));
        if only_after_space {
            self.mark_line_break_opportunity(true);
        }
        Flow::Continue
    }

    /// Records that the atom is looked at.
    fn enter_atom(
        &mut self,
        first: &Character,
        style: &Style<T>,
        Ghost(info): Ghost<AtomInfo<T>>,
    )
        requires
            info.first == *first,
            info.style == *style,
        ensures
            *final(self) == scan::entering_atom(*old(self), info),
    {
        self.prev_atom_was_break_spaces_space = style.white_space_collapse
            == WhiteSpaceCollapse::BreakSpaces && first.is_line_end_space();
        self.line.text_wrap_mode = style.text_wrap_mode;
    }

    /// Marks the opportunity before an atom, if there is one.
    fn mark_before_atom(
        &mut self,
        first: &Character,
        style: &Style<T>,
        Ghost(info): Ghost<AtomInfo<T>>,
    )
        requires
            info.first == *first,
            info.style == *style,
        ensures
            *final(self) == scan::with_opportunity_before_atom(*old(self), info),
    {
        let prev_was_break_spaces_space = self.prev_atom_was_break_spaces_space;
        let wraps = self.line.text_wrap_mode == TextWrapMode::Wrap;
        self.enter_atom(first, style, Ghost(info));
        if !wraps || self.line.x.same(T::zero()) {
            return;
        }
        if first.boundary == Boundary::Line {
            self.mark_line_break_opportunity_before_content(
                prev_was_break_spaces_space || style.word_break == WordBreak::BreakAll,
            );
        } else if style.overflow_wrap != OverflowWrap::Normal {
            self.mark_emergency_break_opportunity_before_content();
        }
    }

    fn step_fitting(
        &mut self,
        layout: &LayoutData<T>,
        run: usize,
        atom: &Atom<T>,
        first: &Character,
        style: &Style<T>,
        next_x: T,
        Ghost(info): Ghost<AtomInfo<T>>,
    ) -> (r: Flow<T>)
        requires
            info.atom == *atom,
            info.run == run,
            info.first == *first,
            info.style == *style,
            layout.wf(),
            run < layout.shaped_text.runs@.len(),
            old(self).item_idx < layout.items@.len(),
        ensures
            (Step { state: *final(self), flow: r }) == scan::fitting_step(
                *layout,
                *old(self),
                info,
                next_x,
            ),
    {
        let is_space = first.is_line_end_space();
        if self.line.max_height_exceeded {
            return self.max_height_break(layout.runs[run].line_height);
        }
        if is_space && style.end_of_line() != EndOfLineWhitespace::TakesUpSpace {
            self.finish_hanging_whitespace(style.text_wrap_mode);
        } else {
            self.finish_content(style.text_wrap_mode);
        }
        self.put_atom(layout, run, atom, next_x, Ghost(info));
        if is_space && style.white_space_collapse == WhiteSpaceCollapse::BreakSpaces
            && style.text_wrap_mode == TextWrapMode::Wrap {
            self.mark_line_break_opportunity(true);
        }
        Flow::Continue
    }

    /// Looks at one atom of text.
    fn step_text(
        &mut self,
        layout: &LayoutData<T>,
        run: usize,
        atom: &Atom<T>,
        max_advance: T,
        Ghost(info): Ghost<AtomInfo<T>>,
    ) -> (r: Flow<T>)
        requires
            info.atom == *atom,
            info.run == run,
            info.first == layout.shaped_text.characters@[atom.chars.start as int],
            info.style == layout.spec_style_of(info.first),
            layout.wf(),
            run < layout.shaped_text.runs@.len(),
            old(self).item_idx < layout.items@.len(),
            atom.chars.start < atom.chars.end <= layout.shaped_text.characters@.len(),
        ensures
            (Step { state: *final(self), flow: r }) == scan::text_step(
                *layout,
                *old(self),
                info,
                max_advance,
            ),
    {
        let first = layout.shaped_text.characters[atom.chars.start];
        let style = layout.style_of(&first);
        let wraps = self.line.text_wrap_mode == TextWrapMode::Wrap;
        if first.whitespace == Whitespace::Newline && !(first.boundary == Boundary::Line && wraps) {
            self.enter_atom(&first, &style, Ghost(info));
            return self.step_newline(layout, run, atom, &style, Ghost(info));
        }
        self.mark_before_atom(&first, &style, Ghost(info));
        let next_x = self.line.x.plus(atom.advance);
        if next_x.le(max_advance) {
            self.step_fitting(layout, run, atom, &first, &style, next_x, Ghost(info))
        } else {
            self.step_overflowing(layout, run, atom, &first, &style, next_x, wraps, Ghost(info))
        }
    }

    pub(crate) fn apply_style_after(&mut self, layout: &LayoutData<T>, item: usize)
        requires
            layout.wf(),
            item < layout.items@.len(),
        ensures
            *final(self) == scan::with_style_after(*layout, *old(self), item as int),
    {
        proof {
            assert(layout.item_wf(item as int));
        }
        if let Some(style) = layout.items[item].style_after {
            self.line.text_wrap_mode = layout.styles[style as usize].text_wrap_mode;
        }
    }

    fn step_in_flow(
        &mut self,
        layout: &LayoutData<T>,
        inline_box: &InlineBox<T>,
        max_advance: T,
    ) -> (r: Flow<T>)
        requires
            layout.wf(),
            old(self).item_idx < layout.items@.len(),
            old(self).line.items.end < usize::MAX,
        ensures
            (Step { state: *final(self), flow: r }) == scan::in_flow_step(
                *layout,
                *old(self),
                old(self).item_idx as int,
                *inline_box,
                max_advance,
            ),
    {
        let item = self.item_idx;
        let text_wrap_mode = self.line.text_wrap_mode;
        let can_break_before = text_wrap_mode == TextWrapMode::Wrap || match
        self.last_content_text_wrap_mode {
            Some(mode) => mode == TextWrapMode::Wrap,
            None => false,
        };
        let next_x = self.line.x.plus(inline_box.width);
        if can_break_before {
            let boundary = self.break_before_content();
            if max_advance.lt(next_x) && boundary.has_content() {
                self.reset_to(boundary);
                return Flow::Break(BreakReason::Regular);
            }
        }
        if self.line_max_height.lt(inline_box.height) {
            return self.max_height_break(inline_box.height);
        }
        let ascent = inline_box.ascent();
        self.append_inline_box_to_line(
            next_x,
            ascent,
            inline_box.height.minus(ascent),
            layout.quantize,
        );
        self.apply_style_after(layout, item);
        self.finish_content(text_wrap_mode);
        self.prev_atom_was_break_spaces_space = false;
        if text_wrap_mode == TextWrapMode::Wrap {
            self.mark_line_break_opportunity(false);
        }
        Flow::Continue
    }

    /// Looks at the inline box that comes next.
    fn step_box(&mut self, layout: &LayoutData<T>, max_advance: T) -> (r: Flow<T>)
        requires
            layout.wf(),
            old(self).at_box(*layout),
            old(self).line.items.end < usize::MAX,
            old(self).pending_inline_start.depth() < usize::MAX,
        ensures
            (Step { state: *final(self), flow: r }) == scan::box_step(
                *layout,
                *old(self),
                old(self).item_idx as int,
                max_advance,
            ),
    {
        let item = self.item_idx;
        proof {
            assert(layout.item_wf(item as int));
        }
        let index = layout.items[item].index;
        let inline_box = layout.inline_boxes[index];
        let zero = T::zero();
        match inline_box.kind {
            InlineBoxKind::CustomOutOfFlow => {
                return Flow::InlineBoxBreak(
                    BoxBreakData {
                        inline_box_id: inline_box.id,
                        inline_box_index: index,
                        advance: self.line.x,
                    },
                );
            },
            InlineBoxKind::OutOfFlow => {
                let x = self.line.x;
                self.append_inline_box_to_line(x, zero, zero, layout.quantize);
                self.apply_style_after(layout, item);
            },
            InlineBoxKind::TextBoundary => {
                let x = self.line.x;
                self.append_inline_box_to_line(x, zero, zero, layout.quantize);
                self.apply_style_after(layout, item);
                self.pending_inline_start.consume_content();
            },
            InlineBoxKind::StartBoundary => {
                self.begin_inline_start();
                let next_x = self.line.x.plus(inline_box.width);
                self.append_inline_box_to_line(next_x, zero, zero, layout.quantize);
                self.apply_style_after(layout, item);
            },
            InlineBoxKind::EndBoundary => {
                let next_x = self.line.x.plus(inline_box.width);
                if max_advance.lt(next_x) && !self.propagating_break_after {
                    if let Some(boundary) = self.prev_boundary {
                        self.prev_boundary = None;
                        self.reset_to(boundary);
                        return Flow::Break(BreakReason::Regular);
                    }
                }
                self.append_inline_box_to_line(next_x, zero, zero, layout.quantize);
                self.apply_style_after(layout, item);
                self.propagate_break_after_inline_end();
            },
            InlineBoxKind::InFlow => {
                return self.step_in_flow(layout, &inline_box, max_advance);
            },
        }
        Flow::Continue
    }

    /// Looks at the atoms of the run that comes next.
    fn scan_run(
        &mut self,
        layout: &LayoutData<T>,
        run: usize,
        max_advance: T,
        Ghost(line_start): Ghost<nat>,
    ) -> (r: Flow<T>)
        requires
            layout.wf(),
            old(self).wf(*layout, line_start),
            old(self).in_run(*layout, run as int),
        ensures
            (Step { state: *final(self), flow: r }) == scan::scan_run(
                *layout,
                *old(self),
                run as int,
                old(self).cluster_idx as int,
                max_advance,
            ),
            step_wf((Step { state: *final(self), flow: r }), *layout, line_start),
            final(self).same_line(*old(self)),
            r is Continue ==> final(self).item_idx == old(self).item_idx && final(self).cluster_idx
                >= layout.shaped_text.runs@[run as int].clusters.end,
            !(r is InlineBoxBreak),
    {
        proof {
            assert(layout.item_wf(self.item_idx as int));
        }
        let bound = layout.shaped_text.runs[run].clusters.end;
        let ghost target = scan::scan_run(
            *layout,
            *self,
            run as int,
            self.cluster_idx as int,
            max_advance,
        );
        while self.cluster_idx < bound
            invariant
                layout.wf(),
                run < layout.shaped_text.runs@.len(),
                bound == layout.shaped_text.runs@[run as int].clusters.end,
                self.wf(*layout, line_start),
                self.in_run(*layout, run as int),
                self.item_idx == old(self).item_idx,
                self.same_line(*old(self)),
                target == scan::scan_run(
                    *layout,
                    *old(self),
                    run as int,
                    old(self).cluster_idx as int,
                    max_advance,
                ),
                target == scan::scan_run(
                    *layout,
                    *self,
                    run as int,
                    self.cluster_idx as int,
                    max_advance,
                ),
            decreases bound - self.cluster_idx,
        {
            let atom = layout.shaped_text.atom(self.cluster_idx, bound);
            let ghost info = scan::atom_info(*layout, run as int, self.cluster_idx as int);
            proof {
                lemma_text_step_wf(*layout, *self, info, max_advance, line_start);
                layout.shaped_text.lemma_atom_end(self.cluster_idx as int, bound as int);
                assert(info.atom == atom);
            }
            let flow = self.step_text(layout, run, &atom, max_advance, Ghost(info));
            match flow {
                Flow::Continue => {},
                _ => {
                    return flow;
                },
            }
        }
        Flow::Continue
    }

    /// Looks at the items that come next, up to the end of a line or of the
    /// text.
    pub fn scan(
        &mut self,
        layout: &LayoutData<T>,
        max_advance: T,
        Ghost(line_start): Ghost<nat>,
    ) -> (r: Flow<T>)
        requires
            layout.wf(),
            old(self).wf(*layout, line_start),
        ensures
            (Step { state: *final(self), flow: r }) == scan::scan(
                *layout,
                *old(self),
                old(self).item_idx as int,
                max_advance,
            ),
            step_wf((Step { state: *final(self), flow: r }), *layout, line_start),
            final(self).same_line(*old(self)),
            r is Continue ==> final(self).item_idx == layout.items@.len(),
            r is InlineBoxBreak ==> final(self).at_box(*layout),
            r is InlineBoxBreak ==> old(self).item_idx <= final(self).item_idx,
    {
        let ghost target = scan::scan(*layout, *self, self.item_idx as int, max_advance);
        while self.item_idx < layout.items.len()
            invariant
                layout.wf(),
                self.wf(*layout, line_start),
                self.same_line(*old(self)),
                old(self).item_idx <= self.item_idx,
                target == scan::scan(*layout, *old(self), old(self).item_idx as int, max_advance),
                target == scan::scan(*layout, *self, self.item_idx as int, max_advance),
            decreases layout.items@.len() - self.item_idx,
        {
            proof {
                assert(layout.item_wf(self.item_idx as int));
            }
            match layout.items[self.item_idx].kind {
                LayoutItemKind::InlineBox => {
                    proof {
                        lemma_box_step_wf(*layout, *self, max_advance, line_start);
                    }
                    let flow = self.step_box(layout, max_advance);
                    match flow {
                        Flow::Continue => {},
                        _ => {
                            return flow;
                        },
                    }
                },
                LayoutItemKind::TextRun => {
                    let run = layout.items[self.item_idx].index;
                    let flow = self.scan_run(layout, run, max_advance, Ghost(line_start));
                    match flow {
                        Flow::Continue => {},
                        _ => {
                            return flow;
                        },
                    }
                    self.run_idx = self.run_idx + 1;
                    self.item_idx = self.item_idx + 1;
                },
            }
        }
        Flow::Continue
    }
}

} // verus!
