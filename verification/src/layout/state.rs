//! The state of the line breaker and its transitions.

use crate::inline_box::InlineBoundaryAffinity;
use crate::layout::data::LayoutData;
use crate::layout::shaped::{Atom, FontMetrics, Span};
use crate::scalar::Scalar;
use crate::style::TextWrapMode;
use vstd::prelude::*;

verus! {

/// The space that something takes over and under a baseline.
#[derive(Clone, Copy, Debug)]
pub struct Extents<T: Scalar> {
    pub over: T,
    pub under: T,
}

impl<T: Scalar> Extents<T> {
    pub open spec fn spec_zero() -> Self {
        Extents { over: T::spec_zero(), under: T::spec_zero() }
    }

    pub open spec fn grown(self, over: T, under: T) -> Self {
        Extents { over: self.over.spec_larger(over), under: self.under.spec_larger(under) }
    }

    pub fn zero() -> (r: Self)
        ensures
            r == Self::spec_zero(),
    {
        Extents { over: T::zero(), under: T::zero() }
    }

    /// Grows both extents to hold the given ones.
    pub fn grow(&mut self, over: T, under: T)
        ensures
            *final(self) == old(self).grown(over, under),
    {
        self.over = self.over.larger(over);
        self.under = self.under.larger(under);
    }
}

/// The extents of a line box from its baseline.
///
/// A line box is sized to fit the line's inline content, whose baselines are
/// aligned with its own.
#[derive(Clone, Copy, Debug)]
pub struct LineBoxMetrics<T: Scalar> {
    /// The extents with leading.
    pub line_box: Extents<T>,
    /// The extents of glyphs and boxes, without leading. With negative leading
    /// these can be larger than those of the line box.
    pub content_box: Extents<T>,
}

impl<T: Scalar> LineBoxMetrics<T> {
    pub open spec fn spec_zero() -> Self {
        LineBoxMetrics { line_box: Extents::spec_zero(), content_box: Extents::spec_zero() }
    }

    pub open spec fn spec_line_height(self) -> T {
        self.line_box.over.spec_plus(self.line_box.under)
    }

    /// The ascent and descent of text, rounded if metrics are quantized.
    pub open spec fn text_extents(metrics: FontMetrics<T>, quantize: bool) -> Extents<T> {
        if quantize {
            Extents { over: metrics.ascent.spec_round(), under: metrics.descent.spec_round() }
        } else {
            Extents { over: metrics.ascent, under: metrics.descent }
        }
    }

    /// Text with half of its leading over it. If metrics are quantized the
    /// leading over it is rounded down; the rest of the exact line height lies
    /// under the baseline.
    pub open spec fn text_line_extents(
        metrics: FontMetrics<T>,
        line_height: T,
        quantize: bool,
    ) -> Extents<T> {
        let content = Self::text_extents(metrics, quantize);
        let half_leading = line_height.spec_minus(
            content.over.spec_plus(content.under),
        ).spec_half();
        let over = content.over.spec_plus(
            if quantize {
                half_leading.spec_floor()
            } else {
                half_leading
            },
        );
        Extents { over, under: line_height.spec_minus(over) }
    }

    pub open spec fn with_text(
        self,
        metrics: FontMetrics<T>,
        line_height: T,
        quantize: bool,
    ) -> Self {
        let content = Self::text_extents(metrics, quantize);
        let line = Self::text_line_extents(metrics, line_height, quantize);
        LineBoxMetrics {
            line_box: self.line_box.grown(line.over, line.under),
            content_box: self.content_box.grown(content.over, content.under),
        }
    }

    pub open spec fn with_inline_box(self, ascent: T, descent: T, quantize: bool) -> Self {
        let (over, under) = if quantize {
            (ascent.spec_round(), descent.spec_round())
        } else {
            (ascent, descent)
        };
        LineBoxMetrics {
            line_box: self.line_box.grown(over, under),
            content_box: self.content_box.grown(over, under),
        }
    }

    pub fn zero() -> (r: Self)
        ensures
            r == Self::spec_zero(),
    {
        LineBoxMetrics { line_box: Extents::zero(), content_box: Extents::zero() }
    }

    /// The height of the line so far.
    pub fn line_height(self) -> (r: T)
        ensures
            r == self.spec_line_height(),
    {
        self.line_box.over.plus(self.line_box.under)
    }

    /// Makes room for text.
    pub fn add_text(&mut self, metrics: &FontMetrics<T>, line_height: T, quantize: bool)
        ensures
            *final(self) == old(self).with_text(*metrics, line_height, quantize),
    {
        let (ascent, descent) = if quantize {
            (metrics.ascent.round(), metrics.descent.round())
        } else {
            (metrics.ascent, metrics.descent)
        };
        let half_leading = line_height.minus(ascent.plus(descent)).half();
        let over = if quantize {
            ascent.plus(half_leading.floor())
        } else {
            ascent.plus(half_leading)
        };
        let under = line_height.minus(over);
        self.line_box.grow(over, under);
        self.content_box.grow(ascent, descent);
    }

    /// Makes room for an inline box.
    pub fn add_inline_box(&mut self, ascent: T, descent: T, quantize: bool)
        ensures
            *final(self) == old(self).with_inline_box(ascent, descent, quantize),
    {
        let (over, under) = if quantize {
            (ascent.round(), descent.round())
        } else {
            (ascent, descent)
        };
        self.line_box.grow(over, under);
        self.content_box.grow(over, under);
    }
}

/// The line that is being filled.
#[derive(Clone, Copy, Debug)]
pub struct LineState<T: Scalar> {
    /// The advance of the line so far.
    pub x: T,
    /// The layout's items on the line.
    pub items: Span,
    /// The clusters on the line.
    pub clusters: Span,
    pub box_metrics: LineBoxMetrics<T>,
    /// Something on the line is taller than the line may be.
    pub max_height_exceeded: bool,
    /// The line has consumed text or an atomic box. The item range does not
    /// tell: a run can continue on a line with no clusters left.
    pub has_content: bool,
    /// The wrap mode of the item before the next one. It lags by one atom, as
    /// a boundary is found at the atom after it.
    pub text_wrap_mode: TextWrapMode,
}

impl<T: Scalar> LineState<T> {
    pub open spec fn spec_new() -> Self {
        LineState {
            x: T::spec_zero(),
            items: Span { start: 0, end: 0 },
            clusters: Span { start: 0, end: 0 },
            box_metrics: LineBoxMetrics::spec_zero(),
            max_height_exceeded: false,
            has_content: false,
            text_wrap_mode: TextWrapMode::Wrap,
        }
    }

    pub open spec fn spec_reset(self) -> Self {
        LineState {
            x: T::spec_zero(),
            box_metrics: LineBoxMetrics::spec_zero(),
            has_content: false,
            ..self
        }
    }

    pub fn new() -> (r: Self)
        ensures
            r == Self::spec_new(),
    {
        LineState {
            x: T::zero(),
            items: Span { start: 0, end: 0 },
            clusters: Span { start: 0, end: 0 },
            box_metrics: LineBoxMetrics::zero(),
            max_height_exceeded: false,
            has_content: false,
            text_wrap_mode: TextWrapMode::Wrap,
        }
    }

    /// Prepares for filling a new line.
    pub fn reset(&mut self)
        ensures
            *final(self) == old(self).spec_reset(),
    {
        self.x = T::zero();
        self.box_metrics = LineBoxMetrics::zero();
        self.has_content = false;
    }

    /// The line's ranges fit the layout and the position up to which items and
    /// clusters have been consumed.
    pub open spec fn wf(self, layout: LayoutData<T>, item_idx: int, cluster_idx: int) -> bool {
        &&& 0 <= item_idx <= layout.items@.len()
        &&& layout.clusters_before(item_idx) <= cluster_idx <= layout.shaped_text.clusters@.len()
        &&& self.items.start <= self.items.end <= item_idx + 1
        &&& self.items.start <= layout.items@.len()
        &&& self.clusters.start <= self.clusters.end <= cluster_idx
        &&& layout.clusters_before(self.items.start as int) <= self.clusters.start
        &&& self.items.end > 0 ==> layout.clusters_before(self.items.end - 1) <= self.clusters.end
    }
}

/// A position at which the line can be broken, with the line up to it.
#[derive(Clone, Copy, Debug)]
pub struct PrevBoundaryState<T: Scalar> {
    pub item_idx: usize,
    pub run_idx: usize,
    pub cluster_idx: usize,
    /// The boundary follows a preserved space in `break-spaces`.
    pub after_break_spaces_space: bool,
    pub state: LineState<T>,
}

impl<T: Scalar> PrevBoundaryState<T> {
    /// The position is consistent, and lies past the start of its line if the
    /// line has content. Here `line_start` is the item at which the line
    /// started.
    pub open spec fn wf(self, layout: LayoutData<T>, line_start: nat) -> bool {
        &&& self.state.wf(layout, self.item_idx as int, self.cluster_idx as int)
        &&& line_start <= self.item_idx
        &&& self.state.has_content ==> line_start + self.state.clusters.start < self.item_idx
            + self.cluster_idx
    }

    pub fn has_content(&self) -> (r: bool)
        ensures
            r == self.state.has_content,
    {
        self.state.has_content
    }
}

/// The state of the line breaker.
///
/// Callers that drive the breaker themselves inspect it and adjust the line's
/// geometry between two lines. A copy of it is a checkpoint to revert to.
#[derive(Clone, Copy, Debug)]
pub struct BreakerState<T: Scalar> {
    /// The number of line items made so far.
    pub items: usize,
    /// The number of lines made so far.
    pub lines: usize,
    /// The next item.
    pub item_idx: usize,
    /// The next run.
    pub run_idx: usize,
    /// The next cluster, which starts an atom.
    pub cluster_idx: usize,
    /// The start of the current line.
    pub line_x: T,
    /// The top of the current line.
    pub line_y: T::Wide,
    /// The advance available to the layout.
    pub layout_max_advance: T,
    /// The advance available to the current line.
    pub line_max_advance: T,
    /// The height available to the current line.
    pub line_max_height: T,
    /// The line that is being filled.
    pub line: LineState<T>,
    /// The atom inspected last was a preserved space in `break-spaces`.
    pub prev_atom_was_break_spaces_space: bool,
    /// The last soft wrap opportunity on the line.
    pub prev_boundary: Option<PrevBoundaryState<T>>,
    /// The last opportunity on the line to break a word.
    pub emergency_boundary: Option<PrevBoundaryState<T>>,
    /// The state before opening edges that no content has followed yet. A
    /// break before that content moves the edges to the next line.
    pub pending_inline_start: InlineBoundaryAffinity<PrevBoundaryState<T>>,
    /// The wrap mode of the content consumed last; inline edges do not change
    /// it.
    pub last_content_text_wrap_mode: Option<TextWrapMode>,
    /// The content consumed last can be broken after. A closing edge moves
    /// that opportunity to its far side.
    pub propagating_break_after: bool,
}

impl<T: Scalar> BreakerState<T> {
    pub open spec fn spec_new() -> Self {
        BreakerState {
            items: 0,
            lines: 0,
            item_idx: 0,
            run_idx: 0,
            cluster_idx: 0,
            line_x: T::spec_zero(),
            line_y: T::spec_wide_zero(),
            layout_max_advance: T::spec_zero(),
            line_max_advance: T::spec_zero(),
            line_max_height: T::spec_largest(),
            line: LineState::spec_new(),
            prev_atom_was_break_spaces_space: false,
            prev_boundary: None,
            emergency_boundary: None,
            pending_inline_start: InlineBoundaryAffinity::nothing(),
            last_content_text_wrap_mode: None,
            propagating_break_after: false,
        }
    }

    /// The state is consistent with the layout, for a line that started at the
    /// item `line_start`.
    pub open spec fn wf(self, layout: LayoutData<T>, line_start: nat) -> bool {
        &&& self.positions_wf(layout, line_start)
        &&& self.pending_inline_start.depth() <= self.item_idx
    }

    /// The state's positions are consistent with the layout.
    pub open spec fn positions_wf(self, layout: LayoutData<T>, line_start: nat) -> bool {
        &&& self.spec_boundary_state().wf(layout, line_start)
        &&& self.line.clusters.end == self.cluster_idx
        &&& self.run_idx <= self.item_idx
        &&& self.saved_wf(layout, line_start, self.prev_boundary)
        &&& self.saved_wf(layout, line_start, self.emergency_boundary)
        &&& self.saved_wf(layout, line_start, self.pending_inline_start.before())
        &&& self.prev_boundary matches Some(boundary) ==> boundary.state.has_content
        &&& self.emergency_boundary matches Some(boundary) ==> boundary.state.has_content
        &&& self.propagating_break_after ==> self.line.has_content
    }

    pub open spec fn saved_wf(
        self,
        layout: LayoutData<T>,
        line_start: nat,
        saved: Option<PrevBoundaryState<T>>,
    ) -> bool {
        saved matches Some(boundary) ==> {
            &&& boundary.wf(layout, line_start)
            &&& boundary.cluster_idx <= self.cluster_idx
            &&& boundary.run_idx <= boundary.item_idx
            &&& boundary.state.clusters.start == self.line.clusters.start
        }
    }

    pub open spec fn spec_boundary_state(self) -> PrevBoundaryState<T> {
        PrevBoundaryState {
            item_idx: self.item_idx,
            run_idx: self.run_idx,
            cluster_idx: self.cluster_idx,
            after_break_spaces_space: false,
            state: self.line,
        }
    }

    pub open spec fn with_max_height_check(self) -> Self {
        BreakerState {
            line: LineState {
                max_height_exceeded: self.line_max_height.spec_lt(
                    self.line.box_metrics.spec_line_height(),
                ),
                ..self.line
            },
            ..self
        }
    }

    /// The state after an atom has been put on the line.
    pub open spec fn after_atom(
        self,
        atom: Atom<T>,
        next_x: T,
        metrics: FontMetrics<T>,
        line_height: T,
        quantize: bool,
    ) -> Self {
        BreakerState {
            cluster_idx: atom.clusters.end,
            line: LineState {
                items: Span { end: (self.item_idx + 1) as usize, ..self.line.items },
                clusters: Span { end: atom.clusters.end, ..self.line.clusters },
                x: next_x,
                box_metrics: self.line.box_metrics.with_text(metrics, line_height, quantize),
                ..self.line
            },
            ..self
        }.with_max_height_check()
    }

    /// The state after an inline box has been put on the line.
    pub open spec fn after_inline_box(
        self,
        next_x: T,
        ascent: T,
        descent: T,
        quantize: bool,
    ) -> Self {
        BreakerState {
            item_idx: (self.item_idx + 1) as usize,
            line: LineState {
                items: Span { end: (self.line.items.end + 1) as usize, ..self.line.items },
                x: next_x,
                box_metrics: self.line.box_metrics.with_inline_box(ascent, descent, quantize),
                ..self.line
            },
            ..self
        }.with_max_height_check()
    }

    /// The state with a break opportunity at the current position.
    pub open spec fn with_opportunity(self, after_break_spaces_space: bool) -> Self {
        BreakerState {
            prev_boundary: Some(
                PrevBoundaryState { after_break_spaces_space, ..self.spec_boundary_state() },
            ),
            propagating_break_after: true,
            ..self
        }
    }

    /// The position of a break before the content that comes next. Opening
    /// edges move with that content. White space consumed after such an edge
    /// may hang or be removed, so the text resumes after it while the edge is
    /// replayed.
    pub open spec fn content_boundary(self) -> PrevBoundaryState<T> {
        match self.pending_inline_start.before() {
            Some(boundary) => PrevBoundaryState { cluster_idx: self.cluster_idx, ..boundary },
            None => self.spec_boundary_state(),
        }
    }

    /// The state with a break opportunity before the content that comes next,
    /// if the line has content before it.
    pub open spec fn with_opportunity_before_content(self, after_break_spaces_space: bool) -> Self {
        let boundary = PrevBoundaryState { after_break_spaces_space, ..self.content_boundary() };
        BreakerState {
            prev_boundary: if boundary.state.has_content {
                Some(boundary)
            } else {
                self.prev_boundary
            },
            pending_inline_start: InlineBoundaryAffinity::nothing(),
            propagating_break_after: false,
            ..self
        }
    }

    /// The state with an emergency opportunity before the content that comes
    /// next, if the line has content before it.
    pub open spec fn with_emergency_before_content(self) -> Self {
        let boundary = self.content_boundary();
        BreakerState {
            emergency_boundary: if boundary.state.has_content {
                Some(boundary)
            } else {
                self.emergency_boundary
            },
            pending_inline_start: InlineBoundaryAffinity::nothing(),
            propagating_break_after: false,
            ..self
        }
    }

    /// The state when an inline edge opens.
    pub open spec fn with_inline_start(self) -> Self {
        BreakerState {
            pending_inline_start: self.pending_inline_start.opened(self.spec_boundary_state()),
            propagating_break_after: false,
            ..self
        }
    }

    /// The state when content follows the open edges.
    pub open spec fn with_content(self, text_wrap_mode: TextWrapMode) -> Self {
        BreakerState {
            pending_inline_start: InlineBoundaryAffinity::nothing(),
            ..self.with_hanging_whitespace(text_wrap_mode)
        }
    }

    /// The state when white space follows that may hang or be removed: open
    /// edges stay with the content after it.
    pub open spec fn with_hanging_whitespace(self, text_wrap_mode: TextWrapMode) -> Self {
        BreakerState {
            last_content_text_wrap_mode: Some(text_wrap_mode),
            propagating_break_after: false,
            line: LineState { has_content: true, ..self.line },
            ..self
        }
    }

    /// The state after an inline edge has closed: an opportunity after the
    /// content before it moves to its far side. Edges that are still open
    /// around it stay with the content that follows.
    pub open spec fn with_inline_end(self) -> Self {
        BreakerState {
            pending_inline_start: self.pending_inline_start.after_close(),
            prev_boundary: if self.propagating_break_after {
                Some(
                    PrevBoundaryState {
                        after_break_spaces_space: self.prev_boundary matches Some(boundary)
                            && boundary.after_break_spaces_space,
                        ..self.spec_boundary_state()
                    },
                )
            } else {
                self.prev_boundary
            },
            ..self
        }
    }

    /// The state at an earlier boundary.
    pub open spec fn at_boundary(self, boundary: PrevBoundaryState<T>) -> Self {
        BreakerState {
            item_idx: boundary.item_idx,
            run_idx: boundary.run_idx,
            cluster_idx: boundary.cluster_idx,
            prev_atom_was_break_spaces_space: boundary.after_break_spaces_space,
            line: boundary.state,
            ..self
        }
    }

    pub fn new() -> (r: Self)
        ensures
            r == Self::spec_new(),
    {
        BreakerState {
            items: 0,
            lines: 0,
            item_idx: 0,
            run_idx: 0,
            cluster_idx: 0,
            line_x: T::zero(),
            line_y: T::wide_zero(),
            layout_max_advance: T::zero(),
            line_max_advance: T::zero(),
            line_max_height: T::largest(),
            line: LineState::new(),
            prev_atom_was_break_spaces_space: false,
            prev_boundary: None,
            emergency_boundary: None,
            pending_inline_start: InlineBoundaryAffinity { opening: None },
            last_content_text_wrap_mode: None,
            propagating_break_after: false,
        }
    }

    /// Puts an atom on the line.
    pub fn append_atom_to_line(
        &mut self,
        atom: &Atom<T>,
        next_x: T,
        metrics: &FontMetrics<T>,
        line_height: T,
        quantize: bool,
    )
        requires
            old(self).item_idx < usize::MAX,
        ensures
            *final(self) == old(self).after_atom(*atom, next_x, *metrics, line_height, quantize),
    {
        self.line.items.end = self.item_idx + 1;
        self.line.clusters.end = atom.clusters.end;
        self.cluster_idx = atom.clusters.end;
        self.line.x = next_x;
        self.line.box_metrics.add_text(metrics, line_height, quantize);
        self.update_max_height_exceeded();
    }

    /// Puts an inline box on the line. The box extends `ascent` over and
    /// `descent` under the baseline, and the line grows as far as it extends
    /// beyond the text.
    pub fn append_inline_box_to_line(&mut self, next_x: T, ascent: T, descent: T, quantize: bool)
        requires
            old(self).item_idx < usize::MAX,
            old(self).line.items.end < usize::MAX,
        ensures
            *final(self) == old(self).after_inline_box(next_x, ascent, descent, quantize),
    {
        self.item_idx = self.item_idx + 1;
        self.line.items.end = self.line.items.end + 1;
        self.line.x = next_x;
        self.line.box_metrics.add_inline_box(ascent, descent, quantize);
        self.update_max_height_exceeded();
    }

    fn update_max_height_exceeded(&mut self)
        ensures
            *final(self) == old(self).with_max_height_check(),
    {
        self.line.max_height_exceeded = self.line_max_height.lt(
            self.line.box_metrics.line_height(),
        );
    }

    pub fn boundary_state(&self) -> (r: PrevBoundaryState<T>)
        ensures
            r == self.spec_boundary_state(),
    {
        PrevBoundaryState {
            item_idx: self.item_idx,
            run_idx: self.run_idx,
            cluster_idx: self.cluster_idx,
            after_break_spaces_space: false,
            state: self.line,
        }
    }

    /// Keeps the current position as a break opportunity.
    pub fn mark_line_break_opportunity(&mut self, after_break_spaces_space: bool)
        ensures
            *final(self) == old(self).with_opportunity(after_break_spaces_space),
    {
        let mut boundary = self.boundary_state();
        boundary.after_break_spaces_space = after_break_spaces_space;
        self.prev_boundary = Some(boundary);
        self.propagating_break_after = true;
    }

    /// Takes the position of a break before the content that comes next.
    pub fn break_before_content(&mut self) -> (r: PrevBoundaryState<T>)
        ensures
            r == old(self).content_boundary(),
            *final(self) == (BreakerState {
                pending_inline_start: InlineBoundaryAffinity::nothing(),
                ..*old(self)
            }),
    {
        let pending = self.pending_inline_start.opening;
        self.pending_inline_start.consume_content();
        match pending {
            Some((mut boundary, _)) => {
                boundary.cluster_idx = self.cluster_idx;
                boundary
            },
            None => self.boundary_state(),
        }
    }

    pub fn mark_line_break_opportunity_before_content(&mut self, after_break_spaces_space: bool)
        ensures
            *final(self) == old(self).with_opportunity_before_content(after_break_spaces_space),
    {
        let mut boundary = self.break_before_content();
        boundary.after_break_spaces_space = after_break_spaces_space;
        if boundary.has_content() {
            self.prev_boundary = Some(boundary);
        }
        self.propagating_break_after = false;
    }

    pub fn mark_emergency_break_opportunity_before_content(&mut self)
        ensures
            *final(self) == old(self).with_emergency_before_content(),
    {
        let boundary = self.break_before_content();
        if boundary.has_content() {
            self.emergency_boundary = Some(boundary);
        }
        self.propagating_break_after = false;
    }

    pub fn begin_inline_start(&mut self)
        requires
            old(self).pending_inline_start.depth() < usize::MAX,
        ensures
            *final(self) == old(self).with_inline_start(),
    {
        let boundary = self.boundary_state();
        self.pending_inline_start.open(boundary);
        self.propagating_break_after = false;
    }

    pub fn finish_content(&mut self, text_wrap_mode: TextWrapMode)
        ensures
            *final(self) == old(self).with_content(text_wrap_mode),
    {
        self.pending_inline_start.consume_content();
        self.finish_hanging_whitespace(text_wrap_mode);
    }

    pub fn finish_hanging_whitespace(&mut self, text_wrap_mode: TextWrapMode)
        ensures
            *final(self) == old(self).with_hanging_whitespace(text_wrap_mode),
    {
        self.last_content_text_wrap_mode = Some(text_wrap_mode);
        self.propagating_break_after = false;
        self.line.has_content = true;
    }

    pub fn propagate_break_after_inline_end(&mut self)
        ensures
            *final(self) == old(self).with_inline_end(),
    {
        self.pending_inline_start.close();
        if self.propagating_break_after {
            let mut boundary = self.boundary_state();
            boundary.after_break_spaces_space = match self.prev_boundary {
                Some(previous) => previous.after_break_spaces_space,
                None => false,
            };
            self.prev_boundary = Some(boundary);
        }
    }

    /// Goes back to a boundary.
    pub fn reset_to(&mut self, boundary: PrevBoundaryState<T>)
        ensures
            *final(self) == old(self).at_boundary(boundary),
    {
        self.item_idx = boundary.item_idx;
        self.run_idx = boundary.run_idx;
        self.cluster_idx = boundary.cluster_idx;
        self.prev_atom_was_break_spaces_space = boundary.after_break_spaces_space;
        self.line = boundary.state;
    }

    /// The advance available to the layout.
    pub fn layout_max_advance(&self) -> (r: T)
        ensures
            r == self.layout_max_advance,
    {
        self.layout_max_advance
    }

    pub fn set_layout_max_advance(&mut self, advance: T)
        ensures
            *final(self) == (BreakerState { layout_max_advance: advance, ..*old(self) }),
    {
        self.layout_max_advance = advance;
    }

    /// The advance available to the current line.
    pub fn line_max_advance(&self) -> (r: T)
        ensures
            r == self.line_max_advance,
    {
        self.line_max_advance
    }

    pub fn set_line_max_advance(&mut self, advance: T)
        ensures
            *final(self) == (BreakerState { line_max_advance: advance, ..*old(self) }),
    {
        self.line_max_advance = advance;
    }

    /// The height available to the current line.
    pub fn line_max_height(&self) -> (r: T)
        ensures
            r == self.line_max_height,
    {
        self.line_max_height
    }

    pub fn set_line_max_height(&mut self, height: T)
        ensures
            *final(self) == (BreakerState { line_max_height: height, ..*old(self) }),
    {
        self.line_max_height = height;
    }

    /// The start of the current line.
    pub fn line_x(&self) -> (r: T)
        ensures
            r == self.line_x,
    {
        self.line_x
    }

    pub fn set_line_x(&mut self, x: T)
        ensures
            *final(self) == (BreakerState { line_x: x, ..*old(self) }),
    {
        self.line_x = x;
    }

    /// The top of the current line.
    pub fn line_y(&self) -> (r: T::Wide)
        ensures
            r == self.line_y,
    {
        self.line_y
    }

    pub fn set_line_y(&mut self, y: T::Wide)
        ensures
            *final(self) == (BreakerState { line_y: y, ..*old(self) }),
    {
        self.line_y = y;
    }
}

} // verus!
