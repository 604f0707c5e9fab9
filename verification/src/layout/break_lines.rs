//! Greedy line breaking of a paragraph.

use crate::inline_box::InlineBoundaryAffinity;
use crate::layout::char_scan::Count;
use crate::layout::commit;
use crate::layout::data::{
    BreakReason, Layout, LayoutData, LineData, LineItemData, LineMetrics,
};
use crate::layout::finish_line;
use crate::layout::scan;
use crate::layout::scan::{BoxBreakData, Flow, MaxHeightBreakData};
use crate::layout::scanner;
use crate::layout::shaped::Span;
use crate::layout::state::{BreakerState, LineState};
use crate::scalar::Scalar;
use vstd::prelude::*;

verus! {

/// A line that was broken.
#[derive(Clone, Copy)]
pub struct LineBreakData<T: Scalar> {
    /// Why the line ends.
    pub reason: BreakReason,
    /// The advance of the line.
    pub advance: T,
    /// The height of the line.
    pub line_height: T,
    /// The top of the line.
    pub line_y_start: T::Wide,
    /// The bottom of the line.
    pub line_y_end: T::Wide,
}

/// Why the line breaker yields to its caller.
#[derive(Clone, Copy)]
pub enum YieldData<T: Scalar> {
    /// A line was broken.
    LineBreak(LineBreakData<T>),
    /// Content is too high for the line. The caller finds a place for the line
    /// with more height, adjusts its geometry and resumes. By default no
    /// maximum height is set.
    MaxHeightExceeded(MaxHeightBreakData<T>),
    /// A box of the kind that the caller places was met. The caller places it,
    /// adjusts the line's geometry and resumes.
    InlineBoxBreak(BoxBreakData<T>),
}

/// Line breaking of a paragraph. The layout is handed in at the start and back
/// at the end.
pub struct BreakLines<T: Scalar> {
    pub layout: LayoutData<T>,
    pub lines: Vec<LineData<T>>,
    pub line_items: Vec<LineItemData<T>>,
    pub state: BreakerState<T>,
    pub prev_state: Option<BreakerState<T>>,
    pub done: bool,
    /// Whether the layout is justified; line breaking hands it on.
    pub is_aligned_justified: bool,
}

/// What line breaking has led to so far.
pub struct Progress<T: Scalar> {
    pub lines: Seq<LineData<T>>,
    pub items: Seq<LineItemData<T>>,
    pub state: BreakerState<T>,
    pub prev_state: Option<BreakerState<T>>,
    pub done: bool,
}

/// The state after a line has been committed, before it is finished.
pub open spec fn after_line<T: Scalar>(
    layout: LayoutData<T>,
    state: BreakerState<T>,
    items: Seq<LineItemData<T>>,
) -> BreakerState<T> {
    let commit = commit::commit_of_line(layout, state.line, items);
    BreakerState {
        line: LineState {
            clusters: Span { start: state.cluster_idx, end: state.cluster_idx },
            ..commit::after_commit(layout, state.line, commit)
        },
        prev_boundary: None,
        emergency_boundary: None,
        pending_inline_start: InlineBoundaryAffinity::nothing(),
        last_content_text_wrap_mode: None,
        propagating_break_after: false,
        prev_atom_was_break_spaces_space: false,
        ..state
    }
}

impl<T: Scalar> Progress<T> {
    /// The line up to the state's position, as it is committed.
    pub open spec fn new_line(
        self,
        layout: LayoutData<T>,
        reason: BreakReason,
        max_advance: T,
        indent: T,
    ) -> LineData<T> {
        let commit = commit::commit_of_line(layout, self.state.line, self.items);
        commit::committed_line(
            self.state.line,
            Span { start: self.items.len() as usize, end: commit.items.len() as usize },
            max_advance,
            reason,
            indent,
        )
    }

    /// The line up to the state's position, finished, and all line items.
    pub open spec fn finished_line(
        self,
        layout: LayoutData<T>,
        reason: BreakReason,
        max_advance: T,
        indent: T,
    ) -> finish_line::Finished<T> {
        finish_line::finished_last_line(
            layout,
            after_line(layout, self.state, self.items),
            self.lines.push(self.new_line(layout, reason, max_advance, indent)),
            commit::commit_of_line(layout, self.state.line, self.items).items,
            self.state.line.box_metrics.spec_line_height(),
        )
    }

    /// Breaks the line at the state's position.
    pub open spec fn with_line(
        self,
        layout: LayoutData<T>,
        reason: BreakReason,
        max_advance: T,
        indent: T,
    ) -> Self {
        let finished = self.finished_line(layout, reason, max_advance, indent);
        let state = after_line(layout, self.state, self.items);
        Progress {
            lines: self.lines.push(finished.line),
            items: finished.items,
            state: BreakerState {
                items: finished.items.len() as usize,
                lines: (self.lines.len() + 1) as usize,
                line: state.line.spec_reset(),
                line_y: T::spec_wide_plus(
                    state.line_y,
                    self.state.line.box_metrics.spec_line_height().spec_widen(),
                ),
                ..state
            },
            ..self
        }
    }

    /// The lines and items of `earlier` are still there, unchanged.
    pub open spec fn extends(self, earlier: Self) -> bool {
        &&& earlier.lines.len() <= self.lines.len()
        &&& earlier.items.len() <= self.items.len()
        &&& forall|i: int|
            0 <= i < earlier.lines.len() ==> #[trigger] self.lines[i] == earlier.lines[i]
        &&& forall|i: int|
            0 <= i < earlier.items.len() ==> #[trigger] self.items[i] == earlier.items[i]
    }

    /// The data of the last line, which started at `line_y_start`.
    pub open spec fn last_line_data(
        self,
        reason: BreakReason,
        line_y_start: T::Wide,
    ) -> LineBreakData<T> {
        LineBreakData {
            reason,
            advance: self.lines.last().metrics.advance,
            line_height: self.lines.last().metrics.line_height,
            line_y_start,
            line_y_end: self.state.line_y,
        }
    }

    /// The text indent of the next line. It applies to the first line, with
    /// `each_line` also to lines after a forced break, and with `hanging` to
    /// the other lines instead.
    pub open spec fn indent(self, layout: LayoutData<T>) -> T {
        let starts = self.lines.len() == 0 || (layout.indent_options.each_line
            && self.lines.last().break_reason == BreakReason::Explicit);
        if starts != layout.indent_options.hanging {
            layout.indent_amount
        } else {
            T::spec_zero()
        }
    }

    /// The advance available to the next line. An empty layout is not limited.
    pub open spec fn available(self, layout: LayoutData<T>) -> T {
        let max_advance = if layout.text_len == 0 && layout.inline_boxes@.len() == 0 {
            T::spec_largest()
        } else {
            self.state.line_max_advance
        };
        max_advance.spec_minus(self.indent(layout))
    }

    /// The state at the end of the text, where the line has at least one item.
    pub open spec fn at_end(self, state: BreakerState<T>) -> Self {
        let end: usize = if state.line.items.end == 0 {
            1
        } else {
            state.line.items.end
        };
        Progress {
            state: BreakerState {
                line: LineState { items: Span { end, ..state.line.items }, ..state.line },
                ..state
            },
            done: true,
            ..self
        }
    }

    /// Breaks the next line, or yields.
    pub open spec fn next(self, layout: LayoutData<T>) -> (Self, Option<YieldData<T>>) {
        let indent = self.indent(layout);
        let available = self.available(layout);
        let step = scan::scan(layout, self.state, self.state.item_idx as int, available);
        let scanned = Progress {
            prev_state: Some(self.state),
            state: step.state,
            ..self
        };
        if self.done {
            (self, None)
        } else {
            match step.flow {
                Flow::Continue => {
                    let next = scanned.at_end(step.state).with_line(
                        layout,
                        BreakReason::NoBreak,
                        available,
                        indent,
                    );
                    let data = next.last_line_data(BreakReason::NoBreak, self.state.line_y);
                    (next, Some(YieldData::LineBreak(data)))
                },
                Flow::Break(reason) => {
                    let next = scanned.with_line(layout, reason, available, indent);
                    let data = next.last_line_data(reason, self.state.line_y);
                    (next, Some(YieldData::LineBreak(data)))
                },
                Flow::MaxHeightExceeded(data) => (
                    scanned,
                    Some(YieldData::MaxHeightExceeded(data)),
                ),
                Flow::InlineBoxBreak(data) => (scanned, Some(YieldData::InlineBoxBreak(data))),
            }
        }
    }
}

impl<T: Scalar> BreakerState<T> {
    /// The lines are broken for the same advances and height.
    pub open spec fn same_limits(self, other: Self) -> bool {
        &&& self.layout_max_advance == other.layout_max_advance
        &&& self.line_max_advance == other.line_max_advance
        &&& self.line_max_height == other.line_max_height
    }
}

impl<T: Scalar> BreakLines<T> {
    pub open spec fn view(&self) -> Progress<T> {
        Progress {
            lines: self.lines@,
            items: self.line_items@,
            state: self.state,
            prev_state: self.prev_state,
            done: self.done,
        }
    }

    /// The breakers are at work on one layout.
    pub open spec fn same_layout(&self, other: Self) -> bool {
        &&& self.layout == other.layout
        &&& self.is_aligned_justified == other.is_aligned_justified
    }

    /// The breaker is consistent, with a line that started at the item
    /// `line_start`.
    pub open spec fn wf_from(&self, line_start: nat) -> bool {
        &&& self.layout.wf()
        &&& self.state.wf(self.layout, line_start)
        &&& commit::items_wf(self.layout, self.line_items@, 0, 0)
        &&& self.state.lines == self.lines@.len()
        &&& self.state.items == self.line_items@.len()
    }

    /// The breaker is consistent.
    pub open spec fn wf(&self) -> bool {
        exists|line_start: nat| self.wf_from(line_start)
    }

    /// The line is no wider than the layout, up to less than one unit, unless
    /// the layout is not limited.
    pub open spec fn limits_wf(&self) -> bool {
        self.state.layout_max_advance.spec_same(T::spec_unbounded())
            || self.state.line_max_advance.spec_minus(self.state.layout_max_advance).spec_lt(
            T::spec_one(),
        )
    }

    /// Commits and finishes the line up to the state's position.
    fn start_new_line(
        &mut self,
        reason: BreakReason,
        max_advance: T,
        line_indent: T,
        Ghost(line_start): Ghost<nat>,
    ) -> (r: LineBreakData<T>)
        requires
            old(self).layout.wf(),
            commit::items_wf(old(self).layout, old(self).line_items@, 0, 0),
            old(self).state.spec_boundary_state().wf(old(self).layout, line_start),
            old(self).state.run_idx <= old(self).state.item_idx,
        ensures
            final(self).same_layout(*old(self)),
            final(self).view() == old(self).view().with_line(
                old(self).layout,
                reason,
                max_advance,
                line_indent,
            ),
            r == final(self).view().last_line_data(reason, old(self).state.line_y),
            final(self).wf_from(final(self).state.item_idx as nat),
            final(self).state.item_idx == old(self).state.item_idx,
            final(self).state.cluster_idx == old(self).state.cluster_idx,
            final(self).lines@.len() == old(self).lines@.len() + 1,
            final(self).view().extends(old(self).view()),
    {
        let ghost before = self.view();
        proof {
            commit::lemma_after_commit_wf(
                self.layout,
                self.state.line,
                self.line_items@,
                self.state.item_idx as int,
                self.state.cluster_idx as int,
            );
        }
        let ghost item_idx = self.state.item_idx as int;
        let ghost cluster_idx = self.state.cluster_idx as int;
        commit::commit_line(
            &self.layout,
            &mut self.lines,
            &mut self.line_items,
            &mut self.state.line,
            max_advance,
            reason,
            line_indent,
            Ghost(item_idx),
            Ghost(cluster_idx),
        );
        let line_height = self.state.line.box_metrics.line_height();
        let line_y_start = self.state.line_y;
        self.state.line.clusters = Span {
            start: self.state.cluster_idx,
            end: self.state.cluster_idx,
        };
        self.state.prev_boundary = None;
        self.state.emergency_boundary = None;
        self.state.pending_inline_start.consume_content();
        self.state.last_content_text_wrap_mode = None;
        self.state.propagating_break_after = false;
        self.state.prev_atom_was_break_spaces_space = false;

        finish_line::finish_line(
            &self.layout,
            &mut self.lines,
            &mut self.line_items,
            &self.state,
            line_height,
        );
        self.state.items = self.line_items.len();
        self.state.lines = self.lines.len();
        self.state.line.reset();
        self.state.line_y = T::wide_plus(self.state.line_y, line_height.widen());
        proof {
            assert(self.view().lines =~= before.with_line(
                self.layout,
                reason,
                max_advance,
                line_indent,
            ).lines);
        }
        let line = self.lines[self.lines.len() - 1];
        LineBreakData {
            reason,
            advance: line.metrics.advance,
            line_height: line.size(),
            line_y_start,
            line_y_end: self.state.line_y,
        }
    }
}

impl<T: Scalar> Layout<T> {
    /// Starts to break the layout into lines. Earlier lines are dropped.
    pub fn break_lines(self) -> (r: BreakLines<T>)
        requires
            self.data.wf(),
        ensures
            r.wf(),
            r.layout == self.data,
            r.is_aligned_justified == self.is_aligned_justified,
            r.view() == Progress::start(self.data),
    {
        BreakLines::new(self)
    }
}

impl<T: Scalar> Progress<T> {
    /// Nothing is broken yet.
    pub open spec fn start(layout: LayoutData<T>) -> Self {
        let state = BreakerState::spec_new();
        Progress {
            lines: Seq::empty(),
            items: Seq::empty(),
            state: if layout.items@.len() == 0 {
                state
            } else {
                let root = layout.styles@[layout.root_style_index as int];
                BreakerState {
                    line: LineState { text_wrap_mode: root.text_wrap_mode, ..state.line },
                    ..state
                }
            },
            prev_state: None,
            done: false,
        }
    }
}

impl<T: Scalar> BreakLines<T> {
    /// Starts to break a layout into lines. Earlier lines are dropped.
    pub fn new(layout: Layout<T>) -> (r: Self)
        requires
            layout.data.wf(),
        ensures
            r.wf(),
            r.wf_from(0),
            r.layout == layout.data,
            r.is_aligned_justified == layout.is_aligned_justified,
            r.view() == Progress::start(layout.data),
    {
        let Layout { data, is_aligned_justified, .. } = layout;
        let mut state = BreakerState::new();
        if data.items.len() > 0 {
            state.line.text_wrap_mode =
            data.styles[data.root_style_index as usize].text_wrap_mode;
        }
        let r = BreakLines {
            layout: data,
            lines: Vec::new(),
            line_items: Vec::new(),
            state,
            prev_state: None,
            done: false,
            is_aligned_justified,
        };
        proof {
            assert(r.view().lines =~= Progress::start(data).lines);
            assert(r.view().items =~= Progress::start(data).items);
            assert(r.wf_from(0));
        }
        r
    }

    /// The state of the breaker.
    pub fn state(&self) -> (r: &BreakerState<T>)
        ensures
            *r == self.state,
    {
        &self.state
    }

    /// The state of the breaker, for changing it.
    pub fn state_mut(&mut self) -> (r: &mut BreakerState<T>)
        ensures
            *r == old(self).state,
            *final(self) == (BreakLines { state: *final(r), ..*old(self) }),
    {
        &mut self.state
    }

    /// Sets the width that the last line is aligned in. It changes the end
    /// coordinate that the line reports.
    pub fn set_prior_line_width(&mut self, advance: T)
        ensures
            final(self).same_layout(*old(self)),
            ({
                let before = old(self).view();
                let count = before.lines.len() as int;
                let last = before.lines.last();
                let metrics = LineMetrics {
                    inline_max_coord: last.metrics.inline_min_coord.spec_plus(advance),
                    ..last.metrics
                };
                final(self).view() == if count == 0 {
                    before
                } else {
                    Progress {
                        lines: before.lines.update(count - 1, LineData { metrics, ..last }),
                        ..before
                    }
                }
            }),
    {
        let count = self.lines.len();
        if count > 0 {
            let mut line = self.lines[count - 1];
            line.metrics.inline_max_coord = line.metrics.inline_min_coord.plus(advance);
            self.lines[count - 1] = line;
        }
    }

    /// The state is a checkpoint of this breaker: it is consistent, and what it
    /// counts has been made.
    pub open spec fn is_checkpoint(&self, state: BreakerState<T>) -> bool {
        &&& exists|line_start: nat| state.wf(self.layout, line_start)
        &&& state.lines <= self.lines@.len()
        &&& state.items <= self.line_items@.len()
    }

    /// Goes back to a checkpoint.
    pub fn revert_to(&mut self, state: BreakerState<T>)
        ensures
            final(self).same_layout(*old(self)),
            final(self).view() == old(self).view().reverted(state),
            old(self).wf() && old(self).is_checkpoint(state) ==> final(self).wf(),
    {
        self.state = state;
        if state.lines <= self.lines.len() {
            self.lines.truncate(state.lines);
        }
        if state.items <= self.line_items.len() {
            self.line_items.truncate(state.items);
        }
        self.done = false;
        proof {
            if old(self).wf() && old(self).is_checkpoint(state) {
                let line_start = choose|line_start: nat| state.wf(self.layout, line_start);
                assert(self.wf_from(line_start));
            }
        }
    }

    /// Goes back to before the last line or yield. Returns whether there was
    /// one to go back from.
    pub fn revert(&mut self) -> (r: bool)
        ensures
            final(self).same_layout(*old(self)),
            r == (old(self).prev_state is Some),
            match old(self).prev_state {
                Some(state) => final(self).view() == (Progress {
                    prev_state: None,
                    ..old(self).view().reverted(state)
                }),
                None => final(self).view() == old(self).view(),
            },
            old(self).wf() && (old(self).prev_state matches Some(state) ==> old(
                self,
            ).is_checkpoint(state)) ==> final(self).wf(),
    {
        match self.prev_state {
            Some(state) => {
                self.prev_state = None;
                proof {
                    if old(self).wf() {
                        let line_start = choose|line_start: nat| old(self).wf_from(line_start);
                        assert(self.wf_from(line_start));
                    }
                }
                self.revert_to(state);
                true
            },
            None => false,
        }
    }

    /// The top of the current line.
    pub fn committed_y(&self) -> (r: T::Wide)
        ensures
            r == self.state.line_y,
    {
        self.state.line_y
    }

    /// Whether all of the paragraph has been put on lines.
    pub fn is_done(&self) -> (r: bool)
        ensures
            r == self.done,
    {
        self.done
    }

    fn resolve_indent(&self) -> (r: T)
        ensures
            r == self.view().indent(self.layout),
    {
        let count = self.lines.len();
        let starts = count == 0 || (self.layout.indent_options.each_line && self.lines[count
            - 1].break_reason == BreakReason::Explicit);
        if starts != self.layout.indent_options.hanging {
            self.layout.indent_amount
        } else {
            T::zero()
        }
    }

    /// Ends the paragraph: the rest of it is on the last line.
    fn finish_paragraph(
        &mut self,
        max_advance: T,
        line_indent: T,
        Ghost(line_start): Ghost<nat>,
    ) -> (r: LineBreakData<T>)
        requires
            old(self).wf_from(line_start),
        ensures
            final(self).same_layout(*old(self)),
            final(self).view() == old(self).view().at_end(old(self).state).with_line(
                old(self).layout,
                BreakReason::NoBreak,
                max_advance,
                line_indent,
            ),
            r == final(self).view().last_line_data(BreakReason::NoBreak, old(self).state.line_y),
            final(self).wf_from(final(self).state.item_idx as nat),
            final(self).view().extends(old(self).view()),
    {
        if self.state.line.items.end == 0 {
            self.state.line.items.end = 1;
        }
        self.done = true;
        self.start_new_line(BreakReason::NoBreak, max_advance, line_indent, Ghost(line_start))
    }

    /// Breaks the next line, or yields, and says where the next line starts.
    fn break_next_from(&mut self, Ghost(line_start): Ghost<nat>) -> (r: Option<YieldData<T>>)
        requires
            old(self).wf_from(line_start),
        ensures
            final(self).same_layout(*old(self)),
            final(self).state.same_limits(old(self).state),
            (final(self).view(), r) == old(self).view().next(old(self).layout),
            final(self).view().extends(old(self).view()),
            match r {
                None => old(self).done,
                Some(YieldData::LineBreak(_)) => {
                    &&& final(self).wf_from(final(self).state.item_idx as nat)
                    &&& final(self).done || line_start + old(self).state.line.clusters.start
                        < final(self).state.item_idx + final(self).state.line.clusters.start
                },
                Some(YieldData::MaxHeightExceeded(_)) => {
                    &&& final(self).wf_from(line_start)
                    &&& final(self).state.same_line(old(self).state)
                },
                Some(YieldData::InlineBoxBreak(_)) => {
                    &&& final(self).wf_from(line_start)
                    &&& final(self).state.at_box(final(self).layout)
                    &&& old(self).state.item_idx <= final(self).state.item_idx
                    &&& final(self).done == old(self).done
                    &&& final(self).state.line.clusters.start == old(self).state.line.clusters.start
                },
            },
    {
        if self.done {
            return None;
        }
        let line_indent = self.resolve_indent();
        let max_advance = if self.layout.text_len == 0 && self.layout.inline_boxes.len() == 0 {
            T::largest()
        } else {
            self.state.line_max_advance
        };
        let max_advance = max_advance.minus(line_indent);
        self.prev_state = Some(self.state);
        let flow = self.state.scan(&self.layout, max_advance, Ghost(line_start));
        match flow {
            Flow::Continue => {
                let data = self.finish_paragraph(max_advance, line_indent, Ghost(line_start));
                Some(YieldData::LineBreak(data))
            },
            Flow::Break(reason) => {
                let data = self.start_new_line(
                    reason,
                    max_advance,
                    line_indent,
                    Ghost(line_start),
                );
                Some(YieldData::LineBreak(data))
            },
            Flow::MaxHeightExceeded(data) => Some(YieldData::MaxHeightExceeded(data)),
            Flow::InlineBoxBreak(data) => Some(YieldData::InlineBoxBreak(data)),
        }
    }

    /// Breaks the next line of the paragraph, or yields. Returns nothing once
    /// the paragraph is done.
    pub fn break_next(&mut self) -> (r: Option<YieldData<T>>)
        requires
            old(self).wf(),
            old(self).limits_wf(),
        ensures
            final(self).wf(),
            final(self).same_layout(*old(self)),
            (final(self).view(), r) == old(self).view().next(old(self).layout),
            final(self).view().extends(old(self).view()),
            r is None <==> old(self).done,
            // Reverting undoes the call.
            final(self).is_checkpoint(old(self).state),
            r is Some ==> final(self).view().prev_state == Some(old(self).state),
            r is Some ==> final(self).view().reverted(old(self).state) == (Progress {
                prev_state: final(self).prev_state,
                ..old(self).view()
            }),
            // A line that starts afresh consumes something of the paragraph, or
            // ends it.
            r matches Some(YieldData::LineBreak(_)) && old(self).wf_from(
                old(self).state.item_idx as nat,
            ) ==> final(self).done || old(self).state.item_idx
                + old(self).state.line.clusters.start < final(self).state.item_idx
                + final(self).state.line.clusters.start,
            r matches Some(YieldData::LineBreak(_)) ==> final(self).wf_from(
                final(self).state.item_idx as nat,
            ),
            r matches Some(YieldData::InlineBoxBreak(_)) ==> final(self).state.at_box(
                final(self).layout,
            ),
            // The limits stay as they are.
            final(self).state.same_limits(old(self).state),
            final(self).limits_wf(),
    {
        let ghost line_start = if self.wf_from(self.state.item_idx as nat) {
            self.state.item_idx as nat
        } else {
            choose|line_start: nat| self.wf_from(line_start)
        };
        let r = self.break_next_from(Ghost(line_start));
        proof {
            assert(self.wf_from(line_start) || self.wf_from(self.state.item_idx as nat));
            assert(old(self).state.wf(self.layout, line_start));
            if r is Some {
                let reverted = self.view().reverted(old(self).state);
                assert(reverted.lines =~= old(self).lines@);
                assert(reverted.items =~= old(self).line_items@);
            }
        }
        r
    }
}

impl<T: Scalar> Progress<T> {
    /// Goes back to a checkpoint.
    pub open spec fn reverted(self, state: BreakerState<T>) -> Self {
        Progress {
            state,
            lines: if state.lines <= self.lines.len() {
                self.lines.take(state.lines as int)
            } else {
                self.lines
            },
            items: if state.items <= self.items.len() {
                self.items.take(state.items as int)
            } else {
                self.items
            },
            done: false,
            ..self
        }
    }
}

/// Going back to the state before a line undoes the line.
proof fn lemma_reverting_restores<T: Scalar>(before: Progress<T>, after: Progress<T>)
    requires
        after.extends(before),
        before.state.lines == before.lines.len(),
        before.state.items == before.items.len(),
        !before.done,
    ensures
        after.reverted(before.state) == (Progress { prev_state: after.prev_state, ..before }),
{
    let reverted = after.reverted(before.state);
    assert(reverted.lines =~= before.lines);
    assert(reverted.items =~= before.items);
}

// ---------------------------------------------------------------------------
// Breaking by characters, breaking all lines, and closing.

/// The extent of a line in the layout.
pub open spec fn line_extent<T: Scalar>(line: LineData<T>) -> T {
    line.metrics.inline_min_coord.spec_plus(line.metrics.advance).spec_plus(
        line.indent.spec_larger(T::spec_zero()),
    )
}

/// The largest extent of the first `count` lines.
pub open spec fn full_width_of<T: Scalar>(lines: Seq<LineData<T>>, count: int) -> T
    decreases count,
{
    if count <= 0 {
        T::spec_zero()
    } else {
        full_width_of(lines, count - 1).spec_larger(line_extent(lines[count - 1]))
    }
}

/// The largest extent of the first `count` lines without trailing white space.
pub open spec fn width_of<T: Scalar>(lines: Seq<LineData<T>>, count: int) -> T
    decreases count,
{
    if count <= 0 {
        T::spec_zero()
    } else {
        let line = lines[count - 1];
        width_of(lines, count - 1).spec_larger(
            line_extent(line).spec_minus(line.metrics.trailing_whitespace),
        )
    }
}

/// The height of the first `count` lines.
pub open spec fn height_of<T: Scalar>(lines: Seq<LineData<T>>, count: int) -> T::Wide
    decreases count,
{
    if count <= 0 {
        T::spec_wide_zero()
    } else {
        T::spec_wide_plus(
            height_of(lines, count - 1),
            lines[count - 1].metrics.line_height.spec_widen(),
        )
    }
}

/// The height of all lines. An empty last line does not count.
pub open spec fn total_height<T: Scalar>(lines: Seq<LineData<T>>) -> T {
    let height = height_of(lines, lines.len() as int);
    T::spec_narrow(
        if lines.len() > 0 && lines.last().item_range.spec_is_empty() {
            T::spec_wide_minus(height, lines.last().metrics.line_height.spec_widen())
        } else {
            height
        },
    )
}

/// A line as the layout holds it. In a layout without a limit, a line without
/// a limit ends at the layout's width.
pub open spec fn final_line<T: Scalar>(
    line: LineData<T>,
    layout_max_advance: T,
    width: T,
) -> LineData<T> {
    if T::spec_largest().spec_le(layout_max_advance) && T::spec_largest().spec_le(
        line.metrics.inline_max_coord,
    ) {
        LineData { metrics: LineMetrics { inline_max_coord: width, ..line.metrics }, ..line }
    } else {
        line
    }
}

/// The lines as the layout holds them.
pub open spec fn final_lines<T: Scalar>(
    lines: Seq<LineData<T>>,
    layout_max_advance: T,
) -> Seq<LineData<T>> {
    let width = width_of(lines, lines.len() as int);
    Seq::new(lines.len(), |i: int| final_line(lines[i], layout_max_advance, width))
}

impl<T: Scalar> Progress<T> {
    /// Breaks the next line after a number of characters.
    pub open spec fn next_with_length(self, layout: LayoutData<T>, max_chars: u32) -> Self {
        let limit = if max_chars == 0 {
            1
        } else {
            max_chars
        };
        let indent = self.indent(layout);
        let filled = Count {
            state: self.state,
            chars: 0,
            reason: BreakReason::Regular,
            full: false,
        }.with_items(layout, self.state.item_idx as int, limit);
        if self.done {
            self
        } else if filled.full {
            Progress {
                state: filled.state,
                prev_state: Some(self.state),
                ..self
            }.with_line(
                layout,
                filled.reason,
                T::spec_largest(),
                indent,
            )
        } else {
            Progress { prev_state: Some(self.state), ..self }.at_end(filled.state).with_line(
                layout,
                BreakReason::NoBreak,
                T::spec_largest(),
                indent,
            )
        }
    }

    /// The breaker with both limits set.
    pub open spec fn with_limit(self, max_advance: T) -> Self {
        Progress {
            state: BreakerState {
                layout_max_advance: max_advance,
                line_max_advance: max_advance,
                ..self.state
            },
            ..self
        }
    }

    /// The next line is broken or yielded for. A box that the caller would
    /// place is put on the line with no size.
    #[verifier::opaque]
    pub open spec fn advanced(self, layout: LayoutData<T>) -> Self {
        let (next, yielded) = self.next(layout);
        let zero = T::spec_zero();
        match yielded {
            Some(YieldData::InlineBoxBreak(_)) => Progress {
                state: next.state.after_inline_box(
                    next.state.line.x,
                    zero,
                    zero,
                    layout.quantize,
                ),
                ..next
            },
            _ => next,
        }
    }

    /// The breaker after a number of steps, or after as many as can be taken.
    pub open spec fn after_steps(self, layout: LayoutData<T>, steps: nat) -> Self
        decreases steps,
    {
        if steps == 0 {
            self
        } else {
            let before = self.after_steps(layout, (steps - 1) as nat);
            if before.is_stuck(layout) {
                before
            } else {
                before.advanced(layout)
            }
        }
    }

    /// No further line can be broken: the paragraph is done, or its next line
    /// is too high.
    #[verifier::opaque]
    pub open spec fn is_stuck(self, layout: LayoutData<T>) -> bool {
        let yielded = self.next(layout).1;
        yielded is None || yielded matches Some(YieldData::MaxHeightExceeded(_))
    }

    /// The layout holds the lines of this breaker.
    pub open spec fn is_held_by(self, layout: Layout<T>) -> bool {
        let count = self.lines.len() as int;
        &&& layout.lines@ == final_lines(self.lines, self.state.layout_max_advance)
        &&& layout.line_items@ == self.items
        &&& layout.width == width_of(self.lines, count)
        &&& layout.full_width == full_width_of(self.lines, count)
        &&& layout.height == total_height(self.lines)
        &&& layout.layout_max_advance == self.state.layout_max_advance
    }

    /// The layout holds the lines that breaking leads to when it goes on for as
    /// long as it can.
    pub open spec fn breaks_into(self, data: LayoutData<T>, layout: Layout<T>) -> bool {
        exists|steps: nat|
            {
                let last = #[trigger] self.after_steps(data, steps);
                &&& last.is_stuck(data)
                &&& last.without_empty_ranges(data).is_held_by(layout)
            }
    }

    /// The lines of a layout without text: its first item has no ranges.
    pub open spec fn without_empty_ranges(self, layout: LayoutData<T>) -> Self {
        let none = Span { start: 0, end: 0 };
        if layout.text_len == 0 && self.items.len() > 0 {
            Progress {
                items: self.items.update(
                    0,
                    LineItemData {
                        text_range: none,
                        shaped_cluster_range: none,
                        grapheme_range: none,
                        ..self.items[0]
                    },
                ),
                ..self
            }
        } else {
            self
        }
    }
}

impl<T: Scalar> BreakLines<T> {
    /// Breaks the next line after a number of characters; with zero, after
    /// one. Returns nothing once the paragraph is done.
    ///
    /// White space and forced breaks count as characters, and so does an
    /// atomic box; inline edges do not. The line is broken when the limit is
    /// reached, wherever that is: neither break opportunities nor forced
    /// breaks matter. An atom in which the limit is reached is kept whole.
    #[verifier::rlimit(40)]
    pub fn break_next_with_length(&mut self, max_chars: u32) -> (r: Option<()>)
        requires
            old(self).wf(),
        ensures
            final(self).wf(),
            final(self).same_layout(*old(self)),
            final(self).view() == old(self).view().next_with_length(old(self).layout, max_chars),
            final(self).view().extends(old(self).view()),
            r is None <==> old(self).done,
            // Reverting undoes the call.
            final(self).is_checkpoint(old(self).state),
            r is Some ==> final(self).view().prev_state == Some(old(self).state),
            r is Some ==> final(self).view().reverted(old(self).state) == (Progress {
                prev_state: final(self).prev_state,
                ..old(self).view()
            }),
            // The limits stay as they are.
            final(self).state.same_limits(old(self).state),
            old(self).limits_wf() ==> final(self).limits_wf(),
    {
        let ghost line_start = choose|line_start: nat| self.wf_from(line_start);
        if self.done {
            assert(self.state.wf(self.layout, line_start));
            return None;
        }
        let line_indent = self.resolve_indent();
        self.prev_state = Some(self.state);
        let limit: u32 = if max_chars == 0 {
            1
        } else {
            max_chars
        };
        match self.state.scan_chars(&self.layout, limit, Ghost(line_start)) {
            Some(reason) => {
                self.start_new_line(reason, T::largest(), line_indent, Ghost(line_start));
            },
            None => {
                self.finish_paragraph(T::largest(), line_indent, Ghost(line_start));
            },
        }
        proof {
            assert(self.wf_from(self.state.item_idx as nat));
            assert(old(self).state.wf(self.layout, line_start));
            lemma_reverting_restores(old(self).view(), self.view());
        }
        Some(())
    }

    /// Takes one step of breaking all lines. Returns whether it could be taken,
    /// and where the line that is being filled started.
    fn advance(&mut self, Ghost(line_start): Ghost<nat>) -> (r: (bool, Ghost<nat>))
        requires
            old(self).wf_from(line_start),
        ensures
            final(self).same_layout(*old(self)),
            r.0 == !old(self).view().is_stuck(old(self).layout),
            r.0 ==> {
                let position = line_start + old(self).state.line.clusters.start;
                let next_position = r.1@ + final(self).state.line.clusters.start;
                &&& final(self).view() == old(self).view().advanced(old(self).layout)
                &&& final(self).wf_from(r.1@)
                &&& !old(self).done
                &&& final(self).done || position < next_position || (position == next_position
                    && old(self).state.item_idx < final(self).state.item_idx)
            },
            !r.0 ==> {
                &&& final(self).lines@ == old(self).lines@
                &&& final(self).line_items@ == old(self).line_items@
                &&& final(self).state.layout_max_advance == old(self).state.layout_max_advance
            },
    {
        proof {
            reveal(Progress::advanced);
            reveal(Progress::is_stuck);
        }
        match self.break_next_from(Ghost(line_start)) {
            None => (false, Ghost(line_start)),
            Some(YieldData::MaxHeightExceeded(_)) => (false, Ghost(line_start)),
            Some(YieldData::LineBreak(_)) => (true, Ghost(self.state.item_idx as nat)),
            Some(YieldData::InlineBoxBreak(_)) => {
                let zero = T::zero();
                let x = self.state.line.x;
                proof {
                    scanner::lemma_after_inline_box_wf(
                        self.layout,
                        self.state,
                        x,
                        zero,
                        zero,
                        line_start,
                    );
                }
                self.state.append_inline_box_to_line(x, zero, zero, self.layout.quantize);
                (true, Ghost(line_start))
            },
        }
    }

    /// Breaks all remaining lines for the given advance, and closes the
    /// breaker. Boxes that the caller would place are put on their lines with
    /// no size. Breaking ends early at a line that is too high, for which
    /// nothing here can find another place.
    pub fn break_remaining(self, max_advance: T) -> (r: Layout<T>)
        requires
            self.wf(),
            max_advance.spec_same(T::spec_unbounded()) || max_advance.spec_minus(
                max_advance,
            ).spec_lt(T::spec_one()),
        ensures
            r.data == self.layout,
            r.is_aligned_justified == self.is_aligned_justified,
            self.view().with_limit(max_advance).breaks_into(self.layout, r),
    {
        let ghost given = self;
        let ghost start = self.view().with_limit(max_advance);
        let ghost layout = self.layout;
        let mut breaker = self;
        breaker.state.layout_max_advance = max_advance;
        breaker.state.line_max_advance = max_advance;
        let ghost mut steps: nat = 0;
        let ghost mut line_start = choose|line_start: nat| given.wf_from(line_start);
        let ghost total = layout.items@.len() + layout.shaped_text.clusters@.len();
        assert(breaker.wf_from(line_start));
        loop
            invariant_except_break
                breaker.wf_from(line_start),
                breaker.view() == start.after_steps(layout, steps),
            invariant
                breaker.same_layout(given),
                layout == given.layout,
                total == layout.items@.len() + layout.shaped_text.clusters@.len(),
            ensures
                start.after_steps(layout, steps).is_stuck(layout),
                breaker.lines@ == start.after_steps(layout, steps).lines,
                breaker.line_items@ == start.after_steps(layout, steps).items,
                breaker.state.layout_max_advance == start.after_steps(
                    layout,
                    steps,
                ).state.layout_max_advance,
            decreases
                    if breaker.done {
                        0int
                    } else {
                        1int
                    },
                    total - line_start - breaker.state.line.clusters.start,
                    layout.items@.len() - breaker.state.item_idx,
        {
            let (advanced, Ghost(next_start)) = breaker.advance(Ghost(line_start));
            if !advanced {
                break;
            }
            proof {
                line_start = next_start;
                steps = steps + 1;
            }
        }
        proof {
            let last = start.after_steps(layout, steps);
            assert(last.is_stuck(given.layout));
        }
        breaker.finish()
    }

    /// Closes the breaker and hands back the layout with its lines.
    pub fn finish(self) -> (r: Layout<T>)
        ensures
            r.data == self.layout,
            r.is_aligned_justified == self.is_aligned_justified,
            self.view().without_empty_ranges(self.layout).is_held_by(r),
    {
        let mut breaker = self;
        if breaker.layout.text_len == 0 && breaker.line_items.len() > 0 {
            let none = Span { start: 0, end: 0 };
            let mut item = breaker.line_items[0];
            item.text_range = none;
            item.shaped_cluster_range = none;
            item.grapheme_range = none;
            breaker.line_items[0] = item;
        }
        proof {
            assert(breaker.view() == self.view().without_empty_ranges(self.layout));
        }
        breaker.into_layout()
    }

    /// Hands back the layout with the lines made so far, as they are.
    pub fn into_layout(self) -> (r: Layout<T>)
        ensures
            r.data == self.layout,
            r.is_aligned_justified == self.is_aligned_justified,
            self.view().is_held_by(r),
    {
        let ghost given = self.view();
        let BreakLines { layout, mut lines, line_items, state, is_aligned_justified, .. } = self;
        let count = lines.len();
        let mut width = T::zero();
        let mut full_width = T::zero();
        let mut height = T::wide_zero();
        let mut i: usize = 0;
        while i < count
            invariant
                i <= count,
                count == lines@.len(),
                lines@ == given.lines,
                width == width_of(given.lines, i as int),
                full_width == full_width_of(given.lines, i as int),
                height == height_of(given.lines, i as int),
            decreases count - i,
        {
            let line = lines[i];
            let extent = line.metrics.inline_min_coord.plus(line.metrics.advance).plus(
                line.indent.larger(T::zero()),
            );
            full_width = full_width.larger(extent);
            width = width.larger(extent.minus(line.metrics.trailing_whitespace));
            height = T::wide_plus(height, line.metrics.line_height.widen());
            i = i + 1;
        }
        if T::largest().le(state.layout_max_advance) {
            let mut i: usize = 0;
            while i < count
                invariant
                    i <= count,
                    count == lines@.len(),
                    count == given.lines.len(),
                    width == width_of(given.lines, count as int),
                    state == given.state,
                    T::spec_largest().spec_le(state.layout_max_advance),
                    forall|k: int|
                        0 <= k < count ==> #[trigger] lines@[k] == if k < i {
                            final_lines(given.lines, state.layout_max_advance)[k]
                        } else {
                            given.lines[k]
                        },
                decreases count - i,
            {
                let mut line = lines[i];
                if T::largest().le(line.metrics.inline_max_coord) {
                    line.metrics.inline_max_coord = width;
                    lines[i] = line;
                }
                i = i + 1;
            }
        }
        assert(lines@ =~= final_lines(given.lines, state.layout_max_advance));
        if count > 0 {
            let last = lines[count - 1];
            if last.item_range.is_empty() {
                height = T::wide_minus(height, last.metrics.line_height.widen());
            }
        }
        Layout {
            data: layout,
            lines,
            line_items,
            layout_max_advance: state.layout_max_advance,
            width,
            full_width,
            height: T::narrow(height),
            is_aligned_justified,
        }
    }
}

// ---------------------------------------------------------------------------
// Laws.

proof fn lemma_stuck_stays<T: Scalar>(
    start: Progress<T>,
    data: LayoutData<T>,
    steps: nat,
    more: nat,
)
    requires
        steps <= more,
        start.after_steps(data, steps).is_stuck(data),
    ensures
        start.after_steps(data, more) == start.after_steps(data, steps),
    decreases more,
{
    if steps < more {
        lemma_stuck_stays(start, data, steps, (more - 1) as nat);
    }
}

/// The lines of a paragraph are determined by the paragraph and the advance
/// they are broken for. A layout that has been broken before, for whatever
/// advance, breaks into the same lines as one that has not.
pub proof fn lemma_lines_are_determined<T: Scalar>(
    start: Progress<T>,
    data: LayoutData<T>,
    one: Layout<T>,
    other: Layout<T>,
)
    requires
        start.breaks_into(data, one),
        start.breaks_into(data, other),
    ensures
        one.lines@ == other.lines@,
        one.line_items@ == other.line_items@,
        one.width == other.width,
        one.full_width == other.full_width,
        one.height == other.height,
        one.layout_max_advance == other.layout_max_advance,
{
    let steps = choose|steps: nat|
        {
            let last = #[trigger] start.after_steps(data, steps);
            &&& last.is_stuck(data)
            &&& last.without_empty_ranges(data).is_held_by(one)
        };
    let others = choose|steps: nat|
        {
            let last = #[trigger] start.after_steps(data, steps);
            &&& last.is_stuck(data)
            &&& last.without_empty_ranges(data).is_held_by(other)
        };
    if steps <= others {
        lemma_stuck_stays(start, data, steps, others);
    } else {
        lemma_stuck_stays(start, data, others, steps);
    }
}

/// Callers may change a line's geometry between two calls: a breaker stays
/// consistent.
pub proof fn lemma_geometry_is_free<T: Scalar>(before: BreakLines<T>, after: BreakLines<T>)
    requires
        before.wf(),
        after.same_layout(before),
        after.lines@ == before.lines@,
        after.line_items@ == before.line_items@,
        after.state == (BreakerState {
            line_x: after.state.line_x,
            line_y: after.state.line_y,
            layout_max_advance: after.state.layout_max_advance,
            line_max_advance: after.state.line_max_advance,
            line_max_height: after.state.line_max_height,
            ..before.state
        }),
    ensures
        after.wf(),
{
    let line_start = choose|line_start: nat| before.wf_from(line_start);
    assert(after.wf_from(line_start));
}

/// A caller that is asked to place a box may put it on the line with whatever
/// extents: a breaker stays consistent.
pub proof fn lemma_placed_box_keeps_wf<T: Scalar>(
    before: BreakLines<T>,
    after: BreakLines<T>,
    next_x: T,
    ascent: T,
    descent: T,
)
    requires
        before.wf(),
        before.state.at_box(before.layout),
        after.same_layout(before),
        after.lines@ == before.lines@,
        after.line_items@ == before.line_items@,
        after.state == before.state.after_inline_box(
            next_x,
            ascent,
            descent,
            before.layout.quantize,
        ),
    ensures
        after.wf(),
{
    let line_start = choose|line_start: nat| before.wf_from(line_start);
    scanner::lemma_after_inline_box_wf(
        before.layout,
        before.state,
        next_x,
        ascent,
        descent,
        line_start,
    );
    assert(after.wf_from(line_start));
}

} // verus!
