//! The intrinsic widths of a paragraph.
//!
//! The widths do not take the direction of text into account.

use crate::inline_box::{InlineBox, InlineBoxKind};
use crate::layout::data::{ContentWidths, LayoutData, LayoutItemKind};
use crate::layout::scan;
use crate::layout::scan::AtomInfo;
use crate::layout::shaped::{Boundary, Whitespace};
use crate::scalar::Scalar;
use crate::style::{EndOfLineWhitespace, OverflowWrap, TextWrapMode, WhiteSpaceCollapse};
use vstd::prelude::*;

verus! {

/// A measure of intrinsic widths in progress.
#[derive(Clone, Copy)]
pub struct Measure<T: Scalar> {
    /// The widest unbreakable segment so far.
    pub min: T,
    /// The widest line so far.
    pub max: T,
    /// The current unbreakable segment.
    pub running_min: T,
    /// The current line.
    pub running_max: T,
    /// Opening edges at the end of the segment. They belong to the content
    /// that follows them.
    pub pending_inline_start: T,
    /// How many of those edges are open.
    pub open_edges: usize,
    /// The segment ends if anything but a closing edge follows.
    pub break_after_pending: bool,
    pub text_wrap_mode: TextWrapMode,
    pub last_content_text_wrap_mode: Option<TextWrapMode>,
    /// The segment so far ends in a run of text, which counts for itself unless
    /// closing edges follow.
    pub text_ended: bool,
    /// White space at the end of the segment that hangs or is removed.
    pub min_trailing_whitespace: T,
    /// White space at the end of the line that is removed. White space that
    /// hangs counts at a forced break.
    pub max_trailing_whitespace: T,
}

impl<T: Scalar> Measure<T> {
    pub open spec fn start(text_wrap_mode: TextWrapMode) -> Self {
        let zero = T::spec_zero();
        Measure {
            min: zero,
            max: zero,
            running_min: zero,
            running_max: zero,
            pending_inline_start: zero,
            open_edges: 0,
            break_after_pending: false,
            text_wrap_mode,
            last_content_text_wrap_mode: None,
            text_ended: false,
            min_trailing_whitespace: zero,
            max_trailing_whitespace: zero,
        }
    }

    /// The line so far counts, with the closing edges at its end, before
    /// something else follows. What follows may have a negative width.
    pub open spec fn before_item(self) -> Self {
        Measure {
            min: if self.text_ended {
                self.min.spec_larger(self.running_min.spec_minus(self.min_trailing_whitespace))
            } else {
                self.min
            },
            max: self.max.spec_larger(self.running_max.spec_minus(self.max_trailing_whitespace)),
            text_ended: false,
            ..self
        }
    }

    /// The segment ends.
    pub open spec fn with_break(self) -> Self {
        Measure {
            min: self.min.spec_larger(self.running_min.spec_minus(self.min_trailing_whitespace)),
            running_min: T::spec_zero(),
            min_trailing_whitespace: T::spec_zero(),
            ..self
        }
    }

    /// The segment ends if it was to end before what follows.
    pub open spec fn with_pending_break(self) -> Self {
        if self.break_after_pending {
            Measure { break_after_pending: false, ..self.with_break() }
        } else {
            self
        }
    }

    /// The segment ends before its opening edges, which start the next one.
    pub open spec fn with_break_before_edges(self) -> Self {
        Measure {
            min: self.min.spec_larger(
                self.running_min.spec_minus(self.pending_inline_start).spec_minus(
                    self.min_trailing_whitespace,
                ),
            ),
            running_min: self.pending_inline_start,
            ..self
        }
    }

    /// The line ends at a forced break.
    pub open spec fn with_forced_break(self) -> Self {
        Measure {
            max: self.max.spec_larger(self.running_max.spec_minus(self.max_trailing_whitespace)),
            running_max: T::spec_zero(),
            max_trailing_whitespace: T::spec_zero(),
            break_after_pending: false,
            ..self.with_break()
        }
    }

    pub open spec fn with_advance(self, advance: T) -> Self {
        Measure {
            running_min: self.running_min.spec_plus(advance),
            running_max: self.running_max.spec_plus(advance),
            ..self
        }
    }

    /// Content has followed the opening edges.
    pub open spec fn without_edges(self) -> Self {
        Measure { pending_inline_start: T::spec_zero(), open_edges: 0, ..self }
    }

    /// An edge has closed. Inside other open edges it belongs, as they do, to
    /// the content that follows.
    pub open spec fn with_closed_edge(self, width: T) -> Self {
        if self.open_edges <= 1 {
            self.without_edges()
        } else {
            Measure {
                pending_inline_start: self.pending_inline_start.spec_plus(width),
                open_edges: (self.open_edges - 1) as usize,
                ..self
            }
        }
    }

    /// Updates the trailing white space after an atom.
    pub open spec fn with_trailing(self, info: AtomInfo<T>) -> Self {
        let zero = T::spec_zero();
        let advance = info.atom.advance;
        let end_of_line = info.style.spec_end_of_line();
        let more_min = self.min_trailing_whitespace.spec_plus(advance);
        let more_max = self.max_trailing_whitespace.spec_plus(advance);
        if info.first.whitespace.spec_is_space_or_tab() {
            Measure {
                min_trailing_whitespace: if end_of_line == EndOfLineWhitespace::TakesUpSpace {
                    zero
                } else {
                    more_min
                },
                max_trailing_whitespace: if end_of_line == EndOfLineWhitespace::Remove {
                    more_max
                } else {
                    zero
                },
                ..self
            }
        } else if info.is_newline() {
            self
        } else if info.first.whitespace == Whitespace::NotSpace && info.hangs_or_is_removed() {
            Measure {
                min_trailing_whitespace: more_min,
                max_trailing_whitespace: more_max,
                ..self
            }
        } else {
            Measure { min_trailing_whitespace: zero, max_trailing_whitespace: zero, ..self }
        }
    }

    /// The segment with the opportunity before an atom taken.
    pub open spec fn before_atom(self, info: AtomInfo<T>) -> Self {
        let state = self.with_pending_break();
        let breaks = state.text_wrap_mode == TextWrapMode::Wrap && (info.first.boundary
            == Boundary::Line || info.style.overflow_wrap == OverflowWrap::Anywhere);
        Measure {
            text_wrap_mode: info.style.text_wrap_mode,
            ..if breaks {
                Measure {
                    min_trailing_whitespace: T::spec_zero(),
                    ..state.with_break_before_edges()
                }
            } else {
                state
            }
        }
    }

    /// Measures an atom.
    pub open spec fn with_atom(self, info: AtomInfo<T>) -> Self {
        let advanced = self.before_atom(info).with_advance(info.atom.advance);
        // A segment ends after each preserved space in `break-spaces`, and the
        // space counts for it.
        let spaced = if info.style.text_wrap_mode == TextWrapMode::Wrap
            && info.is_break_spaces_space() {
            Measure {
                min: advanced.min.spec_larger(advanced.running_min),
                running_min: T::spec_zero(),
                min_trailing_whitespace: T::spec_zero(),
                ..advanced
            }
        } else {
            advanced
        };
        let trailed = spaced.with_trailing(info);
        let content = Measure {
            last_content_text_wrap_mode: Some(info.style.text_wrap_mode),
            ..if info.hangs_or_is_removed() {
                trailed
            } else {
                trailed.without_edges()
            }
        };
        if info.is_newline() {
            content.with_forced_break()
        } else {
            content
        }
    }

    /// Measures the atoms of a run from the cluster `cursor` on.
    pub open spec fn with_run(self, layout: LayoutData<T>, run: int, cursor: int) -> Self
        decreases layout.shaped_text.runs@[run].clusters.end - cursor,
    {
        let bound = layout.shaped_text.runs@[run].clusters.end as int;
        if cursor >= bound {
            self
        } else {
            proof {
                layout.shaped_text.lemma_atom_end(cursor, bound);
            }
            self.with_atom(scan::atom_info(layout, run, cursor)).with_run(
                layout,
                run,
                layout.shaped_text.atom_end(cursor, bound),
            )
        }
    }

    /// Measures an atomic box.
    pub open spec fn with_atomic_box(self, width: T) -> Self {
        let state = self.with_pending_break();
        let wraps = state.text_wrap_mode == TextWrapMode::Wrap;
        let broken = if wraps || state.last_content_text_wrap_mode == Some(TextWrapMode::Wrap) {
            state.with_break_before_edges()
        } else {
            state
        };
        Measure {
            break_after_pending: wraps,
            last_content_text_wrap_mode: Some(state.text_wrap_mode),
            min_trailing_whitespace: T::spec_zero(),
            max_trailing_whitespace: T::spec_zero(),
            ..broken.with_advance(width).without_edges()
        }
    }

    /// Measures a box.
    pub open spec fn with_box(self, inline_box: InlineBox<T>) -> Self {
        match inline_box.kind {
            InlineBoxKind::InFlow => self.before_item().with_atomic_box(inline_box.width),
            InlineBoxKind::StartBoundary => {
                let state = self.before_item().with_pending_break().with_advance(inline_box.width);
                Measure {
                    pending_inline_start: state.pending_inline_start.spec_plus(inline_box.width),
                    open_edges: (state.open_edges + 1) as usize,
                    ..state
                }
            },
            InlineBoxKind::EndBoundary => self.with_advance(inline_box.width).with_closed_edge(
                inline_box.width,
            ),
            InlineBoxKind::TextBoundary => self.without_edges(),
            InlineBoxKind::OutOfFlow | InlineBoxKind::CustomOutOfFlow => self,
        }
    }

    /// Measures the items from `item` on.
    pub open spec fn with_items(self, layout: LayoutData<T>, item: int) -> Self
        decreases layout.items@.len() - item,
    {
        if item >= layout.items@.len() {
            self
        } else {
            let data = layout.items@[item];
            let next = if layout.spec_is_text(item) {
                let measured = self.before_item().with_run(
                    layout,
                    data.index as int,
                    layout.shaped_text.runs@[data.index as int].clusters.start as int,
                );
                Measure { text_ended: true, ..measured }
            } else {
                let boxed = self.with_box(layout.inline_boxes@[data.index as int]);
                match data.style_after {
                    Some(style) => Measure {
                        text_wrap_mode: layout.styles@[style as int].text_wrap_mode,
                        ..boxed
                    },
                    None => boxed,
                }
            };
            next.with_items(layout, item + 1)
        }
    }

    /// The widths when everything has been measured.
    pub open spec fn widths(self) -> ContentWidths<T> {
        ContentWidths {
            min: self.min.spec_larger(self.running_min.spec_minus(self.min_trailing_whitespace)),
            max: self.max.spec_larger(self.running_max.spec_minus(self.max_trailing_whitespace)),
        }
    }

    fn enter_item(&mut self)
        ensures
            *final(self) == old(self).before_item(),
    {
        if self.text_ended {
            self.min = self.min.larger(self.running_min.minus(self.min_trailing_whitespace));
        }
        self.max = self.max.larger(self.running_max.minus(self.max_trailing_whitespace));
        self.text_ended = false;
    }

    fn break_segment(&mut self)
        ensures
            *final(self) == old(self).with_break(),
    {
        self.min = self.min.larger(self.running_min.minus(self.min_trailing_whitespace));
        self.running_min = T::zero();
        self.min_trailing_whitespace = T::zero();
    }

    fn break_pending(&mut self)
        ensures
            *final(self) == old(self).with_pending_break(),
    {
        if self.break_after_pending {
            self.break_segment();
            self.break_after_pending = false;
        }
    }

    fn break_before_edges(&mut self)
        ensures
            *final(self) == old(self).with_break_before_edges(),
    {
        self.min = self.min.larger(
            self.running_min.minus(self.pending_inline_start).minus(self.min_trailing_whitespace),
        );
        self.running_min = self.pending_inline_start;
    }

    fn advance(&mut self, advance: T)
        ensures
            *final(self) == old(self).with_advance(advance),
    {
        self.running_min = self.running_min.plus(advance);
        self.running_max = self.running_max.plus(advance);
    }

    fn consume_edges(&mut self)
        ensures
            *final(self) == old(self).without_edges(),
    {
        self.pending_inline_start = T::zero();
        self.open_edges = 0;
    }

    fn measure_trailing(
        &mut self,
        advance: T,
        whitespace: Whitespace,
        hangs: bool,
        end_of_line: EndOfLineWhitespace,
        Ghost(info): Ghost<AtomInfo<T>>,
    )
        requires
            advance == info.atom.advance,
            whitespace == info.first.whitespace,
            hangs == info.hangs_or_is_removed(),
            end_of_line == info.style.spec_end_of_line(),
        ensures
            *final(self) == old(self).with_trailing(info),
    {
        if whitespace.is_space_or_tab() {
            self.min_trailing_whitespace = if end_of_line == EndOfLineWhitespace::TakesUpSpace {
                T::zero()
            } else {
                self.min_trailing_whitespace.plus(advance)
            };
            self.max_trailing_whitespace = if end_of_line == EndOfLineWhitespace::Remove {
                self.max_trailing_whitespace.plus(advance)
            } else {
                T::zero()
            };
        } else if whitespace == Whitespace::Newline {
            // A forced break has no advance and ends no white space before it.
        } else if whitespace == Whitespace::NotSpace && hangs {
            self.min_trailing_whitespace = self.min_trailing_whitespace.plus(advance);
            self.max_trailing_whitespace = self.max_trailing_whitespace.plus(advance);
        } else {
            self.min_trailing_whitespace = T::zero();
            self.max_trailing_whitespace = T::zero();
        }
    }

    fn measure_atom(&mut self, layout: &LayoutData<T>, run: usize, cursor: usize, bound: usize) -> (r:
        usize)
        requires
            layout.wf(),
            run < layout.shaped_text.runs@.len(),
            bound == layout.shaped_text.runs@[run as int].clusters.end,
            cursor < bound,
        ensures
            *final(self) == old(self).with_atom(
                scan::atom_info(*layout, run as int, cursor as int),
            ),
            r == layout.shaped_text.atom_end(cursor as int, bound as int),
            cursor < r <= bound,
    {
        let ghost info = scan::atom_info(*layout, run as int, cursor as int);
        proof {
            layout.shaped_text.lemma_atom_end(cursor as int, bound as int);
        }
        let atom = layout.shaped_text.atom(cursor, bound);
        let first = layout.shaped_text.characters[atom.chars.start];
        let style = layout.style_of(&first);
        let end_of_line = style.end_of_line();
        let is_space = first.is_line_end_space();
        let hangs = is_space && end_of_line != EndOfLineWhitespace::TakesUpSpace;

        self.break_pending();
        if self.text_wrap_mode == TextWrapMode::Wrap && (first.boundary == Boundary::Line
            || style.overflow_wrap == OverflowWrap::Anywhere) {
            self.break_before_edges();
            self.min_trailing_whitespace = T::zero();
        }
        self.text_wrap_mode = style.text_wrap_mode;
        assert(*self == old(self).before_atom(info));
        self.advance(atom.advance);
        if style.text_wrap_mode == TextWrapMode::Wrap && style.white_space_collapse
            == WhiteSpaceCollapse::BreakSpaces && is_space {
            self.min = self.min.larger(self.running_min);
            self.running_min = T::zero();
            self.min_trailing_whitespace = T::zero();
        }
        self.measure_trailing(atom.advance, first.whitespace, hangs, end_of_line, Ghost(info));
        if !hangs {
            self.consume_edges();
        }
        self.last_content_text_wrap_mode = Some(style.text_wrap_mode);
        if first.whitespace == Whitespace::Newline {
            self.break_segment();
            self.max = self.max.larger(self.running_max.minus(self.max_trailing_whitespace));
            self.running_max = T::zero();
            self.max_trailing_whitespace = T::zero();
            self.break_after_pending = false;
        }
        atom.clusters.end
    }

    fn measure_box(&mut self, inline_box: &InlineBox<T>)
        requires
            old(self).open_edges < usize::MAX,
        ensures
            *final(self) == old(self).with_box(*inline_box),
            final(self).open_edges <= old(self).open_edges + 1,
    {
        let zero = T::zero();
        match inline_box.kind {
            InlineBoxKind::InFlow => {
                self.enter_item();
                self.break_pending();
                let wraps = self.text_wrap_mode == TextWrapMode::Wrap;
                let wrapped_before = match self.last_content_text_wrap_mode {
                    Some(mode) => mode == TextWrapMode::Wrap,
                    None => false,
                };
                if wraps || wrapped_before {
                    self.break_before_edges();
                }
                self.advance(inline_box.width);
                self.consume_edges();
                self.break_after_pending = wraps;
                self.last_content_text_wrap_mode = Some(self.text_wrap_mode);
                self.min_trailing_whitespace = zero;
                self.max_trailing_whitespace = zero;
            },
            InlineBoxKind::StartBoundary => {
                self.enter_item();
                self.break_pending();
                self.advance(inline_box.width);
                self.pending_inline_start = self.pending_inline_start.plus(inline_box.width);
                self.open_edges = self.open_edges + 1;
            },
            InlineBoxKind::EndBoundary => {
                self.advance(inline_box.width);
                if self.open_edges <= 1 {
                    self.consume_edges();
                } else {
                    self.pending_inline_start = self.pending_inline_start.plus(inline_box.width);
                    self.open_edges = self.open_edges - 1;
                }
            },
            InlineBoxKind::TextBoundary => {
                self.consume_edges();
            },
            InlineBoxKind::OutOfFlow | InlineBoxKind::CustomOutOfFlow => {},
        }
    }
}

impl<T: Scalar> LayoutData<T> {
    /// The intrinsic widths; those of an empty layout are zero.
    pub open spec fn content_widths(self) -> ContentWidths<T> {
        if self.items@.len() == 0 {
            ContentWidths { min: T::spec_zero(), max: T::spec_zero() }
        } else {
            Measure::start(
                self.styles@[self.root_style_index as int].text_wrap_mode,
            ).with_items(self, 0).widths()
        }
    }

    /// Computes the intrinsic widths.
    pub fn calculate_content_widths(&self) -> (r: ContentWidths<T>)
        requires
            self.wf(),
        ensures
            r == self.content_widths(),
    {
        let zero = T::zero();
        if self.items.len() == 0 {
            return ContentWidths { min: zero, max: zero };
        }
        let mut measure = Measure {
            min: zero,
            max: zero,
            running_min: zero,
            running_max: zero,
            pending_inline_start: zero,
            open_edges: 0,
            break_after_pending: false,
            text_wrap_mode: self.styles[self.root_style_index as usize].text_wrap_mode,
            last_content_text_wrap_mode: None,
            text_ended: false,
            min_trailing_whitespace: zero,
            max_trailing_whitespace: zero,
        };
        let ghost target = measure.with_items(*self, 0);
        let mut i: usize = 0;
        while i < self.items.len()
            invariant
                self.wf(),
                i <= self.items@.len(),
                measure.open_edges <= i,
                target == measure.with_items(*self, i as int),
            decreases self.items@.len() - i,
        {
            proof {
                assert(self.item_wf(i as int));
            }
            let item = self.items[i];
            match item.kind {
                LayoutItemKind::TextRun => {
                    let run = item.index;
                    let bound = self.shaped_text.runs[run].clusters.end;
                    let mut cursor: usize = self.shaped_text.runs[run].clusters.start;
                    measure.enter_item();
                    let ghost measured = measure.with_run(*self, run as int, cursor as int);
                    while cursor < bound
                        invariant
                            self.wf(),
                            run < self.shaped_text.runs@.len(),
                            bound == self.shaped_text.runs@[run as int].clusters.end,
                            cursor <= bound,
                            measure.open_edges <= i,
                            measured == measure.with_run(*self, run as int, cursor as int),
                        decreases bound - cursor,
                    {
                        cursor = measure.measure_atom(self, run, cursor, bound);
                    }
                    measure.text_ended = true;
                },
                LayoutItemKind::InlineBox => {
                    measure.measure_box(&self.inline_boxes[item.index]);
                    if let Some(style) = item.style_after {
                        measure.text_wrap_mode = self.styles[style as usize].text_wrap_mode;
                    }
                },
            }
            i = i + 1;
        }
        ContentWidths {
            min: measure.min.larger(measure.running_min.minus(measure.min_trailing_whitespace)),
            max: measure.max.larger(measure.running_max.minus(measure.max_trailing_whitespace)),
        }
    }
}

} // verus!
