//! Filling a line up to a number of characters.

use crate::inline_box::InlineBoxKind;
use crate::layout::data::{BreakReason, LayoutData, LayoutItemKind};
use crate::layout::scan;
use crate::layout::scan::AtomInfo;
use crate::layout::scanner;
use crate::layout::shaped::Whitespace;
use crate::layout::state::BreakerState;
use crate::scalar::Scalar;
use crate::style::WhiteSpaceCollapse;
use vstd::prelude::*;

verus! {

/// A line that is filled up to a number of characters.
pub struct Count<T: Scalar> {
    pub state: BreakerState<T>,
    /// The characters on the line so far, up to the largest number.
    pub chars: u32,
    /// The reason that a break at the current position would have.
    pub reason: BreakReason,
    /// The limit was reached before the end of the text.
    pub full: bool,
}

/// The sum of two counts, or the largest count.
pub open spec fn count_plus(count: u32, more: int) -> u32 {
    if count + more <= u32::MAX {
        (count + more) as u32
    } else {
        u32::MAX
    }
}

impl<T: Scalar> Count<T> {
    /// Puts an atom on the line. A forced break does not break the line here,
    /// and takes no space.
    pub open spec fn with_atom(self, layout: LayoutData<T>, info: AtomInfo<T>) -> Self {
        let x = self.state.line.x;
        let next_x = if info.is_newline() {
            x
        } else {
            x.spec_plus(info.atom.advance)
        };
        let next = scan::append_atom(
            layout,
            self.state.with_content(info.style.text_wrap_mode),
            info,
            next_x,
        );
        Count {
            state: BreakerState {
                prev_atom_was_break_spaces_space: info.is_break_spaces_space(),
                ..next
            },
            chars: count_plus(self.chars, info.atom.chars.end - info.atom.chars.start),
            reason: if info.is_newline() {
                BreakReason::Explicit
            } else {
                BreakReason::Regular
            },
            ..self
        }
    }

    /// Puts the atoms of a run on the line, from the cluster `cursor` on. An
    /// atom on which the limit is reached is put on the line as a whole.
    pub open spec fn with_run(
        self,
        layout: LayoutData<T>,
        run: int,
        cursor: int,
        limit: u32,
    ) -> Self
        decreases layout.shaped_text.runs@[run].clusters.end - cursor,
    {
        let bound = layout.shaped_text.runs@[run].clusters.end as int;
        if cursor >= bound {
            self
        } else if self.chars >= limit {
            Count { full: true, ..self }
        } else {
            proof {
                layout.shaped_text.lemma_atom_end(cursor, bound);
            }
            self.with_atom(layout, scan::atom_info(layout, run, cursor)).with_run(
                layout,
                run,
                layout.shaped_text.atom_end(cursor, bound),
                limit,
            )
        }
    }

    /// Puts a box on the line. Only an atomic box counts as a character.
    pub open spec fn with_box(self, layout: LayoutData<T>, item: int) -> Self {
        let inline_box = layout.inline_boxes@[layout.items@[item].index as int];
        match inline_box.kind {
            InlineBoxKind::InFlow => Count {
                state: scan::atomic_step(layout, self.state, item, inline_box),
                chars: count_plus(self.chars, 1),
                reason: BreakReason::Regular,
                ..self
            },
            InlineBoxKind::StartBoundary => Count {
                state: scan::edge_step(
                    layout,
                    self.state.with_inline_start(),
                    item,
                    inline_box.width,
                ),
                ..self
            },
            InlineBoxKind::EndBoundary => Count {
                state: scan::edge_step(
                    layout,
                    self.state,
                    item,
                    inline_box.width,
                ).with_inline_end(),
                ..self
            },
            _ => Count { state: scan::placeholder_step(layout, self.state, item), ..self },
        }
    }

    /// Fills the line with the items from `item` on. Closing edges and boxes
    /// that take up no space follow the content on which the limit was
    /// reached.
    pub open spec fn with_items(self, layout: LayoutData<T>, item: int, limit: u32) -> Self
        decreases layout.items@.len() - item,
    {
        if item >= layout.items@.len() {
            self
        } else if self.chars >= limit && !can_follow(layout, item) {
            Count { full: true, ..self }
        } else if layout.spec_is_text(item) {
            let next = self.with_run(
                layout,
                layout.items@[item].index as int,
                self.state.cluster_idx as int,
                limit,
            );
            if next.full {
                next
            } else {
                Count { state: scan::after_run(next.state), ..next }.with_items(
                    layout,
                    item + 1,
                    limit,
                )
            }
        } else {
            self.with_box(layout, item).with_items(layout, item + 1, limit)
        }
    }
}

/// Whether an item may follow the content on which the limit was reached.
pub open spec fn can_follow<T: Scalar>(layout: LayoutData<T>, item: int) -> bool {
    let kind = layout.inline_boxes@[layout.items@[item].index as int].kind;
    !layout.spec_is_text(item) && (kind == InlineBoxKind::EndBoundary
        || !kind.spec_contributes_advance())
}

fn sum_of_counts(count: u32, more: usize) -> (r: u32)
    ensures
        r == count_plus(count, more as int),
{
    if more <= (u32::MAX - count) as usize {
        count + more as u32
    } else {
        u32::MAX
    }
}

impl<T: Scalar> BreakerState<T> {
    fn count_atom(
        &mut self,
        layout: &LayoutData<T>,
        run: usize,
        bound: usize,
        chars: u32,
        Ghost(before): Ghost<Count<T>>,
        Ghost(line_start): Ghost<nat>,
    ) -> (r: (u32, BreakReason))
        requires
            layout.wf(),
            run < layout.shaped_text.runs@.len(),
            bound == layout.shaped_text.runs@[run as int].clusters.end,
            old(self).cluster_idx < bound,
            old(self).wf(*layout, line_start),
            old(self).in_run(*layout, run as int),
            before.state == *old(self),
            before.chars == chars,
        ensures
            ({
                let info = scan::atom_info(*layout, run as int, old(self).cluster_idx as int);
                let next = before.with_atom(*layout, info);
                &&& next == (Count { state: *final(self), chars: r.0, reason: r.1, ..before })
                &&& final(self).cluster_idx == info.atom.clusters.end
            }),
            final(self).wf(*layout, line_start),
            final(self).in_run(*layout, run as int),
            final(self).item_idx == old(self).item_idx,
            final(self).same_line(*old(self)),
            old(self).cluster_idx < final(self).cluster_idx <= bound,
    {
        let atom = layout.shaped_text.atom(self.cluster_idx, bound);
        let ghost info = scan::atom_info(*layout, run as int, self.cluster_idx as int);
        let first = layout.shaped_text.characters[atom.chars.start];
        let style = layout.style_of(&first);
        let is_newline = first.whitespace == Whitespace::Newline;
        let next_x = if is_newline {
            self.line.x
        } else {
            self.line.x.plus(atom.advance)
        };
        proof {
            scanner::lemma_append_atom_wf(
                *layout,
                self.with_content(style.text_wrap_mode),
                info,
                next_x,
                line_start,
            );
        }
        self.finish_content(style.text_wrap_mode);
        self.append_atom_to_line(
            &atom,
            next_x,
            &layout.shaped_text.runs[run].font_metrics,
            layout.runs[run].line_height,
            layout.quantize,
        );
        self.prev_atom_was_break_spaces_space = style.white_space_collapse
            == WhiteSpaceCollapse::BreakSpaces && first.is_line_end_space();
        let chars: u32 = sum_of_counts(chars, atom.chars.end - atom.chars.start);
        let reason = if is_newline {
            BreakReason::Explicit
        } else {
            BreakReason::Regular
        };
        (chars, reason)
    }

    /// Puts the edge that comes next on the line.
    fn count_edge(
        &mut self,
        layout: &LayoutData<T>,
        width: T,
        opens: bool,
        Ghost(line_start): Ghost<nat>,
    )
        requires
            layout.wf(),
            old(self).wf(*layout, line_start),
            old(self).at_box(*layout),
        ensures
            *final(self) == if opens {
                scan::edge_step(
                    *layout,
                    old(self).with_inline_start(),
                    old(self).item_idx as int,
                    width,
                )
            } else {
                scan::edge_step(
                    *layout,
                    *old(self),
                    old(self).item_idx as int,
                    width,
                ).with_inline_end()
            },
            final(self).wf(*layout, line_start),
            final(self).item_idx == old(self).item_idx + 1,
            final(self).same_line(*old(self)),
    {
        let item = self.item_idx;
        let zero = T::zero();
        let next_x = self.line.x.plus(width);
        proof {
            assert(layout.item_wf(item as int));
        }
        if opens {
            self.begin_inline_start();
        }
        proof {
            scanner::lemma_after_inline_box_wf(*layout, *self, next_x, zero, zero, line_start);
        }
        self.append_inline_box_to_line(next_x, zero, zero, layout.quantize);
        self.apply_style_after(layout, item);
        if !opens {
            self.propagate_break_after_inline_end();
        }
    }

    fn count_box(
        &mut self,
        layout: &LayoutData<T>,
        chars: u32,
        reason: BreakReason,
        Ghost(before): Ghost<Count<T>>,
        Ghost(line_start): Ghost<nat>,
    ) -> (r: (u32, BreakReason))
        requires
            layout.wf(),
            old(self).wf(*layout, line_start),
            old(self).at_box(*layout),
            before.state == *old(self),
            before.chars == chars,
            before.reason == reason,
        ensures
            before.with_box(*layout, old(self).item_idx as int) == (Count {
                state: *final(self),
                chars: r.0,
                reason: r.1,
                ..before
            }),
            final(self).wf(*layout, line_start),
            final(self).item_idx == old(self).item_idx + 1,
            final(self).same_line(*old(self)),
    {
        let item = self.item_idx;
        proof {
            assert(layout.item_wf(item as int));
        }
        let inline_box = layout.inline_boxes[layout.items[item].index];
        let zero = T::zero();
        let x = self.line.x;
        let next_x = x.plus(inline_box.width);
        match inline_box.kind {
            InlineBoxKind::InFlow => {
                let ascent = inline_box.ascent();
                let descent = inline_box.height.minus(ascent);
                let text_wrap_mode = self.line.text_wrap_mode;
                proof {
                    scanner::lemma_after_inline_box_wf(
                        *layout,
                        *self,
                        next_x,
                        ascent,
                        descent,
                        line_start,
                    );
                }
                self.append_inline_box_to_line(next_x, ascent, descent, layout.quantize);
                self.apply_style_after(layout, item);
                self.finish_content(text_wrap_mode);
                self.prev_atom_was_break_spaces_space = false;
                (sum_of_counts(chars, 1), BreakReason::Regular)
            },
            InlineBoxKind::StartBoundary => {
                self.count_edge(layout, inline_box.width, true, Ghost(line_start));
                (chars, reason)
            },
            InlineBoxKind::EndBoundary => {
                self.count_edge(layout, inline_box.width, false, Ghost(line_start));
                (chars, reason)
            },
            _ => {
                proof {
                    scanner::lemma_after_inline_box_wf(
                        *layout,
                        *self,
                        x,
                        zero,
                        zero,
                        line_start,
                    );
                }
                self.append_inline_box_to_line(x, zero, zero, layout.quantize);
                self.apply_style_after(layout, item);
                (chars, reason)
            },
        }
    }

    /// Fills the line up to `limit` characters. Returns the reason for the
    /// break, or nothing at the end of the text.
    pub(crate) fn scan_chars(
        &mut self,
        layout: &LayoutData<T>,
        limit: u32,
        Ghost(line_start): Ghost<nat>,
    ) -> (r: Option<BreakReason>)
        requires
            layout.wf(),
            old(self).wf(*layout, line_start),
        ensures
            ({
                let start = Count {
                    state: *old(self),
                    chars: 0,
                    reason: BreakReason::Regular,
                    full: false,
                };
                let filled = start.with_items(*layout, old(self).item_idx as int, limit);
                &&& filled.state == *final(self)
                &&& r == if filled.full {
                    Some(filled.reason)
                } else {
                    None
                }
            }),
            final(self).wf(*layout, line_start),
            final(self).same_line(*old(self)),
    {
        let mut chars: u32 = 0;
        let mut reason = BreakReason::Regular;
        let ghost target = Count {
            state: *self,
            chars: 0,
            reason: BreakReason::Regular,
            full: false,
        }.with_items(*layout, self.item_idx as int, limit);
        while self.item_idx < layout.items.len()
            invariant
                layout.wf(),
                self.wf(*layout, line_start),
                self.same_line(*old(self)),
                target == (Count {
                    state: *old(self),
                    chars: 0,
                    reason: BreakReason::Regular,
                    full: false,
                }).with_items(*layout, old(self).item_idx as int, limit),
                target == (Count { state: *self, chars, reason, full: false }).with_items(
                    *layout,
                    self.item_idx as int,
                    limit,
                ),
            decreases layout.items@.len() - self.item_idx,
        {
            proof {
                assert(layout.item_wf(self.item_idx as int));
            }
            let item = layout.items[self.item_idx];
            let can_follow = match item.kind {
                LayoutItemKind::InlineBox => {
                    let kind = layout.inline_boxes[item.index].kind;
                    kind == InlineBoxKind::EndBoundary || !kind.contributes_advance()
                },
                LayoutItemKind::TextRun => false,
            };
            if chars >= limit && !can_follow {
                return Some(reason);
            }
            match item.kind {
                LayoutItemKind::InlineBox => {
                    let ghost before = Count { state: *self, chars, reason, full: false };
                    let (next_chars, next_reason) = self.count_box(
                        layout,
                        chars,
                        reason,
                        Ghost(before),
                        Ghost(line_start),
                    );
                    chars = next_chars;
                    reason = next_reason;
                },
                LayoutItemKind::TextRun => {
                    let run = item.index;
                    let bound = layout.shaped_text.runs[run].clusters.end;
                    let ghost item_idx = self.item_idx;
                    let ghost filled = (Count { state: *self, chars, reason, full: false }).with_run(
                        *layout,
                        run as int,
                        self.cluster_idx as int,
                        limit,
                    );
                    while self.cluster_idx < bound
                        invariant
                            layout.wf(),
                            run < layout.shaped_text.runs@.len(),
                            bound == layout.shaped_text.runs@[run as int].clusters.end,
                            self.wf(*layout, line_start),
                            self.same_line(*old(self)),
                            self.in_run(*layout, run as int),
                            self.item_idx == item_idx,
                            filled == (Count { state: *self, chars, reason, full: false }).with_run(
                                *layout,
                                run as int,
                                self.cluster_idx as int,
                                limit,
                            ),
                            target == (Count {
                                state: *old(self),
                                chars: 0,
                                reason: BreakReason::Regular,
                                full: false,
                            }).with_items(*layout, old(self).item_idx as int, limit),
                            filled.full ==> target == filled,
                            !filled.full ==> target == (Count {
                                state: scan::after_run(filled.state),
                                ..filled
                            }).with_items(*layout, item_idx + 1, limit),
                        decreases bound - self.cluster_idx,
                    {
                        if chars >= limit {
                            return Some(reason);
                        }
                        let ghost before = Count { state: *self, chars, reason, full: false };
                        proof {
                            layout.shaped_text.lemma_atom_end(
                                self.cluster_idx as int,
                                bound as int,
                            );
                        }
                        let (next_chars, next_reason) = self.count_atom(
                            layout,
                            run,
                            bound,
                            chars,
                            Ghost(before),
                            Ghost(line_start),
                        );
                        chars = next_chars;
                        reason = next_reason;
                    }
                    self.run_idx = self.run_idx + 1;
                    self.item_idx = self.item_idx + 1;
                },
            }
        }
        None
    }
}

} // verus!
