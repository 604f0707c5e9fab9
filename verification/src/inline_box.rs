//! Boxes and inline edges that are laid out in line with text.

use crate::scalar::Scalar;
use vstd::prelude::*;

verus! {

/// What an inline box contributes to the flow.
#[derive(Clone, Copy, Debug, PartialEq, Eq, Structural)]
pub enum InlineBoxKind {
    /// Takes up space in the layout and flows in line with text, like a CSS
    /// `display: inline-block` box.
    InFlow,
    /// Opening edge of a non-atomic inline. Its signed width contributes to
    /// inline flow and stays attached to the following content when wrapping.
    /// It is transparent to text and bidi analysis.
    StartBoundary,
    /// Closing edge of a non-atomic inline. Its signed width contributes to
    /// inline flow and stays attached to the preceding content when wrapping.
    /// The heights of edges do not supply line metrics.
    EndBoundary,
    /// An empty text item, such as a text node whose white space collapsed
    /// into preceding text. It keeps its position among inline edges without
    /// contributing a character, an advance or a break opportunity. A
    /// following text break occurs after this item, not before an opening
    /// edge that precedes it.
    TextBoundary,
    /// Is assigned a position without taking up space or introducing a break
    /// opportunity, like a CSS `position: absolute` box.
    OutOfFlow,
    /// Takes up no space and is not positioned: line breaking yields to the
    /// caller, who places it. CSS floats can be built on it.
    CustomOutOfFlow,
}

impl InlineBoxKind {
    pub open spec fn spec_is_boundary(self) -> bool {
        self == InlineBoxKind::StartBoundary || self == InlineBoxKind::EndBoundary || self
            == InlineBoxKind::TextBoundary
    }

    pub open spec fn spec_is_inline_edge(self) -> bool {
        self == InlineBoxKind::StartBoundary || self == InlineBoxKind::EndBoundary
    }

    pub open spec fn spec_contributes_advance(self) -> bool {
        self == InlineBoxKind::InFlow || self.spec_is_inline_edge()
    }

    /// Whether the item is transparent to bidi analysis.
    pub fn is_boundary(self) -> (r: bool)
        ensures
            r == self.spec_is_boundary(),
    {
        matches!(
            self,
            InlineBoxKind::StartBoundary | InlineBoxKind::EndBoundary | InlineBoxKind::TextBoundary
        )
    }

    /// Whether the item is the opening or closing edge of a non-atomic inline.
    pub fn is_inline_edge(self) -> (r: bool)
        ensures
            r == self.spec_is_inline_edge(),
    {
        matches!(self, InlineBoxKind::StartBoundary | InlineBoxKind::EndBoundary)
    }

    /// Whether the item's width is part of the line's advance.
    pub fn contributes_advance(self) -> (r: bool)
        ensures
            r == self.spec_contributes_advance(),
    {
        matches!(
            self,
            InlineBoxKind::InFlow | InlineBoxKind::StartBoundary | InlineBoxKind::EndBoundary
        )
    }
}

/// A box to be laid out in line with text.
#[derive(Clone, Copy, Debug)]
pub struct InlineBox<T: Scalar> {
    /// Identifies the box to the caller.
    pub id: u64,
    /// What the box contributes to the flow.
    pub kind: InlineBoxKind,
    /// The byte offset in the text at which the box is placed; a character
    /// boundary.
    pub index: usize,
    /// The width of the box.
    pub width: T,
    /// The height of the box.
    pub height: T,
    /// The distance of the box's baseline from its top; the baseline is at
    /// the bottom edge where there is none.
    pub baseline: Option<T>,
}

impl<T: Scalar> InlineBox<T> {
    pub open spec fn spec_advance(self) -> T {
        if self.kind.spec_contributes_advance() {
            self.width
        } else {
            T::spec_zero()
        }
    }

    pub open spec fn spec_ascent(self) -> T {
        match self.baseline {
            Some(baseline) => baseline,
            None => self.height,
        }
    }

    /// The box's contribution to inline flow, which its own size need not be.
    pub fn advance(&self) -> (r: T)
        ensures
            r == self.spec_advance(),
    {
        if self.kind.contributes_advance() {
            self.width
        } else {
            T::zero()
        }
    }

    /// The extent of the box over the line's baseline.
    pub fn ascent(&self) -> (r: T)
        ensures
            r == self.spec_ascent(),
    {
        match self.baseline {
            Some(baseline) => baseline,
            None => self.height,
        }
    }
}

/// A box given to a builder, with the style that becomes current after it and
/// the embedding level that bidi analysis resolves for it.
#[derive(Clone, Copy, Debug)]
pub struct InlineBoxInput<T: Scalar> {
    pub inline_box: InlineBox<T>,
    pub style_after: Option<u16>,
    pub bidi_level: u8,
}

impl<T: Scalar> InlineBoxInput<T> {
    /// A box without a style transition, at level zero until it is resolved.
    pub fn new(inline_box: InlineBox<T>) -> (r: Self)
        ensures
            r == (InlineBoxInput { inline_box, style_after: None, bidi_level: 0 }),
    {
        InlineBoxInput { inline_box, style_after: None, bidi_level: 0 }
    }
}

/// The outermost inline edge that has opened without content since.
///
/// A break at a text position precedes its opening inline edges but follows
/// closing edges. The state before the outermost opening edge is kept until
/// content consumes it or all empty inlines inside it have closed.
#[derive(Clone, Copy, Debug)]
pub struct InlineBoundaryAffinity<C> {
    /// The state before the outermost open edge, and how many edges are open
    /// from it on.
    pub opening: Option<(C, usize)>,
}

impl<C> Default for InlineBoundaryAffinity<C> {
    /// No open edge.
    fn default() -> (r: Self)
        ensures
            r.wf(),
            r == Self::nothing(),
    {
        InlineBoundaryAffinity { opening: None }
    }
}

impl<C> InlineBoundaryAffinity<C> {
    /// No edge is open.
    pub open spec fn nothing() -> Self {
        InlineBoundaryAffinity { opening: None }
    }

    /// The state before the outermost open edge.
    pub open spec fn before(self) -> Option<C> {
        match self.opening {
            Some((before, _)) => Some(before),
            None => None,
        }
    }

    /// How many edges are open.
    pub open spec fn depth(self) -> nat {
        match self.opening {
            Some((_, depth)) => depth as nat,
            None => 0,
        }
    }

    /// An open edge is counted at least once.
    pub open spec fn wf(self) -> bool {
        self.opening is Some ==> self.depth() > 0
    }

    pub open spec fn opened(self, before: C) -> Self {
        InlineBoundaryAffinity {
            opening: match self.opening {
                Some((outermost, depth)) => Some((outermost, (depth + 1) as usize)),
                None => Some((before, 1)),
            },
        }
    }

    pub open spec fn after_close(self) -> Self {
        InlineBoundaryAffinity {
            opening: match self.opening {
                Some((outermost, depth)) => if depth <= 1 {
                    None
                } else {
                    Some((outermost, (depth - 1) as usize))
                },
                None => None,
            },
        }
    }

    /// An edge opens; `before` is the state before it.
    pub fn open(&mut self, before: C)
        requires
            old(self).depth() < usize::MAX,
        ensures
            *final(self) == old(self).opened(before),
            final(self).depth() == old(self).depth() + 1,
            final(self).before() == Some(
                match old(self).before() {
                    Some(outermost) => outermost,
                    None => before,
                },
            ),
            final(self).wf(),
    {
        if let Some((_, depth)) = &mut self.opening {
            *depth = *depth + 1;
        } else {
            self.opening = Some((before, 1));
        }
    }

    /// An edge closes.
    pub fn close(&mut self)
        ensures
            *final(self) == old(self).after_close(),
            old(self).wf() && old(self).depth() > 0 ==> final(self).depth() == old(self).depth()
                - 1,
            final(self).wf(),
    {
        let mut consumed = false;
        if let Some((_, depth)) = &mut self.opening {
            if *depth <= 1 {
                consumed = true;
            } else {
                *depth = *depth - 1;
            }
        }
        if consumed {
            self.opening = None;
        }
    }

    /// The state before the outermost open edge.
    pub fn before_opening(&self) -> (r: Option<&C>)
        ensures
            match self.before() {
                Some(before) => r == Some(&before),
                None => r == None::<&C>,
            },
    {
        match &self.opening {
            Some((before, _)) => Some(before),
            None => None,
        }
    }

    /// Content follows the open edges: a break no longer precedes them.
    pub fn consume_content(&mut self)
        ensures
            *final(self) == Self::nothing(),
    {
        self.opening = None;
    }

    /// The affinity after a number of edges have closed.
    pub open spec fn after_closes(self, count: nat) -> Self
        decreases count,
    {
        if count == 0 {
            self
        } else {
            self.after_close().after_closes((count - 1) as nat)
        }
    }
}

/// Closing right after opening restores the affinity, whatever it was.
pub proof fn lemma_close_undoes_open<C>(state: InlineBoundaryAffinity<C>, before: C)
    requires
        state.wf(),
        state.depth() < usize::MAX,
    ensures
        state.opened(before).after_close() == state,
{
}

/// Only the outermost open edge matters: opening an edge inside an open one
/// leaves the state before the outermost edge as it is.
pub proof fn lemma_inner_edges_keep_outermost<C>(state: InlineBoundaryAffinity<C>, inner: C)
    requires
        state.depth() > 0,
        state.depth() < usize::MAX,
    ensures
        state.opened(inner).before() == state.before(),
        state.opened(inner).depth() == state.depth() + 1,
{
}

/// The outermost opening is kept until as many edges have closed as are open.
pub proof fn lemma_opening_is_kept_until_closed<C>(state: InlineBoundaryAffinity<C>, count: nat)
    requires
        state.wf(),
    ensures
        count < state.depth() ==> state.after_closes(count).before() == state.before(),
        count >= state.depth() ==> state.after_closes(count) == InlineBoundaryAffinity::<
            C,
        >::nothing(),
    decreases count,
{
    if count > 0 {
        lemma_opening_is_kept_until_closed(state.after_close(), (count - 1) as nat);
    }
}

} // verus!
