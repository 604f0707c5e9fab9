//! Lines of text are filled as far as they can be, and no further.

use crate::layout::break_lines::{Progress, YieldData};
use crate::layout::coverage;
use crate::layout::data::{BreakReason, LayoutData, LineData};
use crate::layout::lengths;
use crate::layout::lengths::{has_whole_breaks, is_forced_break, lengths_fit, text_steps};
use crate::layout::measured;
use crate::layout::scan;
use crate::layout::scan::Flow;
use crate::layout::shaped::{Boundary, Character, Whitespace};
use crate::layout::state::{BreakerState, LineState, PrevBoundaryState};
use crate::scalar::{Fixed, Scalar};
use crate::style::{OverflowWrap, Style, TextWrapMode, WhiteSpaceCollapse};
use vstd::prelude::*;

verus! {

// ---------------------------------------------------------------------------
// Text and its opportunities.

/// The number of clusters of the text.
pub open spec fn text_end(layout: LayoutData<Fixed>) -> int {
    layout.shaped_text.clusters@.len() as int
}

/// The paragraph is all of its text and nothing else, in runs that end between
/// graphemes. No style is `break-spaces`.
pub open spec fn is_plain_text(layout: LayoutData<Fixed>) -> bool {
    &&& forall|item: int|
        0 <= item < layout.items@.len() ==> #[trigger] layout.spec_is_text(item)
            && measured::ends_at_grapheme(layout, item)
    &&& layout.clusters_before(layout.items@.len() as int) == text_end(layout)
    &&& forall|i: int|
        0 <= i < layout.styles@.len() ==> (#[trigger] layout.styles@[i]).white_space_collapse
            != WhiteSpaceCollapse::BreakSpaces
}

/// A grapheme starts at the cluster.
pub open spec fn starts_grapheme(layout: LayoutData<Fixed>, cluster: int) -> bool {
    cluster == 0 || cluster == text_end(layout)
        || layout.shaped_text.clusters@[cluster].grapheme_start
}

/// The first cluster of the grapheme that a cluster is in.
pub open spec fn grapheme_of(layout: LayoutData<Fixed>, cluster: int) -> int
    decreases cluster,
{
    if cluster <= 0 || layout.shaped_text.clusters@[cluster].grapheme_start {
        cluster
    } else {
        grapheme_of(layout, cluster - 1)
    }
}

/// The first character of the grapheme that a cluster is in.
pub open spec fn character_at(layout: LayoutData<Fixed>, cluster: int) -> Character {
    let text = layout.shaped_text;
    text.characters@[text.clusters@[grapheme_of(layout, cluster)].chars.start as int]
}

/// The style of the grapheme that a cluster is in.
pub open spec fn style_at(layout: LayoutData<Fixed>, cluster: int) -> Style<Fixed> {
    layout.styles@[character_at(layout, cluster).style_index as int]
}

/// Where the grapheme that starts at a cluster ends.
pub open spec fn grapheme_end(layout: LayoutData<Fixed>, cluster: int) -> int
    decreases text_end(layout) - cluster,
{
    if cluster + 1 >= text_end(layout) || layout.shaped_text.clusters@[cluster
        + 1].grapheme_start {
        cluster + 1
    } else {
        grapheme_end(layout, cluster + 1)
    }
}

/// The text before the cluster permits wrapping after it.
pub open spec fn wraps_before(layout: LayoutData<Fixed>, cluster: int) -> bool {
    style_at(layout, cluster - 1).text_wrap_mode == TextWrapMode::Wrap
}

/// A line that starts at `start` can be wrapped before the cluster `at`: at a
/// soft wrap opportunity, or inside a word in an emergency. Only a line with an
/// advance can be.
pub open spec fn can_wrap(
    layout: LayoutData<Fixed>,
    start: int,
    at: int,
    emergency: bool,
) -> bool {
    &&& start < at < text_end(layout)
    &&& starts_grapheme(layout, at)
    &&& !is_forced_break(layout, at)
    &&& wraps_before(layout, at)
    &&& text_steps(layout, start, at) != 0
    &&& if emergency {
        &&& character_at(layout, at).boundary != Boundary::Line
        &&& style_at(layout, at).overflow_wrap != OverflowWrap::Normal
    } else {
        character_at(layout, at).boundary == Boundary::Line
    }
}

/// The line cannot be wrapped after `from` and before `to`.
pub open spec fn cannot_wrap(
    layout: LayoutData<Fixed>,
    start: int,
    from: int,
    to: int,
    emergency: bool,
) -> bool {
    forall|at: int| from < at < to ==> !#[trigger] can_wrap(layout, start, at, emergency)
}

/// White space that hangs or is removed at the end of a line: collapsible white
/// space, and preserved white space that may wrap.
pub open spec fn hangs_at_end(layout: LayoutData<Fixed>, cluster: int) -> bool {
    let first = character_at(layout, cluster);
    let style = style_at(layout, cluster);
    &&& first.whitespace == Whitespace::Space || first.whitespace == Whitespace::Tab
        || first.source_char == '\u{3000}'
    &&& match style.white_space_collapse {
        WhiteSpaceCollapse::Collapse | WhiteSpaceCollapse::PreserveBreaks => true,
        WhiteSpaceCollapse::Preserve | WhiteSpaceCollapse::PreserveSpaces => style.text_wrap_mode
            == TextWrapMode::Wrap,
        WhiteSpaceCollapse::BreakSpaces => false,
    }
}

/// The grapheme at the cluster is a carriage return with its line feed after
/// it.
pub open spec fn is_first_of_pair(layout: LayoutData<Fixed>, cluster: int) -> bool {
    let text = layout.shaped_text;
    let last = text.clusters@[grapheme_end(layout, cluster) - 1].chars.end as int;
    &&& grapheme_end(layout, cluster) < text_end(layout)
    &&& text.characters@[last - 1].source_char == '\r'
    &&& last < text.characters@.len()
    &&& text.characters@[last].whitespace == Whitespace::Newline
    &&& text.characters@[last].source_char == '\n'
}

// ---------------------------------------------------------------------------
// What a line is to be.

/// A line from `start` on does not overflow at a grapheme, or could not have
/// been wrapped before it.
pub open spec fn fits_or_cannot_wrap(
    layout: LayoutData<Fixed>,
    start: int,
    at: int,
    limit: int,
) -> bool {
    starts_grapheme(layout, at) && !hangs_at_end(layout, at) && !is_forced_break(layout, at)
        && text_steps(layout, start, grapheme_end(layout, at)) > limit ==> {
        &&& cannot_wrap(layout, start, start, at + 1, false)
        &&& cannot_wrap(layout, start, start, at + 1, true)
    }
}

/// A forced break ends the line, unless it is the first of a pair.
pub open spec fn ends_at_forced_break(
    layout: LayoutData<Fixed>,
    at: int,
    end: int,
) -> bool {
    starts_grapheme(layout, at) && is_forced_break(layout, at) ==> grapheme_end(layout, at) == end
        || is_first_of_pair(layout, at)
}

/// The grapheme at `at` does not fit on the line, and no forced break is before
/// it.
pub open spec fn overflows_at(
    layout: LayoutData<Fixed>,
    start: int,
    at: int,
    limit: int,
) -> bool {
    &&& start < at < text_end(layout)
    &&& starts_grapheme(layout, at)
    &&& !is_forced_break(layout, at)
    &&& !hangs_at_end(layout, at) || !wraps_before(layout, at)
    &&& text_steps(layout, start, grapheme_end(layout, at)) > limit
    &&& forall|c: int|
        start <= c < at && starts_grapheme(layout, c) && #[trigger] is_forced_break(layout, c)
            ==> is_first_of_pair(layout, c)
}

/// The line `start..end` of a paragraph is as long as it can be for an advance
/// of `limit`:
///
/// - Nothing on it but white space at its end overflows, unless the line could
///   not have been wrapped before that.
/// - It contains no forced break but at its end.
/// - It is wrapped only if the text up to the next opportunity overflows; inside
///   a word only if there is no other opportunity.
pub open spec fn is_filled(
    layout: LayoutData<Fixed>,
    start: int,
    end: int,
    limit: int,
    reason: BreakReason,
) -> bool {
    &&& start <= end <= text_end(layout)
    &&& forall|at: int| start <= at < end ==> #[trigger] fits_or_cannot_wrap(
        layout,
        start,
        at,
        limit,
    )
    &&& forall|at: int| start <= at < end ==> #[trigger] ends_at_forced_break(layout, at, end)
    &&& match reason {
        BreakReason::Regular => {
            &&& can_wrap(layout, start, end, false)
            &&& exists|at: int|
                end <= at && #[trigger] overflows_at(layout, start, at, limit) && cannot_wrap(
                    layout,
                    start,
                    end,
                    at + 1,
                    false,
                )
        },
        BreakReason::Emergency => {
            &&& can_wrap(layout, start, end, true)
            &&& exists|at: int|
                end <= at && #[trigger] overflows_at(layout, start, at, limit) && cannot_wrap(
                    layout,
                    start,
                    end,
                    at + 1,
                    true,
                ) && cannot_wrap(layout, start, start, at + 1, false)
        },
        BreakReason::Explicit => {
            &&& start < end
            &&& is_forced_break(layout, end - 1)
            &&& !is_first_of_pair(layout, grapheme_of(layout, end - 1))
        },
        BreakReason::NoBreak => {
            &&& end == text_end(layout)
            &&& start < end ==> !is_forced_break(layout, end - 1)
        },
    }
}

// ---------------------------------------------------------------------------
// Graphemes.

pub(crate) proof fn lemma_grapheme(layout: LayoutData<Fixed>, from: int, at: int)
    requires
        0 <= from <= at < text_end(layout),
        has_whole_breaks(layout),
        grapheme_of(layout, at) == from,
        is_forced_break(layout, at) == is_forced_break(layout, from),
    ensures
        ({
            let end = grapheme_end(layout, at);
            &&& at < end <= text_end(layout)
            &&& end == layout.shaped_text.atom_end(at, text_end(layout))
            &&& starts_grapheme(layout, end)
            &&& grapheme_of(layout, end - 1) == from
            &&& is_forced_break(layout, end - 1) == is_forced_break(layout, from)
            &&& forall|c: int| at < c < end ==> !#[trigger] starts_grapheme(layout, c)
        }),
    decreases text_end(layout) - at,
{
    let next = at + 1;
    if next < text_end(layout) && !layout.shaped_text.clusters@[next].grapheme_start {
        lemma_grapheme(layout, from, next);
    }
}

/// The grapheme at the cursor is the atom there.
pub(crate) proof fn lemma_grapheme_is_atom(layout: LayoutData<Fixed>, item: int, at: int)
    requires
        layout.wf(),
        is_plain_text(layout),
        has_whole_breaks(layout),
        lengths_fit(layout),
        0 <= item < layout.items@.len(),
        layout.clusters_before(item) <= at < layout.text_end(item),
        starts_grapheme(layout, at),
    ensures
        ({
            let run = layout.items@[item].index as int;
            let end = grapheme_end(layout, at);
            let info = scan::atom_info(layout, run, at);
            &&& end == layout.shaped_text.atom_end(at, layout.text_end(item))
            &&& end == info.atom.clusters.end
            &&& at < end <= layout.text_end(item) <= text_end(layout)
            &&& layout.text_end(item) == layout.clusters_before(item + 1)
            &&& starts_grapheme(layout, end)
            &&& info.first == character_at(layout, at)
            &&& info.style == style_at(layout, at)
            &&& style_at(layout, end - 1) == style_at(layout, at)
            &&& info.is_newline() == is_forced_break(layout, at)
            &&& is_forced_break(layout, end - 1) == is_forced_break(layout, at)
            &&& grapheme_of(layout, end - 1) == at
            &&& info.hangs_or_is_removed() == hangs_at_end(layout, at)
            &&& !info.is_break_spaces_space()
            &&& !info.is_newline() ==> info.atom.advance.steps == text_steps(layout, at, end)
            &&& info.is_newline() ==> text_steps(layout, at, end) == 0
            &&& info.is_newline() ==> info.first.boundary != Boundary::Line
            &&& forall|c: int| at < c < end ==> !#[trigger] starts_grapheme(layout, c)
        }),
{
    let run = layout.items@[item].index as int;
    coverage::lemma_run_bounds(layout, item);
    layout.lemma_clusters_before_bound(item + 1);
    assert(layout.spec_is_text(item));
    let end = layout.text_end(item);
    assert(grapheme_of(layout, at) == at);
    lemma_grapheme(layout, at, at);
    measured::lemma_atom_end_in_text(layout, at, end);
    layout.shaped_text.lemma_atom_end(at, end);
    lengths::lemma_atom_steps(layout, at, end);
    assert(layout.shaped_text.clusters@[at].chars.start < layout.shaped_text.characters@.len());
    let first = character_at(layout, at);
    assert(first.style_index < layout.styles@.len());
    assert(layout.styles@[first.style_index as int].white_space_collapse
        != WhiteSpaceCollapse::BreakSpaces);
}

// ---------------------------------------------------------------------------
// Filling a line.

/// The item at a position of the text.
spec fn is_position(layout: LayoutData<Fixed>, item: int, at: int) -> bool {
    &&& 0 <= item <= layout.items@.len()
    &&& layout.clusters_before(item) <= at <= text_end(layout)
    &&& item < layout.items@.len() ==> at <= layout.clusters_before(item + 1)
    &&& starts_grapheme(layout, at)
}

/// The line up to a position.
spec fn is_line_up_to(
    layout: LayoutData<Fixed>,
    line: LineState<Fixed>,
    start: int,
    at: int,
) -> bool {
    &&& line.clusters.start == start
    &&& line.clusters.end == at
    &&& line.x.steps == text_steps(layout, start, at)
    &&& !line.max_height_exceeded
    &&& line.has_content == (start < at)
}

/// What has been put on the line so far is as it is to be.
#[verifier::opaque]
spec fn is_filled_so_far(layout: LayoutData<Fixed>, start: int, at: int, limit: int) -> bool {
    &&& forall|c: int| start <= c < at ==> #[trigger] fits_or_cannot_wrap(
        layout,
        start,
        c,
        limit,
    )
    &&& forall|c: int|
        start <= c < at && starts_grapheme(layout, c) && #[trigger] is_forced_break(layout, c)
            ==> is_first_of_pair(layout, c)
}

/// The remembered opportunity is the last one before the cluster `at`.
#[verifier::opaque]
spec fn is_last_opportunity(
    layout: LayoutData<Fixed>,
    boundary: Option<PrevBoundaryState<Fixed>>,
    start: int,
    at: int,
    emergency: bool,
) -> bool {
    match boundary {
        Some(boundary) => {
            let place = boundary.cluster_idx as int;
            &&& place < at
            &&& can_wrap(layout, start, place, emergency)
            &&& cannot_wrap(layout, start, place, at, emergency)
            &&& is_position(layout, boundary.item_idx as int, place)
            &&& is_line_up_to(layout, boundary.state, start, place)
        },
        None => cannot_wrap(layout, start, start, at, emergency),
    }
}

/// The state of the breaker while it fills a line from `start` on.
#[verifier::opaque]
spec fn is_filling(
    layout: LayoutData<Fixed>,
    state: BreakerState<Fixed>,
    start: int,
    limit: int,
) -> bool {
    let at = state.cluster_idx as int;
    &&& 0 <= start <= at
    &&& starts_grapheme(layout, start)
    &&& is_position(layout, state.item_idx as int, at)
    &&& is_line_up_to(layout, state.line, start, at)
    &&& start < at ==> state.line.text_wrap_mode == style_at(layout, at - 1).text_wrap_mode
    &&& is_filled_so_far(layout, start, at, limit)
    &&& is_last_opportunity(layout, state.prev_boundary, start, at, false)
    &&& is_last_opportunity(layout, state.emergency_boundary, start, at, true)
    &&& state.pending_inline_start.opening is None
    &&& state.line_max_height.steps == i64::MAX
}

/// What a step leads to.
spec fn is_step(
    layout: LayoutData<Fixed>,
    step: scan::Step<Fixed>,
    start: int,
    limit: int,
) -> bool {
    match step.flow {
        Flow::Continue => is_filling(layout, step.state, start, limit),
        Flow::Break(reason) => {
            let end = step.state.cluster_idx as int;
            &&& reason != BreakReason::NoBreak
            &&& is_filled(layout, start, end, limit, reason)
            &&& is_position(layout, step.state.item_idx as int, end)
            &&& is_line_up_to(layout, step.state.line, start, end)
            &&& step.state.line_max_height.steps == i64::MAX
        },
        _ => false,
    }
}

/// The state in which the grapheme at the cursor is looked at: the opportunity
/// before it counts.
spec fn has_entered(
    layout: LayoutData<Fixed>,
    state: BreakerState<Fixed>,
    start: int,
    limit: int,
) -> bool {
    let at = state.cluster_idx as int;
    &&& 0 <= start <= at
    &&& starts_grapheme(layout, start)
    &&& is_position(layout, state.item_idx as int, at)
    &&& is_line_up_to(layout, state.line, start, at)
    &&& state.line.text_wrap_mode == style_at(layout, at).text_wrap_mode
    &&& is_filled_so_far(layout, start, at, limit)
    &&& is_last_opportunity(layout, state.prev_boundary, start, at + 1, false)
    &&& is_last_opportunity(layout, state.emergency_boundary, start, at + 1, true)
    &&& state.pending_inline_start.opening is None
    &&& state.line_max_height.steps == i64::MAX
}

proof fn lemma_no_opportunity(
    layout: LayoutData<Fixed>,
    boundary: Option<PrevBoundaryState<Fixed>>,
    start: int,
    at: int,
    emergency: bool,
)
    requires
        is_last_opportunity(layout, boundary, start, at, emergency),
        !can_wrap(layout, start, at, emergency),
    ensures
        is_last_opportunity(layout, boundary, start, at + 1, emergency),
{
    reveal(is_last_opportunity);
}

proof fn lemma_opportunity(
    layout: LayoutData<Fixed>,
    boundary: PrevBoundaryState<Fixed>,
    start: int,
    emergency: bool,
)
    requires
        can_wrap(layout, start, boundary.cluster_idx as int, emergency),
        is_position(layout, boundary.item_idx as int, boundary.cluster_idx as int),
        is_line_up_to(layout, boundary.state, start, boundary.cluster_idx as int),
    ensures
        is_last_opportunity(
            layout,
            Some(boundary),
            start,
            boundary.cluster_idx + 1,
            emergency,
        ),
{
    reveal(is_last_opportunity);
}

/// Where a line is while it is filled.
proof fn lemma_filling(
    layout: LayoutData<Fixed>,
    state: BreakerState<Fixed>,
    start: int,
    limit: int,
)
    requires
        is_filling(layout, state, start, limit),
    ensures
        ({
            let at = state.cluster_idx as int;
            &&& 0 <= start <= at
            &&& starts_grapheme(layout, start)
            &&& is_position(layout, state.item_idx as int, at)
            &&& is_line_up_to(layout, state.line, start, at)
            &&& start < at ==> state.line.text_wrap_mode == style_at(
                layout,
                at - 1,
            ).text_wrap_mode
            &&& state.pending_inline_start.opening is None
            &&& state.line_max_height.steps == i64::MAX
            &&& is_filled_so_far(layout, start, at, limit)
            &&& is_last_opportunity(layout, state.prev_boundary, start, at, false)
            &&& is_last_opportunity(layout, state.emergency_boundary, start, at, true)
        }),
{
    reveal(is_filling);
}

proof fn lemma_enter(
    layout: LayoutData<Fixed>,
    before: BreakerState<Fixed>,
    start: int,
    limit: int,
)
    requires
        layout.wf(),
        is_plain_text(layout),
        has_whole_breaks(layout),
        lengths_fit(layout),
        is_filling(layout, before, start, limit),
        before.item_idx < layout.items@.len(),
        before.cluster_idx < layout.text_end(before.item_idx as int),
        !is_forced_break(layout, before.cluster_idx as int),
    ensures
        ({
            let item = before.item_idx as int;
            let info = scan::atom_info(
                layout,
                layout.items@[item].index as int,
                before.cluster_idx as int,
            );
            let state = scan::with_opportunity_before_atom(before, info);
            &&& has_entered(layout, state, start, limit)
            &&& state.item_idx == before.item_idx
            &&& state.cluster_idx == before.cluster_idx
            &&& start < before.cluster_idx ==> (before.line.text_wrap_mode == TextWrapMode::Wrap)
                == wraps_before(layout, before.cluster_idx as int)
        }),
{
    let item = before.item_idx as int;
    let at = before.cluster_idx as int;
    lemma_filling(layout, before, start, limit);
    lemma_grapheme_is_atom(layout, item, at);
    let info = scan::atom_info(layout, layout.items@[item].index as int, at);
    let state = scan::with_opportunity_before_atom(before, info);
    let here = scan::entering_atom(before, info).spec_boundary_state();
    assert(text_steps(layout, at, at) == 0);
    let wraps = start < at && before.line.text_wrap_mode == TextWrapMode::Wrap
        && before.line.x.steps != 0;
    assert(can_wrap(layout, start, at, false) == (wraps && info.first.boundary
        == Boundary::Line));
    assert(can_wrap(layout, start, at, true) == (wraps && info.first.boundary != Boundary::Line
        && info.style.overflow_wrap != OverflowWrap::Normal));
    if can_wrap(layout, start, at, false) {
        let boundary = state.prev_boundary->0;
        assert(boundary.state == here.state);
        lemma_opportunity(layout, boundary, start, false);
    } else {
        lemma_no_opportunity(layout, before.prev_boundary, start, at, false);
    }
    if can_wrap(layout, start, at, true) {
        let boundary = state.emergency_boundary->0;
        assert(boundary.state == here.state);
        lemma_opportunity(layout, boundary, start, true);
    } else {
        lemma_no_opportunity(layout, before.emergency_boundary, start, at, true);
    }
}

/// The state after the grapheme at the cursor has been put on the line.
proof fn lemma_put_on_line(
    layout: LayoutData<Fixed>,
    entered: BreakerState<Fixed>,
    next: BreakerState<Fixed>,
    start: int,
    limit: int,
)
    requires
        layout.wf(),
        is_plain_text(layout),
        has_whole_breaks(layout),
        lengths_fit(layout),
        has_entered(layout, entered, start, limit),
        entered.item_idx < layout.items@.len(),
        entered.cluster_idx < layout.text_end(entered.item_idx as int),
        fits_or_cannot_wrap(layout, start, entered.cluster_idx as int, limit),
        is_forced_break(layout, entered.cluster_idx as int) ==> is_first_of_pair(
            layout,
            entered.cluster_idx as int,
        ),
        ({
            let end = grapheme_end(layout, entered.cluster_idx as int);
            &&& next.cluster_idx == end
            &&& next.item_idx == entered.item_idx
            &&& next.line.clusters.start == entered.line.clusters.start
            &&& next.line.clusters.end == end
            &&& next.line.x.steps == text_steps(layout, start, end)
            &&& !next.line.max_height_exceeded
            &&& next.line.has_content
            &&& next.line.text_wrap_mode == entered.line.text_wrap_mode
            &&& next.prev_boundary == entered.prev_boundary
            &&& next.emergency_boundary == entered.emergency_boundary
            &&& next.pending_inline_start.opening is None
            &&& next.line_max_height == entered.line_max_height
        }),
    ensures
        is_filling(layout, next, start, limit),
{
    reveal(is_filling);
    let at = entered.cluster_idx as int;
    let end = grapheme_end(layout, at);
    lemma_grapheme_is_atom(layout, entered.item_idx as int, at);
    reveal(is_filled_so_far);
    assert forall|c: int| start <= c < end implies #[trigger] fits_or_cannot_wrap(
        layout,
        start,
        c,
        limit,
    ) by {
        if c > at {
            assert(!starts_grapheme(layout, c));
        }
    }
    assert forall|c: int|
        start <= c < end && starts_grapheme(layout, c) && #[trigger] is_forced_break(
            layout,
            c,
        ) implies is_first_of_pair(layout, c) by {
        if c > at {
            assert(!starts_grapheme(layout, c));
        }
    }
    lemma_opportunities_go_on(layout, next.prev_boundary, start, at, end, false);
    lemma_opportunities_go_on(layout, next.emergency_boundary, start, at, end, true);
}

/// There is no opportunity inside a grapheme.
proof fn lemma_opportunities_go_on(
    layout: LayoutData<Fixed>,
    boundary: Option<PrevBoundaryState<Fixed>>,
    start: int,
    at: int,
    end: int,
    emergency: bool,
)
    requires
        is_last_opportunity(layout, boundary, start, at + 1, emergency),
        at < end,
        forall|c: int| at < c < end ==> !#[trigger] starts_grapheme(layout, c),
    ensures
        is_last_opportunity(layout, boundary, start, end, emergency),
{
    reveal(is_last_opportunity);
    let from = match boundary {
        Some(boundary) => boundary.cluster_idx as int,
        None => start,
    };
    assert forall|c: int| from < c < end implies !#[trigger] can_wrap(
        layout,
        start,
        c,
        emergency,
    ) by {
        if c > at {
            assert(!starts_grapheme(layout, c));
        }
    }
}

/// The line is wrapped at the last opportunity before a grapheme that does not
/// fit.
proof fn lemma_wrap(
    layout: LayoutData<Fixed>,
    entered: BreakerState<Fixed>,
    taken: BreakerState<Fixed>,
    boundary: PrevBoundaryState<Fixed>,
    start: int,
    limit: int,
    emergency: bool,
)
    requires
        has_entered(layout, entered, start, limit),
        Some(boundary) == if emergency {
            entered.emergency_boundary
        } else {
            entered.prev_boundary
        },
        emergency ==> entered.prev_boundary is None,
        taken.line_max_height == entered.line_max_height,
        overflows_at(layout, start, entered.cluster_idx as int, limit),
    ensures
        is_step(
            layout,
            scan::break_at(
                taken,
                boundary,
                if emergency {
                    BreakReason::Emergency
                } else {
                    BreakReason::Regular
                },
            ),
            start,
            limit,
        ),
{
    let at = entered.cluster_idx as int;
    let end = boundary.cluster_idx as int;
    reveal(is_filled_so_far);
    reveal(is_last_opportunity);
    assert(overflows_at(layout, start, at, limit));
    assert forall|c: int| start <= c < end implies #[trigger] ends_at_forced_break(
        layout,
        c,
        end,
    ) by {
        if is_forced_break(layout, c) {
        }
    }
}

/// A line that can be wrapped before a grapheme is longer than nothing.
proof fn lemma_overflow(
    layout: LayoutData<Fixed>,
    entered: BreakerState<Fixed>,
    start: int,
    limit: int,
)
    requires
        has_entered(layout, entered, start, limit),
        entered.prev_boundary is Some || entered.emergency_boundary is Some,
    ensures
        start < entered.cluster_idx,
        forall|c: int|
            start <= c < entered.cluster_idx && starts_grapheme(layout, c)
                && #[trigger] is_forced_break(layout, c) ==> is_first_of_pair(layout, c),
{
    reveal(is_last_opportunity);
    reveal(is_filled_so_far);
}

proof fn lemma_text_step(
    layout: LayoutData<Fixed>,
    before: BreakerState<Fixed>,
    start: int,
    max_advance: Fixed,
)
    requires
        layout.wf(),
        is_plain_text(layout),
        has_whole_breaks(layout),
        lengths_fit(layout),
        is_filling(layout, before, start, max_advance.steps as int),
        before.item_idx < layout.items@.len(),
        before.cluster_idx < layout.text_end(before.item_idx as int),
    ensures
        ({
            let item = before.item_idx as int;
            let at = before.cluster_idx as int;
            let run = layout.items@[item].index as int;
            let step = scan::text_step(
                layout,
                before,
                scan::atom_info(layout, run, at),
                max_advance,
            );
            &&& is_step(layout, step, start, max_advance.steps as int)
            &&& step.flow is Continue ==> step.state.item_idx == item && step.state.cluster_idx
                == layout.shaped_text.atom_end(at, layout.text_end(item))
        }),
{
    let item = before.item_idx as int;
    let at = before.cluster_idx as int;
    let run = layout.items@[item].index as int;
    let limit = max_advance.steps as int;
    let info = scan::atom_info(layout, run, at);
    lemma_filling(layout, before, start, limit);
    lemma_grapheme_is_atom(layout, item, at);
    let end = grapheme_end(layout, at);
    lengths::lemma_text_steps_adjacent(layout, start, at, end);
    lengths::lemma_parts_fit(layout, 0, 0, start, end);
    if info.is_newline() {
        lemma_newline_step(layout, before, start, max_advance);
    } else {
        lemma_enter(layout, before, start, limit);
        let state = scan::with_opportunity_before_atom(before, info);
        let step = scan::text_step(layout, before, info, max_advance);
        let next_x = state.line.x.spec_plus(info.atom.advance);
        assert(next_x.steps == text_steps(layout, start, end));
        assert(at == start ==> text_steps(layout, start, at) == 0);
        if next_x.steps <= limit {
            assert(fits_or_cannot_wrap(layout, start, at, limit));
            lemma_put_on_line(layout, state, step.state, start, limit);
        } else if info.hangs_or_is_removed() && before.line.text_wrap_mode
            == TextWrapMode::Wrap {
            assert(fits_or_cannot_wrap(layout, start, at, limit));
            lemma_put_on_line(layout, state, step.state, start, limit);
        } else {
            let taken = BreakerState { prev_boundary: None, ..state };
            let emergency = BreakerState { emergency_boundary: None, ..state };
            match (state.prev_boundary, state.emergency_boundary) {
                (Some(boundary), _) => {
                    lemma_overflow(layout, state, start, limit);
                    lemma_wrap(layout, state, taken, boundary, start, limit, false);
                },
                (None, Some(boundary)) => {
                    lemma_overflow(layout, state, start, limit);
                    lemma_wrap(layout, state, emergency, boundary, start, limit, true);
                },
                _ => {
                    assert(fits_or_cannot_wrap(layout, start, at, limit)) by {
                        reveal(is_last_opportunity);
                    }
                    lemma_put_on_line(layout, state, step.state, start, limit);
                },
            }
        }
    }
}

proof fn lemma_newline_step(
    layout: LayoutData<Fixed>,
    before: BreakerState<Fixed>,
    start: int,
    max_advance: Fixed,
)
    requires
        layout.wf(),
        is_plain_text(layout),
        has_whole_breaks(layout),
        lengths_fit(layout),
        is_filling(layout, before, start, max_advance.steps as int),
        before.item_idx < layout.items@.len(),
        before.cluster_idx < layout.text_end(before.item_idx as int),
        is_forced_break(layout, before.cluster_idx as int),
    ensures
        ({
            let item = before.item_idx as int;
            let at = before.cluster_idx as int;
            let run = layout.items@[item].index as int;
            let step = scan::text_step(
                layout,
                before,
                scan::atom_info(layout, run, at),
                max_advance,
            );
            &&& is_step(layout, step, start, max_advance.steps as int)
            &&& step.flow is Continue ==> step.state.item_idx == item && step.state.cluster_idx
                == layout.shaped_text.atom_end(at, layout.text_end(item))
        }),
{
    let item = before.item_idx as int;
    let at = before.cluster_idx as int;
    let run = layout.items@[item].index as int;
    let limit = max_advance.steps as int;
    let info = scan::atom_info(layout, run, at);
    lemma_filling(layout, before, start, limit);
    lemma_grapheme_is_atom(layout, item, at);
    let end = grapheme_end(layout, at);
    let state = scan::entering_atom(before, info);
    let step = scan::text_step(layout, before, info, max_advance);
    lemma_no_opportunity(layout, before.prev_boundary, start, at, false);
    lemma_no_opportunity(layout, before.emergency_boundary, start, at, true);
    assert(has_entered(layout, state, start, limit));
    lengths::lemma_text_steps_adjacent(layout, start, at, end);
    let next_item = item + 1;
    if next_item < layout.items@.len() {
        assert(layout.spec_is_text(next_item));
        coverage::lemma_run_bounds(layout, next_item);
        layout.lemma_clusters_before_monotone(next_item + 1, layout.items@.len() as int);
    }
    assert(scan::is_cr_before_lf(layout, state, info) == is_first_of_pair(layout, at));
    assert(fits_or_cannot_wrap(layout, start, at, limit));
    if step.flow is Continue {
        lemma_put_on_line(layout, state, step.state, start, limit);
    } else {
        reveal(is_filled_so_far);
        assert forall|c: int| start <= c < end implies #[trigger] fits_or_cannot_wrap(
            layout,
            start,
            c,
            limit,
        ) by {
            if c > at {
                assert(!starts_grapheme(layout, c));
            }
        }
        assert forall|c: int| start <= c < end implies #[trigger] ends_at_forced_break(
            layout,
            c,
            end,
        ) by {
            if c > at {
                assert(!starts_grapheme(layout, c));
            } else if c < at && is_forced_break(layout, c) {
            }
        }
    }
}

proof fn lemma_scan_run(
    layout: LayoutData<Fixed>,
    state: BreakerState<Fixed>,
    start: int,
    max_advance: Fixed,
)
    requires
        layout.wf(),
        is_plain_text(layout),
        has_whole_breaks(layout),
        lengths_fit(layout),
        is_filling(layout, state, start, max_advance.steps as int),
        state.item_idx < layout.items@.len(),
    ensures
        ({
            let item = state.item_idx as int;
            let run = layout.items@[item].index as int;
            let step = scan::scan_run(
                layout,
                state,
                run,
                state.cluster_idx as int,
                max_advance,
            );
            &&& is_step(layout, step, start, max_advance.steps as int)
            &&& step.flow is Continue ==> step.state.item_idx == item && step.state.cluster_idx
                >= layout.text_end(item)
        }),
    decreases layout.text_end(state.item_idx as int) - state.cluster_idx,
{
    let item = state.item_idx as int;
    let run = layout.items@[item].index as int;
    let at = state.cluster_idx as int;
    if at < layout.text_end(item) {
        lemma_text_step(layout, state, start, max_advance);
        let step = scan::text_step(layout, state, scan::atom_info(layout, run, at), max_advance);
        if step.flow is Continue {
            layout.shaped_text.lemma_atom_end(at, layout.text_end(item));
            lemma_scan_run(layout, step.state, start, max_advance);
        }
    }
}

proof fn lemma_scan(
    layout: LayoutData<Fixed>,
    state: BreakerState<Fixed>,
    start: int,
    max_advance: Fixed,
)
    requires
        layout.wf(),
        is_plain_text(layout),
        has_whole_breaks(layout),
        lengths_fit(layout),
        is_filling(layout, state, start, max_advance.steps as int),
    ensures
        ({
            let step = scan::scan(layout, state, state.item_idx as int, max_advance);
            &&& is_step(layout, step, start, max_advance.steps as int)
            &&& step.flow is Continue ==> step.state.item_idx == layout.items@.len()
        }),
    decreases layout.items@.len() - state.item_idx,
{
    let item = state.item_idx as int;
    if item < layout.items@.len() {
        assert(layout.spec_is_text(item));
        lemma_scan_run(layout, state, start, max_advance);
        let run = layout.items@[item].index as int;
        let step = scan::scan_run(layout, state, run, state.cluster_idx as int, max_advance);
        if step.flow is Continue {
            let next = scan::after_run(step.state);
            coverage::lemma_run_bounds(layout, item);
            assert(is_filling(layout, next, start, max_advance.steps as int)) by {
                reveal(is_filling);
                if item + 1 < layout.items@.len() {
                    layout.lemma_clusters_before_monotone(item + 1, item + 2);
                }
            }
            lemma_scan(layout, next, start, max_advance);
        }
    } else {
        reveal(is_filling);
    }
}

// ---------------------------------------------------------------------------
// Lines.

/// The line is to be indented: the first line and, if so asked for, each line
/// after a forced break; with hanging indents the other lines instead.
pub open spec fn is_indented<T: Scalar>(
    layout: LayoutData<T>,
    lines: Seq<LineData<T>>,
    line: int,
) -> bool {
    let begins = line == 0 || (layout.indent_options.each_line && lines[line - 1].break_reason
        == BreakReason::Explicit);
    if layout.indent_options.hanging {
        !begins
    } else {
        begins
    }
}

/// Every line of a layout with text or boxes is broken for the advance available
/// to the breaker, less the indent of the line, whatever the line before it. An
/// indented line has the layout's indent, another line none.
pub proof fn lemma_line_is_broken_for_its_limit<T: Scalar>(
    layout: LayoutData<T>,
    progress: Progress<T>,
)
    requires
        layout.text_len > 0 || layout.inline_boxes@.len() > 0,
        !progress.done,
    ensures
        ({
            let (next, yielded) = progress.next(layout);
            let line = next.lines.last();
            yielded matches Some(YieldData::LineBreak(data)) ==> {
                &&& next.lines.drop_last() == progress.lines
                &&& line.max_advance == progress.state.line_max_advance.spec_minus(line.indent)
                &&& line.indent == if is_indented(
                    layout,
                    next.lines,
                    progress.lines.len() as int,
                ) {
                    layout.indent_amount
                } else {
                    T::spec_zero()
                }
                &&& line.break_reason == data.reason
                &&& data.advance == line.metrics.advance
                &&& data.line_height == line.metrics.line_height
                &&& data.line_y_start == progress.state.line_y
                &&& data.line_y_end == next.state.line_y
                &&& next.done == (data.reason == BreakReason::NoBreak)
            }
        }),
{
    let (next, yielded) = progress.next(layout);
    let available = progress.available(layout);
    let indent = progress.indent(layout);
    let step = scan::scan(layout, progress.state, progress.state.item_idx as int, available);
    lemma_scan_has_a_reason(layout, progress.state, progress.state.item_idx as int, available);
    if let Some(YieldData::LineBreak(_)) = yielded {
        assert(next.lines.drop_last() =~= progress.lines);
        if progress.lines.len() > 0 {
            assert(next.lines[progress.lines.len() - 1] == progress.lines.last());
        }
    }
}

/// The line's place and limits are the same.
pub open spec fn same_geometry<T: Scalar>(a: BreakerState<T>, b: BreakerState<T>) -> bool {
    &&& a.line_x == b.line_x
    &&& a.line_y == b.line_y
    &&& a.line_max_advance == b.line_max_advance
    &&& a.line_max_height == b.line_max_height
    &&& a.layout_max_advance == b.layout_max_advance
}

proof fn lemma_run_has_a_reason<T: Scalar>(
    layout: LayoutData<T>,
    state: BreakerState<T>,
    run: int,
    cursor: int,
    max_advance: T,
)
    ensures
        scan::scan_run(layout, state, run, cursor, max_advance).flow matches Flow::Break(reason)
            ==> reason != BreakReason::NoBreak,
        same_geometry(scan::scan_run(layout, state, run, cursor, max_advance).state, state),
    decreases layout.shaped_text.runs@[run].clusters.end - cursor,
{
    let bound = layout.shaped_text.runs@[run].clusters.end as int;
    if cursor < bound {
        let step = scan::text_step(
            layout,
            state,
            scan::atom_info(layout, run, cursor),
            max_advance,
        );
        if step.flow is Continue {
            layout.shaped_text.lemma_atom_end(cursor, bound);
            lemma_run_has_a_reason(
                layout,
                step.state,
                run,
                layout.shaped_text.atom_end(cursor, bound),
                max_advance,
            );
        }
    }
}

/// A line that ends before the paragraph ends at a break, in its place.
pub(crate) proof fn lemma_scan_has_a_reason<T: Scalar>(
    layout: LayoutData<T>,
    state: BreakerState<T>,
    item: int,
    max_advance: T,
)
    ensures
        scan::scan(layout, state, item, max_advance).flow matches Flow::Break(reason) ==> reason
            != BreakReason::NoBreak,
        same_geometry(scan::scan(layout, state, item, max_advance).state, state),
    decreases layout.items@.len() - item,
{
    if item < layout.items@.len() {
        if layout.spec_is_text(item) {
            let run = layout.items@[item].index as int;
            let step = scan::scan_run(layout, state, run, state.cluster_idx as int, max_advance);
            lemma_run_has_a_reason(layout, state, run, state.cluster_idx as int, max_advance);
            if step.flow is Continue {
                lemma_scan_has_a_reason(
                    layout,
                    scan::after_run(step.state),
                    item + 1,
                    max_advance,
                );
            }
        } else {
            let step = scan::box_step(layout, state, item, max_advance);
            if step.flow is Continue {
                lemma_scan_has_a_reason(layout, step.state, item + 1, max_advance);
            }
        }
    }
}

/// The breaker is at the start of a line, with no limit to the line's height.
pub open spec fn is_at_line_start(
    layout: LayoutData<Fixed>,
    state: BreakerState<Fixed>,
) -> bool {
    let at = state.cluster_idx as int;
    let item = state.item_idx as int;
    &&& 0 <= item <= layout.items@.len()
    &&& layout.clusters_before(item) <= at <= text_end(layout)
    &&& item < layout.items@.len() ==> at <= layout.clusters_before(item + 1)
    &&& starts_grapheme(layout, at)
    &&& state.line.clusters.start == at
    &&& state.line.clusters.end == at
    &&& state.line.x.steps == 0
    &&& !state.line.max_height_exceeded
    &&& !state.line.has_content
    &&& state.prev_boundary is None
    &&& state.emergency_boundary is None
    &&& state.pending_inline_start.opening is None
    &&& state.line_max_height.steps == i64::MAX
}

/// The limits of all lines can be represented.
pub open spec fn limits_fit(layout: LayoutData<Fixed>, max_advance: Fixed) -> bool {
    i64::MIN <= max_advance.steps - layout.indent_amount.steps <= i64::MAX
}

/// Every line of a text is filled as far as it can be for the advance available
/// to it, and no further. It is so of the first line, and of every line after a
/// line.
pub proof fn lemma_line_is_filled(layout: LayoutData<Fixed>, progress: Progress<Fixed>)
    requires
        layout.wf(),
        layout.text_len > 0,
        is_plain_text(layout),
        has_whole_breaks(layout),
        lengths_fit(layout),
        limits_fit(layout, progress.state.line_max_advance),
        !progress.done,
        is_at_line_start(layout, progress.state),
    ensures
        ({
            let (next, yielded) = progress.next(layout);
            let line = next.lines.last();
            &&& yielded matches Some(YieldData::LineBreak(_))
            &&& is_filled(
                layout,
                progress.state.cluster_idx as int,
                next.state.cluster_idx as int,
                progress.state.line_max_advance.steps - line.indent.steps,
                line.break_reason,
            )
            &&& next.state.line_max_advance == progress.state.line_max_advance
            &&& !next.done ==> is_at_line_start(layout, next.state)
        }),
{
    let available = progress.available(layout);
    let start = progress.state.cluster_idx as int;
    let limit = available.steps as int;
    lemma_line_is_broken_for_its_limit(layout, progress);
    lemma_scan_has_a_reason(layout, progress.state, progress.state.item_idx as int, available);
    assert(is_filling(layout, progress.state, start, limit)) by {
        reveal(is_filling);
        reveal(is_filled_so_far);
        reveal(is_last_opportunity);
    }
    lemma_scan(layout, progress.state, start, available);
    let step = scan::scan(layout, progress.state, progress.state.item_idx as int, available);
    let (next, yielded) = progress.next(layout);
    assert(available.steps == progress.state.line_max_advance.steps
        - next.lines.last().indent.steps);
    if step.flow is Continue {
        lemma_filling(layout, step.state, start, limit);
        lemma_text_ends(layout, step.state, start, limit);
    }
}

proof fn lemma_text_ends(
    layout: LayoutData<Fixed>,
    state: BreakerState<Fixed>,
    start: int,
    limit: int,
)
    requires
        layout.wf(),
        is_plain_text(layout),
        has_whole_breaks(layout),
        is_filling(layout, state, start, limit),
        state.item_idx == layout.items@.len(),
    ensures
        is_filled(layout, start, state.cluster_idx as int, limit, BreakReason::NoBreak),
{
    lemma_filling(layout, state, start, limit);
    reveal(is_filled_so_far);
    let end = state.cluster_idx as int;
    assert forall|c: int| start <= c < end implies #[trigger] ends_at_forced_break(
        layout,
        c,
        end,
    ) by {
        if is_forced_break(layout, c) {
        }
    }
    if start < end && is_forced_break(layout, end - 1) {
        lemma_last_grapheme(layout, start, end - 1);
        let last = grapheme_of(layout, end - 1);
        assert(is_forced_break(layout, last));
        assert(is_first_of_pair(layout, last));
    }
}

/// The last grapheme of a text ends with it.
proof fn lemma_last_grapheme(layout: LayoutData<Fixed>, start: int, at: int)
    requires
        has_whole_breaks(layout),
        0 <= start <= at < text_end(layout),
        starts_grapheme(layout, start),
        starts_grapheme(layout, grapheme_end(layout, at)) ==> grapheme_end(layout, at)
            == text_end(layout),
    ensures
        ({
            let first = grapheme_of(layout, at);
            &&& start <= first <= at
            &&& starts_grapheme(layout, first)
            &&& is_forced_break(layout, first) == is_forced_break(layout, at)
            &&& grapheme_end(layout, first) == grapheme_end(layout, at)
        }),
    decreases at,
{
    if at > 0 && !layout.shaped_text.clusters@[at].grapheme_start {
        assert(is_forced_break(layout, at) == is_forced_break(layout, at - 1));
        lemma_last_grapheme(layout, start, at - 1);
    }
}

/// All lines of a text are filled as far as they can be and no further when it
/// is broken for an advance from start to end.
pub proof fn lemma_all_lines_are_filled(
    layout: LayoutData<Fixed>,
    max_advance: Fixed,
    steps: nat,
)
    requires
        layout.wf(),
        layout.text_len > 0,
        is_plain_text(layout),
        has_whole_breaks(layout),
        lengths_fit(layout),
        limits_fit(layout, max_advance),
    ensures
        ({
            let progress = Progress::start(layout).with_limit(max_advance).after_steps(
                layout,
                steps,
            );
            let next = progress.next(layout).0;
            !progress.done ==> {
                &&& is_at_line_start(layout, progress.state)
                &&& progress.state.line_max_advance == max_advance
                &&& is_filled(
                    layout,
                    progress.state.cluster_idx as int,
                    next.state.cluster_idx as int,
                    max_advance.steps - next.lines.last().indent.steps,
                    next.lines.last().break_reason,
                )
            }
        }),
    decreases steps,
{
    let start = Progress::start(layout).with_limit(max_advance);
    let progress = start.after_steps(layout, steps);
    if steps == 0 {
        layout.lemma_clusters_before_monotone(0, 1);
    } else {
        let before = (steps - 1) as nat;
        lemma_all_lines_are_filled(layout, max_advance, before);
        reveal(Progress::advanced);
        reveal(Progress::is_stuck);
        if !start.after_steps(layout, before).done {
            lemma_line_is_filled(layout, start.after_steps(layout, before));
        }
    }
    if !progress.done {
        lemma_line_is_filled(layout, progress);
    }
}

} // verus!
