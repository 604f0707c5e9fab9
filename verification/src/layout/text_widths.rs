//! The intrinsic widths of text are those of its widest parts.

use crate::layout::content_widths::Measure;
use crate::layout::coverage;
use crate::layout::data::LayoutData;
use crate::layout::greedy;
use crate::layout::greedy::{
    character_at, grapheme_end, grapheme_of, hangs_at_end, is_plain_text, starts_grapheme,
    style_at, text_end, wraps_before,
};
use crate::layout::lengths;
use crate::layout::lengths::{
    has_plain_advances, has_whole_breaks, is_forced_break, lengths_fit, text_steps,
};
use crate::layout::scan;
use crate::layout::scan::AtomInfo;
use crate::layout::shaped::{Boundary, Whitespace};
use crate::scalar::{Fixed, Scalar};
use crate::style::{OverflowWrap, TextWrapMode, WhiteSpaceCollapse};
use vstd::prelude::*;

verus! {

/// White space that does not count at the end of a line that no wrapping has
/// ended: collapsible white space, and ideographic spaces that would hang.
pub open spec fn is_left_out_of_line(layout: LayoutData<Fixed>, cluster: int) -> bool {
    let collapse = style_at(layout, cluster).white_space_collapse;
    match character_at(layout, cluster).whitespace {
        Whitespace::Space | Whitespace::Tab => collapse == WhiteSpaceCollapse::Collapse || collapse
            == WhiteSpaceCollapse::PreserveBreaks,
        Whitespace::NotSpace => hangs_at_end(layout, cluster),
        _ => false,
    }
}

/// White space that does not count at the end of a part that wrapping has
/// ended: all that hangs or is removed.
pub open spec fn is_left_out_of_part(layout: LayoutData<Fixed>, cluster: int) -> bool {
    hangs_at_end(layout, cluster) && character_at(layout, cluster).whitespace
        != Whitespace::NoBreakSpace
}

/// Text can be wrapped before the cluster. With `overflow-wrap: anywhere` it can
/// be wrapped between any two graphemes.
pub open spec fn is_opportunity(layout: LayoutData<Fixed>, at: int) -> bool {
    &&& 0 < at < text_end(layout)
    &&& starts_grapheme(layout, at)
    &&& wraps_before(layout, at)
    &&& character_at(layout, at).boundary == Boundary::Line || style_at(layout, at).overflow_wrap
        == OverflowWrap::Anywhere
}

pub open spec fn has_no_break(layout: LayoutData<Fixed>, from: int, to: int) -> bool {
    forall|c: int| from <= c < to ==> !#[trigger] is_forced_break(layout, c)
}

pub open spec fn has_no_opportunity(layout: LayoutData<Fixed>, from: int, to: int) -> bool {
    forall|c: int| from < c < to ==> !#[trigger] is_opportunity(layout, c)
}

/// A stretch of text on one line, from the grapheme at `first` to the one at
/// `last`, which counts at the end of the line.
pub open spec fn is_on_one_line(layout: LayoutData<Fixed>, first: int, last: int) -> bool {
    &&& 0 <= first <= last < text_end(layout)
    &&& starts_grapheme(layout, first)
    &&& starts_grapheme(layout, last)
    &&& has_no_break(layout, first, grapheme_end(layout, last))
    &&& !is_left_out_of_line(layout, last)
}

/// A stretch of text that cannot be wrapped, from the grapheme at `first` to the
/// one at `last`, which counts at the end of a wrapped line.
pub open spec fn is_unbreakable(layout: LayoutData<Fixed>, first: int, last: int) -> bool {
    &&& 0 <= first <= last < text_end(layout)
    &&& starts_grapheme(layout, first)
    &&& starts_grapheme(layout, last)
    &&& has_no_break(layout, first, grapheme_end(layout, last))
    &&& has_no_opportunity(layout, first, last + 1)
    &&& !is_left_out_of_part(layout, last)
}

/// A line starts at the cluster when only forced breaks are taken.
pub open spec fn starts_line(layout: LayoutData<Fixed>, at: int) -> bool {
    at == 0 || is_forced_break(layout, at - 1)
}

/// The width is that of the widest stretch of text between forced breaks.
pub open spec fn is_widest_line(layout: LayoutData<Fixed>, width: Fixed) -> bool {
    &&& forall|first: int, last: int| #[trigger]
        is_on_one_line(layout, first, last) ==> text_steps(
            layout,
            first,
            grapheme_end(layout, last),
        ) <= width.steps
    &&& width.steps == 0 || exists|first: int, last: int| #[trigger]
        is_on_one_line(layout, first, last) && starts_line(layout, first) && width.steps
            == text_steps(layout, first, grapheme_end(layout, last))
}

/// The width is that of the widest stretch of text that cannot be wrapped.
pub open spec fn is_widest_part(layout: LayoutData<Fixed>, width: Fixed) -> bool {
    &&& forall|first: int, last: int| #[trigger]
        is_unbreakable(layout, first, last) ==> text_steps(
            layout,
            first,
            grapheme_end(layout, last),
        ) <= width.steps
    &&& width.steps == 0 || exists|first: int, last: int| #[trigger]
        is_unbreakable(layout, first, last) && (starts_line(layout, first) || is_opportunity(
            layout,
            first,
        )) && width.steps == text_steps(layout, first, grapheme_end(layout, last))
}

// ---------------------------------------------------------------------------
// Measuring.

/// Where the current line or part started, and where it ends without the white
/// space that does not count.
struct Mark {
    start: int,
    visible: int,
}

/// The mark is of a stretch up to `at`, whose graphemes from the visible end on
/// do not count.
spec fn is_mark(layout: LayoutData<Fixed>, mark: Mark, at: int, of_line: bool) -> bool {
    &&& 0 <= mark.start <= mark.visible <= at <= text_end(layout)
    &&& starts_grapheme(layout, mark.start)
    &&& starts_grapheme(layout, mark.visible)
    &&& has_no_break(layout, mark.start, at)
    &&& mark.start < mark.visible ==> {
        let last = grapheme_of(layout, mark.visible - 1);
        &&& mark.start <= last
        &&& starts_grapheme(layout, last)
        &&& grapheme_end(layout, last) == mark.visible
        &&& !left_out(layout, last, of_line)
    }
    &&& forall|c: int|
        mark.visible <= c < at && #[trigger] starts_grapheme(layout, c) ==> left_out(
            layout,
            c,
            of_line,
        )
    &&& if of_line {
        starts_line(layout, mark.start)
    } else {
        &&& starts_line(layout, mark.start) || is_opportunity(layout, mark.start)
        &&& has_no_opportunity(layout, mark.start, at)
    }
}

spec fn left_out(layout: LayoutData<Fixed>, cluster: int, of_line: bool) -> bool {
    if of_line {
        is_left_out_of_line(layout, cluster)
    } else {
        is_left_out_of_part(layout, cluster)
    }
}

spec fn is_stretch(layout: LayoutData<Fixed>, first: int, last: int, of_line: bool) -> bool {
    if of_line {
        is_on_one_line(layout, first, last)
    } else {
        is_unbreakable(layout, first, last)
    }
}

spec fn starts_stretch(layout: LayoutData<Fixed>, at: int, of_line: bool) -> bool {
    starts_line(layout, at) || (!of_line && is_opportunity(layout, at))
}

/// The width is that of the widest stretch so far: those up to the mark's start
/// are counted, and the current one may be.
#[verifier::opaque]
spec fn is_widest(
    layout: LayoutData<Fixed>,
    width: Fixed,
    mark: Mark,
    of_line: bool,
) -> bool {
    &&& width.steps >= 0
    &&& forall|first: int, last: int| #[trigger]
        is_stretch(layout, first, last, of_line) && grapheme_end(layout, last) <= mark.start
            ==> text_steps(layout, first, grapheme_end(layout, last)) <= width.steps
    &&& width.steps == 0 || exists|first: int, last: int| #[trigger]
        is_stretch(layout, first, last, of_line) && starts_stretch(layout, first, of_line)
            && width.steps == text_steps(layout, first, grapheme_end(layout, last))
}

/// The stretch that the mark is of.
proof fn lemma_marked_stretch(layout: LayoutData<Fixed>, mark: Mark, at: int, of_line: bool)
    requires
        is_mark(layout, mark, at, of_line),
        mark.start < mark.visible,
    ensures
        ({
            let last = grapheme_of(layout, mark.visible - 1);
            &&& is_stretch(layout, mark.start, last, of_line)
            &&& starts_stretch(layout, mark.start, of_line)
            &&& grapheme_end(layout, last) == mark.visible
        }),
{
    let last = grapheme_of(layout, mark.visible - 1);
    lemma_grapheme_starts_before_its_end(layout, last);
}

proof fn lemma_grapheme_starts_before_its_end(layout: LayoutData<Fixed>, at: int)
    ensures
        at < grapheme_end(layout, at),
    decreases text_end(layout) - at,
{
    if at + 1 < text_end(layout) && !layout.shaped_text.clusters@[at + 1].grapheme_start {
        lemma_grapheme_starts_before_its_end(layout, at + 1);
    }
}

/// The current stretch may count at any time.
proof fn lemma_count(
    layout: LayoutData<Fixed>,
    width: Fixed,
    mark: Mark,
    at: int,
    of_line: bool,
) -> (r: Fixed)
    requires
        has_plain_advances(layout),
        lengths_fit(layout),
        is_mark(layout, mark, at, of_line),
        is_widest(layout, width, mark, of_line),
    ensures
        r == width.spec_larger(
            Fixed { steps: text_steps(layout, mark.start, mark.visible) as i64 },
        ),
        is_widest(layout, r, mark, of_line),
        0 <= text_steps(layout, mark.start, mark.visible) <= i64::MAX,
        text_steps(layout, mark.start, mark.visible) <= r.steps,
{
    lengths::lemma_parts_fit(layout, 0, 0, mark.start, mark.visible);
    lengths::lemma_text_steps_grow(
        layout,
        mark.start,
        mark.start,
        mark.visible,
        mark.visible,
    );
    let r = width.spec_larger(
        Fixed { steps: text_steps(layout, mark.start, mark.visible) as i64 },
    );
    reveal(is_widest);
    if mark.start < mark.visible {
        lemma_marked_stretch(layout, mark, at, of_line);
        let last = grapheme_of(layout, mark.visible - 1);
        assert(is_stretch(layout, mark.start, last, of_line));
    }
    r
}

/// After the current stretch has counted, a new one starts. A forced break or
/// an opportunity parts the two.
proof fn lemma_restart(
    layout: LayoutData<Fixed>,
    width: Fixed,
    mark: Mark,
    at: int,
    next: int,
    of_line: bool,
)
    requires
        has_plain_advances(layout),
        is_mark(layout, mark, at, of_line),
        is_widest(layout, width, mark, of_line),
        text_steps(layout, mark.start, mark.visible) <= width.steps,
        at <= next <= text_end(layout),
        starts_grapheme(layout, next),
        at < next ==> starts_grapheme(layout, at) && is_forced_break(layout, at) && forall|c: int|
            at < c < next ==> !#[trigger] starts_grapheme(layout, c),
        at == next ==> starts_stretch(layout, at, of_line) || mark.start == at,
        forall|c: int| at <= c < next ==> #[trigger] is_forced_break(layout, c),
    ensures
        is_widest(layout, width, Mark { start: next, visible: next }, of_line),
{
    reveal(is_widest);
    assert forall|first: int, last: int| #[trigger]
        is_stretch(layout, first, last, of_line) && grapheme_end(layout, last)
            <= next implies text_steps(layout, first, grapheme_end(layout, last))
        <= width.steps by {
        let end = grapheme_end(layout, last);
        lemma_grapheme_starts_before_its_end(layout, last);
        if end > mark.start {
            // It does not reach back beyond the start of the stretch.
            if first < mark.start {
                if starts_line(layout, mark.start) {
                    assert(is_forced_break(layout, mark.start - 1));
                } else {
                    assert(is_opportunity(layout, mark.start));
                    if mark.start > last {
                        lemma_no_start_inside(layout, last, mark.start);
                    }
                }
            }
            // It does not reach over the forced break.
            if end > at {
                assert(is_forced_break(layout, end - 1));
            }
            if last >= mark.visible {
                assert(left_out(layout, last, of_line));
            } else {
                if end > mark.visible {
                    lemma_no_start_inside(layout, last, mark.visible);
                }
                lengths::lemma_text_steps_grow(layout, mark.start, first, end, mark.visible);
            }
        }
    }
}

/// No grapheme starts inside another.
proof fn lemma_no_start_inside(layout: LayoutData<Fixed>, at: int, inside: int)
    requires
        0 <= at < text_end(layout),
        at < inside < grapheme_end(layout, at),
    ensures
        !starts_grapheme(layout, inside),
    decreases text_end(layout) - at,
{
    if at + 1 < text_end(layout) && !layout.shaped_text.clusters@[at + 1].grapheme_start {
        if at + 1 < inside {
            lemma_no_start_inside(layout, at + 1, inside);
        } else {
            lemma_grapheme_end_in_text(layout, at);
        }
    }
}

proof fn lemma_grapheme_end_in_text(layout: LayoutData<Fixed>, at: int)
    requires
        at < text_end(layout),
    ensures
        grapheme_end(layout, at) <= text_end(layout),
    decreases text_end(layout) - at,
{
    if at + 1 < text_end(layout) && !layout.shaped_text.clusters@[at + 1].grapheme_start {
        lemma_grapheme_end_in_text(layout, at + 1);
    }
}

/// The mark goes on over a grapheme that is no forced break.
proof fn lemma_mark_goes_on(
    layout: LayoutData<Fixed>,
    mark: Mark,
    at: int,
    of_line: bool,
) -> (next: Mark)
    requires
        has_whole_breaks(layout),
        is_mark(layout, mark, at, of_line),
        at < text_end(layout),
        starts_grapheme(layout, at),
        !is_forced_break(layout, at),
        !of_line ==> !is_opportunity(layout, at) || mark.start == at,
    ensures
        is_mark(layout, next, grapheme_end(layout, at), of_line),
        next.start == mark.start,
        next.visible == if left_out(layout, at, of_line) {
            mark.visible
        } else {
            grapheme_end(layout, at)
        },
{
    let end = grapheme_end(layout, at);
    assert(grapheme_of(layout, at) == at);
    greedy::lemma_grapheme(layout, at, at);
    lemma_no_break_in_grapheme(layout, at, at);
    let next = Mark {
        start: mark.start,
        visible: if left_out(layout, at, of_line) {
            mark.visible
        } else {
            end
        },
    };
    assert forall|c: int| mark.start <= c < end implies !#[trigger] is_forced_break(
        layout,
        c,
    ) by {}
    if !of_line {
        assert forall|c: int| mark.start < c < end implies !#[trigger] is_opportunity(
            layout,
            c,
        ) by {
            if c > at {
                assert(!starts_grapheme(layout, c));
            }
        }
    }
    assert forall|c: int|
        next.visible <= c < end && #[trigger] starts_grapheme(layout, c) implies left_out(
        layout,
        c,
        of_line,
    ) by {
        if c > at {
            assert(!starts_grapheme(layout, c));
        }
    }
    next
}

proof fn lemma_no_break_in_grapheme(layout: LayoutData<Fixed>, from: int, at: int)
    requires
        has_whole_breaks(layout),
        0 <= from <= at < text_end(layout),
        is_forced_break(layout, at) == is_forced_break(layout, from),
    ensures
        forall|c: int|
            at <= c < grapheme_end(layout, at) ==> #[trigger] is_forced_break(layout, c)
                == is_forced_break(layout, from),
    decreases text_end(layout) - at,
{
    if at + 1 < text_end(layout) && !layout.shaped_text.clusters@[at + 1].grapheme_start {
        lemma_no_break_in_grapheme(layout, from, at + 1);
    }
}

/// A mark at its start.
proof fn lemma_new_mark(layout: LayoutData<Fixed>, at: int, of_line: bool)
    requires
        0 <= at <= text_end(layout),
        starts_grapheme(layout, at),
        starts_stretch(layout, at, of_line),
    ensures
        is_mark(layout, Mark { start: at, visible: at }, at, of_line),
{
}

/// The state of the measure up to the cluster `at`.
#[verifier::opaque]
spec fn is_measure(
    layout: LayoutData<Fixed>,
    measure: Measure<Fixed>,
    line: Mark,
    part: Mark,
    at: int,
) -> bool {
    &&& starts_grapheme(layout, at)
    &&& is_mark(layout, line, at, true)
    &&& is_mark(layout, part, at, false)
    &&& is_widest(layout, measure.max, line, true)
    &&& is_widest(layout, measure.min, part, false)
    &&& measure.running_max.steps == text_steps(layout, line.start, at)
    &&& measure.max_trailing_whitespace.steps == text_steps(layout, line.visible, at)
    &&& measure.running_min.steps == text_steps(layout, part.start, at)
    &&& measure.min_trailing_whitespace.steps == text_steps(layout, part.visible, at)
    &&& measure.pending_inline_start.steps == 0
    &&& measure.open_edges == 0
    &&& !measure.break_after_pending
    &&& 0 < at ==> measure.text_wrap_mode == style_at(layout, at - 1).text_wrap_mode
}

/// The visible width of the stretch is what has been measured without the white
/// space at its end.
proof fn lemma_visible_width(
    layout: LayoutData<Fixed>,
    mark: Mark,
    at: int,
    of_line: bool,
    running: Fixed,
    trailing: Fixed,
)
    requires
        has_plain_advances(layout),
        lengths_fit(layout),
        is_mark(layout, mark, at, of_line),
        running.steps == text_steps(layout, mark.start, at),
        trailing.steps == text_steps(layout, mark.visible, at),
    ensures
        running.spec_minus(trailing) == (Fixed {
            steps: text_steps(layout, mark.start, mark.visible) as i64,
        }),
{
    lengths::lemma_parts_fit(layout, 0, 0, mark.start, mark.visible);
    lengths::lemma_text_steps_adjacent(layout, mark.start, mark.visible, at);
}

/// What has been measured so far counts before another run.
proof fn lemma_before_item(
    layout: LayoutData<Fixed>,
    measure: Measure<Fixed>,
    line: Mark,
    part: Mark,
    at: int,
)
    requires
        has_plain_advances(layout),
        lengths_fit(layout),
        is_measure(layout, measure, line, part, at),
    ensures
        is_measure(layout, measure.before_item(), line, part, at),
{
    reveal(is_measure);
    lemma_visible_width(
        layout,
        line,
        at,
        true,
        measure.running_max,
        measure.max_trailing_whitespace,
    );
    lemma_visible_width(
        layout,
        part,
        at,
        false,
        measure.running_min,
        measure.min_trailing_whitespace,
    );
    let max = lemma_count(layout, measure.max, line, at, true);
    let min = lemma_count(layout, measure.min, part, at, false);
}

/// The opportunity before a grapheme is taken.
proof fn lemma_before_atom(
    layout: LayoutData<Fixed>,
    measure: Measure<Fixed>,
    info: AtomInfo<Fixed>,
    line: Mark,
    part: Mark,
    at: int,
) -> (next: Mark)
    requires
        has_plain_advances(layout),
        has_whole_breaks(layout),
        lengths_fit(layout),
        is_measure(layout, measure, line, part, at),
        at < text_end(layout),
        info.first == character_at(layout, at),
        info.style == style_at(layout, at),
    ensures
        ({
            let state = measure.before_atom(info);
            &&& is_measure(
                layout,
                Measure { text_wrap_mode: measure.text_wrap_mode, ..state },
                line,
                next,
                at,
            )
            &&& state.text_wrap_mode == info.style.text_wrap_mode
            &&& is_opportunity(layout, at) ==> next.start == at
        }),
{
    reveal(is_measure);
    let state = measure.before_atom(info);
    lemma_visible_width(
        layout,
        part,
        at,
        false,
        measure.running_min,
        measure.min_trailing_whitespace,
    );
    let min = lemma_count(layout, measure.min, part, at, false);
    let breaks = measure.text_wrap_mode == TextWrapMode::Wrap && (info.first.boundary
        == Boundary::Line || info.style.overflow_wrap == OverflowWrap::Anywhere);
    assert(0 < at ==> breaks == is_opportunity(layout, at));
    lengths::lemma_parts_fit(layout, 0, 0, part.start, at);
    if breaks {
        if at == 0 {
            assert(part.start == 0 && part.visible == 0);
            part
        } else {
            let next = Mark { start: at, visible: at };
            lemma_new_mark(layout, at, false);
            lemma_restart(layout, min, part, at, at, false);
            assert(text_steps(layout, at, at) == 0);
            next
        }
    } else {
        part
    }
}

/// A grapheme that is no forced break is measured.
proof fn lemma_with_atom(
    layout: LayoutData<Fixed>,
    measure: Measure<Fixed>,
    item: int,
    line: Mark,
    part: Mark,
    at: int,
) -> (next: (Mark, Mark))
    requires
        layout.wf(),
        is_plain_text(layout),
        has_plain_advances(layout),
        has_whole_breaks(layout),
        lengths_fit(layout),
        0 <= item < layout.items@.len(),
        layout.clusters_before(item) <= at < layout.text_end(item),
        is_measure(layout, measure, line, part, at),
    ensures
        ({
            let run = layout.items@[item].index as int;
            is_measure(
                layout,
                measure.with_atom(scan::atom_info(layout, run, at)),
                next.0,
                next.1,
                grapheme_end(layout, at),
            )
        }),
{
    let run = layout.items@[item].index as int;
    let info = scan::atom_info(layout, run, at);
    let end = grapheme_end(layout, at);
    assert(starts_grapheme(layout, at)) by {
        reveal(is_measure);
    }
    greedy::lemma_grapheme_is_atom(layout, item, at);
    lengths::lemma_plain_atom_steps(layout, at, layout.text_end(item));
    let begun = lemma_before_atom(layout, measure, info, line, part, at);
    let state = measure.before_atom(info);
    reveal(is_measure);
    lengths::lemma_text_steps_adjacent(layout, line.start, at, end);
    lengths::lemma_text_steps_adjacent(layout, line.visible, at, end);
    lengths::lemma_text_steps_adjacent(layout, begun.start, at, end);
    lengths::lemma_text_steps_adjacent(layout, begun.visible, at, end);
    lengths::lemma_parts_fit(layout, 0, 0, line.start, end);
    lengths::lemma_parts_fit(layout, 0, 0, line.visible, end);
    lengths::lemma_parts_fit(layout, 0, 0, begun.start, end);
    lengths::lemma_parts_fit(layout, 0, 0, begun.visible, end);
    assert(text_steps(layout, end, end) == 0);
    if is_forced_break(layout, at) {
        let advanced = state.with_advance(info.atom.advance);
        lemma_visible_width(
            layout,
            line,
            at,
            true,
            advanced.running_max,
            advanced.max_trailing_whitespace,
        );
        lemma_visible_width(
            layout,
            begun,
            at,
            false,
            advanced.running_min,
            advanced.min_trailing_whitespace,
        );
        let max = lemma_count(layout, state.max, line, at, true);
        let min = lemma_count(layout, state.min, begun, at, false);
        let mark = Mark { start: end, visible: end };
        lemma_no_break_in_grapheme(layout, at, at);
        lemma_new_mark(layout, end, true);
        lemma_new_mark(layout, end, false);
        lemma_restart(layout, max, line, at, end, true);
        lemma_restart(layout, min, begun, at, end, false);
        (mark, mark)
    } else {
        let next_line = lemma_mark_goes_on(layout, line, at, true);
        let next_part = lemma_mark_goes_on(layout, begun, at, false);
        lemma_same_start(layout, state.max, line, next_line, true);
        lemma_same_start(layout, state.min, begun, next_part, false);
        (next_line, next_part)
    }
}

proof fn lemma_same_start(
    layout: LayoutData<Fixed>,
    width: Fixed,
    mark: Mark,
    next: Mark,
    of_line: bool,
)
    requires
        is_widest(layout, width, mark, of_line),
        next.start == mark.start,
    ensures
        is_widest(layout, width, next, of_line),
{
    reveal(is_widest);
}

proof fn lemma_with_run(
    layout: LayoutData<Fixed>,
    measure: Measure<Fixed>,
    item: int,
    line: Mark,
    part: Mark,
    at: int,
) -> (next: (Mark, Mark))
    requires
        layout.wf(),
        is_plain_text(layout),
        has_plain_advances(layout),
        has_whole_breaks(layout),
        lengths_fit(layout),
        0 <= item < layout.items@.len(),
        layout.clusters_before(item) <= at <= layout.text_end(item),
        is_measure(layout, measure, line, part, at),
    ensures
        ({
            let run = layout.items@[item].index as int;
            is_measure(
                layout,
                measure.with_run(layout, run, at),
                next.0,
                next.1,
                layout.text_end(item),
            )
        }),
    decreases layout.text_end(item) - at,
{
    if at < layout.text_end(item) {
        let run = layout.items@[item].index as int;
        let next = lemma_with_atom(layout, measure, item, line, part, at);
        assert(starts_grapheme(layout, at)) by {
            reveal(is_measure);
        }
        greedy::lemma_grapheme_is_atom(layout, item, at);
        lemma_with_run(
            layout,
            measure.with_atom(scan::atom_info(layout, run, at)),
            item,
            next.0,
            next.1,
            grapheme_end(layout, at),
        )
    } else {
        (line, part)
    }
}

proof fn lemma_with_items(
    layout: LayoutData<Fixed>,
    measure: Measure<Fixed>,
    item: int,
    line: Mark,
    part: Mark,
) -> (next: (Mark, Mark))
    requires
        layout.wf(),
        is_plain_text(layout),
        has_plain_advances(layout),
        has_whole_breaks(layout),
        lengths_fit(layout),
        0 <= item <= layout.items@.len(),
        is_measure(layout, measure, line, part, layout.clusters_before(item)),
    ensures
        is_measure(
            layout,
            measure.with_items(layout, item),
            next.0,
            next.1,
            text_end(layout),
        ),
    decreases layout.items@.len() - item,
{
    if item < layout.items@.len() {
        let run = layout.items@[item].index as int;
        let at = layout.clusters_before(item);
        assert(layout.spec_is_text(item));
        coverage::lemma_run_bounds(layout, item);
        lemma_before_item(layout, measure, line, part, at);
        let next = lemma_with_run(layout, measure.before_item(), item, line, part, at);
        let measured = measure.before_item().with_run(layout, run, at);
        let ended = Measure { text_ended: true, ..measured };
        assert(is_measure(layout, ended, next.0, next.1, layout.clusters_before(item + 1))) by {
            reveal(is_measure);
        }
        lemma_with_items(layout, ended, item + 1, next.0, next.1)
    } else {
        (line, part)
    }
}

/// The max-content width of a text is the width of its widest line when only
/// forced breaks are taken. The min-content width is that of its widest part
/// that cannot be wrapped. White space that does not count at the end of a line
/// is left out.
pub proof fn lemma_widths_of_text(layout: LayoutData<Fixed>)
    requires
        layout.wf(),
        is_plain_text(layout),
        has_plain_advances(layout),
        has_whole_breaks(layout),
        lengths_fit(layout),
    ensures
        is_widest_line(layout, layout.content_widths().max),
        is_widest_part(layout, layout.content_widths().min),
{
    if layout.items@.len() == 0 {
        assert(text_end(layout) == 0);
    } else {
        let start = Measure::start(
            layout.styles@[layout.root_style_index as int].text_wrap_mode,
        );
        let mark = Mark { start: 0, visible: 0 };
        let end = text_end(layout);
        assert(is_measure(layout, start, mark, mark, 0)) by {
            reveal(is_measure);
            lemma_new_mark(layout, 0, true);
            lemma_new_mark(layout, 0, false);
            lemma_nothing_is_widest(layout, mark, true);
            lemma_nothing_is_widest(layout, mark, false);
        }
        let next = lemma_with_items(layout, start, 0, mark, mark);
        let measure = start.with_items(layout, 0);
        reveal(is_measure);
        lemma_visible_width(
            layout,
            next.0,
            end,
            true,
            measure.running_max,
            measure.max_trailing_whitespace,
        );
        lemma_visible_width(
            layout,
            next.1,
            end,
            false,
            measure.running_min,
            measure.min_trailing_whitespace,
        );
        let max = lemma_count(layout, measure.max, next.0, end, true);
        let min = lemma_count(layout, measure.min, next.1, end, false);
        lemma_widest_of_all(layout, max, next.0, true);
        lemma_widest_of_all(layout, min, next.1, false);
    }
}

proof fn lemma_nothing_is_widest(layout: LayoutData<Fixed>, mark: Mark, of_line: bool)
    requires
        mark.start == 0,
    ensures
        is_widest(layout, Fixed { steps: 0 }, mark, of_line),
{
    reveal(is_widest);
    assert forall|first: int, last: int| #[trigger]
        is_stretch(layout, first, last, of_line) && grapheme_end(layout, last)
            <= mark.start implies text_steps(layout, first, grapheme_end(layout, last)) <= 0 by {
        lemma_grapheme_starts_before_its_end(layout, last);
    }
}

/// At the end of the text the widest stretch so far is the widest of all.
proof fn lemma_widest_of_all(
    layout: LayoutData<Fixed>,
    width: Fixed,
    mark: Mark,
    of_line: bool,
)
    requires
        has_plain_advances(layout),
        has_whole_breaks(layout),
        is_mark(layout, mark, text_end(layout), of_line),
        is_widest(layout, width, mark, of_line),
        text_steps(layout, mark.start, mark.visible) <= width.steps,
    ensures
        forall|first: int, last: int| #[trigger]
            is_stretch(layout, first, last, of_line) ==> text_steps(
                layout,
                first,
                grapheme_end(layout, last),
            ) <= width.steps,
        width.steps == 0 || exists|first: int, last: int| #[trigger]
            is_stretch(layout, first, last, of_line) && starts_stretch(layout, first, of_line)
                && width.steps == text_steps(layout, first, grapheme_end(layout, last)),
        of_line ==> is_widest_line(layout, width),
        !of_line ==> is_widest_part(layout, width),
{
    reveal(is_widest);
    assert forall|first: int, last: int| #[trigger]
        is_stretch(layout, first, last, of_line) implies text_steps(
        layout,
        first,
        grapheme_end(layout, last),
    ) <= width.steps by {
        let end = grapheme_end(layout, last);
        lemma_grapheme_starts_before_its_end(layout, last);
        lemma_grapheme_end_in_text(layout, last);
        if end > mark.start {
            if first < mark.start {
                if starts_line(layout, mark.start) {
                    assert(is_forced_break(layout, mark.start - 1));
                } else {
                    assert(is_opportunity(layout, mark.start));
                    if mark.start > last {
                        lemma_no_start_inside(layout, last, mark.start);
                    }
                }
            }
            if last >= mark.visible {
                assert(left_out(layout, last, of_line));
            } else {
                if end > mark.visible {
                    lemma_no_start_inside(layout, last, mark.visible);
                }
                lengths::lemma_text_steps_grow(layout, mark.start, first, end, mark.visible);
            }
        }
    }
    if of_line {
        assert forall|first: int, last: int| #[trigger]
            is_on_one_line(layout, first, last) implies text_steps(
            layout,
            first,
            grapheme_end(layout, last),
        ) <= width.steps by {
            assert(is_stretch(layout, first, last, true));
        }
        if width.steps != 0 {
            let (first, last) = choose|first: int, last: int| #[trigger]
                is_stretch(layout, first, last, of_line) && starts_stretch(layout, first, of_line)
                    && width.steps == text_steps(layout, first, grapheme_end(layout, last));
            assert(is_on_one_line(layout, first, last));
        }
    } else {
        assert forall|first: int, last: int| #[trigger]
            is_unbreakable(layout, first, last) implies text_steps(
            layout,
            first,
            grapheme_end(layout, last),
        ) <= width.steps by {
            assert(is_stretch(layout, first, last, false));
        }
        if width.steps != 0 {
            let (first, last) = choose|first: int, last: int| #[trigger]
                is_stretch(layout, first, last, of_line) && starts_stretch(layout, first, of_line)
                    && width.steps == text_steps(layout, first, grapheme_end(layout, last));
            assert(is_unbreakable(layout, first, last));
        }
    }
}

} // verus!
