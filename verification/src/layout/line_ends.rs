//! White space at the end of a line of left-to-right text.

use crate::layout::advances;
use crate::layout::advances::advances_are_kept;
use crate::layout::box_lines;
use crate::layout::break_lines::{Progress, YieldData};
use crate::layout::coverage;
use crate::layout::data::{BreakReason, LayoutData, LineData};
use crate::layout::extent;
use crate::layout::finish_line::removed_advance;
use crate::layout::lengths;
use crate::layout::lengths::{
    boxes_steps, has_whole_breaks, is_forced_break, lengths_fit, size_of_number, text_size,
    text_steps,
};
use crate::layout::plain_lines;
use crate::layout::scan;
use crate::layout::scan::Flow;
use crate::layout::shaped::{Character, Whitespace};
use crate::layout::trailing::Trailing;
use crate::layout::visual;
use crate::layout::visual::logical_clusters;
use crate::scalar::Fixed;
use crate::style::{Style, TextWrapMode, WhiteSpaceCollapse};
use vstd::prelude::*;

verus! {

/// The first character of a cluster.
pub open spec fn character_of(layout: LayoutData<Fixed>, cluster: int) -> Character {
    let text = layout.shaped_text;
    text.characters@[text.clusters@[cluster].chars.start as int]
}

pub open spec fn style_of(layout: LayoutData<Fixed>, cluster: int) -> Style<Fixed> {
    layout.styles@[character_of(layout, cluster).style_index as int]
}

/// All white space collapses, so that it is removed at the end of a line.
pub open spec fn removes_spaces(layout: LayoutData<Fixed>) -> bool {
    forall|c: int|
        0 <= c < layout.shaped_text.clusters@.len() ==> {
            let character = #[trigger] character_of(layout, c);
            let collapse = style_of(layout, c).white_space_collapse;
            &&& character.source_char != '\u{3000}'
            &&& collapse == WhiteSpaceCollapse::Collapse || collapse
                == WhiteSpaceCollapse::PreserveBreaks
        }
}

/// All white space is preserved in text that wraps, so that it hangs at the end
/// of a line.
pub open spec fn hangs_spaces(layout: LayoutData<Fixed>) -> bool {
    forall|c: int|
        0 <= c < layout.shaped_text.clusters@.len() ==> {
            let character = #[trigger] character_of(layout, c);
            let collapse = style_of(layout, c).white_space_collapse;
            &&& character.source_char != '\u{3000}'
            &&& style_of(layout, c).text_wrap_mode == TextWrapMode::Wrap
            &&& collapse == WhiteSpaceCollapse::Preserve || collapse
                == WhiteSpaceCollapse::PreserveSpaces
        }
}

/// All white space is preserved and takes up space at the end of a line: that of
/// text that does not wrap, or that can be broken after each space.
pub open spec fn keeps_spaces(layout: LayoutData<Fixed>) -> bool {
    forall|c: int|
        0 <= c < layout.shaped_text.clusters@.len() ==> {
            let style = #[trigger] style_of(layout, c);
            let collapse = style.white_space_collapse;
            ||| collapse == WhiteSpaceCollapse::BreakSpaces
            ||| style.text_wrap_mode == TextWrapMode::NoWrap && (collapse
                == WhiteSpaceCollapse::Preserve || collapse == WhiteSpaceCollapse::PreserveSpaces)
        }
}

/// The only white space is forced breaks, spaces that cannot be broken and
/// ideographic spaces, which hang at the end of a line.
pub open spec fn has_wide_spaces(layout: LayoutData<Fixed>) -> bool {
    forall|c: int|
        0 <= c < layout.shaped_text.clusters@.len() ==> {
            let character = #[trigger] character_of(layout, c);
            let collapse = style_of(layout, c).white_space_collapse;
            &&& character.whitespace != Whitespace::Space
            &&& character.whitespace != Whitespace::Tab
            &&& collapse != WhiteSpaceCollapse::BreakSpaces
            &&& style_of(layout, c).text_wrap_mode == TextWrapMode::Wrap
        }
}

/// The cluster is an ideographic space or a forced break.
pub open spec fn is_wide_space(layout: LayoutData<Fixed>, cluster: int) -> bool {
    let character = character_of(layout, cluster);
    ||| character.whitespace == Whitespace::Newline
    ||| character.whitespace == Whitespace::NotSpace && character.source_char == '\u{3000}'
}

/// Where the ideographic spaces at the end of the clusters `start..end` start.
pub open spec fn wide_content_end(layout: LayoutData<Fixed>, start: int, end: int) -> int
    decreases end - start,
{
    if start < end && is_wide_space(layout, end - 1) {
        wide_content_end(layout, start, end - 1)
    } else {
        end
    }
}

/// One of the rules for white space at the end of a line holds of all text.
pub open spec fn has_one_rule(layout: LayoutData<Fixed>) -> bool {
    removes_spaces(layout) || hangs_spaces(layout) || keeps_spaces(layout) || has_wide_spaces(
        layout,
    )
}

/// The cluster is a space, a tab or a forced break.
pub open spec fn is_space(layout: LayoutData<Fixed>, cluster: int) -> bool {
    let whitespace = character_of(layout, cluster).whitespace;
    whitespace == Whitespace::Space || whitespace == Whitespace::Tab || whitespace
        == Whitespace::Newline
}

/// Where the white space at the end of the clusters `start..end` starts.
pub open spec fn content_end(layout: LayoutData<Fixed>, start: int, end: int) -> int
    decreases end - start,
{
    if start < end && is_space(layout, end - 1) {
        content_end(layout, start, end - 1)
    } else {
        end
    }
}

/// The number of spaces among the clusters `from..to` at which text can be
/// stretched.
pub open spec fn spaces_between(layout: LayoutData<Fixed>, from: int, to: int) -> nat
    decreases to - from,
{
    if from >= to {
        0
    } else {
        let whitespace = character_of(layout, to - 1).whitespace;
        spaces_between(layout, from, to - 1) + if layout.shaped_text.clusters@[to
            - 1].grapheme_start && (whitespace == Whitespace::Space || whitespace
            == Whitespace::NoBreakSpace) {
            1nat
        } else {
            0
        }
    }
}

proof fn lemma_content_end(layout: LayoutData<Fixed>, start: int, end: int)
    requires
        start <= end,
    ensures
        start <= content_end(layout, start, end) <= end,
    decreases end - start,
{
    if start < end && is_space(layout, end - 1) {
        lemma_content_end(layout, start, end - 1);
    }
}

proof fn lemma_spaces_adjacent(layout: LayoutData<Fixed>, from: int, at: int, to: int)
    requires
        from <= at <= to,
    ensures
        spaces_between(layout, from, to) == spaces_between(layout, from, at) + spaces_between(
            layout,
            at,
            to,
        ),
        spaces_between(layout, at, to) <= to - at,
    decreases to - at,
{
    if at < to {
        lemma_spaces_adjacent(layout, from, at, to - 1);
    }
}

proof fn lemma_spaces_of_clusters(layout: LayoutData<Fixed>, from: int, to: int)
    requires
        from <= to,
    ensures
        extent::spaces_among(layout, logical_clusters(from, to)) == spaces_between(
            layout,
            from,
            to,
        ),
    decreases to - from,
{
    if from < to {
        assert(logical_clusters(from, to).drop_last() =~= logical_clusters(from, to - 1));
        lemma_spaces_of_clusters(layout, from, to - 1);
    }
}

/// What is found at the end of a line whose white space is removed.
proof fn lemma_removed_end(
    layout: LayoutData<Fixed>,
    trailing: Trailing<Fixed>,
    start: int,
    end: int,
)
    requires
        removes_spaces(layout),
        0 <= start <= end <= layout.shaped_text.clusters@.len(),
        !trailing.ended,
        !trailing.seen_hanging,
        end <= usize::MAX,
        trailing.spaces + (end - start) <= usize::MAX,
        size_of_number(
            removed_advance(layout, trailing.removed, trailing.removed.len() as int).steps as int,
        ) + text_size(layout, start, end) <= i64::MAX,
    ensures
        ({
            let found = extent::seen(trailing, layout, logical_clusters(start, end).reverse());
            let at = content_end(layout, start, end);
            &&& found.conditional == trailing.conditional
            &&& found.unconditional == trailing.unconditional
            &&& found.spaces == trailing.spaces + spaces_between(layout, at, end)
            &&& removed_advance(layout, found.removed, found.removed.len() as int).steps
                == removed_advance(layout, trailing.removed, trailing.removed.len() as int).steps
                + text_steps(layout, at, end)
        }),
    decreases end - start,
{
    let clusters = logical_clusters(start, end).reverse();
    lemma_content_end(layout, start, end);
    if start < end {
        assert(clusters[0] == end - 1);
        assert(clusters.drop_first() =~= logical_clusters(start, end - 1).reverse());
        let last = (end - 1) as usize;
        let next = trailing.with_cluster(layout, 0, last);
        assert(character_of(layout, end - 1).source_char != '\u{3000}');
        lengths::lemma_text_size_adjacent(layout, start, end - 1, end);
        reveal_with_fuel(text_size, 2);
        if is_space(layout, end - 1) {
            lemma_content_end(layout, start, end - 1);
            if !is_forced_break(layout, end - 1) {
                assert(next.removed =~= trailing.removed.push((0, last)));
                lemma_removed_prefix(
                    layout,
                    trailing.removed,
                    next.removed,
                    trailing.removed.len() as int,
                );
            }
            lemma_removed_end(layout, next, start, end - 1);
        } else {
            reveal_with_fuel(extent::seen, 2);
        }
    }
}

proof fn lemma_removed_prefix(
    layout: LayoutData<Fixed>,
    removed: Seq<(usize, usize)>,
    more: Seq<(usize, usize)>,
    count: int,
)
    requires
        count <= removed.len() <= more.len(),
        forall|i: int| 0 <= i < removed.len() ==> #[trigger] more[i] == removed[i],
    ensures
        removed_advance(layout, more, count) == removed_advance(layout, removed, count),
    decreases count,
{
    if count > 0 {
        lemma_removed_prefix(layout, removed, more, count - 1);
    }
}

/// What is found at the end of a line whose white space hangs.
proof fn lemma_hanging_end(
    layout: LayoutData<Fixed>,
    trailing: Trailing<Fixed>,
    start: int,
    end: int,
)
    requires
        hangs_spaces(layout),
        0 <= start <= end <= layout.shaped_text.clusters@.len(),
        !trailing.ended,
        !trailing.past_conditional_edge,
        end <= usize::MAX,
        trailing.spaces + (end - start) <= usize::MAX,
        size_of_number(trailing.conditional.steps as int) + text_size(layout, start, end)
            <= i64::MAX,
    ensures
        ({
            let found = extent::seen(trailing, layout, logical_clusters(start, end).reverse());
            let at = content_end(layout, start, end);
            &&& found.conditional.steps == trailing.conditional.steps + text_steps(
                layout,
                at,
                end,
            )
            &&& found.unconditional == trailing.unconditional
            &&& found.spaces == trailing.spaces + spaces_between(layout, at, end)
            &&& found.removed == trailing.removed
        }),
    decreases end - start,
{
    let clusters = logical_clusters(start, end).reverse();
    lemma_content_end(layout, start, end);
    if start < end {
        assert(clusters[0] == end - 1);
        assert(clusters.drop_first() =~= logical_clusters(start, end - 1).reverse());
        let last = (end - 1) as usize;
        let next = trailing.with_cluster(layout, 0, last);
        assert(character_of(layout, end - 1).source_char != '\u{3000}');
        lengths::lemma_text_size_adjacent(layout, start, end - 1, end);
        reveal_with_fuel(text_size, 2);
        if is_space(layout, end - 1) {
            lemma_content_end(layout, start, end - 1);
            lemma_hanging_end(layout, next, start, end - 1);
        } else {
            reveal_with_fuel(extent::seen, 2);
        }
    }
}

/// What is found at the end of a line on which white space takes up space.
proof fn lemma_kept_end(
    layout: LayoutData<Fixed>,
    trailing: Trailing<Fixed>,
    start: int,
    end: int,
)
    requires
        keeps_spaces(layout),
        0 <= start <= end <= layout.shaped_text.clusters@.len(),
        end <= usize::MAX,
        !trailing.ended,
    ensures
        ({
            let found = extent::seen(trailing, layout, logical_clusters(start, end).reverse());
            &&& found.conditional == trailing.conditional
            &&& found.unconditional == trailing.unconditional
            &&& found.spaces == trailing.spaces
            &&& found.removed == trailing.removed
        }),
    decreases end - start,
{
    let clusters = logical_clusters(start, end).reverse();
    if start < end {
        assert(clusters[0] == end - 1);
        assert(clusters.drop_first() =~= logical_clusters(start, end - 1).reverse());
        assert(style_of(layout, end - 1).white_space_collapse != WhiteSpaceCollapse::Collapse);
        if is_forced_break(layout, end - 1) {
            lemma_kept_end(layout, trailing, start, end - 1);
        } else {
            reveal_with_fuel(extent::seen, 2);
        }
    }
}

/// What is found at the end of a line with ideographic spaces.
proof fn lemma_wide_end(
    layout: LayoutData<Fixed>,
    trailing: Trailing<Fixed>,
    start: int,
    end: int,
)
    requires
        has_wide_spaces(layout),
        0 <= start <= end <= layout.shaped_text.clusters@.len(),
        end <= usize::MAX,
        !trailing.ended,
        size_of_number(trailing.unconditional.steps as int) + text_size(layout, start, end)
            <= i64::MAX,
    ensures
        ({
            let found = extent::seen(trailing, layout, logical_clusters(start, end).reverse());
            let at = wide_content_end(layout, start, end);
            &&& found.unconditional.steps == trailing.unconditional.steps + text_steps(
                layout,
                at,
                end,
            )
            &&& found.conditional == trailing.conditional
            &&& found.spaces == trailing.spaces
            &&& found.removed == trailing.removed
        }),
    decreases end - start,
{
    let clusters = logical_clusters(start, end).reverse();
    lemma_wide_content_end(layout, start, end);
    if start < end {
        assert(clusters[0] == end - 1);
        assert(clusters.drop_first() =~= logical_clusters(start, end - 1).reverse());
        let next = trailing.with_cluster(layout, 0, (end - 1) as usize);
        assert(character_of(layout, end - 1).whitespace != Whitespace::Tab);
        lengths::lemma_text_size_adjacent(layout, start, end - 1, end);
        reveal_with_fuel(text_size, 2);
        if is_wide_space(layout, end - 1) {
            lemma_wide_content_end(layout, start, end - 1);
            lemma_wide_end(layout, next, start, end - 1);
        } else {
            reveal_with_fuel(extent::seen, 2);
        }
    }
}

proof fn lemma_wide_content_end(layout: LayoutData<Fixed>, start: int, end: int)
    requires
        start <= end,
    ensures
        start <= wide_content_end(layout, start, end) <= end,
    decreases end - start,
{
    if start < end && is_wide_space(layout, end - 1) {
        lemma_wide_content_end(layout, start, end - 1);
    }
}

/// How much of white space at the end of a line hangs, where `size` of it can:
/// all at a soft wrap, elsewhere as much as does not fit.
pub open spec fn hanging_part(reason: BreakReason, size: int, advance: int, limit: int) -> int {
    if reason == BreakReason::Regular || reason == BreakReason::Emergency || advance - limit
        >= size {
        size
    } else if advance <= limit {
        0
    } else {
        advance - limit
    }
}

/// A line of the clusters `start..end` has the text of these clusters, and the
/// white space at its end is no part of its extent: if it is removed, the
/// line's advance is that of the content before it; if it hangs, the line's
/// advance is that of all its clusters and says how much of it hangs. Text can be
/// stretched at the spaces before it. Ideographic spaces hang in full. White space
/// that takes up space counts as content.
pub open spec fn is_line_of(
    layout: LayoutData<Fixed>,
    line: LineData<Fixed>,
    start: int,
    end: int,
) -> bool {
    let at = content_end(layout, start, end);
    let characters = layout.shaped_text.characters@;
    let clusters = layout.shaped_text.clusters@;
    let metrics = line.metrics;
    &&& start < end ==> {
        &&& line.text_range.start == characters[clusters[start].chars.start as int].text.start
        &&& line.text_range.end == characters[clusters[end - 1].chars.end - 1].text.end
    }
    &&& removes_spaces(layout) || hangs_spaces(layout) ==> line.num_spaces == spaces_between(
        layout,
        start,
        at,
    )
    &&& keeps_spaces(layout) || has_wide_spaces(layout) ==> {
        &&& line.num_spaces == spaces_between(layout, start, end)
        &&& metrics.advance.steps == text_steps(layout, start, end)
    }
    &&& keeps_spaces(layout) ==> metrics.trailing_whitespace.steps == 0
    &&& has_wide_spaces(layout) ==> metrics.trailing_whitespace.steps == text_steps(
        layout,
        wide_content_end(layout, start, end),
        end,
    )
    &&& removes_spaces(layout) ==> {
        &&& metrics.advance.steps == text_steps(layout, start, at)
        &&& metrics.trailing_whitespace.steps == 0
    }
    &&& hangs_spaces(layout) ==> {
        let size = text_steps(layout, at, end);
        let advance = text_steps(layout, start, end);
        &&& metrics.advance.steps == advance
        &&& size >= 0 ==> metrics.trailing_whitespace.steps == hanging_part(
            line.break_reason,
            size,
            advance,
            line.max_advance.steps as int,
        )
    }
}

/// All text runs from left to right.
pub open spec fn is_left_to_right(layout: LayoutData<Fixed>) -> bool {
    &&& layout.base_level == 0
    &&& forall|i: int|
        0 <= i < layout.shaped_text.runs@.len() ==> (
        #[trigger] layout.shaped_text.runs@[i]).bidi_level == 0
}

proof fn lemma_left_to_right_fits(layout: LayoutData<Fixed>)
    requires
        layout.wf(),
        is_left_to_right(layout),
    ensures
        plain_lines::levels_fit(layout, |c: int| 0u8),
{
    assert forall|item: int|
        0 <= item < layout.items@.len() && #[trigger] layout.spec_is_text(
            item,
        ) implies layout.shaped_text.runs@[layout.items@[item].index as int].bidi_level == 0 by {
        assert(layout.item_wf(item));
    }
}

proof fn lemma_boxes_out_of_flow_take_no_space(layout: LayoutData<Fixed>, from: int, to: int)
    requires
        plain_lines::is_text_alone(layout),
        0 <= from,
        to <= layout.items@.len(),
    ensures
        boxes_steps(layout, from, to) == 0,
    decreases to - from,
{
    if from < to {
        lemma_boxes_out_of_flow_take_no_space(layout, from, to - 1);
        assert(layout.spec_is_text(to - 1) || !layout.spec_is_text(to - 1));
    }
}

/// What is found at the end of a line.
proof fn lemma_end_of_line(layout: LayoutData<Fixed>, start: int, end: int)
    requires
        layout.base_level == 0,
        lengths_fit(layout),
        has_one_rule(layout),
        0 <= start <= end <= layout.shaped_text.clusters@.len(),
    ensures
        ({
            let found = extent::trailing_of_line(layout, |c: int| 0u8, start, end);
            let at = content_end(layout, start, end);
            let spaces = extent::spaces_among(
                layout,
                extent::visual_line(layout, |c: int| 0u8, start, end),
            );
            let removed = removed_advance(layout, found.removed, found.removed.len() as int);
            &&& removes_spaces(layout) || hangs_spaces(layout) ==> spaces == spaces_between(
                layout,
                start,
                at,
            ) + found.spaces
            &&& spaces <= usize::MAX
            &&& removes_spaces(layout) || hangs_spaces(layout) ==> found.unconditional.steps == 0
            &&& keeps_spaces(layout) || has_wide_spaces(layout) ==> {
                &&& spaces == spaces_between(layout, start, end)
                &&& found.spaces == 0
                &&& removed.steps == 0
                &&& found.conditional.steps == 0
            }
            &&& keeps_spaces(layout) ==> found.unconditional.steps == 0
            &&& has_wide_spaces(layout) ==> found.unconditional.steps == text_steps(
                layout,
                wide_content_end(layout, start, end),
                end,
            )
            &&& removes_spaces(layout) ==> {
                &&& removed.steps == text_steps(layout, at, end)
                &&& found.conditional.steps == 0
            }
            &&& hangs_spaces(layout) ==> {
                &&& removed.steps == 0
                &&& found.conditional.steps == text_steps(layout, at, end)
            }
        }),
{
    let levels = |c: int| 0u8;
    let line_levels = extent::line_levels(layout, levels, start, end);
    visual::lemma_lower_clusters_stay(line_levels, 1, start, end, end);
    let clusters = extent::visual_line(layout, levels, start, end);
    assert(clusters =~= logical_clusters(start, end));
    lemma_spaces_of_clusters(layout, start, end);
    lemma_content_end(layout, start, end);
    lemma_spaces_adjacent(layout, start, content_end(layout, start, end), end);
    lemma_spaces_adjacent(layout, start, start, end);
    lengths::lemma_parts_fit(layout, 0, 0, start, end);
    assert(layout.shaped_text.clusters.len() <= usize::MAX);
    let nothing = Trailing::<Fixed>::nothing();
    if removes_spaces(layout) {
        lemma_removed_end(layout, nothing, start, end);
    }
    if hangs_spaces(layout) {
        lemma_hanging_end(layout, nothing, start, end);
    }
    if keeps_spaces(layout) {
        lemma_kept_end(layout, nothing, start, end);
    }
    if has_wide_spaces(layout) {
        lemma_wide_end(layout, nothing, start, end);
    }
}

/// A line as its clusters make it.
proof fn lemma_line_of_text(
    layout: LayoutData<Fixed>,
    line: LineData<Fixed>,
    start: int,
    end: int,
    line_height: Fixed,
)
    requires
        layout.base_level == 0,
        lengths_fit(layout),
        has_one_rule(layout),
        0 <= start <= end <= layout.shaped_text.clusters@.len(),
        line.metrics.advance.steps == text_steps(layout, start, end),
    ensures
        is_line_of(
            layout,
            extent::line_of_text(layout, line, |c: int| 0u8, start, end, line_height),
            start,
            end,
        ),
{
    lemma_end_of_line(layout, start, end);
    let at = content_end(layout, start, end);
    lemma_content_end(layout, start, end);
    lengths::lemma_text_steps_adjacent(layout, start, at, end);
    lengths::lemma_parts_fit(layout, 0, 0, start, end);
    lengths::lemma_parts_fit(layout, 0, 0, start, at);
    lengths::lemma_parts_fit(layout, 0, 0, at, end);
    lemma_wide_content_end(layout, start, end);
    lengths::lemma_parts_fit(layout, 0, 0, wide_content_end(layout, start, end), end);
    assert(layout.shaped_text.clusters.len() <= usize::MAX);
}

/// A finished line.
proof fn lemma_finished_end(
    layout: LayoutData<Fixed>,
    progress: Progress<Fixed>,
    reason: BreakReason,
    max_advance: Fixed,
    indent: Fixed,
)
    requires
        layout.wf(),
        extent::text_is_in_order(layout),
        plain_lines::is_text_alone(layout),
        is_left_to_right(layout),
        lengths_fit(layout),
        has_one_rule(layout),
        plain_lines::can_finish(layout, progress),
        advances::has_its_advance(
            layout,
            progress.state.line,
            progress.state.item_idx as int,
        ),
    ensures
        is_line_of(
            layout,
            progress.with_line(layout, reason, max_advance, indent).lines.last(),
            progress.state.line.clusters.start as int,
            progress.state.line.clusters.end as int,
        ),
        progress.with_line(layout, reason, max_advance, indent).lines.last().break_reason
            == reason,
        progress.with_line(layout, reason, max_advance, indent).lines.drop_last()
            == progress.lines,
{
    let line = progress.state.line;
    let start = line.clusters.start as int;
    let end = line.clusters.end as int;
    let levels = |c: int| 0u8;
    lemma_left_to_right_fits(layout);
    plain_lines::lemma_finished_text(layout, progress, levels, reason, max_advance, indent, true);
    lemma_boxes_out_of_flow_take_no_space(
        layout,
        line.items.start as int,
        progress.state.item_idx as int,
    );
    lemma_line_of_text(
        layout,
        progress.new_line(layout, reason, max_advance, indent),
        start,
        end,
        line.box_metrics.spec_line_height(),
    );
    let next = progress.with_line(layout, reason, max_advance, indent);
    assert(next.lines.drop_last() =~= progress.lines);
}

/// What becomes of white space at the end of a line of left-to-right text, and
/// which text the line has. It is so of the first line, and of every line after
/// a line.
pub proof fn lemma_line_ends(layout: LayoutData<Fixed>, progress: Progress<Fixed>)
    requires
        layout.wf(),
        extent::text_is_in_order(layout),
        plain_lines::is_text_alone(layout),
        is_left_to_right(layout),
        lengths_fit(layout),
        has_whole_breaks(layout),
        has_one_rule(layout),
        layout.items@.len() > 0,
        !progress.done,
        coverage::keeps_text(layout, progress.state),
        box_lines::boxes_are_in_place(layout, progress.state),
        advances_are_kept(layout, progress.state),
        coverage::committed_next(layout, progress).len() < usize::MAX,
    ensures
        ({
            let (next, yielded) = progress.next(layout);
            &&& !next.done ==> {
                &&& coverage::keeps_text(layout, next.state)
                &&& box_lines::boxes_are_in_place(layout, next.state)
                &&& advances_are_kept(layout, next.state)
            }
            &&& yielded matches Some(YieldData::LineBreak(_)) ==> {
                &&& next.lines.drop_last() == progress.lines
                &&& is_line_of(
                    layout,
                    next.lines.last(),
                    progress.state.line.clusters.start as int,
                    next.state.line.clusters.start as int,
                )
            }
        }),
{
    let available = progress.available(layout);
    let indent = progress.indent(layout);
    let step = scan::scan(layout, progress.state, progress.state.item_idx as int, available);
    plain_lines::lemma_next_can_finish(layout, progress);
    advances::lemma_scan_keeps_advance(layout, progress.state, available);
    let scanned = Progress { prev_state: Some(progress.state), state: step.state, ..progress };
    assert(layout.edges_hold_content()) by {
        assert forall|edge: int, item: int|
            0 <= edge < item < layout.items@.len() && #[trigger] layout.is_opening_edge(edge)
                && layout.no_text(edge, item) && #[trigger] layout.spec_is_text(item) implies
            !layout.starts_with_hanging_space(item) by {
            assert(!layout.spec_is_text(edge));
        }
    }
    coverage::lemma_aligned_scan(layout, progress.state, available);
    box_lines::lemma_scan_in_place(layout, progress.state, available);
    match step.flow {
        Flow::Continue => {
            let ended = scanned.at_end(step.state);
            lemma_finished_end(layout, ended, BreakReason::NoBreak, available, indent);
        },
        Flow::Break(reason) => {
            lemma_finished_end(layout, scanned, reason, available, indent);
            advances::lemma_new_line_is_ready(layout, scanned, reason, available, indent);
        },
        _ => {},
    }
}

} // verus!
