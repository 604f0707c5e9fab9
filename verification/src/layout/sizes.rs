//! The size of a layout is that of its lines.

use crate::layout::break_lines;
use crate::layout::break_lines::Progress;
use crate::layout::data::{Layout, LineData};
use crate::layout::stacking::{can_place, can_place_all, heights_before};
use crate::scalar::Fixed;
use vstd::prelude::*;

verus! {

/// How far a line reaches from the layout's start: over its advance and, if it
/// is indented, over its indent.
pub open spec fn reach_of_line(line: LineData<Fixed>) -> int {
    line.metrics.inline_min_coord.steps + line.metrics.advance.steps + if line.indent.steps > 0 {
        line.indent.steps as int
    } else {
        0
    }
}

/// The lengths of a line are small enough to be added up.
pub open spec fn line_fits(line: LineData<Fixed>) -> bool {
    &&& can_place(line.metrics.inline_min_coord.steps as int)
    &&& can_place(line.metrics.advance.steps as int)
    &&& can_place(line.metrics.trailing_whitespace.steps as int)
    &&& can_place(line.indent.steps as int)
}

proof fn lemma_widths(lines: Seq<LineData<Fixed>>, count: int)
    requires
        0 <= count <= lines.len(),
        forall|i: int| 0 <= i < lines.len() ==> line_fits(#[trigger] lines[i]),
    ensures
        ({
            let full = break_lines::full_width_of(lines, count).steps;
            let width = break_lines::width_of(lines, count).steps;
            &&& full >= 0
            &&& width >= 0
            &&& forall|i: int| 0 <= i < count ==> reach_of_line(#[trigger] lines[i]) <= full
            &&& forall|i: int|
                0 <= i < count ==> reach_of_line(#[trigger] lines[i])
                    - lines[i].metrics.trailing_whitespace.steps <= width
            &&& full == 0 || exists|i: int|
                0 <= i < count && reach_of_line(#[trigger] lines[i]) == full
            &&& width == 0 || exists|i: int|
                0 <= i < count && reach_of_line(#[trigger] lines[i])
                    - lines[i].metrics.trailing_whitespace.steps == width
        }),
    decreases count,
{
    if count > 0 {
        lemma_widths(lines, count - 1);
        let line = lines[count - 1];
        assert(line_fits(line));
        assert(break_lines::line_extent(line).steps == reach_of_line(line));
        let full = break_lines::full_width_of(lines, count).steps;
        let width = break_lines::width_of(lines, count).steps;
        if full != 0 && full == break_lines::full_width_of(lines, count - 1).steps {
            let i = choose|i: int|
                0 <= i < count - 1 && reach_of_line(#[trigger] lines[i]) == full;
            assert(reach_of_line(lines[i]) == full);
        }
        if width != 0 && width == break_lines::width_of(lines, count - 1).steps {
            let i = choose|i: int|
                0 <= i < count - 1 && reach_of_line(#[trigger] lines[i])
                    - lines[i].metrics.trailing_whitespace.steps == width;
            assert(reach_of_line(lines[i]) - lines[i].metrics.trailing_whitespace.steps
                == width);
        }
    }
}

proof fn lemma_height(lines: Seq<LineData<Fixed>>, count: int)
    requires
        0 <= count <= lines.len(),
        can_place_all(lines),
    ensures
        break_lines::height_of(lines, count).steps == heights_before(lines, count),
    decreases count,
{
    if count > 0 {
        lemma_height(lines, count - 1);
        assert(can_place(heights_before(lines, count)));
        assert(can_place(heights_before(lines, count - 1)));
    }
}

/// A layout is as wide as its widest line, with and without the white space that
/// hangs, and as high as its lines together. It holds the lines as they were
/// broken; only a line without a limit, in a layout without one, ends where the
/// layout does.
pub proof fn lemma_layout_has_the_size_of_its_lines(
    progress: Progress<Fixed>,
    layout: Layout<Fixed>,
)
    requires
        progress.is_held_by(layout),
        forall|i: int|
            0 <= i < progress.lines.len() ==> line_fits(#[trigger] progress.lines[i]),
        can_place_all(progress.lines),
    ensures
        ({
            let lines = progress.lines;
            let held = layout.lines@;
            let unlimited = layout.layout_max_advance.steps == i64::MAX;
            &&& held.len() == lines.len()
            &&& layout.line_items@ == progress.items
            &&& 0 <= layout.full_width.steps
            &&& 0 <= layout.width.steps
            &&& forall|i: int|
                0 <= i < lines.len() ==> reach_of_line(#[trigger] lines[i])
                    <= layout.full_width.steps
            &&& forall|i: int|
                0 <= i < lines.len() ==> reach_of_line(#[trigger] lines[i])
                    - lines[i].metrics.trailing_whitespace.steps <= layout.width.steps
            &&& layout.full_width.steps == 0 || exists|i: int|
                0 <= i < lines.len() && reach_of_line(#[trigger] lines[i])
                    == layout.full_width.steps
            &&& layout.width.steps == 0 || exists|i: int|
                0 <= i < lines.len() && reach_of_line(#[trigger] lines[i])
                    - lines[i].metrics.trailing_whitespace.steps == layout.width.steps
            &&& layout.height.steps == heights_before(
                lines,
                if lines.len() > 0 && lines.last().item_range.start
                    >= lines.last().item_range.end {
                    lines.len() - 1
                } else {
                    lines.len() as int
                },
            )
            &&& forall|i: int|
                0 <= i < lines.len() ==> {
                    let line = #[trigger] held[i];
                    let end = lines[i].metrics.inline_max_coord;
                    &&& line.text_range == lines[i].text_range
                    &&& line.item_range == lines[i].item_range
                    &&& line.metrics.advance == lines[i].metrics.advance
                    &&& line.metrics.baseline == lines[i].metrics.baseline
                    &&& line.metrics.block_min_coord == lines[i].metrics.block_min_coord
                    &&& line.metrics.block_max_coord == lines[i].metrics.block_max_coord
                    &&& line.metrics.inline_min_coord == lines[i].metrics.inline_min_coord
                    &&& line.metrics.inline_max_coord == if unlimited && end.steps == i64::MAX {
                        layout.width
                    } else {
                        end
                    }
                }
        }),
{
    let lines = progress.lines;
    let count = lines.len() as int;
    lemma_widths(lines, count);
    lemma_height(lines, count);
    if count > 0 {
        lemma_height(lines, count - 1);
        assert(can_place(heights_before(lines, count)));
        assert(can_place(heights_before(lines, count - 1)));
    }
}

} // verus!
