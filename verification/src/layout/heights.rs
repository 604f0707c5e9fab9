//! A line is as high as its content makes it.

use crate::inline_box::InlineBoxKind;
use crate::layout::coverage;
use crate::layout::data::LayoutData;
use crate::layout::scan;
use crate::layout::shaped::Span;
use crate::layout::state::{BreakerState, LineBoxMetrics, LineState, PrevBoundaryState};
use crate::scalar::{Fixed, Scalar};
use vstd::prelude::*;

verus! {

/// The whole number of units that is nearest to a number of steps, away from
/// zero if two are.
pub open spec fn rounded(steps: int) -> int {
    if steps >= 0 {
        (steps + 32) / 64 * 64
    } else {
        -((32 - steps) / 64 * 64)
    }
}

/// How far something reaches over and under a baseline.
pub struct Reach {
    pub over: int,
    pub under: int,
}

/// How far the glyphs of a text item reach, in whole units if the layout is
/// quantized.
pub open spec fn glyph_reach(layout: LayoutData<Fixed>, item: int) -> Reach {
    let metrics = layout.shaped_text.runs@[layout.items@[item].index as int].font_metrics;
    if layout.quantize {
        Reach {
            over: rounded(metrics.ascent.steps as int),
            under: rounded(metrics.descent.steps as int),
        }
    } else {
        Reach { over: metrics.ascent.steps as int, under: metrics.descent.steps as int }
    }
}

/// How far the line box of a text item reaches: its line height is divided over
/// and under its glyphs alike, with whole units over them if the layout is
/// quantized.
pub open spec fn text_reach(layout: LayoutData<Fixed>, item: int) -> Reach {
    let height = layout.runs@[layout.items@[item].index as int].line_height.steps as int;
    let glyphs = glyph_reach(layout, item);
    let half = (height - (glyphs.over + glyphs.under)) / 2;
    let over = glyphs.over + if layout.quantize {
        half / 64 * 64
    } else {
        half
    };
    Reach { over, under: height - over }
}

/// How far a box reaches. Only atomic boxes have an extent on the line; they
/// stand on the baseline unless they have one of their own.
pub open spec fn box_reach(layout: LayoutData<Fixed>, item: int) -> Reach {
    let inline_box = layout.inline_boxes@[layout.items@[item].index as int];
    let over = match inline_box.baseline {
        Some(baseline) => baseline.steps as int,
        None => inline_box.height.steps as int,
    };
    let under = inline_box.height.steps - over;
    if inline_box.kind != InlineBoxKind::InFlow {
        Reach { over: 0, under: 0 }
    } else if layout.quantize {
        Reach { over: rounded(over), under: rounded(under) }
    } else {
        Reach { over, under }
    }
}

/// How far an item reaches, with its leading.
pub open spec fn reach_of(layout: LayoutData<Fixed>, item: int) -> Reach {
    if layout.spec_is_text(item) {
        text_reach(layout, item)
    } else {
        box_reach(layout, item)
    }
}

/// How far an item reaches, without leading.
pub open spec fn content_reach_of(layout: LayoutData<Fixed>, item: int) -> Reach {
    if layout.spec_is_text(item) {
        glyph_reach(layout, item)
    } else {
        box_reach(layout, item)
    }
}

pub open spec fn is_small(steps: int) -> bool {
    -0x400_0000_0000_0000 <= steps <= 0x400_0000_0000_0000
}

/// The heights of runs and boxes are small enough to be added up.
pub open spec fn heights_fit(layout: LayoutData<Fixed>) -> bool {
    &&& forall|i: int|
        0 <= i < layout.runs@.len() ==> is_small(
            (#[trigger] layout.runs@[i]).line_height.steps as int,
        )
    &&& forall|i: int|
        0 <= i < layout.shaped_text.runs@.len() ==> {
            let metrics = (#[trigger] layout.shaped_text.runs@[i]).font_metrics;
            is_small(metrics.ascent.steps as int) && is_small(metrics.descent.steps as int)
        }
    &&& forall|i: int|
        0 <= i < layout.inline_boxes@.len() ==> {
            let inline_box = #[trigger] layout.inline_boxes@[i];
            is_small(inline_box.height.steps as int) && (inline_box.baseline matches Some(baseline)
                ==> is_small(baseline.steps as int))
        }
}

/// Some of the item is on a line with the clusters `start..end` and the items
/// from `first` up to `item_idx`.
pub open spec fn is_on_line(
    layout: LayoutData<Fixed>,
    first: int,
    item_idx: int,
    start: int,
    end: int,
    item: int,
) -> bool {
    &&& 0 <= item < layout.items@.len()
    &&& if layout.spec_is_text(item) {
        &&& start < end
        &&& layout.clusters_before(item) < end
        &&& start < layout.clusters_before(item + 1)
    } else {
        first <= item < item_idx
    }
}

/// The reach is that of all items on a line together: as far as the item that
/// reaches farthest, and no less than nothing.
pub open spec fn is_reach_of_line(
    layout: LayoutData<Fixed>,
    reach: Reach,
    first: int,
    item_idx: int,
    start: int,
    end: int,
    with_leading: bool,
) -> bool {
    let of = |item: int|
        if with_leading {
            reach_of(layout, item)
        } else {
            content_reach_of(layout, item)
        };
    &&& 0 <= reach.over
    &&& 0 <= reach.under
    &&& forall|item: int| #[trigger]
        is_on_line(layout, first, item_idx, start, end, item) ==> of(item).over <= reach.over
            && of(item).under <= reach.under
    &&& reach.over == 0 || exists|item: int| #[trigger]
        is_on_line(layout, first, item_idx, start, end, item) && of(item).over == reach.over
    &&& reach.under == 0 || exists|item: int| #[trigger]
        is_on_line(layout, first, item_idx, start, end, item) && of(item).under == reach.under
}

/// The item is an atomic box.
pub open spec fn is_atomic_box(layout: LayoutData<Fixed>, item: int) -> bool {
    &&& 0 <= item < layout.items@.len()
    &&& !layout.spec_is_text(item)
    &&& layout.inline_boxes@[layout.items@[item].index as int].kind == InlineBoxKind::InFlow
}

/// There is text or an atomic box on a line with the clusters `start..end` and
/// the items from `first` up to `item_idx`.
pub open spec fn holds_content(
    layout: LayoutData<Fixed>,
    first: int,
    item_idx: int,
    start: int,
    end: int,
) -> bool {
    ||| start < end
    ||| exists|item: int| first <= item < item_idx && #[trigger] is_atomic_box(layout, item)
}

// ---------------------------------------------------------------------------
// Filling a line.

/// The line is as high as what is on it.
#[verifier::opaque]
pub open spec fn has_its_height(
    layout: LayoutData<Fixed>,
    line: LineState<Fixed>,
    item_idx: int,
) -> bool {
    let metrics = line.box_metrics;
    let first = line.items.start as int;
    let start = line.clusters.start as int;
    let end = line.clusters.end as int;
    &&& line.items.start <= item_idx <= layout.items@.len()
    &&& line.has_content ==> holds_content(layout, first, item_idx, start, end)
    &&& is_reach_of_line(
        layout,
        Reach {
            over: metrics.line_box.over.steps as int,
            under: metrics.line_box.under.steps as int,
        },
        first,
        item_idx,
        start,
        end,
        true,
    )
    &&& is_reach_of_line(
        layout,
        Reach {
            over: metrics.content_box.over.steps as int,
            under: metrics.content_box.under.steps as int,
        },
        first,
        item_idx,
        start,
        end,
        false,
    )
}

pub open spec fn boundary_has_its_height(
    layout: LayoutData<Fixed>,
    boundary: Option<PrevBoundaryState<Fixed>>,
) -> bool {
    boundary matches Some(boundary) ==> has_its_height(
        layout,
        boundary.state,
        boundary.item_idx as int,
    )
}

/// Wherever the line is broken, it is as high as what is on it.
pub open spec fn heights_are_kept(layout: LayoutData<Fixed>, state: BreakerState<Fixed>) -> bool {
    &&& has_its_height(layout, state.line, state.item_idx as int)
    &&& boundary_has_its_height(layout, state.prev_boundary)
    &&& boundary_has_its_height(layout, state.emergency_boundary)
    &&& boundary_has_its_height(layout, state.pending_inline_start.before())
}

/// Something that comes on the line makes it as high as itself at least.
proof fn lemma_grown_reach(
    layout: LayoutData<Fixed>,
    reach: Reach,
    first: int,
    item_idx: int,
    start: int,
    end: int,
    added: int,
    next_item_idx: int,
    next_end: int,
    with_leading: bool,
) -> (next: Reach)
    requires
        is_reach_of_line(layout, reach, first, item_idx, start, end, with_leading),
        is_on_line(layout, first, next_item_idx, start, next_end, added),
        forall|item: int|
            item != added ==> #[trigger] is_on_line(
                layout,
                first,
                next_item_idx,
                start,
                next_end,
                item,
            ) == is_on_line(layout, first, item_idx, start, end, item),
        is_on_line(layout, first, item_idx, start, end, added) ==> is_on_line(
            layout,
            first,
            next_item_idx,
            start,
            next_end,
            added,
        ),
    ensures
        ({
            let of = if with_leading {
                reach_of(layout, added)
            } else {
                content_reach_of(layout, added)
            };
            &&& next.over == if reach.over < of.over {
                of.over
            } else {
                reach.over
            }
            &&& next.under == if reach.under < of.under {
                of.under
            } else {
                reach.under
            }
        }),
        is_reach_of_line(layout, next, first, next_item_idx, start, next_end, with_leading),
{
    let of = if with_leading {
        reach_of(layout, added)
    } else {
        content_reach_of(layout, added)
    };
    let next = Reach {
        over: if reach.over < of.over {
            of.over
        } else {
            reach.over
        },
        under: if reach.under < of.under {
            of.under
        } else {
            reach.under
        },
    };
    assert(is_on_line(layout, first, next_item_idx, start, next_end, added));
    if next.over != 0 && next.over == reach.over {
        let item = choose|item: int| #[trigger]
            is_on_line(layout, first, item_idx, start, end, item) && (if with_leading {
                reach_of(layout, item)
            } else {
                content_reach_of(layout, item)
            }).over == reach.over;
        assert(is_on_line(layout, first, next_item_idx, start, next_end, item));
    }
    if next.under != 0 && next.under == reach.under {
        let item = choose|item: int| #[trigger]
            is_on_line(layout, first, item_idx, start, end, item) && (if with_leading {
                reach_of(layout, item)
            } else {
                content_reach_of(layout, item)
            }).under == reach.under;
        assert(is_on_line(layout, first, next_item_idx, start, next_end, item));
    }
    assert forall|item: int| #[trigger]
        is_on_line(layout, first, next_item_idx, start, next_end, item) implies (if with_leading {
        reach_of(layout, item)
    } else {
        content_reach_of(layout, item)
    }).over <= next.over && (if with_leading {
        reach_of(layout, item)
    } else {
        content_reach_of(layout, item)
    }).under <= next.under by {
        if item != added {
            assert(is_on_line(layout, first, item_idx, start, end, item));
        }
    }
    next
}

proof fn lemma_rounded(length: Fixed)
    requires
        is_small(length.steps as int) || is_small(length.steps / 2),
    ensures
        length.spec_round().steps == rounded(length.steps as int),
        -32 <= rounded(length.steps as int) - length.steps <= 32,
        rounded(length.steps as int) % 64 == 0,
{
}

/// What text adds to a line.
proof fn lemma_text_metrics(
    layout: LayoutData<Fixed>,
    metrics: LineBoxMetrics<Fixed>,
    item: int,
)
    requires
        layout.wf(),
        heights_fit(layout),
        0 <= item < layout.items@.len(),
        layout.spec_is_text(item),
    ensures
        ({
            let run = layout.items@[item].index as int;
            let next = metrics.with_text(
                layout.shaped_text.runs@[run].font_metrics,
                layout.runs@[run].line_height,
                layout.quantize,
            );
            let text = text_reach(layout, item);
            let glyphs = glyph_reach(layout, item);
            &&& next.line_box.over.steps == if metrics.line_box.over.steps < text.over {
                text.over
            } else {
                metrics.line_box.over.steps as int
            }
            &&& next.line_box.under.steps == if metrics.line_box.under.steps < text.under {
                text.under
            } else {
                metrics.line_box.under.steps as int
            }
            &&& next.content_box.over.steps == if metrics.content_box.over.steps < glyphs.over {
                glyphs.over
            } else {
                metrics.content_box.over.steps as int
            }
            &&& next.content_box.under.steps == if metrics.content_box.under.steps
                < glyphs.under {
                glyphs.under
            } else {
                metrics.content_box.under.steps as int
            }
        }),
{
    assert(layout.item_wf(item));
    let run = layout.items@[item].index as int;
    let font = layout.shaped_text.runs@[run].font_metrics;
    assert(is_small(layout.runs@[run].line_height.steps as int));
    lemma_rounded(font.ascent);
    lemma_rounded(font.descent);
}

/// What a box adds to a line.
proof fn lemma_box_metrics(
    layout: LayoutData<Fixed>,
    metrics: LineBoxMetrics<Fixed>,
    item: int,
    ascent: Fixed,
    descent: Fixed,
)
    requires
        layout.wf(),
        heights_fit(layout),
        0 <= item < layout.items@.len(),
        !layout.spec_is_text(item),
        ({
            let inline_box = layout.inline_boxes@[layout.items@[item].index as int];
            if inline_box.kind == InlineBoxKind::InFlow {
                &&& ascent == inline_box.spec_ascent()
                &&& descent == inline_box.height.spec_minus(ascent)
            } else {
                ascent.steps == 0 && descent.steps == 0
            }
        }),
    ensures
        ({
            let next = metrics.with_inline_box(ascent, descent, layout.quantize);
            let reach = box_reach(layout, item);
            &&& next.line_box.over.steps == if metrics.line_box.over.steps < reach.over {
                reach.over
            } else {
                metrics.line_box.over.steps as int
            }
            &&& next.line_box.under.steps == if metrics.line_box.under.steps < reach.under {
                reach.under
            } else {
                metrics.line_box.under.steps as int
            }
            &&& next.content_box.over.steps == if metrics.content_box.over.steps < reach.over {
                reach.over
            } else {
                metrics.content_box.over.steps as int
            }
            &&& next.content_box.under.steps == if metrics.content_box.under.steps
                < reach.under {
                reach.under
            } else {
                metrics.content_box.under.steps as int
            }
        }),
{
    assert(layout.item_wf(item));
    let inline_box = layout.inline_boxes@[layout.items@[item].index as int];
    assert(is_small(inline_box.height.steps as int));
    lemma_rounded(ascent);
    lemma_rounded(descent);
}

/// The height of a line depends on nothing else of the line.
pub(crate) proof fn lemma_same_height(
    layout: LayoutData<Fixed>,
    line: LineState<Fixed>,
    other: LineState<Fixed>,
    item_idx: int,
)
    requires
        has_its_height(layout, line, item_idx),
        other.items.start == line.items.start,
        other.clusters == line.clusters,
        other.box_metrics == line.box_metrics,
        other.has_content ==> line.has_content || holds_content(
            layout,
            line.items.start as int,
            item_idx,
            line.clusters.start as int,
            line.clusters.end as int,
        ),
    ensures
        has_its_height(layout, other, item_idx),
{
    reveal(has_its_height);
}

proof fn lemma_appended_text(
    layout: LayoutData<Fixed>,
    line: LineState<Fixed>,
    next: LineState<Fixed>,
    item: int,
)
    requires
        layout.wf(),
        heights_fit(layout),
        has_its_height(layout, line, item),
        0 <= item < layout.items@.len(),
        layout.spec_is_text(item),
        layout.clusters_before(item) <= line.clusters.end < next.clusters.end
            <= layout.clusters_before(item + 1),
        line.clusters.start <= line.clusters.end,
        next.items.start == line.items.start,
        next.clusters.start == line.clusters.start,
        ({
            let run = layout.items@[item].index as int;
            next.box_metrics == line.box_metrics.with_text(
                layout.shaped_text.runs@[run].font_metrics,
                layout.runs@[run].line_height,
                layout.quantize,
            )
        }),
    ensures
        has_its_height(layout, next, item),
{
    reveal(has_its_height);
    let metrics = line.box_metrics;
    let first = line.items.start as int;
    let start = line.clusters.start as int;
    let end = line.clusters.end as int;
    let next_end = next.clusters.end as int;
    lemma_text_metrics(layout, metrics, item);
    assert forall|other: int| other != item implies #[trigger] is_on_line(
        layout,
        first,
        item,
        start,
        next_end,
        other,
    ) == is_on_line(layout, first, item, start, end, other) by {
        if 0 <= other < item {
            layout.lemma_clusters_before_monotone(other + 1, item);
            if layout.spec_is_text(other) {
                coverage::lemma_run_bounds(layout, other);
            }
        } else if item < other {
            layout.lemma_clusters_before_monotone(item + 1, other);
        }
    }
    let line_box = lemma_grown_reach(
        layout,
        Reach {
            over: metrics.line_box.over.steps as int,
            under: metrics.line_box.under.steps as int,
        },
        first,
        item,
        start,
        end,
        item,
        item,
        next_end,
        true,
    );
    let content_box = lemma_grown_reach(
        layout,
        Reach {
            over: metrics.content_box.over.steps as int,
            under: metrics.content_box.under.steps as int,
        },
        first,
        item,
        start,
        end,
        item,
        item,
        next_end,
        false,
    );
    let after = next.box_metrics;
    assert(line_box == Reach {
        over: after.line_box.over.steps as int,
        under: after.line_box.under.steps as int,
    });
    assert(content_box == Reach {
        over: after.content_box.over.steps as int,
        under: after.content_box.under.steps as int,
    });
}

pub(crate) proof fn lemma_appended_box(
    layout: LayoutData<Fixed>,
    line: LineState<Fixed>,
    next: LineState<Fixed>,
    item: int,
    ascent: Fixed,
    descent: Fixed,
)
    requires
        layout.wf(),
        heights_fit(layout),
        has_its_height(layout, line, item),
        0 <= item < layout.items@.len(),
        !layout.spec_is_text(item),
        next.items.start == line.items.start,
        next.clusters == line.clusters,
        next.has_content == line.has_content,
        next.box_metrics == line.box_metrics.with_inline_box(ascent, descent, layout.quantize),
        ({
            let inline_box = layout.inline_boxes@[layout.items@[item].index as int];
            if inline_box.kind == InlineBoxKind::InFlow {
                &&& ascent == inline_box.spec_ascent()
                &&& descent == inline_box.height.spec_minus(ascent)
            } else {
                ascent.steps == 0 && descent.steps == 0
            }
        }),
    ensures
        has_its_height(layout, next, item + 1),
        is_atomic_box(layout, item) ==> holds_content(
            layout,
            next.items.start as int,
            item + 1,
            next.clusters.start as int,
            next.clusters.end as int,
        ),
{
    reveal(has_its_height);
    let metrics = line.box_metrics;
    let first = line.items.start as int;
    let start = line.clusters.start as int;
    let end = line.clusters.end as int;
    lemma_box_metrics(layout, metrics, item, ascent, descent);
    let line_box = lemma_grown_reach(
        layout,
        Reach {
            over: metrics.line_box.over.steps as int,
            under: metrics.line_box.under.steps as int,
        },
        first,
        item,
        start,
        end,
        item,
        item + 1,
        end,
        true,
    );
    let content_box = lemma_grown_reach(
        layout,
        Reach {
            over: metrics.content_box.over.steps as int,
            under: metrics.content_box.under.steps as int,
        },
        first,
        item,
        start,
        end,
        item,
        item + 1,
        end,
        false,
    );
    let after = next.box_metrics;
    assert(line_box == Reach {
        over: after.line_box.over.steps as int,
        under: after.line_box.under.steps as int,
    });
    assert(content_box == Reach {
        over: after.content_box.over.steps as int,
        under: after.content_box.under.steps as int,
    });
}

proof fn lemma_passed_run(layout: LayoutData<Fixed>, line: LineState<Fixed>, item: int)
    requires
        has_its_height(layout, line, item),
        0 <= item < layout.items@.len(),
        layout.spec_is_text(item),
    ensures
        has_its_height(layout, line, item + 1),
{
    reveal(has_its_height);
    let first = line.items.start as int;
    let start = line.clusters.start as int;
    let end = line.clusters.end as int;
    assert forall|other: int| #[trigger]
        is_on_line(layout, first, item + 1, start, end, other) == is_on_line(
            layout,
            first,
            item,
            start,
            end,
            other,
        ) by {}
    lemma_same_reach(layout, line, item, true);
    lemma_same_reach(layout, line, item, false);
}

proof fn lemma_same_reach(
    layout: LayoutData<Fixed>,
    line: LineState<Fixed>,
    item: int,
    with_leading: bool,
)
    requires
        0 <= item < layout.items@.len(),
        layout.spec_is_text(item),
        is_reach_of_line(
            layout,
            if with_leading {
                Reach {
                    over: line.box_metrics.line_box.over.steps as int,
                    under: line.box_metrics.line_box.under.steps as int,
                }
            } else {
                Reach {
                    over: line.box_metrics.content_box.over.steps as int,
                    under: line.box_metrics.content_box.under.steps as int,
                }
            },
            line.items.start as int,
            item,
            line.clusters.start as int,
            line.clusters.end as int,
            with_leading,
        ),
    ensures
        is_reach_of_line(
            layout,
            if with_leading {
                Reach {
                    over: line.box_metrics.line_box.over.steps as int,
                    under: line.box_metrics.line_box.under.steps as int,
                }
            } else {
                Reach {
                    over: line.box_metrics.content_box.over.steps as int,
                    under: line.box_metrics.content_box.under.steps as int,
                }
            },
            line.items.start as int,
            item + 1,
            line.clusters.start as int,
            line.clusters.end as int,
            with_leading,
        ),
{
    let reach = if with_leading {
        Reach {
            over: line.box_metrics.line_box.over.steps as int,
            under: line.box_metrics.line_box.under.steps as int,
        }
    } else {
        Reach {
            over: line.box_metrics.content_box.over.steps as int,
            under: line.box_metrics.content_box.under.steps as int,
        }
    };
    let first = line.items.start as int;
    let start = line.clusters.start as int;
    let end = line.clusters.end as int;
    assert forall|other: int| #[trigger]
        is_on_line(layout, first, item + 1, start, end, other) == is_on_line(
            layout,
            first,
            item,
            start,
            end,
            other,
        ) by {}
    if reach.over != 0 {
        let other = choose|other: int| #[trigger]
            is_on_line(layout, first, item, start, end, other) && (if with_leading {
                reach_of(layout, other)
            } else {
                content_reach_of(layout, other)
            }).over == reach.over;
        assert(is_on_line(layout, first, item + 1, start, end, other));
    }
    if reach.under != 0 {
        let other = choose|other: int| #[trigger]
            is_on_line(layout, first, item, start, end, other) && (if with_leading {
                reach_of(layout, other)
            } else {
                content_reach_of(layout, other)
            }).under == reach.under;
        assert(is_on_line(layout, first, item + 1, start, end, other));
    }
    assert forall|other: int| #[trigger]
        is_on_line(layout, first, item + 1, start, end, other) implies (if with_leading {
        reach_of(layout, other)
    } else {
        content_reach_of(layout, other)
    }).over <= reach.over && (if with_leading {
        reach_of(layout, other)
    } else {
        content_reach_of(layout, other)
    }).under <= reach.under by {
        assert(is_on_line(layout, first, item, start, end, other));
    }
}

/// What a step keeps.
pub(crate) open spec fn step_keeps_height(
    layout: LayoutData<Fixed>,
    step: scan::Step<Fixed>,
) -> bool {
    if step.flow is Break {
        has_its_height(layout, step.state.line, step.state.item_idx as int)
    } else {
        heights_are_kept(layout, step.state)
    }
}

/// The line with an atom put on it.
spec fn line_with_atom(
    layout: LayoutData<Fixed>,
    line: LineState<Fixed>,
    run: int,
    end: usize,
) -> LineState<Fixed> {
    LineState {
        clusters: Span { end, ..line.clusters },
        box_metrics: line.box_metrics.with_text(
            layout.shaped_text.runs@[run].font_metrics,
            layout.runs@[run].line_height,
            layout.quantize,
        ),
        ..line
    }
}

proof fn lemma_text_keeps_height(
    layout: LayoutData<Fixed>,
    state: BreakerState<Fixed>,
    max_advance: Fixed,
)
    requires
        layout.wf(),
        heights_fit(layout),
        coverage::keeps_text(layout, state),
        heights_are_kept(layout, state),
        state.item_idx < layout.items@.len(),
        layout.spec_is_text(state.item_idx as int),
        state.cluster_idx < layout.clusters_before(state.item_idx + 1),
    ensures
        ({
            let run = layout.items@[state.item_idx as int].index as int;
            let info = scan::atom_info(layout, run, state.cluster_idx as int);
            step_keeps_height(layout, scan::text_step(layout, state, info, max_advance))
        }),
{
    let item = state.item_idx as int;
    let run = layout.items@[item].index as int;
    let at = state.cluster_idx as int;
    coverage::lemma_run_bounds(layout, item);
    let bound = layout.clusters_before(item + 1);
    layout.shaped_text.lemma_atom_end(at, bound);
    layout.lemma_clusters_before_bound(item + 1);
    let end = layout.shaped_text.atom_end(at, bound) as usize;
    let appended = line_with_atom(layout, state.line, run, end);
    lemma_appended_text(layout, state.line, appended, item);
    let info = scan::atom_info(layout, run, at);
    let step = scan::text_step(layout, state, info, max_advance);
    let entered = scan::with_opportunity_before_atom(state, info);
    let here = scan::entering_atom(state, info).line;
    lemma_same_height(layout, state.line, here, item);
    assert(boundary_has_its_height(layout, entered.prev_boundary));
    assert(boundary_has_its_height(layout, entered.emergency_boundary));
    if step.flow !is Break && step.state.cluster_idx == end {
        lemma_same_height(layout, appended, step.state.line, item);
    }
    if step.flow is Break && step.state.cluster_idx == end && step.state.line.clusters.end == end
        && step.state.line.box_metrics == appended.box_metrics && step.state.line.clusters
        == appended.clusters && step.state.line.items.start == appended.items.start {
        lemma_same_height(layout, appended, step.state.line, item);
    }
}

proof fn lemma_run_keeps_height(
    layout: LayoutData<Fixed>,
    state: BreakerState<Fixed>,
    max_advance: Fixed,
)
    requires
        layout.wf(),
        layout.edges_hold_content(),
        heights_fit(layout),
        coverage::keeps_text(layout, state),
        heights_are_kept(layout, state),
        state.item_idx < layout.items@.len(),
        layout.spec_is_text(state.item_idx as int),
    ensures
        ({
            let run = layout.items@[state.item_idx as int].index as int;
            step_keeps_height(
                layout,
                scan::scan_run(layout, state, run, state.cluster_idx as int, max_advance),
            )
        }),
    decreases layout.clusters_before(state.item_idx + 1) - state.cluster_idx,
{
    let item = state.item_idx as int;
    let run = layout.items@[item].index as int;
    let at = state.cluster_idx as int;
    coverage::lemma_run_bounds(layout, item);
    if at < layout.clusters_before(item + 1) {
        lemma_text_keeps_height(layout, state, max_advance);
        coverage::lemma_aligned_text(layout, state, run, max_advance);
        let step = scan::text_step(layout, state, scan::atom_info(layout, run, at), max_advance);
        if step.flow is Continue {
            layout.shaped_text.lemma_atom_end(at, layout.clusters_before(item + 1));
            lemma_run_keeps_height(layout, step.state, max_advance);
        }
    }
}

proof fn lemma_box_keeps_height(
    layout: LayoutData<Fixed>,
    state: BreakerState<Fixed>,
    max_advance: Fixed,
)
    requires
        layout.wf(),
        heights_fit(layout),
        heights_are_kept(layout, state),
        state.item_idx < layout.items@.len(),
        !layout.spec_is_text(state.item_idx as int),
    ensures
        step_keeps_height(
            layout,
            scan::box_step(layout, state, state.item_idx as int, max_advance),
        ),
{
    let item = state.item_idx as int;
    let inline_box = layout.inline_boxes@[layout.items@[item].index as int];
    let zero = Fixed { steps: 0 };
    let (ascent, descent) = if inline_box.kind == InlineBoxKind::InFlow {
        (inline_box.spec_ascent(), inline_box.height.spec_minus(inline_box.spec_ascent()))
    } else {
        (zero, zero)
    };
    let appended = LineState {
        box_metrics: state.line.box_metrics.with_inline_box(ascent, descent, layout.quantize),
        ..state.line
    };
    lemma_appended_box(layout, state.line, appended, item, ascent, descent);
    let step = scan::box_step(layout, state, item, max_advance);
    if step.flow is Continue {
        lemma_same_height(layout, appended, step.state.line, item + 1);
        if step.state.prev_boundary is Some && step.state.prev_boundary != state.prev_boundary {
            lemma_same_height(
                layout,
                step.state.line,
                step.state.prev_boundary->0.state,
                item + 1,
            );
        }
    }
}

/// Wherever the line is broken, it is as high as what is on it.
pub(crate) proof fn lemma_scan_keeps_height(
    layout: LayoutData<Fixed>,
    state: BreakerState<Fixed>,
    max_advance: Fixed,
)
    requires
        layout.wf(),
        layout.edges_hold_content(),
        heights_fit(layout),
        coverage::keeps_text(layout, state),
        heights_are_kept(layout, state),
    ensures
        step_keeps_height(
            layout,
            scan::scan(layout, state, state.item_idx as int, max_advance),
        ),
    decreases layout.items@.len() - state.item_idx,
{
    let item = state.item_idx as int;
    if item < layout.items@.len() {
        if layout.spec_is_text(item) {
            let run = layout.items@[item].index as int;
            coverage::lemma_run_bounds(layout, item);
            coverage::lemma_aligned_run(layout, state, run, max_advance);
            lemma_run_keeps_height(layout, state, max_advance);
            let step = scan::scan_run(
                layout,
                state,
                run,
                state.cluster_idx as int,
                max_advance,
            );
            if step.flow is Continue {
                lemma_passed_run(layout, step.state.line, item);
                lemma_scan_keeps_height(layout, scan::after_run(step.state), max_advance);
            }
        } else {
            coverage::lemma_aligned_box(layout, state, max_advance);
            lemma_box_keeps_height(layout, state, max_advance);
            let step = scan::box_step(layout, state, item, max_advance);
            if step.flow is Continue {
                lemma_scan_keeps_height(layout, step.state, max_advance);
            }
        }
    }
}

/// A line on which nothing is yet has no height.
pub(crate) proof fn lemma_new_line_has_its_height(
    layout: LayoutData<Fixed>,
    line: LineState<Fixed>,
    item_idx: int,
)
    requires
        line.items.start <= item_idx <= layout.items@.len(),
        line.clusters.start == line.clusters.end,
        !line.has_content,
        line.box_metrics == LineBoxMetrics::<Fixed>::spec_zero(),
        layout.boxes_between(line.items.start as int, item_idx) == Seq::<usize>::empty(),
    ensures
        has_its_height(layout, line, item_idx),
{
    reveal(has_its_height);
    lemma_no_boxes_between(layout, line.items.start as int, item_idx);
}

pub(crate) proof fn lemma_no_boxes_between(layout: LayoutData<Fixed>, from: int, to: int)
    requires
        layout.boxes_between(from, to) == Seq::<usize>::empty(),
    ensures
        forall|item: int| from <= item < to ==> #[trigger] layout.spec_is_text(item),
    decreases to - from,
{
    if from < to {
        if !layout.spec_is_text(to - 1) {
            assert(layout.boxes_between(from, to).len() > 0);
        }
        lemma_no_boxes_between(layout, from, to - 1);
    }
}

/// The height of a line is limited by the heights of what can be on it.
pub(crate) proof fn lemma_heights_are_limited(
    layout: LayoutData<Fixed>,
    line: LineState<Fixed>,
    item_idx: int,
)
    requires
        layout.wf(),
        heights_fit(layout),
        has_its_height(layout, line, item_idx),
    ensures
        0 <= line.box_metrics.line_box.over.steps <= 0x1000_0000_0000_0000,
        0 <= line.box_metrics.line_box.under.steps <= 0x1000_0000_0000_0000,
        0 <= line.box_metrics.content_box.over.steps <= 0x1000_0000_0000_0000,
        0 <= line.box_metrics.content_box.under.steps <= 0x1000_0000_0000_0000,
{
    reveal(has_its_height);
    assert forall|item: int| 0 <= item < layout.items@.len() implies {
        let reach = #[trigger] reach_of(layout, item);
        let content = content_reach_of(layout, item);
        &&& reach.over <= 0x1000_0000_0000_0000
        &&& reach.under <= 0x1000_0000_0000_0000
        &&& content.over <= 0x1000_0000_0000_0000
        &&& content.under <= 0x1000_0000_0000_0000
    } by {
        assert(layout.item_wf(item));
        let index = layout.items@[item].index as int;
        if layout.spec_is_text(item) {
            assert(is_small(layout.runs@[index].line_height.steps as int));
            let metrics = layout.shaped_text.runs@[index].font_metrics;
            assert(is_small(metrics.ascent.steps as int));
        } else {
            assert(is_small(layout.inline_boxes@[index].height.steps as int));
        }
    }
}

} // verus!
