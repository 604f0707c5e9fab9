//! Ranges of text, and the styles of the text in them.

use crate::builder::{covers, style_at, IndexBound, IndexBounds};
use crate::resolve::StyleRun;
use vstd::prelude::*;

verus! {

/// The offset is not before the start of a range.
pub open spec fn is_after_start(bound: IndexBound, offset: int) -> bool {
    match bound {
        IndexBound::Unbounded => true,
        IndexBound::Included(first) => first <= offset,
        IndexBound::Excluded(before) => before < offset,
    }
}

/// The offset is not after the end of a range.
pub open spec fn is_before_end(bound: IndexBound, offset: int) -> bool {
    match bound {
        IndexBound::Unbounded => true,
        IndexBound::Included(last) => offset <= last,
        IndexBound::Excluded(after) => offset < after,
    }
}

/// The bytes of a resolved range are those of the text that lie between its
/// bounds.
pub proof fn lemma_resolved_range(range: IndexBounds, len: usize)
    ensures
        ({
            let found = range.within(len);
            &&& found.start <= len
            &&& found.end <= len
            &&& forall|offset: int|
                0 <= offset < len ==> (found.start <= offset < found.end
                    <==> #[trigger] is_after_start(range.start, offset) && is_before_end(
                    range.end,
                    offset,
                ))
        }),
{
}

/// Text has the style of the run that it is in.
pub proof fn lemma_style_of_run(runs: Seq<StyleRun>, len: int, offset: int, run: int)
    requires
        covers(runs, len),
        0 <= run < runs.len(),
        runs[run].range.start <= offset < runs[run].range.end,
    ensures
        style_at(runs, offset, 0) == runs[run].style_index,
{
    lemma_later_run(runs, len, offset, 0, run);
}

proof fn lemma_later_run(runs: Seq<StyleRun>, len: int, offset: int, from: int, run: int)
    requires
        covers(runs, len),
        0 <= from <= run < runs.len(),
        runs[run].range.start <= offset < runs[run].range.end,
    ensures
        style_at(runs, offset, from) == runs[run].style_index,
    decreases run - from,
{
    if from < run {
        lemma_runs_in_order(runs, len, from, run);
        lemma_later_run(runs, len, offset, from + 1, run);
    }
}

proof fn lemma_runs_in_order(runs: Seq<StyleRun>, len: int, a: int, b: int)
    requires
        covers(runs, len),
        0 <= a < b < runs.len(),
    ensures
        runs[a].range.end <= runs[b].range.start,
    decreases b - a,
{
    let before = b - 1;
    assert(runs[before].range.end == runs[b].range.start);
    if a < before {
        lemma_runs_in_order(runs, len, a, before);
        assert(runs[before].range.start <= runs[before].range.end);
    }
}

} // verus!
