//! Committing the items of a line.

use crate::layout::data::{
    BreakReason, LayoutData, LayoutItemKind, LineData, LineItemData, LineMetrics,
};
use crate::layout::shaped::{ShapedText, Span};
use crate::layout::state::LineState;
use crate::scalar::Scalar;
use vstd::prelude::*;

verus! {

impl<T: Scalar> ShapedText<T> {
    /// How many graphemes begin before a cluster.
    pub open spec fn graphemes_before(self, cluster: int) -> nat {
        self.graphemes(
            0,
            if cluster < self.clusters@.len() {
                self.clusters@[cluster].chars.start as int
            } else {
                self.characters@.len() as int
            },
        )
    }

    pub proof fn lemma_graphemes_before(self, from: int, to: int)
        requires
            self.wf(),
            0 <= from <= to <= self.clusters@.len(),
        ensures
            self.cluster_graphemes(from, to) <= self.graphemes_before(to),
            self.graphemes_before(from) + self.cluster_graphemes(from, to)
                <= self.graphemes_before(to),
            from < to ==> self.graphemes_before(from) + self.cluster_graphemes(from, to)
                == self.graphemes(0, self.clusters@[to - 1].chars.end as int),
            self.graphemes_before(to) <= self.characters@.len(),
    {
        let start = if to < self.clusters@.len() {
            self.clusters@[to].chars.start as int
        } else {
            self.characters@.len() as int
        };
        if from < to {
            let chars = self.spec_chars_of(from, to);
            if from + 1 < to {
                assert(self.clusters@[from].chars.end <= self.clusters@[to - 1].chars.start);
            }
            if to < self.clusters@.len() {
                assert(self.clusters@[to - 1].chars.end <= self.clusters@[to].chars.start);
            }
            self.lemma_graphemes_split(0, chars.start as int, chars.end as int);
            self.lemma_graphemes_split(0, chars.end as int, start);
        }
        self.lemma_graphemes_bound(0, start);
    }
}

/// An item of a line refers to what the layout holds, and its graphemes do not
/// exceed those of the text before its end.
pub open spec fn line_item_wf<T: Scalar>(layout: LayoutData<T>, item: LineItemData<T>) -> bool {
    let clusters = item.shaped_cluster_range;
    match item.kind {
        LayoutItemKind::TextRun => {
            &&& item.index < layout.shaped_text.runs@.len()
            &&& clusters.start <= clusters.end <= layout.shaped_text.clusters@.len()
            &&& item.grapheme_range.start <= item.grapheme_range.end
            &&& item.grapheme_range.end <= layout.shaped_text.graphemes_before(
                clusters.end as int,
            )
        },
        LayoutItemKind::InlineBox => item.index < layout.inline_boxes@.len(),
    }
}

/// The item's graphemes are those of its clusters.
pub open spec fn fresh_item_wf<T: Scalar>(layout: LayoutData<T>, item: LineItemData<T>) -> bool {
    let clusters = item.shaped_cluster_range;
    item.spec_is_text_run() && clusters.start < clusters.end ==> {
        &&& item.grapheme_range.end - item.grapheme_range.start
            == layout.shaped_text.cluster_graphemes(clusters.start as int, clusters.end as int)
        &&& item.grapheme_range.end <= layout.shaped_text.graphemes(
            0,
            layout.shaped_text.clusters@[clusters.end - 1].chars.end as int,
        )
    }
}

/// All line items are consistent, those of `from..fresh` in full.
pub open spec fn items_wf<T: Scalar>(
    layout: LayoutData<T>,
    items: Seq<LineItemData<T>>,
    from: int,
    fresh: int,
) -> bool {
    &&& forall|i: int| 0 <= i < items.len() ==> line_item_wf(layout, #[trigger] items[i])
    &&& forall|i: int|
        from <= i < fresh ==> fresh_item_wf(layout, #[trigger] items[i])
}

/// The last text item among the first `len` items.
pub open spec fn last_text<T: Scalar>(items: Seq<LineItemData<T>>, len: int) -> Option<
    LineItemData<T>,
>
    decreases len,
{
    if len <= 0 {
        None
    } else if items[len - 1].spec_is_text_run() {
        Some(items[len - 1])
    } else {
        last_text(items, len - 1)
    }
}

impl<T: Scalar> LayoutData<T> {
    /// Whether a range of items holds no text.
    pub open spec fn no_text(self, from: int, to: int) -> bool {
        forall|i: int| from <= i < to ==> !#[trigger] self.spec_is_text(i)
    }

    /// The clusters of a text item on a line. The first and the last text item
    /// of the line may share their runs with the lines beside it.
    pub open spec fn committed_clusters(self, line: LineState<T>, item: int) -> Span {
        let run = self.shaped_text.runs@[self.items@[item].index as int].clusters;
        Span {
            start: if self.no_text(line.items.start as int, item) {
                line.clusters.start
            } else {
                run.start
            },
            end: if self.no_text(item + 1, line.items.end as int) {
                line.clusters.end
            } else {
                run.end
            },
        }
    }

    /// The text item continues in a run of which nothing is left for the line.
    pub open spec fn nothing_left(self, line: LineState<T>, item: int) -> bool {
        self.committed_clusters(line, item).start >= self.shaped_text.runs@[
            self.items@[item].index as int
        ].clusters.end
    }

    /// The index of the first grapheme of clusters of a run, counted from the
    /// run's start. It is known where the clusters continue the last text item
    /// that was committed.
    pub open spec fn committed_grapheme_start(
        self,
        committed: Seq<LineItemData<T>>,
        run: usize,
        cluster: usize,
    ) -> int {
        match last_text(committed, committed.len() as int) {
            Some(prev) if prev.index == run && prev.shaped_cluster_range.end
                == cluster => prev.grapheme_range.end as int,
            _ => self.shaped_text.cluster_graphemes(
                self.shaped_text.runs@[run as int].clusters.start as int,
                cluster as int,
            ) as int,
        }
    }

    /// The source text of clusters; the position of the first one if there are
    /// none.
    pub open spec fn text_of_clusters(self, clusters: Span) -> Span {
        let characters = self.shaped_text.characters@;
        if clusters.start >= clusters.end {
            let at = self.shaped_text.spec_first_character(clusters.start as int).text.start;
            Span { start: at, end: at }
        } else {
            let chars = self.shaped_text.spec_chars_of(clusters.start as int, clusters.end as int);
            Span {
                start: characters[chars.start as int].text.start,
                end: characters[chars.end - 1].text.end,
            }
        }
    }

    /// The line item for a text item.
    pub open spec fn committed_text(
        self,
        line: LineState<T>,
        item: int,
        committed: Seq<LineItemData<T>>,
    ) -> LineItemData<T> {
        let index = self.items@[item].index;
        let clusters = self.committed_clusters(line, item);
        let start = self.committed_grapheme_start(committed, index, clusters.start);
        LineItemData {
            kind: LayoutItemKind::TextRun,
            index,
            bidi_level: self.shaped_text.runs@[index as int].bidi_level,
            advance: T::spec_zero(),
            is_ignorable_whitespace: false,
            text_range: self.text_of_clusters(clusters),
            removed_text_range: Span { start: 0, end: 0 },
            shaped_cluster_range: clusters,
            grapheme_range: Span {
                start: start as usize,
                end: (start + self.shaped_text.cluster_graphemes(
                    clusters.start as int,
                    clusters.end as int,
                )) as usize,
            },
        }
    }

    /// The line item for an inline box.
    pub open spec fn committed_box(self, item: int) -> LineItemData<T> {
        let index = self.items@[item].index;
        let none = Span { start: 0, end: 0 };
        LineItemData {
            kind: LayoutItemKind::InlineBox,
            index,
            bidi_level: self.items@[item].bidi_level,
            advance: self.inline_boxes@[index as int].spec_advance(),
            is_ignorable_whitespace: false,
            text_range: none,
            removed_text_range: none,
            shaped_cluster_range: none,
            grapheme_range: none,
        }
    }
}

/// What committing items leads to.
pub struct Commit<T: Scalar> {
    /// The line items of all lines.
    pub items: Seq<LineItemData<T>>,
    /// The kind of the last item committed.
    pub last: LayoutItemKind,
    /// Whether text was committed.
    pub text: bool,
}

/// Commits the items from `item` to the end of the line.
pub open spec fn commit_items<T: Scalar>(
    layout: LayoutData<T>,
    line: LineState<T>,
    item: int,
    so_far: Commit<T>,
) -> Commit<T>
    decreases line.items.end - item,
{
    if item >= line.items.end {
        so_far
    } else if !layout.spec_is_text(item) {
        commit_items(
            layout,
            line,
            item + 1,
            Commit {
                items: so_far.items.push(layout.committed_box(item)),
                last: LayoutItemKind::InlineBox,
                ..so_far
            },
        )
    } else if layout.nothing_left(line, item) {
        commit_items(layout, line, item + 1, so_far)
    } else {
        commit_items(
            layout,
            line,
            item + 1,
            Commit {
                items: so_far.items.push(layout.committed_text(line, item, so_far.items)),
                last: LayoutItemKind::TextRun,
                text: true,
            },
        )
    }
}

/// The line state with its ends inside the layout.
pub open spec fn clamped<T: Scalar>(layout: LayoutData<T>, line: LineState<T>) -> LineState<T> {
    LineState {
        clusters: Span {
            end: if line.clusters.end <= layout.shaped_text.clusters@.len() {
                line.clusters.end
            } else {
                layout.shaped_text.clusters@.len() as usize
            },
            ..line.clusters
        },
        items: Span {
            end: if line.items.end <= layout.items@.len() {
                line.items.end
            } else {
                layout.items@.len() as usize
            },
            ..line.items
        },
        ..line
    }
}

/// The commit of a line: its items follow those of the lines before.
pub open spec fn commit_of_line<T: Scalar>(
    layout: LayoutData<T>,
    line: LineState<T>,
    committed: Seq<LineItemData<T>>,
) -> Commit<T> {
    let clamped = clamped(layout, line);
    commit_items(
        layout,
        clamped,
        clamped.items.start as int,
        Commit { items: committed, last: LayoutItemKind::TextRun, text: false },
    )
}

/// The line data of a committed line.
pub open spec fn committed_line<T: Scalar>(
    line: LineState<T>,
    items: Span,
    max_advance: T,
    reason: BreakReason,
    indent: T,
) -> LineData<T> {
    LineData {
        text_range: Span { start: 0, end: 0 },
        item_range: items,
        metrics: LineMetrics::spec_of_advance(line.x),
        break_reason: reason,
        max_advance,
        num_spaces: 0,
        indent,
    }
}

/// The line state from which the next line starts. A run may continue on the
/// next line, so a line that ends in text shares its last item with the next.
pub open spec fn after_commit<T: Scalar>(
    layout: LayoutData<T>,
    line: LineState<T>,
    commit: Commit<T>,
) -> LineState<T> {
    let line = clamped(layout, line);
    LineState {
        clusters: Span {
            start: if commit.text {
                line.clusters.end
            } else {
                line.clusters.start
            },
            end: line.clusters.end,
        },
        items: Span {
            start: match commit.last {
                LayoutItemKind::TextRun => if line.items.end > 0 {
                    (line.items.end - 1) as usize
                } else {
                    0
                },
                LayoutItemKind::InlineBox => line.items.end,
            },
            end: line.items.end,
        },
        ..line
    }
}

/// The text item at `item` has clusters between its run's start and the text's
/// end, in order.
pub proof fn lemma_committed_clusters<T: Scalar>(
    layout: LayoutData<T>,
    line: LineState<T>,
    item_idx: int,
    cluster_idx: int,
    item: int,
)
    requires
        layout.wf(),
        line.wf(layout, item_idx, cluster_idx),
        line.items.end <= layout.items@.len(),
        line.items.start <= item < line.items.end,
        layout.spec_is_text(item),
    ensures
        ({
            let clusters = layout.committed_clusters(line, item);
            let run = layout.shaped_text.runs@[layout.items@[item].index as int].clusters;
            &&& run.start <= clusters.start
            &&& clusters.end <= layout.shaped_text.clusters@.len()
            &&& !layout.nothing_left(line, item) ==> clusters.start <= clusters.end
        }),
        layout.items@[item].index < layout.shaped_text.runs@.len(),
{
    assert(layout.item_wf(item));
    let run = layout.shaped_text.runs@[layout.items@[item].index as int].clusters;
    assert(run.end <= layout.shaped_text.clusters@.len());
    if layout.no_text(line.items.start as int, item) {
        lemma_no_text_before(layout, line.items.start as int, item);
    }
    layout.lemma_clusters_before_monotone(item, line.items.end - 1);
}

proof fn lemma_no_text_before<T: Scalar>(layout: LayoutData<T>, from: int, to: int)
    requires
        layout.no_text(from, to),
        0 <= from <= to,
    ensures
        layout.clusters_before(from) == layout.clusters_before(to),
    decreases to - from,
{
    if from < to {
        assert(!layout.spec_is_text(to - 1));
        lemma_no_text_before(layout, from, to - 1);
    }
}

/// A line item that was committed for text is consistent.
pub proof fn lemma_committed_text_wf<T: Scalar>(
    layout: LayoutData<T>,
    line: LineState<T>,
    item_idx: int,
    cluster_idx: int,
    item: int,
    committed: Seq<LineItemData<T>>,
)
    requires
        layout.wf(),
        line.wf(layout, item_idx, cluster_idx),
        line.items.end <= layout.items@.len(),
        line.items.start <= item < line.items.end,
        layout.spec_is_text(item),
        !layout.nothing_left(line, item),
        forall|i: int| 0 <= i < committed.len() ==> line_item_wf(layout, #[trigger] committed[i]),
    ensures
        ({
            let clusters = layout.committed_clusters(line, item);
            let start = layout.committed_grapheme_start(
                committed,
                layout.items@[item].index,
                clusters.start,
            );
            &&& 0 <= start <= layout.shaped_text.graphemes_before(clusters.start as int)
            &&& start + layout.shaped_text.cluster_graphemes(
                clusters.start as int,
                clusters.end as int,
            ) <= usize::MAX
        }),
        line_item_wf(layout, layout.committed_text(line, item, committed)),
        fresh_item_wf(layout, layout.committed_text(line, item, committed)),
{
    lemma_committed_clusters(layout, line, item_idx, cluster_idx, item);
    let clusters = layout.committed_clusters(line, item);
    let run = layout.shaped_text.runs@[layout.items@[item].index as int].clusters;
    layout.shaped_text.lemma_graphemes_before(run.start as int, clusters.start as int);
    layout.shaped_text.lemma_graphemes_before(clusters.start as int, clusters.end as int);
    lemma_last_text(committed, committed.len() as int);
    assert(layout.shaped_text.characters.len() == layout.shaped_text.characters@.len());
    if clusters.start < clusters.end {
        layout.shaped_text.lemma_graphemes_bound(
            0,
            layout.shaped_text.clusters@[clusters.end - 1].chars.end as int,
        );
    }
}

pub(crate) proof fn lemma_last_text<T: Scalar>(items: Seq<LineItemData<T>>, len: int)
    requires
        0 <= len <= items.len(),
    ensures
        last_text(items, len) matches Some(item) ==> item.spec_is_text_run() && exists|i: int|
            0 <= i < len && item == #[trigger] items[i],
    decreases len,
{
    if len > 0 && !items[len - 1].spec_is_text_run() {
        lemma_last_text(items, len - 1);
    }
}

proof fn lemma_commit_ends_in_text<T: Scalar>(
    layout: LayoutData<T>,
    line: LineState<T>,
    item: int,
    so_far: Commit<T>,
)
    requires
        item < line.items.end,
        layout.spec_is_text(line.items.end - 1),
        !layout.nothing_left(line, line.items.end - 1),
    ensures
        commit_items(layout, line, item, so_far).last == LayoutItemKind::TextRun,
    decreases line.items.end - item,
{
    if item + 1 < line.items.end {
        let next = Commit {
            items: so_far.items.push(layout.committed_box(item)),
            last: LayoutItemKind::InlineBox,
            ..so_far
        };
        lemma_commit_ends_in_text(layout, line, item + 1, next);
        lemma_commit_ends_in_text(layout, line, item + 1, so_far);
        let next = Commit {
            items: so_far.items.push(layout.committed_text(line, item, so_far.items)),
            last: LayoutItemKind::TextRun,
            text: true,
        };
        lemma_commit_ends_in_text(layout, line, item + 1, next);
    } else {
        reveal_with_fuel(commit_items, 2);
    }
}

/// The next line starts from a consistent state.
pub proof fn lemma_after_commit_wf<T: Scalar>(
    layout: LayoutData<T>,
    line: LineState<T>,
    committed: Seq<LineItemData<T>>,
    item_idx: int,
    cluster_idx: int,
)
    requires
        layout.wf(),
        line.wf(layout, item_idx, cluster_idx),
        cluster_idx <= usize::MAX,
    ensures
        (LineState {
            clusters: Span { start: cluster_idx as usize, end: cluster_idx as usize },
            ..after_commit(layout, line, commit_of_line(layout, line, committed))
        }).wf(layout, item_idx, cluster_idx),
        clamped(layout, line).wf(layout, item_idx, cluster_idx),
{
    let commit = commit_of_line(layout, line, committed);
    let clamped = clamped(layout, line);
    let end = clamped.items.end as int;
    layout.lemma_clusters_before_monotone(end - 1, line.items.end - 1);
    if commit.last == LayoutItemKind::InlineBox {
        if end <= item_idx {
            layout.lemma_clusters_before_monotone(end, item_idx);
        } else if clamped.items.start < end {
            if layout.spec_is_text(end - 1) {
                if !layout.nothing_left(clamped, end - 1) {
                    lemma_commit_ends_in_text(
                        layout,
                        clamped,
                        clamped.items.start as int,
                        Commit { items: committed, last: LayoutItemKind::TextRun, text: false },
                    );
                }
                assert(layout.item_wf(end - 1));
            }
        }
    }
}

fn committed_grapheme_start<T: Scalar>(
    layout: &LayoutData<T>,
    committed: &Vec<LineItemData<T>>,
    run: usize,
    cluster: usize,
) -> (r: usize)
    requires
        layout.wf(),
        run < layout.shaped_text.runs@.len(),
        cluster <= layout.shaped_text.clusters@.len(),
    ensures
        r == layout.committed_grapheme_start(committed@, run, cluster),
{
    let mut len: usize = committed.len();
    while len > 0 && !committed[len - 1].is_text_run()
        invariant
            len <= committed@.len(),
            last_text(committed@, committed@.len() as int) == last_text(committed@, len as int),
        decreases len,
    {
        len = len - 1;
    }
    if len > 0 {
        let prev = committed[len - 1];
        if prev.index == run && prev.shaped_cluster_range.end == cluster {
            return prev.grapheme_range.end;
        }
    }
    layout.shaped_text.count_graphemes(layout.shaped_text.runs[run].clusters.start, cluster)
}

fn text_of_clusters<T: Scalar>(layout: &LayoutData<T>, clusters: Span) -> (r: Span)
    requires
        layout.wf(),
        clusters.start < layout.shaped_text.clusters@.len(),
        clusters.end <= layout.shaped_text.clusters@.len(),
    ensures
        r == layout.text_of_clusters(clusters),
{
    if clusters.start >= clusters.end {
        let at = layout.shaped_text.first_character(clusters.start).text.start;
        Span { start: at, end: at }
    } else {
        let chars = layout.shaped_text.chars_of(clusters.start, clusters.end);
        Span {
            start: layout.shaped_text.characters[chars.start].text.start,
            end: layout.shaped_text.characters[chars.end - 1].text.end,
        }
    }
}

/// The clusters of a text item on a line, or nothing if its run has none left.
fn committed_clusters<T: Scalar>(
    layout: &LayoutData<T>,
    line: &LineState<T>,
    item: usize,
    is_first: bool,
    is_last: bool,
) -> (r: Option<Span>)
    requires
        layout.wf(),
        line.items.start <= item < line.items.end <= layout.items@.len(),
        layout.spec_is_text(item as int),
        is_first == layout.no_text(line.items.start as int, item as int),
        is_last == layout.no_text(item + 1, line.items.end as int),
    ensures
        layout.nothing_left(*line, item as int) ==> r is None,
        !layout.nothing_left(*line, item as int) ==> r == Some(
            layout.committed_clusters(*line, item as int),
        ),
{
    proof {
        assert(layout.item_wf(item as int));
    }
    let run = layout.shaped_text.runs[layout.items[item].index].clusters;
    let mut clusters = run;
    if is_first {
        clusters.start = line.clusters.start;
    }
    if is_last {
        clusters.end = line.clusters.end;
    }
    if clusters.start >= run.end {
        None
    } else {
        Some(clusters)
    }
}

/// Commits the line up to a break: its items are appended to the line items,
/// and the line to the lines.
pub(crate) fn commit_line<T: Scalar>(
    layout: &LayoutData<T>,
    lines: &mut Vec<LineData<T>>,
    line_items: &mut Vec<LineItemData<T>>,
    line: &mut LineState<T>,
    max_advance: T,
    break_reason: BreakReason,
    line_indent: T,
    Ghost(item_idx): Ghost<int>,
    Ghost(cluster_idx): Ghost<int>,
)
    requires
        layout.wf(),
        old(line).wf(*layout, item_idx, cluster_idx),
        forall|i: int|
            0 <= i < old(line_items)@.len() ==> line_item_wf(
                *layout,
                #[trigger] old(line_items)@[i],
            ),
    ensures
        ({
            let commit = commit_of_line(*layout, *old(line), old(line_items)@);
            &&& final(line_items)@ == commit.items
            &&& final(lines)@ == old(lines)@.push(
                committed_line(
                    *old(line),
                    Span {
                        start: old(line_items)@.len() as usize,
                        end: final(line_items)@.len() as usize,
                    },
                    max_advance,
                    break_reason,
                    line_indent,
                ),
            )
            &&& *final(line) == after_commit(*layout, *old(line), commit)
        }),
        old(line_items)@.len() <= final(line_items)@.len(),
        final(lines)@.last().item_range.start == old(line_items)@.len(),
        final(lines)@.last().item_range.end == final(line_items)@.len(),
        forall|i: int|
            0 <= i < old(line_items)@.len() ==> #[trigger] final(line_items)@[i] == old(
                line_items,
            )@[i],
        forall|i: int|
            0 <= i < final(line_items)@.len() ==> line_item_wf(
                *layout,
                #[trigger] final(line_items)@[i],
            ),
        forall|i: int|
            old(line_items)@.len() <= i < final(line_items)@.len() ==> fresh_item_wf(
                *layout,
                #[trigger] final(line_items)@[i],
            ),
{
    if line.clusters.end > layout.shaped_text.clusters.len() {
        line.clusters.end = layout.shaped_text.clusters.len();
    }
    if line.items.end > layout.items.len() {
        line.items.end = layout.items.len();
    }
    proof {
        lemma_after_commit_wf(*layout, *old(line), old(line_items)@, item_idx, cluster_idx);
        assert(*line == clamped(*layout, *old(line)));
    }
    let start_item: usize = line_items.len();
    let begin = line.items.start;
    let end = line.items.end;

    // The first and the last text item of the line.
    let mut first_text: usize = begin;
    while first_text < end && layout.items[first_text].kind != LayoutItemKind::TextRun
        invariant
            begin <= first_text,
            first_text <= end,
            end <= layout.items@.len(),
            layout.no_text(begin as int, first_text as int),
        decreases end - first_text,
    {
        first_text = first_text + 1;
    }
    let mut after_last_text: usize = end;
    while after_last_text > begin && layout.items[after_last_text - 1].kind
        != LayoutItemKind::TextRun
        invariant
            begin <= after_last_text,
            after_last_text <= end,
            end <= layout.items@.len(),
            layout.no_text(after_last_text as int, end as int),
        decreases after_last_text,
    {
        after_last_text = after_last_text - 1;
    }

    let mut last_item_kind = LayoutItemKind::TextRun;
    let mut committed_text_run = false;
    let mut i: usize = begin;
    let ghost target = commit_of_line(*layout, *old(line), old(line_items)@);
    while i < end
        invariant
            layout.wf(),
            line.wf(*layout, item_idx, cluster_idx),
            *line == clamped(*layout, *old(line)),
            begin == line.items.start,
            end == line.items.end,
            end <= layout.items@.len(),
            begin <= i <= end,
            first_text < end ==> begin <= first_text && layout.spec_is_text(first_text as int),
            layout.no_text(begin as int, first_text as int),
            after_last_text > begin ==> layout.spec_is_text(after_last_text - 1),
            begin <= after_last_text <= end,
            layout.no_text(after_last_text as int, end as int),
            target == commit_of_line(*layout, *old(line), old(line_items)@),
            target == commit_items(
                *layout,
                *line,
                i as int,
                Commit { items: line_items@, last: last_item_kind, text: committed_text_run },
            ),
            start_item == old(line_items)@.len(),
            start_item <= line_items@.len(),
            forall|k: int|
                0 <= k < start_item ==> #[trigger] line_items@[k] == old(line_items)@[k],
            forall|k: int|
                0 <= k < line_items@.len() ==> line_item_wf(*layout, #[trigger] line_items@[k]),
            forall|k: int|
                start_item <= k < line_items@.len() ==> fresh_item_wf(
                    *layout,
                    #[trigger] line_items@[k],
                ),
        decreases end - i,
    {
        proof {
            assert(layout.item_wf(i as int));
        }
        let item = layout.items[i];
        match item.kind {
            LayoutItemKind::InlineBox => {
                let none = Span { start: 0, end: 0 };
                line_items.push(
                    LineItemData {
                        kind: LayoutItemKind::InlineBox,
                        index: item.index,
                        bidi_level: item.bidi_level,
                        advance: layout.inline_boxes[item.index].advance(),
                        is_ignorable_whitespace: false,
                        text_range: none,
                        removed_text_range: none,
                        shaped_cluster_range: none,
                        grapheme_range: none,
                    },
                );
                last_item_kind = LayoutItemKind::InlineBox;
            },
            LayoutItemKind::TextRun => {
                proof {
                    lemma_committed_clusters(*layout, *line, item_idx, cluster_idx, i as int);
                    if i != first_text {
                        assert(layout.spec_is_text(first_text as int));
                    }
                    if i != after_last_text - 1 {
                        assert(layout.spec_is_text(after_last_text - 1));
                    }
                }
                let clusters = committed_clusters(
                    layout,
                    line,
                    i,
                    i == first_text,
                    i + 1 == after_last_text,
                );
                if let Some(clusters) = clusters {
                    proof {
                        lemma_committed_text_wf(
                            *layout,
                            *line,
                            item_idx,
                            cluster_idx,
                            i as int,
                            line_items@,
                        );
                    }
                    let start = committed_grapheme_start(
                        layout,
                        line_items,
                        item.index,
                        clusters.start,
                    );
                    let graphemes = layout.shaped_text.count_graphemes(
                        clusters.start,
                        clusters.end,
                    );
                    line_items.push(
                        LineItemData {
                            kind: LayoutItemKind::TextRun,
                            index: item.index,
                            bidi_level: layout.shaped_text.runs[item.index].bidi_level,
                            advance: T::zero(),
                            is_ignorable_whitespace: false,
                            text_range: text_of_clusters(layout, clusters),
                            removed_text_range: Span { start: 0, end: 0 },
                            shaped_cluster_range: clusters,
                            grapheme_range: Span { start, end: start + graphemes },
                        },
                    );
                    last_item_kind = LayoutItemKind::TextRun;
                    committed_text_run = true;
                }
            },
        }
        i = i + 1;
    }

    lines.push(
        LineData {
            text_range: Span { start: 0, end: 0 },
            item_range: Span { start: start_item, end: line_items.len() },
            metrics: LineMetrics::of_advance(line.x),
            break_reason,
            max_advance,
            num_spaces: 0,
            indent: line_indent,
        },
    );
    if committed_text_run {
        line.clusters.start = line.clusters.end;
    }
    line.items.start = match last_item_kind {
        LayoutItemKind::TextRun => if end > 0 {
            end - 1
        } else {
            0
        },
        LayoutItemKind::InlineBox => end,
    };
}

} // verus!
