//! Styles applied as a tree of spans.

use crate::resolve::white_space;
use crate::resolve::{Brush, ResolvedProperty, ResolvedStyle, StyleRun};
use crate::scalar::Scalar;
use crate::style::WhiteSpaceCollapse;
use crate::text;
use core::ops::Range;
use vstd::prelude::*;
use vstd::string::StringExecFns;

verus! {

/// The kind of the item that was pushed last.
#[derive(Clone, Copy, Debug, PartialEq, Eq, Structural)]
pub enum ItemKind {
    /// Nothing was pushed yet.
    Start,
    InlineBox,
    TextRun,
}

/// A span of the style tree.
pub struct StyleTreeNode<T: Scalar, B: Brush> {
    /// The span around this one.
    pub parent: Option<usize>,
    pub style: ResolvedStyle<T, B>,
    /// The index of the style in the style table, once text has used it.
    pub style_id: Option<u16>,
}

/// Builds text and its styles from a tree of spans.
pub struct TreeStyleBuilder<T: Scalar, B: Brush> {
    tree: Vec<StyleTreeNode<T, B>>,
    style_table: Vec<ResolvedStyle<T, B>>,
    style_runs: Vec<StyleRun>,
    text: String,
    uncommitted_text: String,
    current_span: usize,
    last_item_kind: ItemKind,
}

/// The length of a text in bytes.
pub open spec fn byte_len(text: Seq<char>) -> usize {
    vstd::utf8::encode_utf8(text).len() as usize
}

/// The state of a builder.
pub struct StyleTree<T: Scalar, B: Brush> {
    /// The spans, each after the one around it.
    pub nodes: Seq<StyleTreeNode<T, B>>,
    /// The span that is open.
    pub current: int,
    /// The styles that text has used.
    pub table: Seq<ResolvedStyle<T, B>>,
    /// The runs of text with one style.
    pub runs: Seq<StyleRun>,
    /// The text with its white space processed.
    pub text: Seq<char>,
    /// Text of the open span whose white space is not processed yet.
    pub uncommitted: Seq<char>,
    /// The kind of the item that was pushed last.
    pub last: ItemKind,
}

/// A step in which text is given to a builder.
pub enum TreeStep<T: Scalar, B: Brush> {
    /// Text is pushed.
    Text(Seq<char>),
    /// A span is opened.
    Open(ResolvedStyle<T, B>),
    /// The open span is closed.
    Close,
}

/// The steps close the `depth` spans that are open and all that they open
/// themselves, and no other.
pub open spec fn is_balanced<T: Scalar, B: Brush>(steps: Seq<TreeStep<T, B>>, depth: nat) -> bool
    decreases steps.len(),
{
    if steps.len() == 0 {
        depth == 0
    } else {
        let rest = steps.skip(1);
        match steps[0] {
            TreeStep::Text(_) => is_balanced(rest, depth),
            TreeStep::Open(_) => is_balanced(rest, depth + 1),
            TreeStep::Close => depth > 0 && is_balanced(rest, (depth - 1) as nat),
        }
    }
}

impl<T: Scalar, B: Brush> StyleTree<T, B> {
    /// There is a root span, and every other span lies inside an earlier one.
    pub open spec fn wf(self) -> bool {
        &&& 0 <= self.current < self.nodes.len() <= usize::MAX
        &&& self.nodes[0].parent is None
        &&& forall|i: int|
            0 <= i < self.nodes.len() ==> ((#[trigger] self.nodes[i]).parent matches Some(parent)
                ==> parent < i)
    }

    /// The state with a root span and nothing else.
    pub open spec fn begun(root: ResolvedStyle<T, B>) -> Self {
        StyleTree {
            nodes: seq![StyleTreeNode { parent: None, style: root, style_id: None }],
            current: 0,
            table: Seq::empty(),
            runs: Seq::empty(),
            text: Seq::empty(),
            uncommitted: Seq::empty(),
            last: ItemKind::Start,
        }
    }

    /// The style of the open span.
    pub open spec fn style(self) -> ResolvedStyle<T, B> {
        self.nodes[self.current].style
    }

    /// White space at the start of the uncommitted text collapses into what is
    /// before it: at the start of the text, and after white space.
    pub open spec fn trims_start(self) -> bool {
        match self.last {
            ItemKind::Start => true,
            ItemKind::InlineBox => false,
            ItemKind::TextRun => self.text.len() > 0 && white_space::spec_is_ascii_whitespace(
                self.text.last(),
            ),
        }
    }

    /// The uncommitted text with its white space processed as the style of the
    /// open span says.
    pub open spec fn processed(self, is_text_end: bool) -> Seq<char> {
        let mode = self.style().white_space_collapse;
        match mode {
            WhiteSpaceCollapse::Preserve | WhiteSpaceCollapse::BreakSpaces => self.uncommitted,
            WhiteSpaceCollapse::Collapse
            | WhiteSpaceCollapse::PreserveBreaks => white_space::collapsed(
                self.uncommitted,
                mode == WhiteSpaceCollapse::PreserveBreaks,
                self.trims_start(),
                is_text_end,
            ),
            WhiteSpaceCollapse::PreserveSpaces => white_space::spaces_from(self.uncommitted, 0),
        }
    }

    /// The index of the open span's style in the style table.
    pub open spec fn style_id(self) -> u16 {
        match self.nodes[self.current].style_id {
            Some(style_id) => style_id,
            None => self.table.len() as u16,
        }
    }

    /// The state with the open span's style in the style table.
    pub open spec fn with_style_id(self) -> Self {
        match self.nodes[self.current].style_id {
            Some(_) => self,
            None => StyleTree {
                table: self.table.push(self.style()),
                nodes: self.nodes.update(
                    self.current,
                    StyleTreeNode {
                        style_id: Some(self.style_id()),
                        ..self.nodes[self.current]
                    },
                ),
                ..self
            },
        }
    }

    /// The state with the uncommitted text processed and made a run.
    pub open spec fn committed(self, is_text_end: bool) -> Self {
        let processed = self.processed(is_text_end);
        if processed.len() == 0 {
            StyleTree { uncommitted: processed, ..self }
        } else {
            let text = self.text + processed;
            StyleTree {
                runs: self.runs.push(
                    StyleRun {
                        style_index: self.style_id(),
                        range: Range { start: byte_len(self.text), end: byte_len(text) },
                    },
                ),
                text,
                uncommitted: Seq::empty(),
                last: ItemKind::TextRun,
                ..self.with_style_id()
            }
        }
    }

    /// The state with a span opened inside the open one.
    pub open spec fn with_span(self, style: ResolvedStyle<T, B>) -> Self {
        let state = self.committed(false);
        StyleTree {
            nodes: state.nodes.push(
                StyleTreeNode { parent: Some(state.current as usize), style, style_id: None },
            ),
            current: state.nodes.len() as int,
            ..state
        }
    }

    /// The state with the open span closed.
    pub open spec fn popped(self) -> Self {
        let state = self.committed(false);
        StyleTree { current: state.nodes[state.current].parent->0 as int, ..state }
    }

    /// The state with all spans inside the root closed.
    pub open spec fn unwound(self) -> Self
        decreases self.current,
    {
        match self.nodes[self.current].parent {
            Some(parent) if parent < self.current < self.nodes.len() => {
                proof {
                    self.lemma_committed_nodes(false);
                }
                self.popped().unwound()
            },
            _ => self,
        }
    }

    /// The state with another way to process white space in the open span.
    pub open spec fn with_mode(self, mode: WhiteSpaceCollapse) -> Self {
        let state = self.committed(false);
        let node = state.nodes[state.current];
        StyleTree {
            nodes: state.nodes.update(
                state.current,
                StyleTreeNode {
                    style: ResolvedStyle { white_space_collapse: mode, ..node.style },
                    style_id: None,
                    ..node
                },
            ),
            ..state
        }
    }

    /// The state with all text committed.
    pub open spec fn finished(self) -> Self {
        self.unwound().committed(true)
    }

    /// The style table of the whole text. Without text it still holds the root
    /// style.
    pub open spec fn final_table(self) -> Seq<ResolvedStyle<T, B>> {
        if self.runs.len() == 0 {
            self.table.push(self.style())
        } else {
            self.table
        }
    }

    /// The style runs of the whole text. Without text there is an empty one.
    pub open spec fn final_runs(self) -> Seq<StyleRun> {
        if self.runs.len() == 0 {
            seq![
                StyleRun {
                    style_index: self.table.len() as u16,
                    range: Range { start: 0, end: 0 },
                },
            ]
        } else {
            self.runs
        }
    }

    /// A run is a piece of the text, from one character to a later one.
    pub open spec fn is_piece(text: Seq<char>, run: StyleRun) -> bool {
        exists|from: int, to: int|
            #![trigger text.take(from), text.take(to)]
            0 <= from < to <= text.len() && run.range.start == byte_len(text.take(from))
                && run.range.end == byte_len(text.take(to))
    }

    /// The runs are pieces of the text that follow each other from its start
    /// to its end.
    pub open spec fn runs_wf(self) -> bool {
        &&& self.runs.len() == 0 ==> self.text.len() == 0
        &&& self.runs.len() > 0 ==> self.runs[0].range.start == 0 && self.runs.last().range.end
            == byte_len(self.text)
        &&& forall|i: int, j: int|
            0 <= i && j == i + 1 && j < self.runs.len() ==> (#[trigger] self.runs[i]).range.end == (
            #[trigger] self.runs[j]).range.start
        &&& forall|i: int|
            0 <= i < self.runs.len() ==> Self::is_piece(self.text, #[trigger] self.runs[i])
    }

    /// As long as the style table can be indexed, the spans and runs refer to
    /// entries of it, and a span to its own style.
    pub open spec fn ids_wf(self) -> bool {
        self.table.len() <= 0x1_0000 ==> {
            &&& forall|i: int|
                0 <= i < self.nodes.len() ==> ((#[trigger] self.nodes[i]).style_id matches Some(id)
                    ==> id < self.table.len() && self.table[id as int] == self.nodes[i].style)
            &&& forall|i: int|
                0 <= i < self.runs.len() ==> (#[trigger] self.runs[i]).style_index
                    < self.table.len()
        }
    }

    /// A style of the table is used by a run.
    pub open spec fn is_used(runs: Seq<StyleRun>, style: int) -> bool {
        exists|i: int| 0 <= i < runs.len() && (#[trigger] runs[i]).style_index == style
    }

    /// As long as the style table can be indexed, every style in it is used by
    /// a run.
    pub open spec fn styles_are_used(self) -> bool {
        self.table.len() <= 0x1_0000 ==> forall|style: int|
            0 <= style < self.table.len() ==> #[trigger] Self::is_used(self.runs, style)
    }

    /// Committing text keeps the runs in order and the style indices valid.
    pub proof fn lemma_committed_runs(self, is_text_end: bool)
        requires
            self.wf(),
        ensures
            self.runs_wf() ==> self.committed(is_text_end).runs_wf(),
            self.ids_wf() ==> self.committed(is_text_end).ids_wf(),
            self.styles_are_used() ==> self.committed(is_text_end).styles_are_used(),
    {
        let next = self.committed(is_text_end);
        let processed = self.processed(is_text_end);
        if self.styles_are_used() && next.table.len() <= 0x1_0000 && processed.len() > 0 {
            assert forall|style: int| 0 <= style < next.table.len() implies #[trigger] Self::is_used(
                next.runs,
                style,
            ) by {
                if style < self.table.len() {
                    assert(Self::is_used(self.runs, style));
                    let i = choose|i: int|
                        0 <= i < self.runs.len() && (#[trigger] self.runs[i]).style_index == style;
                    assert(next.runs[i] == self.runs[i]);
                } else {
                    assert(next.runs[self.runs.len() as int].style_index == style);
                }
            }
        }
        if self.runs_wf() && processed.len() > 0 {
            let text = next.text;
            assert(text.take(self.text.len() as int) =~= self.text);
            assert(text.take(text.len() as int) =~= text);
            assert(byte_len(Seq::<char>::empty()) == 0);
            if self.runs.len() == 0 {
                assert(self.text =~= Seq::empty());
            }
            assert forall|i: int| 0 <= i < next.runs.len() implies Self::is_piece(
                text,
                #[trigger] next.runs[i],
            ) by {
                if i < self.runs.len() {
                    assert(Self::is_piece(self.text, self.runs[i]));
                    let (from, to) = choose|from: int, to: int|
                        #![trigger self.text.take(from), self.text.take(to)]
                        0 <= from < to <= self.text.len() && self.runs[i].range.start == byte_len(
                            self.text.take(from),
                        ) && self.runs[i].range.end == byte_len(self.text.take(to));
                    assert(text.take(from) =~= self.text.take(from));
                    assert(text.take(to) =~= self.text.take(to));
                } else {
                    assert(next.runs[i].range.start == byte_len(
                        text.take(self.text.len() as int),
                    ));
                    assert(next.runs[i].range.end == byte_len(text.take(text.len() as int)));
                }
            }
        }
    }

    /// Unwinding keeps the runs in order and the style indices valid.
    pub proof fn lemma_unwound_runs(self)
        requires
            self.wf(),
        ensures
            self.unwound().wf(),
            self.runs_wf() ==> self.unwound().runs_wf(),
            self.ids_wf() ==> self.unwound().ids_wf(),
            self.styles_are_used() ==> self.unwound().styles_are_used(),
        decreases self.current,
    {
        if self.nodes[self.current].parent is Some {
            self.lemma_committed_nodes(false);
            self.lemma_committed_runs(false);
            self.popped().lemma_unwound_runs();
        }
    }

    /// The style runs of a finished text cover it without gap or overlap, and
    /// none of them is empty unless the text is. As long as the style table can
    /// be indexed, they refer to entries of it, and every entry is used if it
    /// was so of the entries before.
    pub proof fn lemma_final_runs_cover(self)
        requires
            self.wf(),
            self.runs_wf(),
            self.ids_wf(),
            text::fits(self.finished().text),
        ensures
            ({
                let runs = self.finished().final_runs();
                let len = self.finished().text.len() as int;
                &&& runs.len() > 0
                &&& runs[0].range.start == 0
                &&& runs.last().range.end == text::offset_of(self.finished().text, len)
                &&& forall|i: int|
                    0 <= i < runs.len() ==> (#[trigger] runs[i]).range.start <= runs[i].range.end
                &&& len > 0 ==> forall|i: int|
                    0 <= i < runs.len() ==> (#[trigger] runs[i]).range.start < runs[i].range.end
                &&& forall|i: int, j: int|
                    0 <= i && j == i + 1 && j < runs.len() ==> (#[trigger] runs[i]).range.end == (
                    #[trigger] runs[j]).range.start
                &&& self.styles_are_used() && self.finished().final_table().len() <= 0x1_0000
                    ==> forall|style: int|
                    0 <= style < self.finished().final_table().len() ==> #[trigger] Self::is_used(
                        runs,
                        style,
                    )
                &&& self.finished().final_table().len() <= 0x1_0000 ==> forall|i: int|
                    0 <= i < runs.len() ==> (#[trigger] runs[i]).style_index
                        < self.finished().final_table().len()
            }),
    {
        self.lemma_unwound_runs();
        self.unwound().lemma_committed_runs(true);
        let finished = self.finished();
        let text = finished.text;
        let runs = finished.final_runs();
        text::lemma_offset_is_byte_len(text);
        if self.styles_are_used() && finished.runs.len() == 0 && finished.final_table().len() <= 0x1_0000 {
            assert(finished.table.len() > 0 ==> Self::is_used(finished.runs, 0));
            assert(runs[0].style_index == 0);
            assert(Self::is_used(runs, 0));
        }
        assert forall|i: int| 0 <= i < runs.len() implies (#[trigger] runs[i]).range.start
            <= runs[i].range.end && (text.len() > 0 ==> runs[i].range.start
            < runs[i].range.end) by {
            if finished.runs.len() > 0 {
                assert(Self::is_piece(text, finished.runs[i]));
                let (from, to) = choose|from: int, to: int|
                    #![trigger text.take(from), text.take(to)]
                    0 <= from < to <= text.len() && runs[i].range.start == byte_len(
                        text.take(from),
                    ) && runs[i].range.end == byte_len(text.take(to));
                text::lemma_offset_is_byte_len(text.take(from));
                text::lemma_offset_is_byte_len(text.take(to));
                text::lemma_offset_prefix(text.take(from), text, from);
                text::lemma_offset_prefix(text.take(to), text, to);
                text::lemma_offset_monotone(text, from, to);
                text::lemma_offset_monotone(text, to, text.len() as int);
            }
        }
    }

    /// A span whose style text has used keeps its index in the style table
    /// while other spans are opened and closed inside it.
    pub proof fn lemma_style_id_is_reused(self, style: ResolvedStyle<T, B>, content: Seq<char>)
        requires
            self.wf(),
            self.committed(false).nodes[self.current].style_id is Some,
        ensures
            ({
                let inner = self.with_span(style);
                let after = (StyleTree { uncommitted: content, ..inner }).popped();
                &&& after.current == self.current
                &&& after.style_id() == self.committed(false).style_id()
                &&& after.style() == self.style()
            }),
    {
        self.lemma_committed_nodes(false);
        let inner = self.with_span(style);
        (StyleTree { uncommitted: content, ..inner }).lemma_committed_nodes(false);
    }

    /// The state after a step.
    pub open spec fn after_step(self, step: TreeStep<T, B>) -> Self {
        match step {
            TreeStep::Text(text) => StyleTree { uncommitted: self.uncommitted + text, ..self },
            TreeStep::Open(style) => self.with_span(style),
            TreeStep::Close => self.popped(),
        }
    }

    /// The state after a number of steps.
    pub open spec fn after_steps(self, steps: Seq<TreeStep<T, B>>) -> Self
        decreases steps.len(),
    {
        if steps.len() == 0 {
            self
        } else {
            self.after_step(steps[0]).after_steps(steps.skip(1))
        }
    }

    /// The span `i` lies `depth` spans inside the span `outer`.
    spec fn is_inside(self, i: int, depth: nat, outer: int) -> bool
        decreases depth,
    {
        if depth == 0 {
            i == outer
        } else {
            &&& outer < i < self.nodes.len()
            &&& self.nodes[i].parent matches Some(parent)
            &&& self.is_inside(parent as int, (depth - 1) as nat, outer)
        }
    }

    proof fn lemma_inside_kept(self, after: Self, i: int, depth: nat, outer: int)
        requires
            self.is_inside(i, depth, outer),
            0 <= outer <= i < self.nodes.len() <= after.nodes.len(),
            forall|k: int|
                0 <= k < self.nodes.len() ==> (#[trigger] after.nodes[k]).parent
                    == self.nodes[k].parent,
        ensures
            after.is_inside(i, depth, outer),
        decreases depth,
    {
        if depth > 0 {
            let parent = self.nodes[i].parent->0 as int;
            self.lemma_inside_at_least(parent, (depth - 1) as nat, outer);
            assert(after.nodes[i].parent == self.nodes[i].parent);
            self.lemma_inside_kept(after, parent, (depth - 1) as nat, outer);
        }
    }

    proof fn lemma_inside_at_least(self, i: int, depth: nat, outer: int)
        requires
            self.is_inside(i, depth, outer),
            outer < self.nodes.len(),
        ensures
            outer <= i < self.nodes.len(),
    {
    }

    /// Committing touches only the open span.
    proof fn lemma_committed_outside(self, is_text_end: bool, outer: int)
        requires
            self.wf(),
            0 <= outer <= self.current,
        ensures
            self.committed(is_text_end).nodes.take(outer) == self.nodes.take(outer),
            forall|i: int|
                0 <= i < self.nodes.len() ==> (#[trigger] self.committed(is_text_end).nodes[i]).style
                    == self.nodes[i].style,
    {
        assert(self.committed(is_text_end).nodes.take(outer) =~= self.nodes.take(outer));
    }

    proof fn lemma_balanced_inside(
        self,
        steps: Seq<TreeStep<T, B>>,
        depth: nat,
        outer: int,
    )
        requires
            self.wf(),
            self.nodes.len() + steps.len() <= usize::MAX,
            0 < outer < self.nodes.len(),
            self.nodes[outer].parent is Some,
            self.is_inside(self.current, depth, outer),
            is_balanced(steps, depth),
        ensures
            ({
                let after = self.after_steps(steps);
                &&& after.wf()
                &&& after.current == outer
                &&& after.nodes.len() > outer
                &&& after.nodes.take(outer) == self.nodes.take(outer)
                &&& after.nodes[outer].parent == self.nodes[outer].parent
            }),
        decreases steps.len(),
    {
        if steps.len() > 0 {
            let next = self.after_step(steps[0]);
            let rest = steps.skip(1);
            self.lemma_inside_at_least(self.current, depth, outer);
            self.lemma_committed_nodes(false);
            self.lemma_committed_outside(false, outer);
            let committed = self.committed(false);
            self.lemma_inside_kept(committed, self.current, depth, outer);
            assert(committed.nodes[outer].parent == self.nodes[outer].parent);
            match steps[0] {
                TreeStep::Text(_) => {
                    self.lemma_inside_kept(next, self.current, depth, outer);
                    next.lemma_balanced_inside(rest, depth, outer);
                },
                TreeStep::Open(style) => {
                    committed.lemma_inside_kept(next, self.current, depth, outer);
                    assert(next.nodes[next.current].parent == Some(self.current as usize));
                    assert(next.is_inside(next.current, (depth + 1) as nat, outer));
                    assert(next.nodes.take(outer) =~= committed.nodes.take(outer));
                    assert forall|i: int| 0 <= i < next.nodes.len() implies ((
                    #[trigger] next.nodes[i]).parent matches Some(parent) ==> parent < i) by {
                        if i < committed.nodes.len() {
                            assert(next.nodes[i] == committed.nodes[i]);
                        }
                    }
                    next.lemma_balanced_inside(rest, depth + 1, outer);
                },
                TreeStep::Close => {
                    let parent = committed.nodes[self.current].parent->0 as int;
                    committed.lemma_inside_at_least(parent, (depth - 1) as nat, outer);
                    committed.lemma_inside_kept(next, parent, (depth - 1) as nat, outer);
                    next.lemma_balanced_inside(rest, (depth - 1) as nat, outer);
                },
            }
        }
    }

    /// A span that is opened and closed, with whatever balanced spans and text
    /// inside it, leaves the span around it as it was: the same span is open,
    /// with the same style, and with the same index in the style table if text
    /// of the span has used it.
    pub proof fn lemma_balanced_spans_restore_the_style(
        self,
        style: ResolvedStyle<T, B>,
        steps: Seq<TreeStep<T, B>>,
    )
        requires
            self.wf(),
            self.nodes.len() + 1 + steps.len() <= usize::MAX,
            is_balanced(steps, 0),
        ensures
            ({
                let before = self.committed(false);
                let after = self.with_span(style).after_steps(steps).popped();
                &&& after.wf()
                &&& after.current == self.current
                &&& after.style() == self.style()
                &&& after.nodes[self.current].style_id == before.nodes[self.current].style_id
                &&& before.nodes[self.current].style_id is Some ==> after.style_id()
                    == before.style_id()
            }),
    {
        let before = self.committed(false);
        self.lemma_committed_nodes(false);
        self.lemma_committed_outside(false, self.current);
        let inner = self.with_span(style);
        let outer = inner.current;
        assert forall|i: int| 0 <= i < inner.nodes.len() implies ((
        #[trigger] inner.nodes[i]).parent matches Some(parent) ==> parent < i) by {
            if i < before.nodes.len() {
                assert(inner.nodes[i] == before.nodes[i]);
            }
        }
        inner.lemma_balanced_inside(steps, 0, outer);
        let last = inner.after_steps(steps);
        last.lemma_committed_nodes(false);
        last.lemma_committed_outside(false, outer);
        let after = last.popped();
        assert(inner.nodes.take(outer)[self.current] == before.nodes[self.current]);
        assert(last.nodes.take(outer)[self.current] == last.nodes[self.current]);
        assert(last.committed(false).nodes.take(outer)[self.current]
            == after.nodes[self.current]);
    }

    /// The steps close no span but those that are open inside the root.
    pub open spec fn allows(self, steps: Seq<TreeStep<T, B>>) -> bool
        decreases steps.len(),
    {
        steps.len() > 0 ==> {
            &&& steps[0] is Close ==> self.nodes[self.current].parent is Some
            &&& self.after_step(steps[0]).allows(steps.skip(1))
        }
    }

    /// A span that is opened and closed at once has the effect of committing
    /// the pending text: it only leaves a closed span behind that nothing uses.
    /// Whatever follows, the text, its styles and its runs come out the same.
    pub proof fn lemma_empty_span_only_commits(
        self,
        style: ResolvedStyle<T, B>,
        steps: Seq<TreeStep<T, B>>,
    )
        requires
            self.wf(),
            self.nodes.len() + 1 + steps.len() <= usize::MAX,
            self.committed(false).allows(steps),
        ensures
            ({
                let before = self.committed(false);
                let after = self.with_span(style).popped();
                let one = before.after_steps(steps).finished();
                let other = after.after_steps(steps).finished();
                &&& after == (StyleTree { nodes: after.nodes, ..before })
                &&& after.nodes.drop_last() == before.nodes
                &&& other.text == one.text
                &&& other.final_table() == one.final_table()
                &&& other.final_runs() == one.final_runs()
            }),
    {
        let before = self.committed(false);
        self.lemma_committed_nodes(false);
        let inner = self.with_span(style);
        white_space::lemma_nothing_collapses(
            style.white_space_collapse == WhiteSpaceCollapse::PreserveBreaks,
            inner.trims_start(),
            false,
        );
        assert(before.uncommitted =~= Seq::empty());
        assert(inner.processed(false) =~= Seq::empty());
        let after = inner.popped();
        assert(after.nodes.drop_last() =~= before.nodes);
        assert(after.current == before.current);
        assert forall|i: int| 0 <= i < before.nodes.len() implies #[trigger] after.nodes[i]
            == before.nodes[i] by {
            assert(after.nodes.drop_last()[i] == before.nodes[i]);
        }
        assert(before.has_spare_span(after, before.nodes.len() as int));
        before.lemma_spare_span_steps(after, before.nodes.len() as int, steps);
    }

    /// Where a span stands after one was put in at `at`.
    spec fn moved(i: int, at: int) -> int {
        if i < at {
            i
        } else {
            i + 1
        }
    }

    /// The other state has one more span, at `at`, in which no other span lies
    /// and which is not open.
    spec fn has_spare_span(self, other: Self, at: int) -> bool {
        &&& self.wf()
        &&& 0 < at <= self.nodes.len() < usize::MAX
        &&& other == (StyleTree { nodes: other.nodes, current: other.current, ..self })
        &&& other.current == Self::moved(self.current, at)
        &&& other.nodes.len() == self.nodes.len() + 1
        &&& forall|i: int|
            0 <= i < self.nodes.len() ==> {
                let node = #[trigger] self.nodes[i];
                let twin = other.nodes[Self::moved(i, at)];
                &&& twin.style == node.style
                &&& twin.style_id == node.style_id
                &&& twin.parent is Some == node.parent is Some
                &&& node.parent matches Some(parent) ==> twin.parent->0 == Self::moved(
                    parent as int,
                    at,
                )
            }
    }

    proof fn lemma_spare_span_commits(self, other: Self, at: int, is_text_end: bool)
        requires
            self.has_spare_span(other, at),
        ensures
            self.committed(is_text_end).has_spare_span(other.committed(is_text_end), at),
    {
        self.lemma_committed_nodes(is_text_end);
        assert(other.nodes[other.current].style == self.nodes[self.current].style);
        let next = self.committed(is_text_end);
        let twin = other.committed(is_text_end);
        assert forall|i: int| 0 <= i < next.nodes.len() implies {
            let node = #[trigger] next.nodes[i];
            let moved = twin.nodes[Self::moved(i, at)];
            &&& moved.style == node.style
            &&& moved.style_id == node.style_id
            &&& moved.parent is Some == node.parent is Some
            &&& node.parent matches Some(parent) ==> moved.parent->0 == Self::moved(
                parent as int,
                at,
            )
        } by {
            assert(self.nodes[i].style == other.nodes[Self::moved(i, at)].style);
        }
    }

    proof fn lemma_spare_span_steps(self, other: Self, at: int, steps: Seq<TreeStep<T, B>>)
        requires
            self.has_spare_span(other, at),
            self.nodes.len() + 1 + steps.len() <= usize::MAX,
            self.allows(steps),
        ensures
            ({
                let one = self.after_steps(steps).finished();
                let twin = other.after_steps(steps).finished();
                &&& twin.text == one.text
                &&& twin.final_table() == one.final_table()
                &&& twin.final_runs() == one.final_runs()
            }),
        decreases steps.len(),
    {
        if steps.len() == 0 {
            self.lemma_spare_span_is_unused(other, at);
        } else {
            let next = self.after_step(steps[0]);
            let twin = other.after_step(steps[0]);
            self.lemma_committed_nodes(false);
            self.lemma_spare_span_commits(other, at, false);
            let committed = self.committed(false);
            let other_committed = other.committed(false);
            match steps[0] {
                TreeStep::Text(_) => {},
                TreeStep::Open(style) => {
                    assert forall|i: int| 0 <= i < next.nodes.len() implies {
                        let node = #[trigger] next.nodes[i];
                        let moved = twin.nodes[Self::moved(i, at)];
                        &&& moved.style == node.style
                        &&& moved.style_id == node.style_id
                        &&& moved.parent is Some == node.parent is Some
                        &&& node.parent matches Some(parent) ==> moved.parent->0 == Self::moved(
                            parent as int,
                            at,
                        )
                    } by {
                        if i < committed.nodes.len() {
                            assert(next.nodes[i] == committed.nodes[i]);
                            assert(twin.nodes[Self::moved(i, at)]
                                == other_committed.nodes[Self::moved(i, at)]);
                        }
                    }
                    assert forall|i: int| 0 <= i < next.nodes.len() implies ((
                    #[trigger] next.nodes[i]).parent matches Some(parent) ==> parent < i) by {
                        if i < committed.nodes.len() {
                            assert(next.nodes[i] == committed.nodes[i]);
                        }
                    }
                },
                TreeStep::Close => {
                    assert(committed.nodes[self.current].parent is Some);
                    assert(other_committed.nodes[other.current].parent is Some);
                },
            }
            assert(next.has_spare_span(twin, at));
            next.lemma_spare_span_steps(twin, at, steps.skip(1));
        }
    }

    proof fn lemma_spare_span_is_unused(self, other: Self, at: int)
        requires
            self.has_spare_span(other, at),
        ensures
            other.finished().text == self.finished().text,
            other.finished().final_table() == self.finished().final_table(),
            other.finished().final_runs() == self.finished().final_runs(),
        decreases self.current,
    {
        let node = self.nodes[self.current];
        if node.parent is Some {
            self.lemma_committed_nodes(false);
            self.lemma_spare_span_commits(other, at, false);
            let committed = self.committed(false);
            assert(committed.nodes[self.current].parent == node.parent);
            assert(self.popped().has_spare_span(other.popped(), at));
            self.popped().lemma_spare_span_is_unused(other.popped(), at);
            assert(self.unwound() == self.popped().unwound());
            assert(other.unwound() == other.popped().unwound());
        } else {
            self.lemma_spare_span_commits(other, at, true);
            let finished = self.committed(true);
            let twin = other.committed(true);
            assert(finished.nodes[finished.current].style == twin.nodes[twin.current].style);
        }
    }

    /// White space collapses across the borders of spans: text committed in
    /// spans that collapse it has no two spaces side by side, as long as no
    /// atomic box comes between them. None is left at the start.
    pub proof fn lemma_white_space_collapses_across_spans(self, is_text_end: bool)
        requires
            self.style().white_space_collapse == WhiteSpaceCollapse::Collapse,
            self.last == ItemKind::Start ==> self.text.len() == 0,
            self.last != ItemKind::InlineBox,
            white_space::is_collapsed(self.text, false),
        ensures
            white_space::is_collapsed(self.committed(is_text_end).text, false),
            ({
                let text = self.committed(is_text_end).text;
                self.last == ItemKind::Start && text.len() > 0
                    ==> !white_space::spec_is_collapsible(text[0])
            }),
    {
        let processed = self.processed(is_text_end);
        white_space::lemma_collapsed(
            self.uncommitted,
            false,
            self.trims_start(),
            is_text_end,
        );
        if self.trims_start() {
            white_space::lemma_trimmed_start_has_content(self.uncommitted, false, is_text_end);
        }
        if self.text.len() > 0 {
            assert(self.text.last() == self.text[self.text.len() - 1]);
        }
        white_space::lemma_collapsed_sum(self.text, processed, false);
    }

    /// Spans that preserve white space keep their text as it is.
    pub proof fn lemma_preserved_text_is_kept(self, is_text_end: bool)
        requires
            self.style().white_space_collapse == WhiteSpaceCollapse::Preserve
                || self.style().white_space_collapse == WhiteSpaceCollapse::BreakSpaces,
        ensures
            self.committed(is_text_end).text == self.text + self.uncommitted,
    {
        if self.uncommitted.len() == 0 {
            assert(self.text + self.uncommitted =~= self.text);
        }
    }

    pub proof fn lemma_committed_nodes(self, is_text_end: bool)
        requires
            0 <= self.current < self.nodes.len(),
        ensures
            self.committed(is_text_end).current == self.current,
            self.committed(is_text_end).nodes.len() == self.nodes.len(),
            forall|i: int|
                0 <= i < self.nodes.len() ==> (#[trigger] self.committed(is_text_end).nodes[i]).parent
                    == self.nodes[i].parent,
            self.wf() ==> self.committed(is_text_end).wf(),
            self.committed(is_text_end).nodes[self.current].parent
                == self.nodes[self.current].parent,
    {
    }
}

impl<T: Scalar, B: Brush> Default for TreeStyleBuilder<T, B> {
    /// A builder that has not begun.
    fn default() -> (r: Self)
        ensures
            r.view().nodes.len() == 0,
            r.view().table.len() == 0,
            r.view().runs.len() == 0,
            r.view().text.len() == 0,
            r.view().uncommitted.len() == 0,
            r.view().last == ItemKind::Start,
    {
        TreeStyleBuilder {
            tree: Vec::new(),
            style_table: Vec::new(),
            style_runs: Vec::new(),
            text: String::new(),
            uncommitted_text: String::new(),
            current_span: usize::MAX,
            last_item_kind: ItemKind::Start,
        }
    }
}

impl<T: Scalar, B: Brush> TreeStyleBuilder<T, B> {
    pub closed spec fn view(&self) -> StyleTree<T, B> {
        StyleTree {
            nodes: self.tree@,
            current: self.current_span as int,
            table: self.style_table@,
            runs: self.style_runs@,
            text: self.text@,
            uncommitted: self.uncommitted_text@,
            last: self.last_item_kind,
        }
    }

    /// The style of the open span.
    pub fn current_style(&self) -> (r: ResolvedStyle<T, B>)
        requires
            self.view().wf(),
        ensures
            r == self.view().style(),
    {
        self.tree[self.current_span].style.duplicate()
    }

    /// The style of the root span.
    pub fn root_style(&self) -> (r: &ResolvedStyle<T, B>)
        requires
            self.view().wf(),
        ensures
            *r == self.view().nodes[0].style,
    {
        &self.tree[0].style
    }

    /// Begins a new text with the given root style, which applies to all text
    /// that no span overrides.
    pub fn begin(&mut self, root_style: ResolvedStyle<T, B>)
        ensures
            final(self).view() == StyleTree::begun(root_style),
            final(self).view().wf(),
            final(self).view().runs_wf(),
            final(self).view().ids_wf(),
            final(self).view().styles_are_used(),
    {
        self.tree.clear();
        self.style_table.clear();
        self.style_runs.clear();
        self.text = String::new();
        self.uncommitted_text = String::new();
        self.last_item_kind = ItemKind::Start;
        self.tree.push(StyleTreeNode { parent: None, style: root_style, style_id: None });
        self.current_span = 0;
        proof {
            let begun = StyleTree::begun(root_style);
            assert(self.view().nodes =~= begun.nodes);
            assert(self.view().table =~= begun.table);
            assert(self.view().runs =~= begun.runs);
            assert(self.view().text =~= begun.text);
            assert(self.view().uncommitted =~= begun.uncommitted);
        }
    }

    /// Sets how white space is processed in the open span from here on.
    pub fn set_white_space_mode(&mut self, white_space_collapse: WhiteSpaceCollapse)
        requires
            old(self).view().wf(),
        ensures
            final(self).view() == old(self).view().with_mode(white_space_collapse),
            final(self).view().wf(),
            old(self).view().runs_wf() ==> final(self).view().runs_wf(),
            old(self).view().ids_wf() ==> final(self).view().ids_wf(),
            old(self).view().styles_are_used() ==> final(self).view().styles_are_used(),
    {
        self.push_uncommitted_text(false);
        let span = self.current_span;
        let mut style = self.current_style();
        style.white_space_collapse = white_space_collapse;
        let parent = self.tree[span].parent;
        self.tree.set(span, StyleTreeNode { parent, style, style_id: None });
    }

    /// Records what was pushed last.
    pub fn set_last_item_kind(&mut self, item_kind: ItemKind)
        ensures
            final(self).view() == (StyleTree { last: item_kind, ..old(self).view() }),
    {
        self.last_item_kind = item_kind;
    }

    fn process_uncommitted_text(&mut self, is_text_end: bool)
        requires
            old(self).view().wf(),
        ensures
            final(self).view() == (StyleTree {
                uncommitted: old(self).view().processed(is_text_end),
                ..old(self).view()
            }),
    {
        let mode = self.tree[self.current_span].style.white_space_collapse;
        match mode {
            WhiteSpaceCollapse::Preserve | WhiteSpaceCollapse::BreakSpaces => {},
            WhiteSpaceCollapse::Collapse | WhiteSpaceCollapse::PreserveBreaks => {
                let trim_start = match self.last_item_kind {
                    ItemKind::Start => true,
                    ItemKind::InlineBox => false,
                    ItemKind::TextRun => {
                        let characters = white_space::characters_of(self.text.as_str());
                        characters.len() > 0 && white_space::is_ascii_whitespace(
                            characters[characters.len() - 1],
                        )
                    },
                };
                white_space::collapse_white_space(
                    &mut self.uncommitted_text,
                    mode == WhiteSpaceCollapse::PreserveBreaks,
                    trim_start,
                    is_text_end,
                );
            },
            WhiteSpaceCollapse::PreserveSpaces => {
                white_space::convert_white_space_to_spaces(&mut self.uncommitted_text);
            },
        }
    }

    /// Processes the white space of the uncommitted text and makes it a run.
    pub fn push_uncommitted_text(&mut self, is_text_end: bool)
        requires
            old(self).view().wf(),
        ensures
            final(self).view() == old(self).view().committed(is_text_end),
            final(self).view().wf(),
            old(self).view().runs_wf() ==> final(self).view().runs_wf(),
            old(self).view().ids_wf() ==> final(self).view().ids_wf(),
            old(self).view().styles_are_used() ==> final(self).view().styles_are_used(),
    {
        let ghost given = self.view();
        self.process_uncommitted_text(is_text_end);
        if self.uncommitted_text.as_str().is_empty() {
            proof {
                given.lemma_committed_runs(is_text_end);
            }
            return;
        }
        let start: usize = self.text.as_str().len();
        let style_index: u16 = self.resolve_current_style_id();
        self.text.append(self.uncommitted_text.as_str());
        let end: usize = self.text.as_str().len();
        self.style_runs.push(StyleRun { style_index, range: start..end });
        self.uncommitted_text = String::new();
        self.last_item_kind = ItemKind::TextRun;
        proof {
            let committed = given.committed(is_text_end);
            given.lemma_committed_nodes(is_text_end);
            given.lemma_committed_runs(is_text_end);
            assert(self.view().uncommitted =~= committed.uncommitted);
            assert(self.view().text =~= committed.text);
            assert(self.view().runs =~= committed.runs);
            assert(self.view() == committed);
        }
    }

    /// The index of the open span's style in the style table, where it is put
    /// if it is not there.
    pub fn resolve_current_style_id(&mut self) -> (r: u16)
        requires
            old(self).view().wf(),
        ensures
            r == old(self).view().style_id(),
            final(self).view() == old(self).view().with_style_id(),
    {
        let span = self.current_span;
        if let Some(style_id) = self.tree[span].style_id {
            return style_id;
        }
        let style_id: u16 = self.style_table.len() as u16;
        let style = self.current_style();
        let parent = self.tree[span].parent;
        self.tree.set(
            span,
            StyleTreeNode { parent, style: style.duplicate(), style_id: Some(style_id) },
        );
        self.style_table.push(style);
        style_id
    }

    /// The length of the committed text, in bytes.
    pub fn current_text_len(&self) -> (r: usize)
        ensures
            r == byte_len(self.view().text),
    {
        self.text.as_str().len()
    }

    /// Opens a span with the given style.
    pub fn push_style_span(&mut self, style: ResolvedStyle<T, B>)
        requires
            old(self).view().wf(),
        ensures
            final(self).view() == old(self).view().with_span(style),
            final(self).view().wf(),
            old(self).view().runs_wf() ==> final(self).view().runs_wf(),
            old(self).view().ids_wf() ==> final(self).view().ids_wf(),
            old(self).view().styles_are_used() ==> final(self).view().styles_are_used(),
    {
        self.push_uncommitted_text(false);
        let parent = self.current_span;
        self.tree.push(StyleTreeNode { parent: Some(parent), style, style_id: None });
        self.current_span = self.tree.len() - 1;
    }

    /// Opens a span whose style is that of the open one with some properties
    /// replaced.
    pub fn push_style_modification_span(&mut self, properties: &Vec<ResolvedProperty<T, B>>)
        requires
            old(self).view().wf(),
        ensures
            final(self).view() == old(self).view().with_span(
                old(self).view().style().with_all(properties@),
            ),
            final(self).view().wf(),
            old(self).view().runs_wf() ==> final(self).view().runs_wf(),
            old(self).view().ids_wf() ==> final(self).view().ids_wf(),
            old(self).view().styles_are_used() ==> final(self).view().styles_are_used(),
    {
        let mut style = self.current_style();
        let ghost before = style;
        let mut i: usize = 0;
        while i < properties.len()
            invariant
                i <= properties@.len(),
                style == before.with_all(properties@.take(i as int)),
            decreases properties@.len() - i,
        {
            style.apply(&properties[i]);
            proof {
                let next = properties@.take(i + 1);
                assert(next.drop_last() =~= properties@.take(i as int));
            }
            i = i + 1;
        }
        assert(properties@.take(properties@.len() as int) =~= properties@);
        self.push_style_span(style);
    }

    /// Closes the open span, which is not the root.
    pub fn pop_style_span(&mut self)
        requires
            old(self).view().wf(),
            old(self).view().nodes[old(self).view().current].parent is Some,
        ensures
            final(self).view() == old(self).view().popped(),
            final(self).view().wf(),
            old(self).view().runs_wf() ==> final(self).view().runs_wf(),
            old(self).view().ids_wf() ==> final(self).view().ids_wf(),
            old(self).view().styles_are_used() ==> final(self).view().styles_are_used(),
    {
        proof {
            self.view().lemma_committed_nodes(false);
        }
        self.push_uncommitted_text(false);
        if let Some(parent) = self.tree[self.current_span].parent {
            self.current_span = parent;
        }
    }

    /// Appends text to the open span.
    pub fn push_text(&mut self, text: &str)
        ensures
            final(self).view() == (StyleTree {
                uncommitted: old(self).view().uncommitted + text@,
                ..old(self).view()
            }),
    {
        self.uncommitted_text.append(text);
    }

    /// Closes all spans and hands out the text, with its style table and style
    /// runs.
    pub fn finish(
        &mut self,
        style_table: &mut Vec<ResolvedStyle<T, B>>,
        style_runs: &mut Vec<StyleRun>,
    ) -> (r: String)
        requires
            old(self).view().wf(),
        ensures
            ({
                let finished = old(self).view().finished();
                &&& r@ == finished.text
                &&& final(style_table)@ == finished.final_table()
                &&& final(style_runs)@ == finished.final_runs()
                &&& final(self).view() == (StyleTree { text: Seq::empty(), ..finished })
            }),
            final(self).view().wf(),
    {
        let ghost unwound = self.view().unwound();
        while self.tree[self.current_span].parent.is_some()
            invariant
                self.view().wf(),
                self.view().unwound() == unwound,
            decreases self.current_span,
        {
            proof {
                self.view().lemma_committed_nodes(false);
            }
            self.pop_style_span();
        }
        self.push_uncommitted_text(true);
        let ghost finished = self.view();

        style_table.clear();
        let mut i: usize = 0;
        while i < self.style_table.len()
            invariant
                i <= self.style_table@.len(),
                style_table@ == self.style_table@.take(i as int),
            decreases self.style_table@.len() - i,
        {
            style_table.push(self.style_table[i].duplicate());
            i = i + 1;
            assert(style_table@ =~= self.style_table@.take(i as int));
        }
        style_runs.clear();
        let mut i: usize = 0;
        while i < self.style_runs.len()
            invariant
                i <= self.style_runs@.len(),
                style_runs@ == self.style_runs@.take(i as int),
            decreases self.style_runs@.len() - i,
        {
            let run = &self.style_runs[i];
            style_runs.push(
                StyleRun { style_index: run.style_index, range: run.range.start..run.range.end },
            );
            i = i + 1;
            assert(style_runs@ =~= self.style_runs@.take(i as int));
        }
        assert(style_table@ =~= finished.table);
        assert(style_runs@ =~= finished.runs);
        if style_runs.len() == 0 {
            style_runs.push(StyleRun { style_index: style_table.len() as u16, range: 0..0 });
            style_table.push(self.current_style());
            assert(style_runs@ =~= finished.final_runs());
        }
        let mut text = String::new();
        core::mem::swap(&mut text, &mut self.text);
        proof {
            assert(self.view().text =~= Seq::empty());
        }
        text
    }
}

} // verus!
