//! What of a paragraph the intrinsic widths are measured from. Boxes out of
//! flow have no part in it.

use crate::inline_box::{InlineBox, InlineBoxKind};
use crate::layout::content_widths::Measure;
use crate::layout::coverage;
use crate::layout::data::LayoutData;
use crate::layout::scan;
use crate::layout::scan::AtomInfo;
use crate::layout::shaped::{Atom, Character, Span};
use crate::scalar::{Fixed, Scalar};
use crate::style::{Style, TextWrapMode};
use vstd::prelude::*;

verus! {

pub proof fn lemma_same_sum<A>(a: A, rest: Seq<A>, b: A, others: Seq<A>)
    requires
        seq![a] + rest == seq![b] + others,
    ensures
        a == b,
        rest == others,
{
    let one = seq![a] + rest;
    let other = seq![b] + others;
    assert(one[0] == a);
    assert(other[0] == b);
    assert(one.skip(1) =~= rest);
    assert(other.skip(1) =~= others);
}

// ---------------------------------------------------------------------------
// Intrinsic widths.

/// Something that the intrinsic widths are measured from.
pub enum MeasuredItem<T: Scalar> {
    /// A run of text starts.
    Run,
    Atom { advance: T, first: Character, style: Style<T> },
    Box {
        kind: InlineBoxKind,
        width: T,
        /// The wrap mode that becomes current after the box.
        text_wrap_mode: Option<TextWrapMode>,
    },
}

impl<T: Scalar> LayoutData<T> {
    pub open spec fn measured_atom(self, run: int, cursor: int) -> MeasuredItem<T> {
        let info = scan::atom_info(self, run, cursor);
        MeasuredItem::Atom { advance: info.atom.advance, first: info.first, style: info.style }
    }

    /// The atoms of a run from the cluster `cursor` on.
    pub open spec fn measured_run(self, run: int, cursor: int) -> Seq<MeasuredItem<T>>
        decreases self.shaped_text.runs@[run].clusters.end - cursor,
    {
        let bound = self.shaped_text.runs@[run].clusters.end as int;
        if cursor >= bound {
            Seq::empty()
        } else {
            proof {
                self.shaped_text.lemma_atom_end(cursor, bound);
            }
            seq![self.measured_atom(run, cursor)] + self.measured_run(
                run,
                self.shaped_text.atom_end(cursor, bound),
            )
        }
    }

    pub open spec fn measured_box(self, item: int) -> MeasuredItem<T> {
        let inline_box = self.inline_boxes@[self.items@[item].index as int];
        MeasuredItem::Box {
            kind: inline_box.kind,
            width: inline_box.width,
            text_wrap_mode: match self.items@[item].style_after {
                Some(style) => Some(self.styles@[style as int].text_wrap_mode),
                None => None,
            },
        }
    }

    /// What is in flow from an item on, as far as the widths depend on it.
    pub open spec fn measured_from(self, item: int) -> Seq<MeasuredItem<T>>
        decreases self.items@.len() - item,
    {
        if item >= self.items@.len() {
            Seq::empty()
        } else if self.spec_is_text(item) {
            let run = self.items@[item].index as int;
            let start = self.shaped_text.runs@[run].clusters.start as int;
            seq![MeasuredItem::Run] + self.measured_run(run, start) + self.measured_from(item + 1)
        } else if self.is_out_of_flow(item, true) {
            self.measured_from(item + 1)
        } else {
            seq![self.measured_box(item)] + self.measured_from(item + 1)
        }
    }
}

impl<T: Scalar> Measure<T> {
    pub open spec fn with_measured_item(self, item: MeasuredItem<T>) -> Self {
        match item {
            MeasuredItem::Run => self.before_item(),
            MeasuredItem::Atom { advance, first, style } => {
                let span = Span { start: 0, end: 0 };
                let atom = Atom { clusters: span, chars: span, advance };
                Measure {
                    text_ended: true,
                    ..self.with_atom(AtomInfo { atom, first, style, run: 0 })
                }
            },
            MeasuredItem::Box { kind, width, text_wrap_mode } => {
                let boxed = self.with_box(
                    InlineBox { id: 0, kind, index: 0, width, height: width, baseline: None },
                );
                match text_wrap_mode {
                    Some(text_wrap_mode) => Measure { text_wrap_mode, ..boxed },
                    None => boxed,
                }
            },
        }
    }

    /// Measures a sequence of items.
    pub open spec fn with_measured(self, flow: Seq<MeasuredItem<T>>) -> Self
        decreases flow.len(),
    {
        if flow.len() == 0 {
            self
        } else {
            self.with_measured_item(flow[0]).with_measured(flow.skip(1))
        }
    }
}

pub proof fn lemma_measure_of_sum<T: Scalar>(
    measure: Measure<T>,
    a: Seq<MeasuredItem<T>>,
    b: Seq<MeasuredItem<T>>,
)
    ensures
        measure.with_measured(a + b) == measure.with_measured(a).with_measured(b),
    decreases a.len(),
{
    if a.len() > 0 {
        assert((a + b).skip(1) =~= a.skip(1) + b);
        lemma_measure_of_sum(measure.with_measured_item(a[0]), a.skip(1), b);
    } else {
        assert(a + b =~= b);
    }
}

pub proof fn lemma_measure_of_one<T: Scalar>(measure: Measure<T>, item: MeasuredItem<T>)
    ensures
        measure.with_measured(seq![item]) == measure.with_measured_item(item),
{
    reveal_with_fuel(Measure::with_measured, 2);
    assert(seq![item].skip(1) =~= Seq::empty());
}

proof fn lemma_measure_of_run<T: Scalar>(
    layout: LayoutData<T>,
    measure: Measure<T>,
    run: int,
    cursor: int,
)
    requires
        0 <= run < layout.shaped_text.runs@.len(),
    ensures
        ({
            let bound = layout.shaped_text.runs@[run].clusters.end;
            let measured = measure.with_measured(layout.measured_run(run, cursor));
            let whole = measure.with_run(layout, run, cursor);
            &&& cursor < bound ==> measured == (Measure { text_ended: true, ..whole })
            &&& cursor >= bound ==> measured == measure && whole == measure
        }),
    decreases layout.shaped_text.runs@[run].clusters.end - cursor,
{
    let bound = layout.shaped_text.runs@[run].clusters.end as int;
    if cursor < bound {
        layout.shaped_text.lemma_atom_end(cursor, bound);
        let next = layout.shaped_text.atom_end(cursor, bound);
        let info = scan::atom_info(layout, run, cursor);
        let flow = layout.measured_run(run, cursor);
        assert(flow.skip(1) =~= layout.measured_run(run, next));
        assert(flow[0] == layout.measured_atom(run, cursor));
        let after = measure.with_atom(info);
        let marked = Measure { text_ended: true, ..after };
        assert(measure.with_measured_item(flow[0]) == marked);
        lemma_measure_of_run(layout, marked, run, next);
        lemma_run_ignores_ending(layout, after, run, next);
    }
}

/// Whether text has ended does not matter within a run.
proof fn lemma_run_ignores_ending<T: Scalar>(
    layout: LayoutData<T>,
    measure: Measure<T>,
    run: int,
    cursor: int,
)
    ensures
        (Measure { text_ended: true, ..measure }).with_run(layout, run, cursor) == (Measure {
            text_ended: true,
            ..measure.with_run(layout, run, cursor)
        }),
    decreases layout.shaped_text.runs@[run].clusters.end - cursor,
{
    let bound = layout.shaped_text.runs@[run].clusters.end as int;
    if cursor < bound {
        layout.shaped_text.lemma_atom_end(cursor, bound);
        let info = scan::atom_info(layout, run, cursor);
        let marked = Measure { text_ended: true, ..measure };
        assert(marked.with_atom(info) == (Measure {
            text_ended: true,
            ..measure.with_atom(info)
        }));
        lemma_run_ignores_ending(
            layout,
            measure.with_atom(info),
            run,
            layout.shaped_text.atom_end(cursor, bound),
        );
    }
}

/// A layout is measured by what is in flow of it.
pub proof fn lemma_measure_of_flow<T: Scalar>(
    layout: LayoutData<T>,
    measure: Measure<T>,
    item: int,
)
    requires
        layout.wf(),
        0 <= item <= layout.items@.len(),
    ensures
        measure.with_items(layout, item) == measure.with_measured(layout.measured_from(item)),
    decreases layout.items@.len() - item,
{
    if item < layout.items@.len() {
        assert(layout.item_wf(item));
        let rest = layout.measured_from(item + 1);
        if layout.spec_is_text(item) {
            let run = layout.items@[item].index as int;
            let start = layout.shaped_text.runs@[run].clusters.start as int;
            coverage::lemma_run_bounds(layout, item);
            let entered = measure.before_item();
            let atoms = layout.measured_run(run, start);
            let next = Measure { text_ended: true, ..entered.with_run(layout, run, start) };
            lemma_measure_of_sum(measure, seq![MeasuredItem::Run] + atoms, rest);
            lemma_measure_of_sum(measure, seq![MeasuredItem::Run], atoms);
            lemma_measure_of_one(measure, MeasuredItem::Run);
            lemma_measure_of_run(layout, entered, run, start);
            lemma_measure_of_flow(layout, next, item + 1);
        } else {
            let inline_box = layout.inline_boxes@[layout.items@[item].index as int];
            let boxed = measure.with_box(inline_box);
            let next = match layout.items@[item].style_after {
                Some(style) => Measure {
                    text_wrap_mode: layout.styles@[style as int].text_wrap_mode,
                    ..boxed
                },
                None => boxed,
            };
            lemma_measure_of_flow(layout, next, item + 1);
            if !layout.is_out_of_flow(item, true) {
                let flow = layout.measured_from(item);
                assert(flow.skip(1) =~= rest);
                assert(flow[0] == layout.measured_box(item));
            }
        }
    }
}

/// Boxes out of flow are not measured: two layouts with the same runs and boxes
/// in flow have the same intrinsic widths, whatever boxes out of flow they
/// have. A layout with nothing at all in it has widths of zero, as one with
/// boxes out of flow alone has if zero is no smaller than zero less zero.
pub proof fn lemma_widths_are_those_of_the_flow<T: Scalar>(a: LayoutData<T>, b: LayoutData<T>)
    requires
        a.wf(),
        b.wf(),
        a.measured_from(0) == b.measured_from(0),
        a.styles@[a.root_style_index as int].text_wrap_mode
            == b.styles@[b.root_style_index as int].text_wrap_mode,
        (a.items@.len() == 0) == (b.items@.len() == 0) || T::spec_zero().spec_larger(
            T::spec_zero().spec_minus(T::spec_zero()),
        ) == T::spec_zero(),
    ensures
        a.content_widths() == b.content_widths(),
{
    let start = Measure::<T>::start(a.styles@[a.root_style_index as int].text_wrap_mode);
    lemma_measure_of_flow(a, start, 0);
    lemma_measure_of_flow(b, start, 0);
}

// ---------------------------------------------------------------------------
// Widths of text whose runs end at different places.

/// The items are text with advances that are not negative.
pub open spec fn is_forward_text(flow: Seq<MeasuredItem<Fixed>>) -> bool {
    forall|i: int|
        0 <= i < flow.len() ==> match #[trigger] flow[i] {
            MeasuredItem::Run => true,
            MeasuredItem::Atom { advance, .. } => advance.steps >= 0,
            MeasuredItem::Box { .. } => false,
        }
}

/// The atoms of a text, without the places where its runs start.
pub open spec fn atoms_of<T: Scalar>(flow: Seq<MeasuredItem<T>>) -> Seq<MeasuredItem<T>>
    decreases flow.len(),
{
    if flow.len() == 0 {
        flow
    } else if flow[0] is Run {
        atoms_of(flow.skip(1))
    } else {
        seq![flow[0]] + atoms_of(flow.skip(1))
    }
}

/// The advances of text, after `acc`.
pub open spec fn text_width(flow: Seq<MeasuredItem<Fixed>>, acc: int) -> int
    decreases flow.len(),
{
    if flow.len() == 0 {
        acc
    } else {
        text_width(
            flow.skip(1),
            acc + match flow[0] {
                MeasuredItem::Atom { advance, .. } => advance.steps as int,
                _ => 0,
            },
        )
    }
}

spec fn greater(a: int, b: int) -> int {
    if a < b {
        b
    } else {
        a
    }
}

/// Two measures of the same text differ at most by what the text so far counts
/// for itself.
spec fn same_measure(a: Measure<Fixed>, b: Measure<Fixed>) -> bool {
    let min = a.running_min.steps - a.min_trailing_whitespace.steps;
    let max = a.running_max.steps - a.max_trailing_whitespace.steps;
    &&& a == (Measure { min: a.min, max: a.max, text_ended: a.text_ended, ..b })
    &&& a.pending_inline_start.steps == 0
    &&& !a.break_after_pending
    &&& 0 <= a.min_trailing_whitespace.steps <= a.running_min.steps <= a.running_max.steps
    &&& 0 <= a.max_trailing_whitespace.steps <= a.running_max.steps
    &&& greater(a.min.steps as int, min) == greater(b.min.steps as int, min)
    &&& greater(a.max.steps as int, max) == greater(b.max.steps as int, max)
}

proof fn lemma_same_measured_atom(
    a: Measure<Fixed>,
    b: Measure<Fixed>,
    item: MeasuredItem<Fixed>,
)
    requires
        same_measure(a, b),
        item matches MeasuredItem::Atom { advance, .. } && advance.steps >= 0
            && a.running_max.steps + advance.steps <= i64::MAX,
    ensures
        same_measure(a.with_measured_item(item), b.with_measured_item(item)),
        a.with_measured_item(item).running_max.steps <= a.running_max.steps
            + item->advance.steps,
{
}

proof fn lemma_same_measured_text(
    a: Measure<Fixed>,
    b: Measure<Fixed>,
    one: Seq<MeasuredItem<Fixed>>,
    other: Seq<MeasuredItem<Fixed>>,
)
    requires
        same_measure(a, b),
        is_forward_text(one),
        is_forward_text(other),
        atoms_of(one) == atoms_of(other),
        text_width(one, a.running_max.steps as int) <= i64::MAX,
    ensures
        same_measure(a.with_measured(one), b.with_measured(other)),
    decreases one.len() + other.len(),
{
    if one.len() > 0 && one[0] is Run {
        lemma_forward_rest(one);
        lemma_same_measured_text(a.before_item(), b, one.skip(1), other);
    } else if other.len() > 0 && other[0] is Run {
        lemma_forward_rest(other);
        lemma_same_measured_text(a, b.before_item(), one, other.skip(1));
    } else if one.len() > 0 {
        assert(other.len() > 0);
        assert(one[0] is Atom);
        lemma_same_sum(one[0], atoms_of(one.skip(1)), other[0], atoms_of(other.skip(1)));
        lemma_forward_rest(one);
        lemma_forward_rest(other);
        let advance = one[0]->advance.steps as int;
        lemma_text_width_grows(one.skip(1), a.running_max.steps + advance);
        lemma_same_measured_atom(a, b, one[0]);
        let next = a.with_measured_item(one[0]);
        lemma_text_width_after(
            one.skip(1),
            next.running_max.steps as int,
            a.running_max.steps + advance - next.running_max.steps,
        );
        lemma_same_measured_text(next, b.with_measured_item(one[0]), one.skip(1), other.skip(1));
    } else {
        assert(other.len() == 0);
    }
}

proof fn lemma_forward_rest(flow: Seq<MeasuredItem<Fixed>>)
    requires
        is_forward_text(flow),
        flow.len() > 0,
    ensures
        is_forward_text(flow.skip(1)),
{
    let rest = flow.skip(1);
    assert forall|i: int| 0 <= i < rest.len() implies match #[trigger] rest[i] {
        MeasuredItem::Run => true,
        MeasuredItem::Atom { advance, .. } => advance.steps >= 0,
        MeasuredItem::Box { .. } => false,
    } by {
        assert(rest[i] == flow[i + 1]);
    }
}

proof fn lemma_text_width_grows(flow: Seq<MeasuredItem<Fixed>>, acc: int)
    requires
        is_forward_text(flow),
    ensures
        acc <= text_width(flow, acc),
    decreases flow.len(),
{
    if flow.len() > 0 {
        assert(match flow[0] {
            MeasuredItem::Run => true,
            MeasuredItem::Atom { advance, .. } => advance.steps >= 0,
            MeasuredItem::Box { .. } => false,
        });
        lemma_forward_rest(flow);
        let more = match flow[0] {
            MeasuredItem::Atom { advance, .. } => advance.steps as int,
            _ => 0,
        };
        lemma_text_width_grows(flow.skip(1), acc + more);
    }
}

pub proof fn lemma_text_width_after(flow: Seq<MeasuredItem<Fixed>>, acc: int, more: int)
    ensures
        text_width(flow, acc + more) == text_width(flow, acc) + more,
    decreases flow.len(),
{
    if flow.len() > 0 {
        let advance = match flow[0] {
            MeasuredItem::Atom { advance, .. } => advance.steps as int,
            _ => 0,
        };
        lemma_text_width_after(flow.skip(1), acc + advance, more);
    }
}

/// Text whose advances are not negative has the same intrinsic widths wherever
/// its runs end.
pub proof fn lemma_runs_do_not_change_widths(a: LayoutData<Fixed>, b: LayoutData<Fixed>)
    requires
        a.wf(),
        b.wf(),
        is_forward_text(a.measured_from(0)),
        is_forward_text(b.measured_from(0)),
        atoms_of(a.measured_from(0)) == atoms_of(b.measured_from(0)),
        text_width(a.measured_from(0), 0) <= i64::MAX,
        a.styles@[a.root_style_index as int].text_wrap_mode
            == b.styles@[b.root_style_index as int].text_wrap_mode,
    ensures
        a.content_widths() == b.content_widths(),
{
    let start = Measure::<Fixed>::start(a.styles@[a.root_style_index as int].text_wrap_mode);
    lemma_measure_of_flow(a, start, 0);
    lemma_measure_of_flow(b, start, 0);
    lemma_same_measured_text(start, start, a.measured_from(0), b.measured_from(0));
}

/// The layouts are of the same shaped text in the same styles; their runs may
/// end at different places.
pub open spec fn same_shaped_text<T: Scalar>(a: LayoutData<T>, b: LayoutData<T>) -> bool {
    &&& a.shaped_text.characters@ == b.shaped_text.characters@
    &&& a.shaped_text.clusters@ == b.shaped_text.clusters@
    &&& a.styles@ == b.styles@
}

/// A text item ends between two graphemes, or at the end of the text.
pub open spec fn ends_at_grapheme<T: Scalar>(layout: LayoutData<T>, item: int) -> bool {
    layout.spec_is_text(item) ==> layout.text_end(item) == layout.shaped_text.clusters@.len()
        || layout.shaped_text.clusters@[layout.text_end(item)].grapheme_start
}

pub proof fn lemma_atom_end_in_text<T: Scalar>(layout: LayoutData<T>, from: int, bound: int)
    requires
        0 <= from < bound <= layout.shaped_text.clusters@.len(),
        bound == layout.shaped_text.clusters@.len()
            || layout.shaped_text.clusters@[bound].grapheme_start,
    ensures
        layout.shaped_text.atom_end(from, bound) == layout.shaped_text.atom_end(
            from,
            layout.shaped_text.clusters@.len() as int,
        ),
    decreases bound - from,
{
    if from + 1 < bound && !layout.shaped_text.clusters@[from + 1].grapheme_start {
        lemma_atom_end_in_text(layout, from + 1, bound);
    }
}

pub proof fn lemma_same_atom<T: Scalar>(a: LayoutData<T>, b: LayoutData<T>, from: int, bound: int)
    requires
        same_shaped_text(a, b),
    ensures
        a.shaped_text.atom_end(from, bound) == b.shaped_text.atom_end(from, bound),
        a.shaped_text.spec_atom(from, bound) == b.shaped_text.spec_atom(from, bound),
    decreases bound - from,
{
    lemma_same_atom_end(a, b, from, bound);
    lemma_same_advances(
        a,
        b,
        a.shaped_text.clusters@[from].advance,
        from + 1,
        a.shaped_text.atom_end(from, bound),
    );
}

proof fn lemma_same_atom_end<T: Scalar>(a: LayoutData<T>, b: LayoutData<T>, from: int, bound: int)
    requires
        same_shaped_text(a, b),
    ensures
        a.shaped_text.atom_end(from, bound) == b.shaped_text.atom_end(from, bound),
    decreases bound - from,
{
    if from + 1 < bound && !a.shaped_text.clusters@[from + 1].grapheme_start {
        lemma_same_atom_end(a, b, from + 1, bound);
    }
}

proof fn lemma_same_advances<T: Scalar>(
    a: LayoutData<T>,
    b: LayoutData<T>,
    acc: T,
    from: int,
    to: int,
)
    requires
        same_shaped_text(a, b),
    ensures
        a.shaped_text.advances(acc, from, to) == b.shaped_text.advances(acc, from, to),
    decreases to - from,
{
    if from < to {
        lemma_same_advances(
            a,
            b,
            acc.spec_plus(a.shaped_text.clusters@[from].advance),
            from + 1,
            to,
        );
    }
}

// ---------------------------------------------------------------------------
// Widths of text with boxes out of flow.

/// All that there is in flow is text that ends between graphemes.
pub open spec fn is_text_alone<T: Scalar>(layout: LayoutData<T>) -> bool {
    &&& layout.clusters_before(layout.items@.len() as int) == layout.shaped_text.clusters@.len()
    &&& forall|item: int|
        0 <= item < layout.items@.len() ==> {
            &&& #[trigger] layout.spec_is_text(item) || layout.is_out_of_flow(item, true)
            &&& ends_at_grapheme(layout, item)
        }
}

/// The atoms of a text from a cluster on.
pub open spec fn text_atoms<T: Scalar>(layout: LayoutData<T>, cursor: int) -> Seq<MeasuredItem<T>>
    decreases layout.shaped_text.clusters@.len() - cursor,
{
    let len = layout.shaped_text.clusters@.len() as int;
    if cursor >= len {
        Seq::empty()
    } else {
        proof {
            layout.shaped_text.lemma_atom_end(cursor, len);
        }
        let first = layout.shaped_text.spec_first_character(cursor);
        seq![
            MeasuredItem::Atom {
                advance: layout.shaped_text.spec_atom(cursor, len).advance,
                first,
                style: layout.spec_style_of(first),
            },
        ] + text_atoms(layout, layout.shaped_text.atom_end(cursor, len))
    }
}

proof fn lemma_atoms_of_run<T: Scalar>(layout: LayoutData<T>, run: int, cursor: int)
    requires
        ({
            let bound = layout.shaped_text.runs@[run].clusters.end;
            let len = layout.shaped_text.clusters@.len();
            &&& 0 <= cursor <= bound <= len
            &&& bound == len || layout.shaped_text.clusters@[bound as int].grapheme_start
        }),
    ensures
        atoms_of(layout.measured_run(run, cursor)) == layout.measured_run(run, cursor),
        layout.measured_run(run, cursor) + text_atoms(
            layout,
            layout.shaped_text.runs@[run].clusters.end as int,
        ) == text_atoms(layout, cursor),
    decreases layout.shaped_text.runs@[run].clusters.end - cursor,
{
    let bound = layout.shaped_text.runs@[run].clusters.end as int;
    let atoms = layout.measured_run(run, cursor);
    if cursor < bound {
        layout.shaped_text.lemma_atom_end(cursor, bound);
        lemma_atom_end_in_text(layout, cursor, bound);
        let next = layout.shaped_text.atom_end(cursor, bound);
        let rest = layout.measured_run(run, next);
        lemma_atoms_of_run(layout, run, next);
        assert(atoms.skip(1) =~= rest);
        assert(atoms[0] is Atom);
        let one = seq![layout.measured_atom(run, cursor)];
        assert(one + rest + text_atoms(layout, bound) =~= one + (rest + text_atoms(
            layout,
            bound,
        )));
    } else {
        assert(atoms + text_atoms(layout, bound) =~= text_atoms(layout, bound));
    }
}

proof fn lemma_atoms_of_sum<T: Scalar>(a: Seq<MeasuredItem<T>>, b: Seq<MeasuredItem<T>>)
    ensures
        atoms_of(a + b) == atoms_of(a) + atoms_of(b),
    decreases a.len(),
{
    if a.len() == 0 {
        assert(a + b =~= b);
        assert(atoms_of(a) + atoms_of(b) =~= atoms_of(b));
    } else {
        assert((a + b).skip(1) =~= a.skip(1) + b);
        assert((a + b)[0] == a[0]);
        lemma_atoms_of_sum(a.skip(1), b);
        if !(a[0] is Run) {
            assert(seq![a[0]] + (atoms_of(a.skip(1)) + atoms_of(b)) =~= seq![a[0]] + atoms_of(
                a.skip(1),
            ) + atoms_of(b));
        }
    }
}

proof fn lemma_atoms_of_text<T: Scalar>(layout: LayoutData<T>, item: int)
    requires
        layout.wf(),
        is_text_alone(layout),
        0 <= item <= layout.items@.len(),
    ensures
        atoms_of(layout.measured_from(item)) == text_atoms(layout, layout.clusters_before(item)),
    decreases layout.items@.len() - item,
{
    if item < layout.items@.len() {
        assert(layout.spec_is_text(item) || layout.is_out_of_flow(item, true));
        lemma_atoms_of_text(layout, item + 1);
        if layout.spec_is_text(item) {
            coverage::lemma_run_bounds(layout, item);
            layout.lemma_clusters_before_monotone(item + 1, layout.items@.len() as int);
            let run = layout.items@[item].index as int;
            let start = layout.clusters_before(item);
            let atoms = layout.measured_run(run, start);
            let marker = seq![MeasuredItem::<T>::Run];
            let rest = layout.measured_from(item + 1);
            lemma_atoms_of_run(layout, run, start);
            lemma_atoms_of_sum(marker + atoms, rest);
            lemma_atoms_of_sum(marker, atoms);
            reveal_with_fuel(atoms_of, 2);
            assert(marker.skip(1) =~= Seq::empty());
            assert(atoms_of(marker) =~= Seq::empty());
            assert(Seq::<MeasuredItem<T>>::empty() + atoms =~= atoms);
        }
    }
}

proof fn lemma_same_text_atoms<T: Scalar>(a: LayoutData<T>, b: LayoutData<T>, cursor: int)
    requires
        same_shaped_text(a, b),
    ensures
        text_atoms(a, cursor) == text_atoms(b, cursor),
    decreases a.shaped_text.clusters@.len() - cursor,
{
    let len = a.shaped_text.clusters@.len() as int;
    if cursor < len {
        a.shaped_text.lemma_atom_end(cursor, len);
        lemma_same_atom(a, b, cursor, len);
        lemma_same_text_atoms(a, b, a.shaped_text.atom_end(cursor, len));
    }
}

/// No cluster has a negative advance.
pub open spec fn advances_forward(layout: LayoutData<Fixed>) -> bool {
    forall|i: int|
        0 <= i < layout.shaped_text.clusters@.len() ==> (
        #[trigger] layout.shaped_text.clusters@[i]).advance.steps >= 0
}

proof fn lemma_advances_forward(layout: LayoutData<Fixed>, acc: Fixed, from: int, to: int)
    requires
        advances_forward(layout),
        acc.steps >= 0,
        0 <= from,
        to <= layout.shaped_text.clusters@.len(),
    ensures
        layout.shaped_text.advances(acc, from, to).steps >= 0,
    decreases to - from,
{
    if from < to {
        let next = acc.spec_plus(layout.shaped_text.clusters@[from].advance);
        assert(next.steps >= 0);
        lemma_advances_forward(layout, next, from + 1, to);
    }
}

proof fn lemma_run_is_forward(layout: LayoutData<Fixed>, run: int, cursor: int)
    requires
        advances_forward(layout),
        0 <= cursor,
        layout.shaped_text.runs@[run].clusters.end <= layout.shaped_text.clusters@.len(),
    ensures
        is_forward_text(layout.measured_run(run, cursor)),
    decreases layout.shaped_text.runs@[run].clusters.end - cursor,
{
    let bound = layout.shaped_text.runs@[run].clusters.end as int;
    if cursor < bound {
        layout.shaped_text.lemma_atom_end(cursor, bound);
        let next = layout.shaped_text.atom_end(cursor, bound);
        lemma_run_is_forward(layout, run, next);
        lemma_advances_forward(
            layout,
            layout.shaped_text.clusters@[cursor].advance,
            cursor + 1,
            next,
        );
    }
}

proof fn lemma_text_is_forward(layout: LayoutData<Fixed>, item: int)
    requires
        layout.wf(),
        is_text_alone(layout),
        advances_forward(layout),
        0 <= item,
    ensures
        is_forward_text(layout.measured_from(item)),
    decreases layout.items@.len() - item,
{
    if item < layout.items@.len() {
        assert(layout.spec_is_text(item) || layout.is_out_of_flow(item, true));
        lemma_text_is_forward(layout, item + 1);
        if layout.spec_is_text(item) {
            coverage::lemma_run_bounds(layout, item);
            layout.lemma_clusters_before_bound(item + 1);
            let run = layout.items@[item].index as int;
            lemma_run_is_forward(layout, run, layout.clusters_before(item));
        }
    }
}

/// Boxes out of flow change no intrinsic width. Text whose advances are not
/// negative has the same widths with them as without them, wherever they are
/// put between its graphemes, beside or inside white space and line breaks too.
pub proof fn lemma_boxes_out_of_flow_change_no_width(
    a: LayoutData<Fixed>,
    b: LayoutData<Fixed>,
)
    requires
        a.wf(),
        b.wf(),
        same_shaped_text(a, b),
        is_text_alone(a),
        is_text_alone(b),
        advances_forward(a),
        text_width(a.measured_from(0), 0) <= i64::MAX,
        a.styles@[a.root_style_index as int].text_wrap_mode
            == b.styles@[b.root_style_index as int].text_wrap_mode,
    ensures
        a.content_widths() == b.content_widths(),
{
    lemma_text_is_forward(a, 0);
    lemma_text_is_forward(b, 0);
    lemma_atoms_of_text(a, 0);
    lemma_atoms_of_text(b, 0);
    lemma_same_text_atoms(a, b, 0);
    lemma_runs_do_not_change_widths(a, b);
}

} // verus!
