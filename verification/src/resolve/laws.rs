//! Styles of text: their properties, and where they apply.

use crate::resolve::tree::StyleTree;
use crate::resolve::{Brush, ResolvedProperty, ResolvedStyle};
use crate::scalar::{Fixed, Scalar};
use crate::style::{FontAttributes, LineHeight};
use vstd::prelude::*;

verus! {

/// The two values are values of one property.
pub open spec fn is_same_property<T: Scalar, B: Brush>(
    a: ResolvedProperty<T, B>,
    b: ResolvedProperty<T, B>,
) -> bool {
    match a {
        ResolvedProperty::FontSize(_) => b is FontSize,
        ResolvedProperty::FontAttributes(_) => b is FontAttributes,
        ResolvedProperty::LineHeight(_) => b is LineHeight,
        ResolvedProperty::WordSpacing(_) => b is WordSpacing,
        ResolvedProperty::LetterSpacing(_) => b is LetterSpacing,
        ResolvedProperty::WordBreak(_) => b is WordBreak,
        ResolvedProperty::OverflowWrap(_) => b is OverflowWrap,
        ResolvedProperty::TextWrapMode(_) => b is TextWrapMode,
        ResolvedProperty::WhiteSpaceCollapse(_) => b is WhiteSpaceCollapse,
        ResolvedProperty::Brush(_) => b is Brush,
    }
}

/// The style has the value for its property.
pub open spec fn has_property<T: Scalar, B: Brush>(
    style: ResolvedStyle<T, B>,
    property: ResolvedProperty<T, B>,
) -> bool {
    match property {
        ResolvedProperty::FontSize(value) => style.font_size == value,
        ResolvedProperty::FontAttributes(value) => style.font_attrs == value,
        ResolvedProperty::LineHeight(value) => style.line_height == value,
        ResolvedProperty::WordSpacing(value) => style.word_spacing == value,
        ResolvedProperty::LetterSpacing(value) => style.letter_spacing == value,
        ResolvedProperty::WordBreak(value) => style.word_break == value,
        ResolvedProperty::OverflowWrap(value) => style.overflow_wrap == value,
        ResolvedProperty::TextWrapMode(value) => style.text_wrap_mode == value,
        ResolvedProperty::WhiteSpaceCollapse(value) => style.white_space_collapse == value,
        ResolvedProperty::Brush(value) => style.brush == value,
    }
}

/// A style keeps the value that a property was given last, and its other
/// properties as they were.
pub proof fn lemma_last_value_is_kept<T: Scalar, B: Brush>(
    style: ResolvedStyle<T, B>,
    property: ResolvedProperty<T, B>,
    other: ResolvedProperty<T, B>,
)
    ensures
        has_property(style.with(property), property),
        is_same_property(property, other) ==> style.with(other).with(property) == style.with(
            property,
        ),
        !is_same_property(property, other) ==> {
            &&& style.with(other).with(property) == style.with(property).with(other)
            &&& has_property(style.with(property), other) == has_property(style, other)
        },
        has_property(style, property) ==> style.with(property) == style,
{
}

/// Of the values in a list, the last for a property is the one that the style
/// gets; a property without a value in the list stays as it was.
pub proof fn lemma_values_of_a_list<T: Scalar, B: Brush>(
    style: ResolvedStyle<T, B>,
    properties: Seq<ResolvedProperty<T, B>>,
    at: int,
    other: ResolvedProperty<T, B>,
)
    requires
        0 <= at < properties.len() ==> forall|i: int|
            at < i < properties.len() ==> !is_same_property(
                properties[at],
                #[trigger] properties[i],
            ),
    ensures
        0 <= at < properties.len() ==> has_property(style.with_all(properties), properties[at]),
        (forall|i: int|
            0 <= i < properties.len() ==> !is_same_property(#[trigger] properties[i], other))
            ==> has_property(style.with_all(properties), other) == has_property(style, other),
    decreases properties.len(),
{
    if properties.len() > 0 {
        let rest = properties.drop_last();
        let last = properties.last();
        if at < properties.len() - 1 {
            assert forall|i: int| at < i < rest.len() && 0 <= at < rest.len() implies
                !is_same_property(rest[at], #[trigger] rest[i]) by {
                assert(rest[i] == properties[i]);
            }
            if 0 <= at {
                assert(!is_same_property(properties[at], properties[properties.len() - 1]));
            }
        }
        lemma_values_of_a_list(style, rest, at, other);
        if forall|i: int|
            0 <= i < properties.len() ==> !is_same_property(#[trigger] properties[i], other) {
            assert forall|i: int| 0 <= i < rest.len() implies !is_same_property(
                #[trigger] rest[i],
                other,
            ) by {
                assert(rest[i] == properties[i]);
            }
            assert(!is_same_property(properties[properties.len() - 1], other));
        }
    }
}

/// Two styles are the same exactly if they agree in every property.
pub proof fn lemma_same_styles(a: ResolvedStyle<Fixed, u32>, b: ResolvedStyle<Fixed, u32>)
    ensures
        a.spec_same(&b) == (a == b),
{
    lemma_same_line_heights(a.line_height, b.line_height);
    lemma_same_attributes(a.font_attrs, b.font_attrs);
}

pub proof fn lemma_same_line_heights(a: LineHeight<Fixed>, b: LineHeight<Fixed>)
    ensures
        a.spec_same(b) == (a == b),
{
}

pub proof fn lemma_same_attributes(a: FontAttributes<Fixed>, b: FontAttributes<Fixed>)
    ensures
        a.spec_same(b) == (a == b),
{
}

/// Text that is pushed in a span has the style of that span: the run that is made
/// of it follows the runs before it up to the end of the text, and its style in
/// the table is the span's. Text and runs before it stay.
pub proof fn lemma_text_has_the_style_of_its_span<T: Scalar, B: Brush>(
    tree: StyleTree<T, B>,
    is_text_end: bool,
)
    requires
        tree.wf(),
        tree.runs_wf(),
        tree.ids_wf(),
        tree.table.len() < 0x1_0000,
        tree.processed(is_text_end).len() > 0,
    ensures
        ({
            let after = tree.committed(is_text_end);
            let run = after.runs.last();
            &&& after.runs.len() == tree.runs.len() + 1
            &&& after.runs.drop_last() == tree.runs
            &&& after.text == tree.text + tree.processed(is_text_end)
            &&& after.uncommitted.len() == 0
            &&& run.style_index < after.table.len()
            &&& after.table[run.style_index as int] == tree.style()
            &&& after.style() == tree.style()
            &&& tree.runs.len() > 0 ==> run.range.start == tree.runs.last().range.end
            &&& tree.runs.len() == 0 ==> run.range.start == 0
            &&& forall|i: int|
                0 <= i < tree.table.len() ==> #[trigger] after.table[i] == tree.table[i]
        }),
{
    let after = tree.committed(is_text_end);
    assert(after.runs.drop_last() =~= tree.runs);
    assert(tree.nodes[tree.current].style_id matches Some(id) ==> id < tree.table.len()
        && tree.table[id as int] == tree.nodes[tree.current].style);
}

} // verus!
