use parley::builder::{
    establish_root_style, push_inline_box_input, resolve_range, IndexBound, IndexBounds,
};
use parley::context::LayoutContext;
use parley::inline_box::{InlineBox, InlineBoxInput, InlineBoxKind, InlineBoundaryAffinity};
use parley::layout::data::{LayoutItemKind, LineItemData};
use parley::layout::reorder::reorder_line_items;
use parley::layout::shaped::Span;
use parley::layout::state::LineBoxMetrics;
use parley::resolve::{ResolvedProperty, ResolvedStyle};
use parley::scalar::{Fixed, Scalar};
use parley::style::{
    EndOfLineWhitespace, FontAttributes, FontStyle, LineHeight, OverflowWrap, TextWrapMode,
    WhiteSpaceCollapse, WordBreak,
};
use parley::text::char_len;

fn px(units: i32) -> Fixed {
    Fixed::from_units(units)
}

fn style() -> ResolvedStyle<Fixed, u32> {
    ResolvedStyle {
        font_size: px(20),
        font_attrs: FontAttributes { width: px(1), weight: px(400), style: FontStyle::Normal },
        line_height: LineHeight::Absolute(px(24)),
        word_spacing: px(0),
        letter_spacing: px(0),
        word_break: WordBreak::Normal,
        overflow_wrap: OverflowWrap::Normal,
        text_wrap_mode: TextWrapMode::Wrap,
        white_space_collapse: WhiteSpaceCollapse::Preserve,
        brush: 0,
    }
}

fn inline_box(kind: InlineBoxKind, baseline: Option<i32>) -> InlineBox<Fixed> {
    InlineBox {
        id: 1,
        kind,
        index: 4,
        width: px(30),
        height: px(20),
        baseline: baseline.map(px),
    }
}

// ---------------------------------------------------------------------------
// Ranges.

#[test]
fn ranges_are_resolved_within_the_text() {
    let resolve = |start, end| resolve_range(IndexBounds { start, end }, 10);
    assert_eq!(resolve(IndexBound::Unbounded, IndexBound::Unbounded), 0..10);
    assert_eq!(resolve(IndexBound::Included(2), IndexBound::Excluded(5)), 2..5);
    assert_eq!(resolve(IndexBound::Excluded(2), IndexBound::Included(5)), 3..6);
    assert_eq!(resolve(IndexBound::Included(12), IndexBound::Included(11)), 10..10);
}

// ---------------------------------------------------------------------------
// Styles.

#[test]
fn a_root_style_in_the_table_is_found() {
    let large = || ResolvedStyle { font_size: px(40), ..style() };
    let mut table = vec![large(), style(), style()];
    assert_eq!(establish_root_style(&mut table, style()), 1);
    assert_eq!(table.len(), 3);
    let red = || ResolvedStyle { brush: 7, ..style() };
    assert_eq!(establish_root_style(&mut table, red()), 3);
    assert_eq!(establish_root_style(&mut table, red()), 3);
    assert_eq!(table.len(), 4);
}

#[test]
fn a_property_replaces_one_value() {
    let properties: Vec<ResolvedProperty<Fixed, u32>> = vec![
        ResolvedProperty::FontSize(px(40)),
        ResolvedProperty::FontAttributes(FontAttributes {
            width: px(1),
            weight: px(700),
            style: FontStyle::Oblique(Some(px(10))),
        }),
        ResolvedProperty::LineHeight(LineHeight::FontSizeRelative(px(2))),
        ResolvedProperty::WordSpacing(px(3)),
        ResolvedProperty::LetterSpacing(px(4)),
        ResolvedProperty::WordBreak(WordBreak::KeepAll),
        ResolvedProperty::OverflowWrap(OverflowWrap::Anywhere),
        ResolvedProperty::TextWrapMode(TextWrapMode::NoWrap),
        ResolvedProperty::WhiteSpaceCollapse(WhiteSpaceCollapse::BreakSpaces),
        ResolvedProperty::Brush(9),
    ];
    let mut all = style();
    for property in &properties {
        let mut one = style();
        one.apply(property);
        assert!(!one.same(&style()));
        one.apply(property);
        let mut again = style();
        again.apply(property);
        assert!(one.same(&again));
        all.apply(property);
    }
    assert_eq!(all.letter_spacing, px(4));
    assert_eq!(all.brush, 9);
    assert!(all.duplicate().same(&all));
    let kept = all.as_layout_style();
    assert_eq!(kept.word_break, WordBreak::KeepAll);
    assert_eq!(kept.end_of_line(), EndOfLineWhitespace::TakesUpSpace);
}

#[test]
fn attributes_are_compared_by_value() {
    let slanted = |style| FontAttributes { width: px(1), weight: px(400), style };
    assert!(slanted(FontStyle::Italic).same(slanted(FontStyle::Italic)));
    assert!(!slanted(FontStyle::Italic).same(slanted(FontStyle::Normal)));
    assert!(slanted(FontStyle::Oblique(None)).same(slanted(FontStyle::Oblique(None))));
    assert!(!slanted(FontStyle::Oblique(None)).same(slanted(FontStyle::Oblique(Some(px(1))))));
    assert!(!LineHeight::Absolute(px(1)).same(LineHeight::FontSizeRelative(px(1))));
    assert!(LineHeight::MetricsRelative(px(1)).same(LineHeight::MetricsRelative(px(1))));
}

#[test]
fn white_space_at_the_end_of_a_line() {
    let both = |mode: WhiteSpaceCollapse| {
        (
            mode.end_of_line_whitespace(TextWrapMode::Wrap),
            mode.end_of_line_whitespace(TextWrapMode::NoWrap),
        )
    };
    let remove = EndOfLineWhitespace::Remove;
    let stay = EndOfLineWhitespace::TakesUpSpace;
    let hang = EndOfLineWhitespace::Hang;
    assert_eq!(both(WhiteSpaceCollapse::Collapse), (remove, remove));
    assert_eq!(both(WhiteSpaceCollapse::PreserveBreaks), (remove, remove));
    assert_eq!(both(WhiteSpaceCollapse::Preserve), (hang, stay));
    assert_eq!(both(WhiteSpaceCollapse::PreserveSpaces), (hang, stay));
    assert_eq!(both(WhiteSpaceCollapse::BreakSpaces), (stay, stay));
}

// ---------------------------------------------------------------------------
// Boxes.

#[test]
fn only_content_and_edges_have_an_advance() {
    for (kind, advance, boundary, edge) in [
        (InlineBoxKind::InFlow, 30, false, false),
        (InlineBoxKind::StartBoundary, 30, true, true),
        (InlineBoxKind::EndBoundary, 30, true, true),
        (InlineBoxKind::TextBoundary, 0, true, false),
        (InlineBoxKind::OutOfFlow, 0, false, false),
        (InlineBoxKind::CustomOutOfFlow, 0, false, false),
    ] {
        assert_eq!(inline_box(kind, None).advance(), px(advance));
        assert_eq!(kind.contributes_advance(), advance > 0);
        assert_eq!(kind.is_boundary(), boundary);
        assert_eq!(kind.is_inline_edge(), edge);
    }
}

#[test]
fn a_box_stands_on_its_baseline() {
    assert_eq!(inline_box(InlineBoxKind::InFlow, None).ascent(), px(20));
    assert_eq!(inline_box(InlineBoxKind::InFlow, Some(15)).ascent(), px(15));
}

#[test]
fn boxes_are_pushed_in_order() {
    let mut lcx = LayoutContext::<Fixed, u32>::new();
    push_inline_box_input(&mut lcx, inline_box(InlineBoxKind::InFlow, None), None);
    push_inline_box_input(&mut lcx, inline_box(InlineBoxKind::EndBoundary, None), Some(3));
    assert_eq!(lcx.inline_boxes.len(), 2);
    assert_eq!(lcx.inline_boxes[0].style_after, None);
    assert_eq!(lcx.inline_boxes[1].style_after, Some(3));
    assert_eq!(lcx.inline_boxes[1].inline_box.kind, InlineBoxKind::EndBoundary);
    let input = InlineBoxInput::new(inline_box(InlineBoxKind::OutOfFlow, None));
    assert_eq!((input.style_after, input.bidi_level), (None, 0));
}

#[test]
fn a_break_precedes_the_outermost_open_edge() {
    let mut affinity = InlineBoundaryAffinity::<u32>::default();
    assert_eq!(affinity.before_opening(), None);
    affinity.open(1);
    affinity.open(2);
    assert_eq!(affinity.before_opening(), Some(&1));
    affinity.close();
    assert_eq!(affinity.before_opening(), Some(&1));
    affinity.close();
    assert_eq!(affinity.before_opening(), None);
    affinity.close();
    assert_eq!(affinity.before_opening(), None);
    affinity.open(3);
    affinity.consume_content();
    assert_eq!(affinity.before_opening(), None);
}

// ---------------------------------------------------------------------------
// Lines.

fn item(index: usize, bidi_level: u8) -> LineItemData<Fixed> {
    let none = Span { start: 0, end: 0 };
    LineItemData {
        kind: LayoutItemKind::TextRun,
        index,
        bidi_level,
        advance: px(0),
        is_ignorable_whitespace: false,
        text_range: none,
        removed_text_range: none,
        shaped_cluster_range: none,
        grapheme_range: none,
    }
}

fn reordered(levels: &[u8]) -> Vec<usize> {
    let mut items: Vec<_> = levels.iter().enumerate().map(|(i, &l)| item(i, l)).collect();
    let len = items.len();
    reorder_line_items(&mut items, 0, len);
    items.iter().map(|item| item.index).collect()
}

#[test]
fn items_are_put_in_visual_order() {
    assert_eq!(reordered(&[0, 0, 0]), [0, 1, 2]);
    assert_eq!(reordered(&[1, 1, 1]), [2, 1, 0]);
    assert_eq!(reordered(&[0, 1, 1, 0]), [0, 2, 1, 3]);
    assert_eq!(reordered(&[1, 2, 2, 1]), [3, 1, 2, 0]);
    assert_eq!(reordered(&[0, 1, 2, 3, 1]), [0, 4, 2, 3, 1]);
    assert_eq!(reordered(&[2, 1, 2]), [2, 1, 0]);
    assert_eq!(reordered(&[]), []);
    // Each stretch at or above the lowest odd level keeps its places.
    assert_eq!(reordered(&[0, 1, 2, 0, 3, 1, 0]), [0, 2, 1, 3, 5, 4, 6]);
}

#[test]
fn reordering_twice_restores_the_order() {
    for levels in [&[0, 1, 2, 3, 1][..], &[2, 1, 2], &[1, 2, 4, 3, 2, 0, 1]] {
        let mut items: Vec<_> = levels.iter().enumerate().map(|(i, &l)| item(i, l)).collect();
        let len = items.len();
        reorder_line_items(&mut items, 0, len);
        reorder_line_items(&mut items, 0, len);
        let order: Vec<_> = items.iter().map(|item| item.index).collect();
        assert_eq!(order, (0..len).collect::<Vec<_>>());
    }
}

#[test]
fn only_the_items_of_the_line_are_reordered() {
    let mut items: Vec<_> = (0..4).map(|i| item(i, 1)).collect();
    reorder_line_items(&mut items, 1, 3);
    let order: Vec<_> = items.iter().map(|item| item.index).collect();
    assert_eq!(order, [0, 2, 1, 3]);
}

#[test]
fn a_line_box_grows_to_hold_its_boxes() {
    let mut metrics = LineBoxMetrics::<Fixed>::zero();
    metrics.add_inline_box(px(10), px(4), false);
    metrics.add_inline_box(px(7), px(6), false);
    assert_eq!(metrics.line_height(), px(16));
    metrics.add_inline_box(Fixed { steps: 64 * 12 + 20 }, px(0), true);
    assert_eq!(metrics.line_box.over, px(12));
    assert_eq!(metrics.content_box.under, px(6));
}

#[test]
fn characters_have_their_utf8_length() {
    for c in ['\0', '\u{7f}', '\u{80}', '\u{7ff}', '\u{800}', '\u{ffff}', '\u{10000}', '\u{10ffff}']
    {
        assert_eq!(char_len(c), c.len_utf8());
    }
}
