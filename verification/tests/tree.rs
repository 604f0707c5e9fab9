use parley::resolve::tree::{ItemKind, TreeStyleBuilder};
use parley::resolve::{ResolvedProperty, ResolvedStyle, StyleRun};
use parley::scalar::Fixed;
use parley::style::{
    FontAttributes, FontStyle, LineHeight, OverflowWrap, TextWrapMode, WhiteSpaceCollapse,
    WordBreak,
};
use std::ops::Range;

fn px(units: i32) -> Fixed {
    Fixed::from_units(units)
}

fn default_style() -> ResolvedStyle<Fixed, u32> {
    ResolvedStyle {
        font_size: px(16),
        font_attrs: FontAttributes { width: px(1), weight: px(400), style: FontStyle::Normal },
        line_height: LineHeight::MetricsRelative(px(1)),
        word_spacing: px(0),
        letter_spacing: px(0),
        word_break: WordBreak::Normal,
        overflow_wrap: OverflowWrap::Normal,
        text_wrap_mode: TextWrapMode::Wrap,
        white_space_collapse: WhiteSpaceCollapse::Preserve,
        brush: 0,
    }
}

fn begun() -> TreeStyleBuilder<Fixed, u32> {
    let mut builder = TreeStyleBuilder::<Fixed, u32>::default();
    builder.begin(default_style());
    builder
}

type Finished = (String, Vec<ResolvedStyle<Fixed, u32>>, Vec<StyleRun>);

fn finished(mut builder: TreeStyleBuilder<Fixed, u32>) -> Finished {
    let mut style_table = Vec::new();
    let mut style_runs = Vec::new();
    let text = builder.finish(&mut style_table, &mut style_runs);
    (text, style_table, style_runs)
}

fn indices(runs: &[StyleRun]) -> Vec<u16> {
    runs.iter().map(|run| run.style_index).collect()
}

#[test]
fn collapses_ascii_whitespace_without_trimming_non_ascii_whitespace() {
    let mut builder = begun();
    builder.set_white_space_mode(WhiteSpaceCollapse::Collapse);
    builder.push_text(" \u{00a0}text\u{00a0} ");
    let (text, _, _) = finished(builder);
    assert_eq!(text, "\u{00a0}text\u{00a0}");
}

#[test]
fn reuses_style_id_when_returning_to_parent_span() {
    let mut builder = begun();
    builder.push_text("A");
    builder.push_style_modification_span(&vec![ResolvedProperty::FontSize(px(20))]);
    builder.push_text("B");
    builder.pop_style_span();
    builder.push_text("C");
    let (text, style_table, style_runs) = finished(builder);

    assert_eq!(text, "ABC");
    assert_eq!(style_table.len(), 2);
    assert_eq!(style_runs.len(), 3);
    assert_eq!(style_runs[0].style_index, 0);
    assert_eq!(style_runs[1].style_index, 1);
    assert_eq!(style_runs[2].style_index, 0);
    assert_eq!(style_runs[0].range, Range { start: 0, end: 1 });
    assert_eq!(style_runs[1].range, Range { start: 1, end: 2 });
    assert_eq!(style_runs[2].range, Range { start: 2, end: 3 });
}

#[test]
fn reuses_root_style_id_across_multiple_pop_return_cycles() {
    let mut builder = begun();
    builder.push_text("A");
    builder.push_style_modification_span(&vec![ResolvedProperty::FontSize(px(20))]);
    builder.push_text("B");
    builder.pop_style_span();
    builder.push_text("C");
    builder.push_style_modification_span(&vec![ResolvedProperty::LetterSpacing(px(1))]);
    builder.push_text("D");
    builder.pop_style_span();
    builder.push_text("E");
    let (text, style_table, style_runs) = finished(builder);

    assert_eq!(text, "ABCDE");
    assert_eq!(style_table.len(), 3);
    assert_eq!(style_runs.len(), 5);
    assert_eq!(style_runs[0].style_index, 0);
    assert_eq!(style_runs[1].style_index, 1);
    assert_eq!(style_runs[2].style_index, 0);
    assert_eq!(style_runs[3].style_index, 2);
    assert_eq!(style_runs[4].style_index, 0);
}

#[test]
fn reuses_parent_and_root_style_ids_after_nested_pop() {
    let mut builder = begun();
    builder.push_text("R");
    builder.push_style_modification_span(&vec![ResolvedProperty::FontSize(px(20))]);
    builder.push_text("A");
    builder.push_style_modification_span(&vec![ResolvedProperty::LetterSpacing(px(1))]);
    builder.push_text("B");
    builder.pop_style_span();
    builder.push_text("C");
    builder.pop_style_span();
    builder.push_text("D");
    let (text, style_table, style_runs) = finished(builder);

    assert_eq!(text, "RABCD");
    assert_eq!(style_table.len(), 3);
    assert_eq!(style_runs.len(), 5);
    assert_eq!(style_runs[0].style_index, 0);
    assert_eq!(style_runs[1].style_index, 1);
    assert_eq!(style_runs[2].style_index, 2);
    assert_eq!(style_runs[3].style_index, 1);
    assert_eq!(style_runs[4].style_index, 0);
}

fn normalized_text(mode: WhiteSpaceCollapse, text: &str) -> String {
    let style = ResolvedStyle { white_space_collapse: mode, ..default_style() };
    let mut builder = TreeStyleBuilder::<Fixed, u32>::default();
    builder.begin(style);
    builder.push_text(text);
    finished(builder).0
}

#[test]
fn normalizes_each_white_space_collapse_mode() {
    let input = "a  b \t c\n\n d\r\ne  ";
    assert_eq!(normalized_text(WhiteSpaceCollapse::Preserve, input), input);
    assert_eq!(normalized_text(WhiteSpaceCollapse::BreakSpaces, input), input);
    assert_eq!(normalized_text(WhiteSpaceCollapse::Collapse, input), "a b c d e");
    assert_eq!(normalized_text(WhiteSpaceCollapse::PreserveBreaks, input), "a b c\n\nd\ne");
    assert_eq!(normalized_text(WhiteSpaceCollapse::PreserveSpaces, input), "a  b   c   d e  ");
}

#[test]
fn preserve_spaces_normalizes_unicode_segment_breaks() {
    assert_eq!(
        normalized_text(WhiteSpaceCollapse::PreserveSpaces, "a\u{2028}b\u{2029}c"),
        "a b c"
    );
    assert_eq!(normalized_text(WhiteSpaceCollapse::Collapse, "a\u{2028}\u{2029}b"), "a b");
    assert_eq!(
        normalized_text(WhiteSpaceCollapse::PreserveBreaks, "a\u{2028}\u{2029}b"),
        "a\n\nb"
    );
}

#[test]
fn collapse_crosses_style_boundaries_without_erasing_inline_spacing() {
    let root =
        ResolvedStyle { white_space_collapse: WhiteSpaceCollapse::Collapse, ..default_style() };
    let mut builder = TreeStyleBuilder::<Fixed, u32>::default();
    builder.begin(root);
    builder.push_text("a ");
    builder.push_style_modification_span(&vec![ResolvedProperty::FontSize(px(20))]);
    builder.push_text("  b");
    builder.pop_style_span();
    builder.push_uncommitted_text(false);
    builder.set_last_item_kind(ItemKind::InlineBox);
    builder.push_text(" c");
    assert_eq!(finished(builder).0, "a b c");
}

#[test]
fn white_space_mode_is_part_of_the_resolved_style() {
    let mut builder = begun();
    builder.set_white_space_mode(WhiteSpaceCollapse::BreakSpaces);
    builder.push_text("a");
    builder.push_style_modification_span(&vec![ResolvedProperty::WhiteSpaceCollapse(
        WhiteSpaceCollapse::Collapse,
    )]);
    builder.push_text("b");
    builder.pop_style_span();
    let (text, style_table, style_runs) = finished(builder);

    assert_eq!(text, "ab");
    assert_eq!(style_runs.len(), 2);
    assert_eq!(
        style_table[style_runs[0].style_index as usize].white_space_collapse,
        WhiteSpaceCollapse::BreakSpaces
    );
    assert_eq!(
        style_table[style_runs[1].style_index as usize].white_space_collapse,
        WhiteSpaceCollapse::Collapse
    );
}

#[test]
fn text_without_content_keeps_the_root_style() {
    let (text, style_table, style_runs) = finished(begun());
    assert_eq!(text, "");
    assert_eq!(style_table.len(), 1);
    assert!(style_table[0].same(&default_style()));
    assert_eq!(style_runs.len(), 1);
    assert_eq!(style_runs[0].range, 0..0);
}

#[test]
fn spans_inside_each_other_close_at_the_end() {
    let mut builder = begun();
    let large = ResolvedStyle { font_size: px(40), ..default_style() };
    builder.push_style_span(large);
    builder.push_text("a");
    builder.push_style_modification_span(&vec![
        ResolvedProperty::TextWrapMode(TextWrapMode::NoWrap),
        ResolvedProperty::Brush(7),
    ]);
    builder.push_text("\u{e9}");
    assert_eq!(builder.current_style().brush, 7);
    assert_eq!(builder.current_style().font_size, px(40));
    assert_eq!(builder.root_style().font_size, px(16));
    let (text, style_table, style_runs) = finished(builder);

    assert_eq!(text, "a\u{e9}");
    assert_eq!(indices(&style_runs), [0, 1]);
    assert_eq!(style_runs[1].range, 1..3);
    assert_eq!(style_table[1].text_wrap_mode, TextWrapMode::NoWrap);
}

#[test]
fn a_change_of_mode_starts_a_new_style() {
    let mut builder = begun();
    builder.push_text("a ");
    builder.set_white_space_mode(WhiteSpaceCollapse::Collapse);
    builder.push_text("  b  ");
    assert_eq!(builder.current_text_len(), 2);
    let (text, style_table, style_runs) = finished(builder);

    assert_eq!(text, "a b");
    assert_eq!(style_table.len(), 2);
    assert_eq!(indices(&style_runs), [0, 1]);
}

#[test]
fn every_style_of_the_table_is_used() {
    let mut builder = begun();
    builder.push_style_span(default_style());
    builder.pop_style_span();
    builder.push_text("a");
    builder.push_style_span(default_style());
    builder.push_text("b");
    builder.push_style_span(default_style());
    builder.push_text(" ");
    builder.pop_style_span();
    builder.pop_style_span();
    builder.push_text("c");
    let mut table = Vec::new();
    let mut runs = Vec::new();
    let text = builder.finish(&mut table, &mut runs);
    assert_eq!(text, "ab c");
    for index in 0..table.len() {
        assert!(indices(&runs).contains(&(index as u16)));
    }
    assert_eq!(indices(&runs), [0, 1, 2, 0]);
}

#[test]
fn an_empty_span_only_commits_the_text() {
    let text = |with_span: bool| {
        let mut builder = begun();
        builder.set_white_space_mode(WhiteSpaceCollapse::Collapse);
        builder.push_text(" a ");
        if with_span {
            builder.push_style_span(default_style());
            builder.pop_style_span();
        } else {
            builder.push_uncommitted_text(false);
        }
        builder.push_text(" b");
        let mut table = Vec::new();
        let mut runs = Vec::new();
        let text = builder.finish(&mut table, &mut runs);
        (text, table.len(), format!("{runs:?}"))
    };
    assert_eq!(text(true), text(false));
    assert_eq!(text(true).0, "a b");
}
