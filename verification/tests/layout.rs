use parley::analysis::bidi;
use parley::builder::{
    finish_layout, BuildOptions, IndexBound, IndexBounds, RangedBuilder, StyleRunBuilder,
    TreeBuilder,
};
use parley::context::LayoutContext;
use parley::inline_box::{InlineBox, InlineBoxKind};
use parley::layout::assemble::assemble_layout;
use parley::layout::break_lines::YieldData;
use parley::layout::data::{
    BreakReason, ContentWidths, Layout, LayoutItemKind, LineData, LineItemData,
};
use parley::layout::shaped::{
    Boundary, Character, FontMetrics, ShapedCluster, ShapedRun, Span, Whitespace,
};
use parley::resolve::{ResolvedProperty, ResolvedStyle, StyleRun};
use parley::scalar::{Fixed, Scalar};
use parley::style::{
    BaseDirection, FontAttributes, FontStyle, IndentOptions, LineHeight, OverflowWrap,
    TextWrapMode, WhiteSpaceCollapse, WordBreak,
};

// ---------------------------------------------------------------------------
// A font of fixed advances, and layouts shaped with it.

fn px(units: i32) -> Fixed {
    Fixed::from_units(units)
}

fn root_style() -> ResolvedStyle<Fixed, u32> {
    ResolvedStyle {
        font_size: px(20),
        font_attrs: FontAttributes { width: px(1), weight: px(400), style: FontStyle::Normal },
        line_height: LineHeight::Absolute(px(24)),
        word_spacing: px(0),
        letter_spacing: px(0),
        word_break: WordBreak::Normal,
        overflow_wrap: OverflowWrap::Normal,
        text_wrap_mode: TextWrapMode::Wrap,
        white_space_collapse: WhiteSpaceCollapse::Preserve,
        brush: 0,
    }
}

fn options(base_direction: BaseDirection) -> BuildOptions<Fixed> {
    BuildOptions { scale: px(1), quantize: false, base_direction }
}

fn all() -> IndexBounds {
    IndexBounds { start: IndexBound::Unbounded, end: IndexBound::Unbounded }
}

fn bounds(start: usize, end: usize) -> IndexBounds {
    IndexBounds { start: IndexBound::Included(start), end: IndexBound::Excluded(end) }
}

fn advance_of(c: char) -> Fixed {
    match c {
        '\r' | '\n' => px(0),
        ' ' | '\t' | '\u{a0}' => px(5),
        'W' => px(18),
        '\u{3000}' => px(20),
        _ => px(10),
    }
}

fn whitespace_of(c: char) -> Whitespace {
    match c {
        ' ' => Whitespace::Space,
        '\t' => Whitespace::Tab,
        '\u{a0}' => Whitespace::NoBreakSpace,
        '\r' | '\n' => Whitespace::Newline,
        _ => Whitespace::NotSpace,
    }
}

fn is_space(c: char) -> bool {
    c == ' ' || c == '\t' || c == '\u{3000}'
}

/// Lines may be broken after spaces and, in `break-all`, anywhere.
fn boundary_of(before: Option<char>, c: char, break_all: bool) -> Boundary {
    match before {
        None => Boundary::Inside,
        Some('\r') if c == '\n' => Boundary::Inside,
        Some('\r' | '\n') => Boundary::Mandatory,
        Some(_) if is_space(c) || c == '\r' || c == '\n' || c == '\u{a0}' => Boundary::Inside,
        Some(b) if is_space(b) || (break_all && b != '\u{a0}') => Boundary::Line,
        Some(_) => Boundary::Inside,
    }
}

/// Shapes a prepared layout: one cluster for each character, and one run for
/// each stretch of one style and level between boxes.
fn shape_prepared(layout: &mut Layout<Fixed>, lcx: &mut LayoutContext<Fixed, u32>, text: &str) {
    let data = &mut layout.data;
    let mut before = None;
    for (i, (at, c)) in text.char_indices().enumerate() {
        let style_index = lcx.info[i].style_index;
        let style = &lcx.style_table[style_index as usize];
        let grapheme_start = !(before == Some('\r') && c == '\n');
        data.shaped_text.characters.push(Character {
            text: Span { start: at, end: at + c.len_utf8() },
            style_index,
            whitespace: whitespace_of(c),
            boundary: boundary_of(before, c, style.word_break == WordBreak::BreakAll),
            source_char: c,
            grapheme_start,
        });
        data.shaped_text.clusters.push(ShapedCluster {
            chars: Span { start: i, end: i + 1 },
            advance: advance_of(c),
            grapheme_start,
            has_inline_glyph: true,
            glyphs: Span { start: 0, end: 0 },
        });
        before = Some(c);
    }
    data.shaped_text.fonts.push(fontique::Synthesis::default());

    let count = data.shaped_text.characters.len();
    let mut start = 0;
    while start < count {
        let at = data.shaped_text.characters[start].text.start;
        let mut end = start + 1;
        while end < count && lcx.info[end] == lcx.info[start] {
            let next = data.shaped_text.characters[end].text.start;
            if lcx.inline_boxes.iter().any(|b| at < b.inline_box.index && b.inline_box.index <= next)
            {
                break;
            }
            end += 1;
        }
        data.shaped_text.runs.push(ShapedRun {
            text: Span { start: at, end: data.shaped_text.characters[end - 1].text.end },
            characters: Span { start, end },
            clusters: Span { start, end },
            bidi_level: lcx.info[start].bidi_level,
            font_index: 0,
            font_size: px(20),
            font_metrics: FontMetrics { ascent: px(16), descent: px(4), leading: px(0) },
        });
        start = end;
    }
    assert!(assemble_layout(layout, lcx));
    finish_layout(layout, lcx);
}

fn inline_box(id: u64, kind: InlineBoxKind, index: usize, width: i32, height: i32) -> InlineBox<Fixed> {
    InlineBox { id, kind, index, width: px(width), height: px(height), baseline: None }
}

fn built(builder: StyleRunBuilder<Fixed, u32>, text: &str) -> Layout<Fixed> {
    let (mut layout, mut lcx) = builder.build(text, root_style());
    shape_prepared(&mut layout, &mut lcx, text);
    layout
}

/// A paragraph in one style, with boxes of no height.
fn shape_styled(
    text: &str,
    style: ResolvedStyle<Fixed, u32>,
    direction: BaseDirection,
    boxes: &[(usize, InlineBoxKind, i32)],
) -> Layout<Fixed> {
    let mut builder = StyleRunBuilder::new(options(direction), text.len());
    let index = builder.push_style(style);
    builder.set_root_style(index);
    builder.push_style_run(index, all());
    for (id, &(at, kind, width)) in boxes.iter().enumerate() {
        builder.push_inline_box(inline_box(id as u64, kind, at, width, 0));
    }
    built(builder, text)
}

fn shape(
    text: &str,
    boxes: &[(usize, InlineBoxKind, i32)],
    direction: BaseDirection,
) -> Layout<Fixed> {
    shape_styled(text, root_style(), direction, boxes)
}

fn white_space_style(
    white_space_collapse: WhiteSpaceCollapse,
    text_wrap_mode: TextWrapMode,
) -> ResolvedStyle<Fixed, u32> {
    ResolvedStyle { white_space_collapse, text_wrap_mode, ..root_style() }
}

fn build_white_space_layout(
    text: &str,
    white_space_collapse: WhiteSpaceCollapse,
    text_wrap_mode: TextWrapMode,
) -> Layout<Fixed> {
    let style = white_space_style(white_space_collapse, text_wrap_mode);
    shape_styled(text, style, BaseDirection::Auto, &[])
}

fn break_all_lines(layout: Layout<Fixed>, max_advance: Option<Fixed>) -> Layout<Fixed> {
    layout.break_lines().break_remaining(max_advance.unwrap_or(Fixed::unbounded()))
}

fn widths(layout: &Layout<Fixed>) -> ContentWidths<Fixed> {
    layout.data.calculate_content_widths()
}

fn text_ranges(layout: &Layout<Fixed>) -> Vec<(usize, usize)> {
    layout.lines.iter().map(|l| (l.text_range.start, l.text_range.end)).collect()
}

fn line_advances(layout: &Layout<Fixed>) -> Vec<Fixed> {
    layout.lines.iter().map(|line| line.metrics.advance).collect()
}

fn items_of<'a>(layout: &'a Layout<Fixed>, line: &LineData<Fixed>) -> &'a [LineItemData<Fixed>] {
    &layout.line_items[line.item_range.start..line.item_range.end]
}

fn box_ids(layout: &Layout<Fixed>, line: usize) -> Vec<u64> {
    items_of(layout, &layout.lines[line])
        .iter()
        .filter(|item| item.kind == LayoutItemKind::InlineBox)
        .map(|item| layout.data.inline_boxes[item.index].id)
        .collect()
}

fn text_items(layout: &Layout<Fixed>, line: usize) -> Vec<LineItemData<Fixed>> {
    items_of(layout, &layout.lines[line]).iter().filter(|i| i.is_text_run()).copied().collect()
}

/// The start of each cluster's text and its place on its line.
fn cluster_offsets(layout: &Layout<Fixed>) -> Vec<(usize, Fixed)> {
    let mut offsets = Vec::new();
    for line in &layout.lines {
        let mut x = line.metrics.inline_min_coord;
        for item in items_of(layout, line) {
            if item.kind == LayoutItemKind::InlineBox {
                x = x.plus(item.advance);
                continue;
            }
            let range = item.shaped_cluster_range.start..item.shaped_cluster_range.end;
            let mut clusters: Vec<usize> = range.collect();
            if item.is_rtl() {
                clusters.reverse();
            }
            for cluster in clusters {
                let data = &layout.data.shaped_text.clusters[cluster];
                let text = layout.data.shaped_text.characters[data.chars.start].text;
                let removed = item.removed_text_range;
                offsets.push((text.start, x));
                if !(removed.start <= text.start && text.end <= removed.end) {
                    x = x.plus(data.advance);
                }
            }
        }
    }
    offsets
}

fn line_facts(layout: &Layout<Fixed>) -> Vec<String> {
    layout
        .lines
        .iter()
        .map(|l| format!("{:?} {:?} {:?}", l.text_range, l.break_reason, l.metrics))
        .collect()
}

fn assert_lines_match(reference: &Layout<Fixed>, actual: &Layout<Fixed>, context: &str) {
    assert_eq!(line_facts(reference), line_facts(actual), "{context}");
    assert_eq!(cluster_offsets(reference), cluster_offsets(actual), "{context}");
}

fn dump(layout: &Layout<Fixed>) -> String {
    let data = &layout.data;
    format!(
        "{:?}\n{:?}\n{:?}\n{:?}\n{:?}\n{:?}\n{:?} {:?} {:?} {} {} {}",
        layout.lines,
        layout.line_items,
        data.items,
        data.shaped_text.characters,
        data.shaped_text.clusters,
        data.shaped_text.runs,
        layout.width,
        layout.full_width,
        layout.height,
        data.base_level,
        data.text_len,
        data.inline_boxes.len(),
    )
}

// ---------------------------------------------------------------------------
// White space.

#[test]
fn style_runs_apply_white_space_collapse_to_intrinsic_sizes() {
    let measure = |mode| widths(&build_white_space_layout("x ", mode, TextWrapMode::Wrap));
    let collapse = measure(WhiteSpaceCollapse::Collapse);
    let preserve = measure(WhiteSpaceCollapse::Preserve);
    let break_spaces = measure(WhiteSpaceCollapse::BreakSpaces);

    assert_eq!(collapse.min, preserve.min);
    assert!(collapse.max.lt(preserve.max));
    assert!(preserve.min.lt(break_spaces.min));
    assert_eq!(break_spaces.max, preserve.max);
}

#[test]
fn break_spaces_breaks_after_each_preserved_space() {
    let layout = build_white_space_layout(
        "A   B",
        WhiteSpaceCollapse::BreakSpaces,
        TextWrapMode::Wrap,
    );
    let layout = break_all_lines(layout, Some(px(0)));
    assert_eq!(text_ranges(&layout), [(0, 2), (2, 3), (3, 4), (4, 5)]);
}

#[test]
fn white_space_semantics_follow_each_style_run() {
    let text = "A   B";
    let mut builder = StyleRunBuilder::new(options(BaseDirection::Auto), text.len());
    let collapse =
        builder.push_style(white_space_style(WhiteSpaceCollapse::Collapse, TextWrapMode::Wrap));
    let break_spaces =
        builder.push_style(white_space_style(WhiteSpaceCollapse::BreakSpaces, TextWrapMode::Wrap));
    builder.set_root_style(collapse);
    builder.push_style_run(collapse, bounds(0, 1));
    builder.push_style_run(break_spaces, bounds(1, 4));
    builder.push_style_run(collapse, bounds(4, 5));

    let layout = break_all_lines(built(builder, text), Some(px(0)));
    assert_eq!(text_ranges(&layout), [(0, 2), (2, 3), (3, 4), (4, 5)]);
}

fn push_box_at(
    builder: &mut StyleRunBuilder<Fixed, u32>,
    id: u64,
    kind: InlineBoxKind,
    index: usize,
    width: i32,
    style_after: Option<u16>,
) {
    let height = if kind == InlineBoxKind::InFlow { 20 } else { 0 };
    let inline_box = inline_box(id, kind, index, width, height);
    if let Some(style_after) = style_after {
        builder.push_inline_box_with_style_transition(inline_box, style_after);
    } else {
        builder.push_inline_box(inline_box);
    }
}

#[test]
fn break_spaces_opportunity_propagates_through_inline_end() {
    let text = "A  B";
    let mut builder = StyleRunBuilder::new(options(BaseDirection::Auto), text.len());
    let style =
        builder.push_style(white_space_style(WhiteSpaceCollapse::BreakSpaces, TextWrapMode::Wrap));
    builder.set_root_style(style);
    builder.push_style_run(style, all());
    push_box_at(&mut builder, 0, InlineBoxKind::StartBoundary, 0, 0, Some(style));
    push_box_at(&mut builder, 1, InlineBoxKind::EndBoundary, 2, 0, Some(style));

    let layout = break_all_lines(built(builder, text), Some(px(0)));
    assert_eq!(text_ranges(&layout), [(0, 2), (2, 3), (3, 4)]);
}

#[test]
fn preserved_trailing_space_hangs_only_when_wrapping_allows_it() {
    let measure =
        |text, mode, wrap, width| break_all_lines(build_white_space_layout(text, mode, wrap), width);
    let preserve = WhiteSpaceCollapse::Preserve;
    let text_width = measure("xx", preserve, TextWrapMode::Wrap, None).width;
    let full_width = measure("xx ", preserve, TextWrapMode::NoWrap, None).width;
    let constraint = text_width.plus(full_width).half();

    let wrap = measure("xx ", preserve, TextWrapMode::Wrap, Some(constraint));
    assert_eq!(wrap.lines.len(), 1);
    assert_eq!(wrap.width, constraint);

    let nowrap = measure("xx ", preserve, TextWrapMode::NoWrap, Some(constraint));
    assert_eq!(nowrap.lines.len(), 1);
    assert_eq!(nowrap.width, full_width);
    assert_eq!(nowrap.lines[0].metrics.trailing_whitespace, px(0));

    let collapsed = measure("xx ", WhiteSpaceCollapse::Collapse, TextWrapMode::Wrap, None);
    assert_eq!(collapsed.width, text_width);
}

#[test]
fn phase_two_removal_is_scoped_to_a_line_break() {
    let layout =
        build_white_space_layout("xx xx", WhiteSpaceCollapse::Collapse, TextWrapMode::Wrap);
    let ContentWidths { min, max } = widths(&layout);

    let layout = break_all_lines(layout, Some(min));
    assert_eq!(layout.lines.len(), 2);

    // A space that was removed at the first narrow line end is content at the
    // wider width.
    let layout = break_all_lines(layout, None);
    assert_eq!(layout.lines.len(), 1);
    assert_eq!(layout.full_width, max);
}

#[test]
fn phase_two_removed_space_does_not_offset_a_trailing_inline_edge() {
    let text = "xx xx";
    let mut builder = StyleRunBuilder::new(options(BaseDirection::Auto), text.len());
    let style =
        builder.push_style(white_space_style(WhiteSpaceCollapse::Collapse, TextWrapMode::Wrap));
    builder.set_root_style(style);
    builder.push_style_run(style, all());
    for (id, kind, index) in [
        (0, InlineBoxKind::StartBoundary, 0),
        (1, InlineBoxKind::EndBoundary, 3),
        (2, InlineBoxKind::StartBoundary, 3),
        (3, InlineBoxKind::EndBoundary, text.len()),
    ] {
        push_box_at(&mut builder, id, kind, index, 8, Some(style));
    }
    let layout = built(builder, text);
    let min_width = widths(&layout).min;
    let layout = break_all_lines(layout, Some(min_width));
    assert_eq!(layout.lines.len(), 2);

    let mut x = px(0);
    let mut end = None;
    for item in items_of(&layout, &layout.lines[0]) {
        if item.kind == LayoutItemKind::InlineBox && layout.data.inline_boxes[item.index].id == 1 {
            end = Some(x.plus(layout.data.inline_boxes[item.index].width));
        }
        x = x.plus(item.advance);
    }
    assert_eq!(end, Some(layout.lines[0].metrics.advance));
}

#[test]
fn no_break_space_is_visible_and_non_breaking_at_line_end() {
    let measure = |text, width| {
        let layout =
            build_white_space_layout(text, WhiteSpaceCollapse::Preserve, TextWrapMode::Wrap);
        break_all_lines(layout, width)
    };
    let text_width = measure("xx", None).width;
    let full_width = measure("xx\u{00a0}", None).width;
    assert!(text_width.lt(full_width));

    let constrained = measure("xx\u{00a0}", Some(text_width.plus(full_width).half()));
    assert_eq!(constrained.lines.len(), 1);
    assert_eq!(constrained.width, full_width);
    assert_eq!(constrained.lines[0].metrics.trailing_whitespace, px(0));
}

#[test]
fn collapsed_trailing_spaces_have_source_positions_but_no_advance_or_glyphs() {
    for direction in [BaseDirection::Ltr, BaseDirection::Rtl] {
        let style = white_space_style(WhiteSpaceCollapse::Collapse, TextWrapMode::Wrap);
        let layout = shape_styled("WW WW", style, direction, &[]);
        let reference = widths(&shape("WW", &[], direction)).max;
        assert_eq!(reference, px(36));
        let layout = break_all_lines(layout, Some(reference.plus(px(10))));
        assert_eq!(text_ranges(&layout), [(0, 3), (3, 5)]);
        let line = &layout.lines[0];
        assert_eq!(line.metrics.advance, reference);
        assert_eq!(line.metrics.trailing_whitespace, px(0));
        let removed = text_items(&layout, 0)
            .iter()
            .map(|item| item.removed_text_range)
            .find(|range| !range.is_empty());
        assert_eq!(removed, Some(Span { start: 2, end: 3 }));
        // The shaped text is not changed.
        assert_eq!(layout.data.shaped_text.clusters[2].advance, px(5));
    }
}

#[test]
fn ideographic_space_hangs_at_every_break() {
    let layout = shape("WW\u{3000}", &[], BaseDirection::Ltr);
    let layout = break_all_lines(layout, Some(px(200)));
    assert_eq!(layout.lines[0].metrics.advance, px(56));
    assert_eq!(layout.lines[0].metrics.trailing_whitespace, px(20));
    assert_eq!(layout.width, px(36));
    assert_eq!(layout.full_width, px(56));
}

#[test]
fn justification_counts_only_non_hanging_spaces() {
    let build = |text| {
        build_white_space_layout(text, WhiteSpaceCollapse::Preserve, TextWrapMode::Wrap)
    };
    let visible_width = break_all_lines(build("aa aa"), None).width;
    let full = break_all_lines(build("aa aa   "), None);
    let space_width = full.full_width.minus(visible_width).steps / 3;
    let limit = visible_width.plus(Fixed { steps: space_width + space_width / 2 });

    let layout = break_all_lines(build("aa aa   aa"), Some(limit));
    assert_eq!(layout.lines.len(), 2);
    assert_eq!(layout.lines[0].break_reason, BreakReason::Regular);
    assert_eq!(layout.lines[0].num_spaces, 1);
}

/// The place of a character on its line, and its advance there.
fn placed(layout: &Layout<Fixed>, at: usize) -> (usize, Fixed) {
    for (line, _) in layout.lines.iter().enumerate() {
        for item in text_items(layout, line) {
            if item.text_range.start <= at && at < item.text_range.end {
                let removed = item.removed_text_range;
                if removed.start <= at && at < removed.end {
                    return (line, px(0));
                }
                let shaped = &layout.data.shaped_text;
                let cluster = shaped
                    .clusters
                    .iter()
                    .find(|cluster| shaped.characters[cluster.chars.start].text.start == at);
                return (line, cluster.unwrap().advance);
            }
        }
    }
    panic!("no line holds the character at {at}");
}

fn collapsed_layout(
    text: &str,
    direction: BaseDirection,
    boxes: &[(usize, InlineBoxKind, i32)],
) -> Layout<Fixed> {
    let style = white_space_style(WhiteSpaceCollapse::Collapse, TextWrapMode::Wrap);
    shape_styled(text, style, direction, boxes)
}

#[test]
fn collapsed_line_edges_are_local_to_each_width_probe() {
    let layout = collapsed_layout("WW WW", BaseDirection::Ltr, &[]);
    let original = format!("{:?}", layout.data.shaped_text.clusters);
    let natural = widths(&layout).max;
    let layout = break_all_lines(layout, Some(Fixed { steps: natural.steps * 6 / 10 }));
    assert_eq!(placed(&layout, 2), (0, px(0)));
    let layout = break_all_lines(layout, Some(natural.plus(natural)));
    assert_eq!(layout.lines[0].metrics.advance, natural);
    assert!(px(0).lt(placed(&layout, 2).1));
    assert_eq!(format!("{:?}", layout.data.shaped_text.clusters), original);
}

#[test]
fn inline_boundaries_and_positioned_boxes_do_not_stop_trimming() {
    let layout = collapsed_layout(
        "WW \nWW",
        BaseDirection::Ltr,
        &[
            (3, InlineBoxKind::StartBoundary, 0),
            (3, InlineBoxKind::OutOfFlow, 0),
            (6, InlineBoxKind::EndBoundary, 0),
        ],
    );
    let reference = widths(&shape("WW", &[], BaseDirection::Ltr)).max;
    let layout = break_all_lines(layout, Some(px(200)));
    assert_eq!(layout.lines[0].metrics.advance, reference);
    let mut x = px(0);
    for item in items_of(&layout, &layout.lines[0]) {
        if item.kind == LayoutItemKind::InlineBox {
            assert_eq!(x, reference);
        }
        x = x.plus(item.advance);
    }
}

#[test]
fn preserved_spaces_and_no_break_spaces_keep_their_geometry() {
    for (text, mode) in [
        ("WW ", WhiteSpaceCollapse::Preserve),
        ("WW\u{a0}", WhiteSpaceCollapse::Collapse),
    ] {
        let style = white_space_style(mode, TextWrapMode::Wrap);
        let layout = shape_styled(text, style, BaseDirection::Ltr, &[]);
        let layout = break_all_lines(layout, Some(px(200)));
        assert_eq!(layout.lines[0].metrics.advance, px(18 + 18 + 5));
        assert!(px(0).lt(placed(&layout, 2).1));
    }
}

#[test]
fn checkpoints_preserve_the_split_line_views() {
    let word = widths(&collapsed_layout("WW", BaseDirection::Ltr, &[])).max;
    let mut breaker = collapsed_layout("WW WW WW", BaseDirection::Rtl, &[]).break_lines();
    breaker.state_mut().set_layout_max_advance(px(200));
    breaker.state_mut().set_line_max_advance(word.plus(px(10)));
    assert!(matches!(breaker.break_next(), Some(YieldData::LineBreak(_))));
    let first_line = breaker.state().clone();
    assert!(matches!(breaker.break_next(), Some(YieldData::LineBreak(_))));
    breaker.revert_to(first_line);
    breaker.state_mut().set_line_max_advance(px(200));
    while breaker.break_next().is_some() {}
    let layout = breaker.into_layout();
    assert_eq!(layout.lines.len(), 2);
    assert_eq!(text_ranges(&layout), [(0, 3), (3, 8)]);
    assert_eq!(placed(&layout, 2), (0, px(0)));
    assert_eq!(placed(&layout, 5), (1, px(5)));
}

#[test]
fn preserved_style_ranges_stop_line_edge_collapse() {
    let text = "  WW  ";
    let mut builder = StyleRunBuilder::new(options(BaseDirection::Ltr), text.len());
    let collapse =
        builder.push_style(white_space_style(WhiteSpaceCollapse::Collapse, TextWrapMode::Wrap));
    let preserve =
        builder.push_style(white_space_style(WhiteSpaceCollapse::Preserve, TextWrapMode::Wrap));
    builder.set_root_style(collapse);
    builder.push_style_run(preserve, bounds(0, 1));
    builder.push_style_run(collapse, bounds(1, 5));
    builder.push_style_run(preserve, bounds(5, 6));
    let layout = break_all_lines(built(builder, text), Some(px(200)));
    assert_eq!(layout.lines[0].metrics.advance, px(4 * 5 + 2 * 18));
    for index in [0, 1, 4, 5] {
        assert_eq!(placed(&layout, index), (0, px(5)));
    }
}

// ---------------------------------------------------------------------------
// Forced breaks.

fn broken_style() -> ResolvedStyle<Fixed, u32> {
    ResolvedStyle {
        word_break: WordBreak::BreakAll,
        overflow_wrap: OverflowWrap::Anywhere,
        ..root_style()
    }
}

#[test]
fn builders_crlf_counts_as_single_line_break() {
    let line_count = |text: &str| -> usize {
        let layout = shape_styled(text, broken_style(), BaseDirection::Auto, &[]);
        break_all_lines(layout, None).lines.len()
    };
    let crlf = line_count("a\r\nb");
    let lf = line_count("a\nb");
    let cr = line_count("a\rb");
    assert_eq!(crlf, 2, "CRLF should produce exactly two lines");
    assert_eq!(lf, 2, "LF should produce exactly two lines");
    assert_eq!(crlf, lf, "CRLF should match LF line count");
    assert_eq!(crlf, cr, "CRLF, LF, and CR should match line count");

    let double_crlf = line_count("a\r\n\r\nb");
    let double_lf = line_count("a\n\nb");
    assert_eq!(double_crlf, 3, "two CRLF breaks should produce one blank line, not extra blanks");
    assert_eq!(double_crlf, double_lf, "two CRLF breaks should match two LF breaks");

    let trailing_cr = line_count("a\r");
    let trailing_lf = line_count("a\n");
    assert_eq!(trailing_cr, trailing_lf, "trailing CR should match trailing LF line count");
}

#[test]
fn builders_crlf_across_run_boundary_counts_as_single_line_break() {
    let styled_line_count = |text: &str, start: usize, end: usize| -> usize {
        let mut builder = StyleRunBuilder::new(options(BaseDirection::Auto), text.len());
        let root = builder.push_style(broken_style());
        let large = builder.push_style(ResolvedStyle { font_size: px(40), ..broken_style() });
        builder.push_style_run(root, bounds(0, start));
        builder.push_style_run(large, bounds(start, end));
        builder.push_style_run(root, bounds(end, text.len()));
        break_all_lines(built(builder, text), None).lines.len()
    };
    // The style change starts at the line feed.
    let split_crlf = styled_line_count("a\r\nb", 2, 3);
    let split_lf = styled_line_count("a\nb", 2, 3);
    assert_eq!(
        split_crlf, 2,
        "a style boundary at the LF must not turn CRLF into two hard breaks"
    );
    assert_eq!(split_crlf, split_lf, "styled CRLF should match styled LF line count");
}

#[test]
fn forced_breaks_end_lines_in_unlimited_layouts() {
    let layout = break_all_lines(shape("WW WW\nWW", &[], BaseDirection::Ltr), None);
    let reasons: Vec<_> = layout.lines.iter().map(|line| line.break_reason).collect();
    assert_eq!(reasons, [BreakReason::Explicit, BreakReason::NoBreak]);
    assert_eq!(text_ranges(&layout), [(0, 6), (6, 8)]);
    assert_eq!(layout.height, px(48));
}

// ---------------------------------------------------------------------------
// Inline edges.

#[test]
fn inline_style_boundaries_group_nested_nowrap_boxes() {
    let text = "";
    let mut builder = StyleRunBuilder::new(options(BaseDirection::Auto), text.len());
    let wrap = builder.push_style(root_style());
    let nowrap =
        builder.push_style(ResolvedStyle { text_wrap_mode: TextWrapMode::NoWrap, ..root_style() });
    builder.set_root_style(wrap);
    builder.push_style_run(wrap, all());
    push_box_at(&mut builder, 0, InlineBoxKind::StartBoundary, 0, 8, Some(nowrap));
    for id in 1..=2 {
        push_box_at(&mut builder, id, InlineBoxKind::InFlow, 0, 64, None);
    }
    push_box_at(&mut builder, 3, InlineBoxKind::EndBoundary, 0, 8, Some(wrap));
    push_box_at(&mut builder, 4, InlineBoxKind::InFlow, 0, 64, None);

    let layout = built(builder, text);
    assert_eq!(widths(&layout).min, px(144));
    assert_eq!(widths(&layout).max, px(208));

    let layout = break_all_lines(layout, Some(px(100)));
    assert_eq!(line_advances(&layout), [px(144), px(64)]);
}

#[test]
fn inline_style_boundaries_keep_atomic_decorations_together() {
    let text = "";
    let mut builder = StyleRunBuilder::new(options(BaseDirection::Auto), text.len());
    let wrap = builder.push_style(root_style());
    builder.set_root_style(wrap);
    builder.push_style_run(wrap, all());
    push_box_at(&mut builder, 0, InlineBoxKind::StartBoundary, 0, 8, Some(wrap));
    push_box_at(&mut builder, 1, InlineBoxKind::InFlow, 0, 64, None);
    push_box_at(&mut builder, 2, InlineBoxKind::EndBoundary, 0, 8, Some(wrap));
    push_box_at(&mut builder, 3, InlineBoxKind::InFlow, 0, 64, None);

    let layout = built(builder, text);
    assert_eq!(widths(&layout).min, px(80));
    assert_eq!(widths(&layout).max, px(144));

    let layout = break_all_lines(layout, Some(px(64)));
    assert_eq!(line_advances(&layout), [px(80), px(64)]);
}

#[test]
fn inline_style_boundaries_restore_parent_style() {
    let text = "";
    let mut builder = StyleRunBuilder::new(options(BaseDirection::Auto), text.len());
    let nowrap =
        builder.push_style(ResolvedStyle { text_wrap_mode: TextWrapMode::NoWrap, ..root_style() });
    let wrap = builder.push_style(root_style());
    builder.set_root_style(nowrap);
    builder.push_style_run(nowrap, all());
    push_box_at(&mut builder, 0, InlineBoxKind::StartBoundary, 0, 0, Some(wrap));
    for id in 1..=2 {
        push_box_at(&mut builder, id, InlineBoxKind::InFlow, 0, 64, None);
    }
    push_box_at(&mut builder, 3, InlineBoxKind::EndBoundary, 0, 0, Some(nowrap));
    push_box_at(&mut builder, 4, InlineBoxKind::InFlow, 0, 64, None);

    let layout = built(builder, text);
    assert_eq!(widths(&layout).min, px(64));
    assert_eq!(widths(&layout).max, px(192));

    let layout = break_all_lines(layout, Some(px(64)));
    assert_eq!(line_advances(&layout), [px(64), px(64), px(64)]);
}

#[test]
fn inline_start_moves_with_content_past_hanging_whitespace() {
    let text = "x x";
    let mut builder = StyleRunBuilder::new(options(BaseDirection::Auto), text.len());
    let style =
        builder.push_style(white_space_style(WhiteSpaceCollapse::Collapse, TextWrapMode::Wrap));
    builder.set_root_style(style);
    builder.push_style_run(style, all());
    for (id, kind, index) in [
        (0, InlineBoxKind::StartBoundary, 0),
        (1, InlineBoxKind::EndBoundary, 1),
        (2, InlineBoxKind::StartBoundary, 1),
        (3, InlineBoxKind::EndBoundary, 3),
    ] {
        push_box_at(&mut builder, id, kind, index, 8, None);
    }

    let layout = built(builder, text);
    let line_width = widths(&layout).min;
    let layout = break_all_lines(layout, Some(line_width));
    assert_eq!(layout.lines.len(), 2);
    assert_eq!(box_ids(&layout, 0), [0, 1]);
    assert_eq!(box_ids(&layout, 1), [2, 3]);
    assert_eq!(text_ranges(&layout), [(0, 1), (2, 3)]);
    let advances = line_advances(&layout);
    assert_eq!(advances[0], advances[1]);
}

#[test]
fn boundaries_do_not_split_unbreakable_words() {
    let text = "WWWWWW";
    for direction in [BaseDirection::Ltr, BaseDirection::Rtl] {
        for (start, end) in [(0, 6), (1, 4), (2, 2)] {
            for width in [0, 1, 40, 200] {
                let reference = shape(text, &[], direction);
                let actual = shape(
                    text,
                    &[
                        (start, InlineBoxKind::StartBoundary, 0),
                        (end, InlineBoxKind::EndBoundary, 0),
                    ],
                    direction,
                );
                assert_eq!(widths(&actual).min, widths(&reference).min);
                assert_eq!(widths(&actual).max, widths(&reference).max);
                let reference = break_all_lines(reference, Some(px(width)));
                let actual = break_all_lines(actual, Some(px(width)));
                let lines = |layout: &Layout<Fixed>| {
                    layout
                        .lines
                        .iter()
                        .map(|line| format!("{:?} {:?}", line.text_range, line.metrics))
                        .collect::<Vec<_>>()
                };
                assert_eq!(
                    lines(&actual),
                    lines(&reference),
                    "{direction:?}, {start}..{end}, width {width}"
                );
            }
        }
    }
}

#[test]
fn opening_edges_stay_with_following_text() {
    let layout = shape(
        "WW WW",
        &[(3, InlineBoxKind::StartBoundary, 20), (5, InlineBoxKind::EndBoundary, 0)],
        BaseDirection::Ltr,
    );
    let layout = break_all_lines(layout, Some(px(85)));
    assert_eq!(layout.lines.len(), 2);
    assert_eq!(text_ranges(&layout), [(0, 3), (3, 5)]);
    assert!(box_ids(&layout, 0).is_empty());
    assert_eq!(box_ids(&layout, 1).len(), 2);
}

#[test]
fn closing_edge_overflow_rewinds_the_attached_word() {
    let layout = shape(
        "WW WW",
        &[(3, InlineBoxKind::StartBoundary, 0), (5, InlineBoxKind::EndBoundary, 20)],
        BaseDirection::Ltr,
    );
    let layout = break_all_lines(layout, Some(px(85)));
    assert_eq!(layout.lines.len(), 2);
    assert_eq!(text_ranges(&layout), [(0, 3), (3, 5)]);
    assert_eq!(box_ids(&layout, 1).len(), 2);
}

#[test]
fn intrinsic_widths_include_edges_in_their_unbreakable_segment() {
    let text = widths(&shape("WW", &[], BaseDirection::Ltr));
    let actual = widths(&shape(
        "WW WW",
        &[(3, InlineBoxKind::StartBoundary, 10), (5, InlineBoxKind::EndBoundary, 20)],
        BaseDirection::Ltr,
    ));
    assert_eq!(actual.min, text.min.plus(px(30)));
    let reference = widths(&shape("WW WW", &[], BaseDirection::Ltr));
    assert_eq!(actual.max, reference.max.plus(px(30)));
}

#[test]
fn negative_edges_reduce_intrinsic_and_final_advances() {
    let text = "WWWW";
    let reference = widths(&shape(text, &[], BaseDirection::Ltr));
    for (start, end) in [(20, -40), (-20, 0), (0, -20)] {
        let actual = shape(
            text,
            &[
                (0, InlineBoxKind::StartBoundary, start),
                (text.len(), InlineBoxKind::EndBoundary, end),
            ],
            BaseDirection::Ltr,
        );
        assert_eq!(widths(&actual).min, reference.min.minus(px(20)));
        assert_eq!(widths(&actual).max, reference.max.minus(px(20)));
        let actual = break_all_lines(actual, Some(px(1)));
        assert_eq!(actual.lines.len(), 1);
        assert_eq!(actual.lines[0].metrics.advance, reference.max.minus(px(20)));
    }
}

#[test]
fn boundary_edges_wrap_with_atomic_contents() {
    let layout = shape(
        "WW ",
        &[
            (3, InlineBoxKind::StartBoundary, 10),
            (3, InlineBoxKind::InFlow, 50),
            (3, InlineBoxKind::EndBoundary, 10),
        ],
        BaseDirection::Ltr,
    );
    let layout = break_all_lines(layout, Some(px(85)));
    assert_eq!(layout.lines.len(), 2);
    assert!(box_ids(&layout, 0).is_empty());
    assert_eq!(box_ids(&layout, 1), [0, 1, 2]);
}

#[test]
fn collapsed_text_retains_its_place_between_opening_and_positioned_items() {
    for direction in [BaseDirection::Ltr, BaseDirection::Rtl] {
        for text in ["WW WW", "WWWW"] {
            let index = if text.contains(' ') { 3 } else { 2 };
            let layout = shape(
                text,
                &[
                    (index, InlineBoxKind::StartBoundary, 0),
                    (index, InlineBoxKind::TextBoundary, 0),
                    (index, InlineBoxKind::OutOfFlow, 0),
                    (text.len(), InlineBoxKind::EndBoundary, 0),
                ],
                direction,
            );
            let reference = shape(text, &[], direction);
            assert_eq!(widths(&layout).min, widths(&reference).min);
            assert_eq!(widths(&layout).max, widths(&reference).max);
            let layout = break_all_lines(layout, Some(px(60)));
            let reference = break_all_lines(reference, Some(px(60)));
            assert_eq!(layout.lines.len(), reference.lines.len());
            assert_eq!(text_ranges(&layout)[0], text_ranges(&reference)[0]);
            let first_line_boxes = box_ids(&layout, 0);
            for id in [0, 1, 2] {
                assert!(
                    first_line_boxes.contains(&id),
                    "{direction:?}: {text:?}, {first_line_boxes:?}"
                );
            }
        }
    }
}

#[test]
fn closing_edge_overflow_does_not_enable_disabled_wrapping() {
    let mut layout = shape(
        "WW WW",
        &[
            (0, InlineBoxKind::StartBoundary, 0),
            (3, InlineBoxKind::InFlow, 10),
            (5, InlineBoxKind::EndBoundary, 20),
        ],
        BaseDirection::Ltr,
    );
    for style in &mut layout.data.styles {
        style.text_wrap_mode = TextWrapMode::NoWrap;
    }
    let ContentWidths { min, max } = widths(&layout);
    assert_eq!(min, max);
    let layout = break_all_lines(layout, Some(px(100)));
    assert_eq!(layout.lines.len(), 1);
    assert_eq!(layout.lines[0].metrics.advance, max);
}

// ---------------------------------------------------------------------------
// Boxes out of flow.

fn shape_at(
    text: &str,
    indices: &[usize],
    kind: InlineBoxKind,
    direction: BaseDirection,
) -> Layout<Fixed> {
    let mut builder = StyleRunBuilder::new(options(direction), text.len());
    let style = builder.push_style(root_style());
    builder.push_style_run(style, all());
    for (id, index) in indices.iter().copied().enumerate() {
        builder.push_inline_box(inline_box(id as u64, kind, index, 9999, 9999));
    }
    built(builder, text)
}

#[test]
fn placeholders_do_not_break_unbreakable_text_or_overflowing_lines() {
    let text = "WWWWWW";
    for direction in [BaseDirection::Ltr, BaseDirection::Rtl] {
        for width in [0, 1, 50, 200] {
            let reference = shape_at(text, &[], InlineBoxKind::OutOfFlow, direction);
            let reference = break_all_lines(reference, Some(px(width)));
            for index in 0..=text.len() {
                let actual = shape_at(text, &[index], InlineBoxKind::OutOfFlow, direction);
                let actual = break_all_lines(actual, Some(px(width)));
                assert_lines_match(
                    &reference,
                    &actual,
                    &format!("{index} {width} {direction:?}"),
                );
                let boxes: usize =
                    (0..actual.lines.len()).map(|line| box_ids(&actual, line).len()).sum();
                assert_eq!(boxes, 1, "the placeholder must survive layout");
            }
        }
    }
}

#[test]
fn placeholders_preserve_real_break_opportunities_and_alignment() {
    for direction in [BaseDirection::Ltr, BaseDirection::Rtl] {
        for text in ["WW WW WW", "WW WW  ", "WW\nWW", "WW\n"] {
            for width in [30, 70, 200] {
                let reference = shape_at(text, &[], InlineBoxKind::OutOfFlow, direction);
                let reference = break_all_lines(reference, Some(px(width)));
                for index in 0..=text.len() {
                    let actual = shape_at(text, &[index], InlineBoxKind::OutOfFlow, direction);
                    let actual = break_all_lines(actual, Some(px(width)));
                    assert_lines_match(
                        &reference,
                        &actual,
                        &format!("{text:?} {index} {width} {direction:?}"),
                    );
                }
            }
        }
    }
}

#[test]
fn placeholder_content_widths_preserve_adjacent_whitespace() {
    for direction in [BaseDirection::Ltr, BaseDirection::Rtl] {
        for text in ["WW ", "WW   ", "WW WW ", "WW \nWW", "WW \n"] {
            let reference = widths(&shape_at(text, &[], InlineBoxKind::OutOfFlow, direction));
            for kind in [InlineBoxKind::OutOfFlow, InlineBoxKind::CustomOutOfFlow] {
                for index in 0..=text.len() {
                    let actual = widths(&shape_at(text, &[index], kind, direction));
                    assert_eq!(actual.min, reference.min, "{kind:?} at {index} in {text:?}");
                    assert_eq!(actual.max, reference.max, "{kind:?} at {index} in {text:?}");
                }
            }
        }
    }
}

#[test]
fn placeholder_items_do_not_contribute_advance_to_cluster_geometry() {
    let text = "WW WW";
    let reference = shape_at(text, &[], InlineBoxKind::OutOfFlow, BaseDirection::Ltr);
    let reference = break_all_lines(reference, None);
    for index in 0..=text.len() {
        let actual = shape_at(text, &[index], InlineBoxKind::OutOfFlow, BaseDirection::Ltr);
        let actual = break_all_lines(actual, None);
        assert_eq!(
            cluster_offsets(&reference),
            cluster_offsets(&actual),
            "placeholder at {index}"
        );
    }
}

#[test]
fn trailing_whitespace_crosses_multiple_placeholder_items() {
    let text = "WW   ";
    let reference = shape_at(text, &[], InlineBoxKind::OutOfFlow, BaseDirection::Ltr);
    let actual = shape_at(text, &[3, 4, 5], InlineBoxKind::OutOfFlow, BaseDirection::Ltr);
    let reference = break_all_lines(reference, Some(px(200)));
    let actual = break_all_lines(actual, Some(px(200)));
    assert_lines_match(&reference, &actual, text);
}

#[test]
fn empty_line_after_newline_does_not_inherit_previous_advance() {
    for indices in [&[][..], &[3][..], &[3, 3][..]] {
        let layout = shape_at("WW\n", indices, InlineBoxKind::OutOfFlow, BaseDirection::Ltr);
        let layout = break_all_lines(layout, Some(px(100)));
        let lines = &layout.lines;
        assert_eq!(lines.len(), 2);
        assert_eq!(text_ranges(&layout)[1], (3, 3));
        assert_eq!(lines[1].metrics.advance, px(0));
        assert_eq!(lines[1].metrics.trailing_whitespace, px(0));
        assert_eq!(lines[1].metrics.line_height, lines[0].metrics.line_height);
        let ascent = |line: &LineData<Fixed>| {
            line.metrics.baseline.minus(line.metrics.content_block_min_coord)
        };
        assert_eq!(ascent(&lines[1]), ascent(&lines[0]));
    }
}

#[test]
fn custom_placeholders_yield_without_changing_wrapping_or_alignment() {
    let text = "WW WW   ";
    let reference = shape_at(text, &[], InlineBoxKind::OutOfFlow, BaseDirection::Ltr);
    let reference = break_all_lines(reference, Some(px(30)));
    for index in 0..=text.len() {
        let actual = shape_at(text, &[index], InlineBoxKind::CustomOutOfFlow, BaseDirection::Ltr);
        let mut breaker = actual.break_lines();
        breaker.state_mut().set_layout_max_advance(px(30));
        breaker.state_mut().set_line_max_advance(px(30));
        let mut yields = 0;
        while let Some(data) = breaker.break_next() {
            if let YieldData::InlineBoxBreak(data) = data {
                yields += 1;
                assert_eq!(data.inline_box_id, 0);
                breaker.state_mut().append_inline_box_to_line(data.advance, px(0), px(0), false);
            }
        }
        let actual = breaker.finish();
        assert_eq!(yields, 1);
        assert_lines_match(&reference, &actual, &format!("{index}"));
    }
}

#[test]
fn in_flow_boxes_still_contribute_size_and_break_opportunities() {
    let layout = shape_at("WWWW", &[2], InlineBoxKind::InFlow, BaseDirection::Ltr);
    assert!(px(9999).le(widths(&layout).min));
    let layout = break_all_lines(layout, Some(px(40)));
    assert_eq!(layout.lines.len(), 3);
    let metrics = &layout.lines[1].metrics;
    assert_eq!(metrics.advance, px(9999));
    assert_eq!(metrics.baseline.minus(metrics.content_block_min_coord), px(9999));
}

#[test]
fn wrapped_rtl_lines_reset_only_their_trailing_whitespace_direction() {
    let layout = shape_at("WW WW", &[], InlineBoxKind::OutOfFlow, BaseDirection::Rtl);
    let layout = break_all_lines(layout, Some(px(50)));
    let runs = text_items(&layout, 0);
    assert_eq!(runs.len(), 2);
    assert_eq!(runs[0].text_range, Span { start: 2, end: 3 });
    assert!(runs[0].is_rtl(), "line-end space follows the RTL paragraph");
    assert_eq!(runs[1].text_range, Span { start: 0, end: 2 });
    assert!(!runs[1].is_rtl(), "Latin glyphs retain their shaping direction");
    assert_eq!(layout.lines[0].metrics.trailing_whitespace, runs[0].advance);

    let rtl = shape_at(
        "\u{645}\u{631}\u{62d}\u{628}\u{627} \u{645}\u{631}\u{62d}\u{628}\u{627}",
        &[],
        InlineBoxKind::OutOfFlow,
        BaseDirection::Rtl,
    );
    let rtl = break_all_lines(rtl, Some(px(1)));
    let mut space = px(0);
    for item in text_items(&rtl, 0) {
        for cluster in item.shaped_cluster_range.start..item.shaped_cluster_range.end {
            if rtl.data.shaped_text.first_character(cluster).source_char == ' ' {
                space = space.plus(rtl.data.shaped_text.clusters[cluster].advance);
            }
        }
    }
    assert!(px(0).lt(space));
    assert_eq!(rtl.lines[0].metrics.trailing_whitespace, space);
}

#[test]
fn lines_hold_all_text() {
    let text = "WW WW  WWWW\nWW \u{645}\u{631} WW";
    for direction in [BaseDirection::Ltr, BaseDirection::Rtl] {
        for width in [1, 25, 50, 70, 120, 1000] {
            let layout = shape_at(text, &[1, 5, 12], InlineBoxKind::InFlow, direction);
            let layout = break_all_lines(layout, Some(px(width)));
            let mut next = 0;
            for line in 0..layout.lines.len() {
                let mut items = text_items(&layout, line);
                items.sort_by_key(|item| item.shaped_cluster_range.start);
                for item in items {
                    assert_eq!(item.shaped_cluster_range.start, next);
                    next = item.shaped_cluster_range.end;
                }
            }
            assert_eq!(next, layout.data.shaped_text.clusters.len());
            assert_eq!(next, 20);
        }
    }
}

#[test]
fn breaker_checkpoint_retains_line_local_bidi_splits() {
    let text = "WW WW WW";
    let reference = shape_at(text, &[], InlineBoxKind::OutOfFlow, BaseDirection::Rtl);
    let reference = break_all_lines(reference, Some(px(50)));
    let actual = shape_at(text, &[], InlineBoxKind::OutOfFlow, BaseDirection::Rtl);
    let mut breaker = actual.break_lines();
    breaker.state_mut().set_layout_max_advance(px(50));
    breaker.state_mut().set_line_max_advance(px(50));
    assert!(matches!(breaker.break_next(), Some(YieldData::LineBreak(_))));
    let checkpoint = breaker.state().clone();
    assert!(matches!(breaker.break_next(), Some(YieldData::LineBreak(_))));
    breaker.revert_to(checkpoint);
    let actual = breaker.break_remaining(px(50));
    assert_lines_match(&reference, &actual, text);
}

// ---------------------------------------------------------------------------
// Driving the breaker.

#[test]
fn reverting_undoes_a_line() {
    let mut breaker = shape("WW WW WW", &[], BaseDirection::Rtl).break_lines();
    breaker.state_mut().set_layout_max_advance(px(200));
    breaker.state_mut().set_line_max_advance(px(50));
    assert!(!breaker.revert());
    assert!(breaker.break_next().is_some());
    let lines = format!("{:?}", breaker.lines);
    let items = format!("{:?}", breaker.line_items);
    let state = format!("{:?}", breaker.state());
    assert!(breaker.break_next().is_some());
    assert!(breaker.revert());
    assert!(!breaker.revert());
    assert_eq!(format!("{:?}", breaker.lines), lines);
    assert_eq!(format!("{:?}", breaker.line_items), items);
    assert_eq!(format!("{:?}", breaker.state()), state);

    breaker.state_mut().set_line_max_advance(px(200));
    while breaker.break_next().is_some() {}
    assert!(breaker.is_done());
    let layout = breaker.finish();
    assert_eq!(text_ranges(&layout), [(0, 3), (3, 8)]);
}

#[test]
fn reverting_undoes_a_line_of_characters() {
    let mut breaker = shape("WW WW WW", &[], BaseDirection::Ltr).break_lines();
    breaker.state_mut().set_layout_max_advance(px(200));
    breaker.state_mut().set_line_max_advance(px(50));
    let start = format!("{:?}", breaker.state());
    assert_eq!(breaker.break_next_with_length(4), Some(()));
    let lines = format!("{:?}", breaker.lines);
    assert!(breaker.revert());
    assert!(breaker.lines.is_empty());
    assert!(!breaker.is_done());
    assert_eq!(format!("{:?}", breaker.state()), start);
    assert!(!breaker.revert());
    assert!(breaker.lines.is_empty());
    assert_eq!(breaker.break_next_with_length(4), Some(()));
    assert_eq!(format!("{:?}", breaker.lines), lines);
    assert!(breaker.revert());

    // One line at a time is taken back, however it was broken.
    assert!(breaker.break_next().is_some());
    assert_eq!(breaker.break_next_with_length(4), Some(()));
    assert_eq!(breaker.lines.len(), 2);
    assert!(breaker.revert());
    assert_eq!(breaker.lines.len(), 1);
    assert_eq!(breaker.break_next_with_length(100), Some(()));
    assert!(breaker.is_done());
    assert!(breaker.revert());
    assert!(!breaker.is_done());
    assert_eq!(breaker.break_next_with_length(100), Some(()));
    let layout = breaker.finish();
    assert_eq!(text_ranges(&layout), [(0, 3), (3, 8)]);
}

#[test]
fn lines_can_be_broken_one_after_the_other() {
    let mut breaker = shape("WW WW WW", &[], BaseDirection::Ltr).break_lines();
    breaker.state_mut().set_layout_max_advance(px(50));
    breaker.state_mut().set_line_max_advance(px(50));
    while breaker.break_next().is_some() {
        assert_eq!(breaker.state().layout_max_advance(), px(50));
        assert_eq!(breaker.state().line_max_advance(), px(50));
    }
    assert_eq!(text_ranges(&breaker.finish()), [(0, 3), (3, 6), (6, 8)]);
}

#[test]
fn lines_of_characters_hold_all_text() {
    for count in 1..10 {
        let boxes = [
            (2, InlineBoxKind::StartBoundary, 5),
            (3, InlineBoxKind::InFlow, 5),
            (5, InlineBoxKind::EndBoundary, 5),
        ];
        let mut breaker = shape("WW  WW\nWW", &boxes, BaseDirection::Ltr).break_lines();
        while breaker.break_next_with_length(count).is_some() {}
        let layout = breaker.finish();
        let mut next = 0;
        for line in 0..layout.lines.len() {
            for item in text_items(&layout, line) {
                assert_eq!(item.shaped_cluster_range.start, next);
                next = item.shaped_cluster_range.end;
            }
        }
        assert_eq!(next, 9);
    }
}

#[test]
fn every_box_is_on_one_line() {
    let boxes = [
        (0, InlineBoxKind::OutOfFlow, 0),
        (1, InlineBoxKind::InFlow, 20),
        (3, InlineBoxKind::StartBoundary, 4),
        (5, InlineBoxKind::EndBoundary, 4),
        (5, InlineBoxKind::InFlow, 30),
        (8, InlineBoxKind::OutOfFlow, 0),
    ];
    for width in [1, 25, 50, 70, 120, 1000] {
        let layout = shape("WW WW WW", &boxes, BaseDirection::Ltr);
        let layout = break_all_lines(layout, Some(px(width)));
        let ids: Vec<_> = (0..layout.lines.len()).flat_map(|i| box_ids(&layout, i)).collect();
        assert_eq!(ids, [0, 1, 2, 3, 4, 5]);
    }
    for count in 1..10 {
        let mut breaker = shape("WW WW WW", &boxes, BaseDirection::Ltr).break_lines();
        while breaker.break_next_with_length(count).is_some() {}
        let layout = breaker.finish();
        let ids: Vec<_> = (0..layout.lines.len()).flat_map(|i| box_ids(&layout, i)).collect();
        assert_eq!(ids, [0, 1, 2, 3, 4, 5]);
    }
}

#[test]
fn lines_of_characters_are_full() {
    let text = "WW  WW\nWW W";
    for count in 0..13 {
        let mut breaker = shape(text, &[], BaseDirection::Ltr).break_lines();
        let mut calls = 0;
        while breaker.break_next_with_length(count).is_some() {
            calls += 1;
        }
        let size = (count as usize).max(1);
        assert_eq!(calls, text.len().div_ceil(size));
        let expected: Vec<_> =
            (0..calls).map(|i| (i * size, ((i + 1) * size).min(text.len()))).collect();
        assert_eq!(text_ranges(&breaker.finish()), expected);
    }
    // An empty paragraph has one line.
    let mut breaker = shape("", &[], BaseDirection::Ltr).break_lines();
    assert!(breaker.break_next_with_length(3).is_some());
    assert!(breaker.break_next_with_length(3).is_none());
}

#[test]
fn a_negative_box_does_not_take_back_the_width_before_it() {
    let layout = shape("WW", &[(2, InlineBoxKind::InFlow, -30)], BaseDirection::Ltr);
    assert_eq!((widths(&layout).min, widths(&layout).max), (px(36), px(36)));
    let layout = shape("WW", &[(2, InlineBoxKind::EndBoundary, -30)], BaseDirection::Ltr);
    assert_eq!((widths(&layout).min, widths(&layout).max), (px(6), px(6)));
}

#[test]
fn a_line_of_boxes_stands_at_the_place_of_the_first() {
    let boxes = [(3, InlineBoxKind::InFlow, 80), (3, InlineBoxKind::InFlow, 10)];
    let layout = shape("WW WW", &boxes, BaseDirection::Ltr);
    let layout = break_all_lines(layout, Some(px(60)));
    assert_eq!(text_ranges(&layout), [(0, 3), (3, 3), (3, 5)]);
    let layout = shape("", &boxes, BaseDirection::Ltr);
    let layout = break_all_lines(layout, Some(px(60)));
    assert_eq!(text_ranges(&layout), [(0, 0), (0, 0)]);
}

#[test]
fn nested_edges_stay_with_the_content_after_them() {
    let boxes = [
        (0, InlineBoxKind::InFlow, 64),
        (0, InlineBoxKind::StartBoundary, 8),
        (0, InlineBoxKind::StartBoundary, 8),
        (0, InlineBoxKind::EndBoundary, 8),
        (0, InlineBoxKind::InFlow, 64),
        (0, InlineBoxKind::EndBoundary, 8),
    ];
    let layout = shape("", &boxes[..5], BaseDirection::Ltr);
    assert_eq!((widths(&layout).min, widths(&layout).max), (px(88), px(152)));
    let layout = break_all_lines(layout, Some(px(100)));
    assert_eq!(layout.lines.len(), 2);
    assert_eq!(box_ids(&layout, 0), [0]);
    assert_eq!(box_ids(&layout, 1), [1, 2, 3, 4]);

    // An inline that closes without content stays with what is before it.
    let closed = [boxes[0], boxes[1], boxes[2], boxes[3], boxes[5], boxes[4]];
    let layout = shape("", &closed, BaseDirection::Ltr);
    assert_eq!((widths(&layout).min, widths(&layout).max), (px(64), px(160)));
    let layout = break_all_lines(layout, Some(px(100)));
    assert_eq!(box_ids(&layout, 0), [0, 1, 2, 3, 4]);
    assert_eq!(box_ids(&layout, 1), [5]);
}

#[test]
fn an_empty_paragraph_is_analysed_as_a_space() {
    for (direction, level) in [(BaseDirection::Ltr, 0), (BaseDirection::Rtl, 1)] {
        let mut builder = StyleRunBuilder::new(options(direction), 0);
        builder.push_inline_box(inline_box(0, InlineBoxKind::InFlow, 0, 10, 10));
        let (layout, lcx) = builder.build("", root_style());
        assert_eq!(layout.data.base_level, level);
        assert_eq!(layout.data.text_len, 0);
        let levels: Vec<_> = lcx.info.iter().map(|info| info.bidi_level).collect();
        assert_eq!(levels, [level]);
        assert_eq!(lcx.info[0].style_index, 0);
        assert_eq!(lcx.inline_boxes[0].bidi_level, level);
    }
}

#[test]
fn a_line_reports_its_place() {
    let mut breaker = shape("WW WW", &[], BaseDirection::Ltr).break_lines();
    breaker.state_mut().set_layout_max_advance(px(100));
    breaker.state_mut().set_line_max_advance(px(40));
    breaker.state_mut().set_line_x(px(7));
    breaker.state_mut().set_line_y(px(3).widen());
    match breaker.break_next() {
        Some(YieldData::LineBreak(data)) => {
            assert_eq!(data.reason, BreakReason::Regular);
            assert_eq!(data.advance, px(41));
            assert_eq!(data.line_height, px(24));
            assert_eq!(Fixed::narrow(data.line_y_start), px(3));
            assert_eq!(Fixed::narrow(data.line_y_end), px(27));
        }
        _ => panic!("a line was expected"),
    }
    assert_eq!(Fixed::narrow(breaker.committed_y()), px(27));
    breaker.set_prior_line_width(px(50));
    assert_eq!(breaker.state().line_max_advance(), px(40));
    assert_eq!(breaker.state().layout_max_advance(), px(100));
    assert_eq!(breaker.state().line_x(), px(7));
    let layout = breaker.into_layout();
    let metrics = &layout.lines[0].metrics;
    assert_eq!(metrics.inline_min_coord, px(7));
    assert_eq!(metrics.inline_max_coord, px(57));
    assert_eq!(metrics.trailing_whitespace, px(5));
    // Half of the leading lies over the text.
    assert_eq!(metrics.baseline, px(3 + 2 + 16));
    assert_eq!(metrics.block_min_coord, px(3));
    assert_eq!(metrics.block_max_coord, px(27));
    assert_eq!(metrics.content_block_min_coord, px(5));
    assert_eq!(metrics.content_block_max_coord, px(25));
    assert_eq!(layout.width, px(7 + 36));
    assert_eq!(layout.full_width, px(7 + 41));
}

#[test]
fn a_line_that_is_too_high_yields() {
    let text = "WW WW";
    let mut builder = StyleRunBuilder::new(options(BaseDirection::Ltr), text.len());
    let style = builder.push_style(root_style());
    builder.push_style_run(style, all());
    builder.push_inline_box(inline_box(9, InlineBoxKind::InFlow, 3, 10, 60));
    let mut breaker = built(builder, text).break_lines();
    breaker.state_mut().set_layout_max_advance(px(200));
    breaker.state_mut().set_line_max_advance(px(200));
    breaker.state_mut().set_line_max_height(px(30));
    match breaker.break_next() {
        Some(YieldData::MaxHeightExceeded(data)) => {
            assert_eq!(data.advance, px(41));
            assert_eq!(data.line_height, px(60));
        }
        _ => panic!("the box is too high"),
    }
    assert_eq!(breaker.state().line_max_height(), px(30));
    breaker.state_mut().set_line_max_height(px(100));
    assert!(matches!(breaker.break_next(), Some(YieldData::LineBreak(_))));
    assert!(breaker.is_done());
    assert!(breaker.break_next().is_none());
    let layout = breaker.finish();
    assert_eq!(layout.lines[0].metrics.line_height, px(60 + 6));
}

#[test]
fn lines_can_be_broken_by_characters() {
    let mut breaker = shape("WW WWW", &[(3, InlineBoxKind::InFlow, 10)], BaseDirection::Ltr)
        .break_lines();
    assert_eq!(breaker.break_next_with_length(2), Some(()));
    assert_eq!(breaker.break_next_with_length(2), Some(()));
    assert_eq!(breaker.break_next_with_length(0), Some(()));
    assert_eq!(breaker.break_next_with_length(9), Some(()));
    assert_eq!(breaker.break_next_with_length(9), None);
    let layout = breaker.finish();
    assert_eq!(text_ranges(&layout), [(0, 2), (2, 3), (3, 4), (4, 6)]);
    assert_eq!(box_ids(&layout, 1), [0]);
}

#[test]
fn a_word_is_broken_only_in_an_emergency() {
    let style = ResolvedStyle { overflow_wrap: OverflowWrap::BreakWord, ..root_style() };
    let layout = shape_styled("W WWW", style, BaseDirection::Ltr, &[]);
    assert_eq!(widths(&layout).min, px(54));
    let layout = break_all_lines(layout, Some(px(40)));
    let reasons: Vec<_> = layout.lines.iter().map(|line| line.break_reason).collect();
    assert_eq!(
        reasons,
        [BreakReason::Regular, BreakReason::Emergency, BreakReason::NoBreak]
    );
    assert_eq!(text_ranges(&layout), [(0, 2), (2, 4), (4, 5)]);

    let style = ResolvedStyle { overflow_wrap: OverflowWrap::Anywhere, ..root_style() };
    assert_eq!(widths(&shape_styled("W WWW", style, BaseDirection::Ltr, &[])).min, px(18));
}

#[test]
fn text_indent_applies_to_chosen_lines() {
    let indents = |options: IndentOptions| {
        let mut layout = shape("W W\nW", &[], BaseDirection::Ltr);
        layout.data.indent_amount = px(6);
        layout.data.indent_options = options;
        let layout = break_all_lines(layout, Some(px(26)));
        assert_eq!(text_ranges(&layout), [(0, 2), (2, 4), (4, 5)]);
        layout.lines.iter().map(|line| line.indent).collect::<Vec<_>>()
    };
    assert_eq!(
        indents(IndentOptions { each_line: false, hanging: false }),
        [px(6), px(0), px(0)]
    );
    assert_eq!(
        indents(IndentOptions { each_line: true, hanging: false }),
        [px(6), px(0), px(6)]
    );
    assert_eq!(
        indents(IndentOptions { each_line: false, hanging: true }),
        [px(0), px(6), px(6)]
    );
    assert_eq!(
        indents(IndentOptions { each_line: true, hanging: true }),
        [px(0), px(6), px(0)]
    );
}

#[test]
fn quantized_metrics_are_whole() {
    let mut layout = shape("W", &[], BaseDirection::Ltr);
    layout.data.quantize = true;
    layout.data.shaped_text.runs[0].font_metrics =
        FontMetrics { ascent: Fixed { steps: 1010 }, descent: Fixed { steps: 270 }, leading: px(0) };
    let layout = break_all_lines(layout, None);
    let metrics = &layout.lines[0].metrics;
    // The ascent is rounded to 16, the descent to 4, and half of the leading
    // lies over the text.
    assert_eq!(metrics.baseline, px(18));
    assert_eq!(metrics.block_max_coord, px(24));
    assert_eq!(metrics.content_block_min_coord, px(2));
    assert_eq!(metrics.content_block_max_coord, px(22));
}

#[test]
fn wrapping_off_breaks_only_at_forced_breaks() {
    let style = ResolvedStyle { text_wrap_mode: TextWrapMode::NoWrap, ..root_style() };
    let layout = shape_styled("WW WW\nWW WW", style, BaseDirection::Ltr, &[]);
    let layout = break_all_lines(layout, Some(px(10)));
    assert_eq!(text_ranges(&layout), [(0, 6), (6, 11)]);
}

#[test]
fn lines_do_not_depend_on_earlier_lines() {
    let fresh = break_all_lines(shape("WW WW WW", &[], BaseDirection::Rtl), Some(px(60)));
    let again = break_all_lines(
        break_all_lines(shape("WW WW WW", &[], BaseDirection::Rtl), Some(px(20))),
        Some(px(60)),
    );
    assert_eq!(dump(&fresh), dump(&again));
}

#[test]
fn letters_and_words_are_spaced() {
    let spaced = ResolvedStyle { letter_spacing: px(1), word_spacing: px(2), ..root_style() };
    let layout = break_all_lines(shape_styled("W W", spaced, BaseDirection::Ltr, &[]), None);
    assert_eq!(layout.full_width, px(18 + 5 + 18 + 3 + 2));
    let plain = break_all_lines(shape("W W", &[], BaseDirection::Ltr), None);
    assert_eq!(plain.full_width, px(18 + 5 + 18));
}

// ---------------------------------------------------------------------------
// Builders.

fn build_layout_with_ranged(
    text: &str,
    direction: BaseDirection,
    root: ResolvedStyle<Fixed, u32>,
    table: Vec<ResolvedStyle<Fixed, u32>>,
    runs: Vec<StyleRun>,
    layout: &mut Layout<Fixed>,
) {
    let builder = RangedBuilder { options: options(direction), lcx: LayoutContext::new() };
    let mut lcx = builder.build_into(layout, text, root, table, runs, root_style());
    shape_prepared(layout, &mut lcx, text);
}

fn run(style_index: u16, start: usize, end: usize) -> StyleRun {
    StyleRun { style_index, range: start..end }
}

#[test]
fn builders_apply_base_direction() {
    let text = "123 / 456";
    let mut ranged = Layout::new();
    build_layout_with_ranged(
        text,
        BaseDirection::Rtl,
        root_style(),
        vec![root_style()],
        vec![run(0, 0, text.len())],
        &mut ranged,
    );
    let ranged = break_all_lines(ranged, None);
    assert!(ranged.data.is_rtl());
    let ranges: Vec<_> = text_items(&ranged, 0)
        .iter()
        .map(|item| (item.text_range.start, item.text_range.end))
        .collect();
    assert_eq!(ranges, [(6, 9), (3, 6), (0, 3)]);

    let mut tree = TreeBuilder::new(options(BaseDirection::Rtl), root_style());
    tree.push_text(text);
    let mut tree_layout = Layout::new();
    let (mut lcx, built_text) = tree.build_into(&mut tree_layout);
    shape_prepared(&mut tree_layout, &mut lcx, &built_text);
    let tree_layout = break_all_lines(tree_layout, None);
    assert!(tree_layout.data.is_rtl());
    assert_eq!(dump(&ranged), dump(&tree_layout), "tree base direction");

    let mut style_runs = StyleRunBuilder::new(options(BaseDirection::Rtl), text.len());
    let style = style_runs.push_style(root_style());
    style_runs.push_style_run(style, all());
    let style_run_layout = break_all_lines(built(style_runs, text), None);
    assert!(style_run_layout.data.is_rtl());
    assert_eq!(dump(&ranged), dump(&style_run_layout), "style-run base direction");
}

/// A root style that is not the default.
fn other_style() -> ResolvedStyle<Fixed, u32> {
    ResolvedStyle {
        font_size: px(20),
        font_attrs: FontAttributes {
            width: Fixed { steps: 48 },
            weight: px(700),
            style: FontStyle::Italic,
        },
        line_height: LineHeight::Absolute(px(30)),
        word_spacing: px(2),
        letter_spacing: Fixed { steps: 96 },
        word_break: WordBreak::BreakAll,
        overflow_wrap: OverflowWrap::Anywhere,
        text_wrap_mode: TextWrapMode::Wrap,
        white_space_collapse: WhiteSpaceCollapse::Preserve,
        brush: 4,
    }
}

fn one_style(text: &str, style: ResolvedStyle<Fixed, u32>, layout: &mut Layout<Fixed>) {
    let table = vec![style.duplicate()];
    let runs = vec![run(0, 0, text.len())];
    build_layout_with_ranged(text, BaseDirection::Auto, style, table, runs, layout);
}

fn assert_builders_produce_same_result(
    text: &str,
    max_advance: Option<Fixed>,
    style: ResolvedStyle<Fixed, u32>,
) {
    let mut truth = Layout::new();
    one_style(text, style.duplicate(), &mut truth);
    let truth = break_all_lines(truth, max_advance);
    // A layout that was used before.
    let mut layout = break_all_lines(shape("x x", &[], BaseDirection::Rtl), None);
    for _ in 0..2 {
        one_style(text, style.duplicate(), &mut layout);
        layout = break_all_lines(layout, max_advance);
        assert_eq!(dump(&truth), dump(&layout));

        let mut tree = TreeBuilder::new(options(BaseDirection::Auto), style.duplicate());
        tree.push_text(text);
        let (mut lcx, built_text) = tree.build_into(&mut layout);
        shape_prepared(&mut layout, &mut lcx, &built_text);
        layout = break_all_lines(layout, max_advance);
        assert_eq!(dump(&truth), dump(&layout));
    }
}

#[test]
fn builders_default() {
    let text = "Builders often wear hard hats for safety while working on construction sites.";
    assert_builders_produce_same_result(text, Some(px(50)), root_style());
}

#[test]
fn builders_root_only() {
    let text = "Builders often wear hard hats for safety while working on construction sites.";
    assert_builders_produce_same_result(text, Some(px(50)), other_style());
}

#[test]
fn builders_style_runs_match_ranged() {
    let text = "Builders often wear hard hats.";
    let split = text.len() / 2;
    let modified = || ResolvedStyle {
        font_size: px(40),
        letter_spacing: Fixed { steps: 80 },
        ..root_style()
    };
    let mut ranged = Layout::new();
    build_layout_with_ranged(
        text,
        BaseDirection::Auto,
        root_style(),
        vec![root_style(), modified()],
        vec![run(0, 0, split), run(1, split, text.len())],
        &mut ranged,
    );
    let ranged = break_all_lines(ranged, Some(px(120)));

    let mut builder = StyleRunBuilder::new(options(BaseDirection::Auto), text.len());
    let root_index = builder.push_style(root_style());
    let modified_index = builder.push_style(modified());
    builder.push_style_run(root_index, bounds(0, split));
    builder.push_style_run(modified_index, bounds(split, text.len()));
    let runs = break_all_lines(built(builder, text), Some(px(120)));
    assert_eq!(dump(&ranged), dump(&runs), "style_runs_match_ranged");
}

#[test]
fn style_runs_first_run_can_use_nonzero_style_index() {
    let text = "Builders often wear hard hats.";
    let modified = || ResolvedStyle { font_size: px(40), ..other_style() };
    let mut ranged = Layout::new();
    build_layout_with_ranged(
        text,
        BaseDirection::Auto,
        other_style(),
        vec![other_style(), modified()],
        vec![run(1, 0, text.len())],
        &mut ranged,
    );
    let ranged = break_all_lines(ranged, Some(px(50)));

    let mut builder = StyleRunBuilder::new(options(BaseDirection::Auto), text.len());
    let root_index = builder.push_style(other_style());
    let modified_index = builder.push_style(modified());
    builder.set_root_style(root_index);
    builder.push_style_run(modified_index, bounds(0, text.len()));
    let runs = break_all_lines(built(builder, text), Some(px(50)));
    assert_eq!(
        dump(&ranged),
        dump(&runs),
        "style_runs_first_run_can_use_nonzero_style_index"
    );
}

#[test]
fn builders_mixed_styles() {
    let text = "Builders often wear hard hats for safety while working on construction sites.";
    let large = || ResolvedStyle { font_size: px(68), ..other_style() };
    let wide =
        || ResolvedStyle { letter_spacing: px(4), word_spacing: px(3), ..other_style() };
    let high = || ResolvedStyle { line_height: LineHeight::Absolute(px(40)), ..wide() };
    let limit = Some(px(50));

    let mut ranged = Layout::new();
    build_layout_with_ranged(
        text,
        BaseDirection::Auto,
        other_style(),
        vec![large(), other_style(), wide(), high()],
        vec![run(0, 0, 8), run(1, 8, 12), run(2, 12, 16), run(3, 16, 17), run(1, 17, text.len())],
        &mut ranged,
    );
    let ranged = break_all_lines(ranged, limit);

    let mut tree = TreeBuilder::new(options(BaseDirection::Auto), other_style());
    tree.push_style_modification_span(&vec![ResolvedProperty::FontSize(px(68))]);
    tree.push_text(&text[..8]);
    tree.pop_style_span();
    tree.push_text(&text[8..12]);
    tree.push_style_modification_span(&vec![
        ResolvedProperty::LetterSpacing(px(4)),
        ResolvedProperty::WordSpacing(px(3)),
    ]);
    tree.push_text(&text[12..16]);
    tree.push_style_modification_span(&vec![ResolvedProperty::LineHeight(LineHeight::Absolute(
        px(40),
    ))]);
    tree.push_text(&text[16..17]);
    tree.pop_style_span();
    tree.pop_style_span();
    tree.push_text(&text[17..]);
    let mut tree_layout = Layout::new();
    let (mut lcx, built_text) = tree.build_into(&mut tree_layout);
    assert_eq!(built_text, text);
    shape_prepared(&mut tree_layout, &mut lcx, &built_text);
    assert_eq!(dump(&ranged), dump(&break_all_lines(tree_layout, limit)));

    let mut builder = StyleRunBuilder::new(options(BaseDirection::Auto), text.len());
    builder.reserve(4, 5);
    let indices: Vec<u16> = vec![
        builder.push_style(large()),
        builder.push_style(other_style()),
        builder.push_style(wide()),
        builder.push_style(high()),
    ];
    builder.set_root_style(indices[1]);
    for (style, start, end) in [(0, 0, 8), (1, 8, 12), (2, 12, 16), (3, 16, 17)] {
        builder.push_style_run(indices[style], bounds(start, end));
    }
    builder.push_style_run(
        indices[1],
        IndexBounds { start: IndexBound::Excluded(16), end: IndexBound::Unbounded },
    );
    assert_eq!(dump(&ranged), dump(&break_all_lines(built(builder, text), limit)));
}

#[test]
fn builders_empty() {
    let mut ranged = Layout::new();
    build_layout_with_ranged(
        "",
        BaseDirection::Auto,
        other_style(),
        vec![other_style()],
        vec![run(0, 0, 0)],
        &mut ranged,
    );
    let ranged = break_all_lines(ranged, Some(px(50)));
    assert_eq!(ranged.lines.len(), 1);
    assert_eq!(widths(&ranged).max, px(0));

    let tree = TreeBuilder::new(options(BaseDirection::Auto), other_style());
    let (mut tree_layout, mut lcx, text) = tree.build();
    assert_eq!(text, "");
    shape_prepared(&mut tree_layout, &mut lcx, &text);
    assert_eq!(dump(&ranged), dump(&break_all_lines(tree_layout, Some(px(50)))));

    // A builder without runs has the default style.
    let builder = StyleRunBuilder::new(options(BaseDirection::Auto), 0);
    let layout = built(builder, "");
    assert_eq!(layout.data.styles.len(), 1);
    assert_eq!(dump(&ranged), dump(&break_all_lines(layout, Some(px(50)))));
}

#[test]
fn ranged_builder_reuse_layout() {
    let first = "Some first text.";
    let second = "Some second text.";
    let limit = Some(px(50));
    let build = |text: &str, layout: &mut Layout<Fixed>| {
        build_layout_with_ranged(
            text,
            BaseDirection::Auto,
            root_style(),
            vec![root_style()],
            vec![run(0, 0, text.len())],
            layout,
        );
    };
    let mut layout = Layout::new();
    build(first, &mut layout);
    let mut layout = break_all_lines(layout, limit);
    build(second, &mut layout);
    let layout = break_all_lines(layout, limit);

    let builder = RangedBuilder { options: options(BaseDirection::Auto), lcx: LayoutContext::new() };
    let (mut expected, mut lcx) = builder.build(
        second,
        root_style(),
        vec![root_style()],
        vec![run(0, 0, second.len())],
        root_style(),
    );
    shape_prepared(&mut expected, &mut lcx, second);
    let expected = break_all_lines(expected, limit);
    assert_eq!(
        dump(&expected),
        dump(&layout),
        "Expected reused layout to be identical to fresh layout"
    );
}

#[test]
fn ranged_builder_has_the_default_style_without_runs() {
    let builder = RangedBuilder { options: options(BaseDirection::Auto), lcx: LayoutContext::new() };
    let (layout, lcx) = builder.build("", other_style(), vec![], vec![], root_style());
    assert_eq!(layout.data.text_len, 0);
    assert_eq!(lcx.info.len(), 1);
    assert!((lcx.info[0].style_index as usize) < lcx.style_table.len());
}

#[test]
fn builders_keep_the_settings_of_a_layout() {
    let build = |layout: &mut Layout<Fixed>| {
        let style = vec![root_style()];
        let runs = vec![run(0, 0, 2)];
        build_layout_with_ranged("WW", BaseDirection::Auto, root_style(), style, runs, layout);
    };
    let mut layout = Layout::new();
    build(&mut layout);
    assert_eq!(layout.data.indent_amount, px(0));
    assert!(!layout.is_aligned_justified);
    assert_eq!((layout.width, layout.full_width, layout.height), (px(0), px(0), px(0)));
    let mut layout = break_all_lines(layout, Some(px(50)));
    assert_eq!(layout.width, px(36));
    layout.data.indent_amount = px(7);
    layout.is_aligned_justified = true;
    build(&mut layout);
    assert_eq!(layout.data.indent_amount, px(7));
    assert_eq!(layout.layout_max_advance, px(50));
    assert!(layout.is_aligned_justified);
    assert_eq!((layout.width, layout.full_width, layout.height), (px(0), px(0), px(0)));
}

#[test]
fn tree_builder_places_boxes_in_processed_text() {
    let root = white_space_style(WhiteSpaceCollapse::Collapse, TextWrapMode::Wrap);
    let mut tree = TreeBuilder::new(options(BaseDirection::Auto), root);
    tree.push_text("  a   ");
    tree.push_inline_box(inline_box(1, InlineBoxKind::InFlow, 0, 10, 10));
    tree.push_text("  b ");
    tree.push_inline_box(inline_box(2, InlineBoxKind::OutOfFlow, 0, 10, 10));
    tree.set_white_space_mode(WhiteSpaceCollapse::Preserve);
    tree.push_text("c ");
    let mut layout = Layout::new();
    let (lcx, text) = tree.build_into(&mut layout);
    assert_eq!(text, "a  b c ");
    let places: Vec<_> =
        lcx.inline_boxes.iter().map(|b| (b.inline_box.id, b.inline_box.index)).collect();
    assert_eq!(places, [(1, 2), (2, 2)]);
}

#[test]
fn boxes_are_put_in_text_order() {
    let text = "abc";
    let mut builder = StyleRunBuilder::new(options(BaseDirection::Ltr), text.len());
    let style = builder.push_style(root_style());
    builder.push_style_run(style, all());
    for (id, index) in [(0, 3), (1, 1), (2, 0), (3, 1)] {
        builder.push_inline_box(inline_box(id, InlineBoxKind::InFlow, index, 1, 1));
    }
    let mut layout = Layout::new();
    let lcx = builder.build_into(&mut layout, text, root_style());
    let ids: Vec<_> = lcx.inline_boxes.iter().map(|b| b.inline_box.id).collect();
    assert_eq!(ids, [2, 1, 3, 0]);
    assert_eq!(layout.data.inline_boxes.len(), 4);
    assert_eq!(layout.data.text_len, 3);
}

#[test]
fn characters_have_the_styles_of_their_runs() {
    let text = "a\u{e9}b";
    let mut builder = StyleRunBuilder::new(options(BaseDirection::Ltr), text.len());
    let zero = builder.push_style(root_style());
    let one = builder.push_style(broken_style());
    builder.push_style_run(one, bounds(0, 1));
    builder.push_style_run(zero, bounds(1, 1));
    builder.push_style_run(zero, bounds(1, 3));
    builder.push_style_run(one, bounds(3, 4));
    let mut layout = Layout::new();
    let lcx = builder.build_into(&mut layout, text, root_style());
    let styles: Vec<_> = lcx.info.iter().map(|info| info.style_index).collect();
    assert_eq!(styles, [1, 0, 1]);
    assert_eq!(layout.data.root_style_index, 1);
}

#[test]
fn levels_reach_the_layout() {
    let layout = shape("ab", &[(1, InlineBoxKind::InFlow, 10)], BaseDirection::Rtl);
    assert_eq!(layout.data.base_level, 1);
    let levels: Vec<_> = layout.data.items.iter().map(|item| item.bidi_level).collect();
    assert_eq!(levels, [2, 2, 2]);
    let mut lcx = LayoutContext::<Fixed, u32>::new();
    bidi::resolve(&mut lcx, "", BaseDirection::Ltr);
    assert_eq!(lcx.base_level, 0);
}

#[test]
fn layouts_are_not_assembled_from_inconsistent_text() {
    let broken = |change: &dyn Fn(&mut Layout<Fixed>)| {
        let mut builder = StyleRunBuilder::new(options(BaseDirection::Ltr), 2);
        let style = builder.push_style(root_style());
        builder.push_style_run(style, all());
        builder.push_inline_box(inline_box(0, InlineBoxKind::InFlow, 1, 5, 5));
        let (mut shaped, mut lcx) = builder.build("ab", root_style());
        shape_prepared(&mut shaped, &mut lcx, "ab");
        shaped.data.items.clear();
        shaped.data.runs.clear();
        change(&mut shaped);
        // The context's boxes were handed to the layout.
        let mut lcx_again = LayoutContext::<Fixed, u32>::new();
        lcx_again.style_table.push(root_style());
        parley::builder::push_inline_box_input(
            &mut lcx_again,
            inline_box(0, InlineBoxKind::InFlow, 1, 5, 5),
            None,
        );
        assemble_layout(&mut shaped, &lcx_again)
    };
    assert!(broken(&|_| {}));
    assert!(!broken(&|l| l.data.shaped_text.clusters[1].chars.start = 0));
    assert!(!broken(&|l| l.data.shaped_text.clusters[0].glyphs.end = 1));
    assert!(!broken(&|l| l.data.shaped_text.runs[1].clusters.start = 0));
    assert!(!broken(&|l| l.data.shaped_text.runs[0].font_index = 1));
    assert!(!broken(&|l| l.data.shaped_text.characters[0].style_index = 1));
    assert!(!broken(&|l| l.data.root_style_index = 7));
    assert!(!broken(&|l| l.data.inline_boxes.clear()));
}
