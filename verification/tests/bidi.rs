use parley::analysis::bidi;
use parley::builder::analysed_text;
use parley::context::{CharInfo, LayoutContext};
use parley::inline_box::{InlineBox, InlineBoxInput, InlineBoxKind};
use parley::scalar::Fixed;
use parley::style::BaseDirection;

fn input(index: usize, kind: InlineBoxKind) -> InlineBoxInput<Fixed> {
    InlineBoxInput {
        inline_box: InlineBox {
            id: 0,
            kind,
            index,
            width: Fixed::from_units(10),
            height: Fixed::from_units(10),
            baseline: None,
        },
        style_after: None,
        bidi_level: 0,
    }
}

fn analyze(
    text: &str,
    direction: BaseDirection,
    boxes: &[(usize, InlineBoxKind)],
) -> LayoutContext<Fixed, u32> {
    let text = analysed_text(text);
    let mut context = LayoutContext::<Fixed, u32>::new();
    for _ in text.chars() {
        context.info.push(CharInfo { bidi_level: 0, style_index: 0 });
    }
    for &(index, kind) in boxes {
        context.inline_boxes.push(input(index, kind));
    }
    bidi::resolve(&mut context, text, direction);
    context
}

fn levels(context: &LayoutContext<Fixed, u32>) -> Vec<u8> {
    context.info.iter().map(|info| info.bidi_level).collect()
}

fn box_levels(context: &LayoutContext<Fixed, u32>) -> Vec<u8> {
    context.inline_boxes.iter().map(|input| input.bidi_level).collect()
}

#[test]
fn explicit_direction_controls_empty_neutral_numeric_and_mixed_paragraphs() {
    for (text, direction, base, expected) in [
        ("", BaseDirection::Rtl, 1, vec![1]),
        (".", BaseDirection::Rtl, 1, vec![1]),
        ("12", BaseDirection::Rtl, 1, vec![2, 2]),
        ("abc", BaseDirection::Rtl, 1, vec![2, 2, 2]),
        ("\u{5d0} a", BaseDirection::Ltr, 0, vec![1, 0, 0]),
        ("\u{5d0} a", BaseDirection::Auto, 1, vec![1, 1, 2]),
        ("abc", BaseDirection::Auto, 0, vec![0, 0, 0]),
    ] {
        let context = analyze(text, direction, &[]);
        assert_eq!(context.base_level, base, "{text:?}, {direction:?}");
        assert_eq!(levels(&context), expected, "{text:?}, {direction:?}");
    }
}

#[test]
fn boxes_resolve_as_neutrals_not_the_previous_run() {
    for (text, direction, offsets, expected) in [
        ("", BaseDirection::Rtl, vec![0, 0], vec![1, 1]),
        ("\u{5d0}\u{5d1}", BaseDirection::Ltr, vec![0, 2, 4], vec![0, 1, 0]),
        ("ab", BaseDirection::Rtl, vec![0, 1, 2], vec![1, 2, 1]),
        ("12", BaseDirection::Rtl, vec![1], vec![1]),
        ("\u{5d0}\u{5d1}", BaseDirection::Auto, vec![0, 0, 4], vec![1, 1, 1]),
    ] {
        let boxes = offsets
            .into_iter()
            .map(|index| (index, InlineBoxKind::InFlow))
            .collect::<Vec<_>>();
        let context = analyze(text, direction, &boxes);
        assert_eq!(box_levels(&context), expected, "{text:?}, {direction:?}");
    }
}

#[test]
fn transparent_boundaries_follow_their_content_without_changing_analysis() {
    let context = analyze(
        "\u{5d0}a",
        BaseDirection::Ltr,
        &[
            (0, InlineBoxKind::StartBoundary),
            (2, InlineBoxKind::EndBoundary),
            (2, InlineBoxKind::StartBoundary),
            (3, InlineBoxKind::EndBoundary),
        ],
    );
    assert_eq!(levels(&context), [1, 0]);
    assert_eq!(box_levels(&context), [1, 1, 0, 0]);
}

#[test]
fn boxes_and_multibyte_text_share_one_analysis_inside_isolates() {
    // Objects have the levels of literal replacement characters, inside an
    // isolate too and where several share one offset.
    let boxes = [
        (0, InlineBoxKind::InFlow),
        (5, InlineBoxKind::InFlow),
        (5, InlineBoxKind::InFlow),
        (6, InlineBoxKind::InFlow),
        (12, InlineBoxKind::InFlow),
    ];
    let projected =
        analyze("\u{5d0}\u{2066}ab\u{2069}\u{5d1}", BaseDirection::Rtl, &boxes);
    let literal = analyze(
        "\u{fffc}\u{5d0}\u{2066}\u{fffc}\u{fffc}a\u{fffc}b\u{2069}\u{5d1}\u{fffc}",
        BaseDirection::Rtl,
        &[],
    );
    let found = levels(&literal);
    assert_eq!(
        box_levels(&projected),
        [found[0], found[3], found[4], found[6], found[10]]
    );
    assert_eq!(
        levels(&projected),
        [found[1], found[2], found[5], found[7], found[8], found[9]]
    );
}

#[test]
fn edges_change_no_other_level() {
    let objects = [(0, InlineBoxKind::InFlow), (2, InlineBoxKind::OutOfFlow)];
    let with_edges = [
        (0, InlineBoxKind::StartBoundary),
        (0, InlineBoxKind::InFlow),
        (2, InlineBoxKind::TextBoundary),
        (2, InlineBoxKind::OutOfFlow),
        (3, InlineBoxKind::EndBoundary),
    ];
    let plain = analyze("\u{5d0}b", BaseDirection::Ltr, &objects);
    let edged = analyze("\u{5d0}b", BaseDirection::Ltr, &with_edges);
    assert_eq!(levels(&edged), levels(&plain));
    let boxed = box_levels(&edged);
    assert_eq!([boxed[1], boxed[3]], [box_levels(&plain)[0], box_levels(&plain)[1]]);
}

#[test]
fn levels_are_handed_out_in_order() {
    let characters = vec!['a', 'b'];
    let mut boxes = vec![
        input(1, InlineBoxKind::StartBoundary),
        input(1, InlineBoxKind::InFlow),
        input(2, InlineBoxKind::EndBoundary),
        input(2, InlineBoxKind::StartBoundary),
    ];
    let mut info = vec![CharInfo { bidi_level: 0, style_index: 3 }; 2];
    bidi::project_levels(&characters, &mut boxes, &mut info, &vec![4, 5, 6], 9);
    assert_eq!(info.iter().map(|c| c.bidi_level).collect::<Vec<_>>(), [4, 6]);
    assert_eq!(info[1].style_index, 3);
    assert_eq!(boxes.iter().map(|b| b.bidi_level).collect::<Vec<_>>(), [5, 5, 6, 6]);
}

#[test]
fn edges_without_content_have_the_paragraph_level() {
    let mut boxes =
        vec![input(0, InlineBoxKind::StartBoundary), input(0, InlineBoxKind::EndBoundary)];
    bidi::project_levels(&Vec::new(), &mut boxes, &mut Vec::new(), &Vec::new(), 1);
    assert_eq!(boxes.iter().map(|b| b.bidi_level).collect::<Vec<_>>(), [1, 1]);
}
