//! Laws of the runs of a layout: line heights and spacing.

use crate::layout::data::LayoutData;
use crate::layout::input::{spacing_of, Spaced};
use crate::layout::shaped::Whitespace;
use crate::scalar::Fixed;
use crate::style::{FontAttributes, LineHeight};
use vstd::prelude::*;

verus! {

/// `product` is the product of two fixed-point lengths, rounded down to a step.
pub open spec fn is_product(product: Fixed, a: int, b: int) -> bool {
    64 * product.steps <= a * b < 64 * product.steps + 64
}

/// The product of the numbers can be represented.
pub open spec fn product_fits(a: int, b: int) -> bool {
    64 * i64::MIN <= a * b < 64 * i64::MAX
}

/// The style of the first character of a run.
pub open spec fn line_height_of_run(layout: LayoutData<Fixed>, run: int) -> LineHeight<Fixed> {
    let text = layout.shaped_text;
    layout.styles@[text.characters@[text.runs@[run].characters.start as int].style_index as int]
        .line_height
}

/// The line height of a run is a length, a multiple of its font size, or a
/// multiple of its font's ascent, descent and leading together, as its style
/// says.
pub proof fn lemma_line_height_of_run(
    layout: LayoutData<Fixed>,
    run: int,
    font_attrs: FontAttributes<Fixed>,
    word_spacing: Fixed,
    letter_spacing: Fixed,
)
    ensures
        ({
            let shaped = layout.shaped_text.runs@[run];
            let metrics = shaped.font_metrics;
            let size = shaped.font_size.steps as int;
            let extent = metrics.ascent.steps + metrics.descent.steps + metrics.leading.steps;
            let height = layout.run_data(
                run,
                font_attrs,
                word_spacing,
                letter_spacing,
            ).line_height;
            match line_height_of_run(layout, run) {
                LineHeight::Absolute(value) => height.steps == value.steps,
                LineHeight::FontSizeRelative(value) => product_fits(value.steps as int, size)
                    ==> is_product(height, value.steps as int, size),
                LineHeight::MetricsRelative(value) => i64::MIN <= metrics.ascent.steps
                    + metrics.descent.steps <= i64::MAX && i64::MIN <= extent <= i64::MAX
                    && product_fits(value.steps as int, extent) ==> is_product(
                    height,
                    value.steps as int,
                    extent,
                ),
            }
        }),
{
    let shaped = layout.shaped_text.runs@[run];
    let metrics = shaped.font_metrics;
    let extent = metrics.ascent.steps + metrics.descent.steps + metrics.leading.steps;
    match line_height_of_run(layout, run) {
        LineHeight::FontSizeRelative(value) => {
            assert(value.steps * shaped.font_size.steps == shaped.font_size.steps * value.steps)
                by (nonlinear_arith);
        },
        LineHeight::MetricsRelative(value) => {
            assert(value.steps * extent == extent * value.steps) by (nonlinear_arith);
        },
        _ => {},
    }
}

/// A run as high as its font size is one line high where the factor is one; with
/// twice the font size it is twice as high, up to rounding.
pub proof fn lemma_line_height_scales(
    one: LayoutData<Fixed>,
    other: LayoutData<Fixed>,
    run: int,
    value: Fixed,
    font_attrs: FontAttributes<Fixed>,
)
    requires
        line_height_of_run(one, run) == LineHeight::FontSizeRelative(value),
        line_height_of_run(other, run) == LineHeight::FontSizeRelative(value),
        other.shaped_text.runs@[run].font_size.steps == 2 * one.shaped_text.runs@[run]
            .font_size.steps,
        product_fits(
            value.steps as int,
            other.shaped_text.runs@[run].font_size.steps as int,
        ),
        product_fits(value.steps as int, one.shaped_text.runs@[run].font_size.steps as int),
    ensures
        ({
            let none = Fixed { steps: 0 };
            let height = one.run_data(run, font_attrs, none, none).line_height;
            let twice = other.run_data(run, font_attrs, none, none).line_height;
            &&& value.steps == 64 ==> height == one.shaped_text.runs@[run].font_size
            &&& 2 * height.steps <= twice.steps <= 2 * height.steps + 1
        }),
{
    let none = Fixed { steps: 0 };
    let size = one.shaped_text.runs@[run].font_size.steps as int;
    lemma_line_height_of_run(one, run, font_attrs, none, none);
    lemma_line_height_of_run(other, run, font_attrs, none, none);
    assert(value.steps * (2 * size) == 2 * (value.steps * size)) by (nonlinear_arith);
}

// ---------------------------------------------------------------------------
// Spacing.

/// The spacing that a run gives a cluster: letter spacing, and word spacing too
/// after a space.
pub open spec fn spacing_steps(layout: LayoutData<Fixed>, run: int, cluster: int) -> int {
    let text = layout.shaped_text;
    let white = text.characters@[text.clusters@[cluster].chars.start as int].whitespace;
    layout.runs@[run].letter_spacing.steps + if white == Whitespace::Space || white
        == Whitespace::NoBreakSpace {
        layout.runs@[run].word_spacing.steps as int
    } else {
        0
    }
}

/// The cluster is one of the run's.
pub open spec fn is_in_run(layout: LayoutData<Fixed>, run: int, cluster: int) -> bool {
    let clusters = layout.shaped_text.runs@[run].clusters;
    clusters.start <= cluster < clusters.end
}

/// No two runs share a cluster.
pub open spec fn runs_are_apart(layout: LayoutData<Fixed>) -> bool {
    forall|a: int, b: int, c: int|
        0 <= a < b < layout.runs@.len() ==> !(#[trigger] is_in_run(layout, a, c)
            && #[trigger] is_in_run(layout, b, c))
}

/// The clusters have the characters of the layout's.
spec fn same_characters(text: Spaced<Fixed>, layout: LayoutData<Fixed>) -> bool {
    &&& text.clusters.len() == layout.shaped_text.clusters@.len()
    &&& forall|c: int|
        0 <= c < text.clusters.len() ==> (#[trigger] text.clusters[c]).chars
            == layout.shaped_text.clusters@[c].chars
}

spec fn fits(n: int) -> bool {
    i64::MIN <= n <= i64::MAX
}

proof fn lemma_spaced_cluster(
    text: Spaced<Fixed>,
    layout: LayoutData<Fixed>,
    run: int,
    from: int,
    to: int,
    cluster: int,
)
    requires
        same_characters(text, layout),
        0 <= from <= to <= text.clusters.len(),
        0 <= cluster < text.clusters.len(),
        fits(layout.runs@[run].letter_spacing.steps + layout.runs@[run].word_spacing.steps),
        fits(text.clusters[cluster].advance.steps + spacing_steps(layout, run, cluster)),
    ensures
        ({
            let after = text.with_spaced_clusters(
                layout.shaped_text.characters@,
                layout.runs@[run].word_spacing,
                layout.runs@[run].letter_spacing,
                from,
                to,
            );
            &&& same_characters(after, layout)
            &&& after.clusters[cluster].advance.steps == text.clusters[cluster].advance.steps
                + if from <= cluster < to {
                spacing_steps(layout, run, cluster)
            } else {
                0
            }
        }),
    decreases to - from,
{
    if from < to {
        let word = layout.runs@[run].word_spacing;
        let letter = layout.runs@[run].letter_spacing;
        let first = layout.shaped_text.characters@[text.clusters[from].chars.start as int];
        let next = text.with_spacing(from, spacing_of(first, word, letter));
        assert(same_characters(next, layout)) by {
            assert forall|c: int| 0 <= c < next.clusters.len() implies (
            #[trigger] next.clusters[c]).chars == layout.shaped_text.clusters@[c].chars by {
                assert(text.clusters[c].chars == layout.shaped_text.clusters@[c].chars);
            }
        }
        if from < cluster {
            assert(next.clusters[cluster] == text.clusters[cluster]);
            lemma_spaced_cluster(next, layout, run, from + 1, to, cluster);
        } else if from == cluster {
            lemma_spaced_others(next, layout, run, from + 1, to, cluster);
        } else {
            assert(next.clusters[cluster] == text.clusters[cluster]);
            lemma_spaced_others(next, layout, run, from + 1, to, cluster);
        }
    }
}

/// Clusters outside of the range keep their advances.
proof fn lemma_spaced_others(
    text: Spaced<Fixed>,
    layout: LayoutData<Fixed>,
    run: int,
    from: int,
    to: int,
    cluster: int,
)
    requires
        same_characters(text, layout),
        0 <= from,
        to <= text.clusters.len(),
        0 <= cluster < text.clusters.len(),
        !(from <= cluster < to),
    ensures
        ({
            let after = text.with_spaced_clusters(
                layout.shaped_text.characters@,
                layout.runs@[run].word_spacing,
                layout.runs@[run].letter_spacing,
                from,
                to,
            );
            &&& same_characters(after, layout)
            &&& after.clusters[cluster] == text.clusters[cluster]
        }),
    decreases to - from,
{
    if from < to {
        let word = layout.runs@[run].word_spacing;
        let letter = layout.runs@[run].letter_spacing;
        let first = layout.shaped_text.characters@[text.clusters[from].chars.start as int];
        let next = text.with_spacing(from, spacing_of(first, word, letter));
        assert(same_characters(next, layout)) by {
            assert forall|c: int| 0 <= c < next.clusters.len() implies (
            #[trigger] next.clusters[c]).chars == layout.shaped_text.clusters@[c].chars by {
                assert(text.clusters[c].chars == layout.shaped_text.clusters@[c].chars);
            }
        }
        lemma_spaced_others(next, layout, run, from + 1, to, cluster);
    }
}

proof fn lemma_spaced_after(
    text: Spaced<Fixed>,
    layout: LayoutData<Fixed>,
    from: int,
    run: int,
    cluster: int,
)
    requires
        layout.wf(),
        runs_are_apart(layout),
        same_characters(text, layout),
        0 <= from,
        0 <= run < layout.runs@.len(),
        0 <= cluster < text.clusters.len(),
        is_in_run(layout, run, cluster),
        fits(layout.runs@[run].letter_spacing.steps + layout.runs@[run].word_spacing.steps),
        fits(text.clusters[cluster].advance.steps + spacing_steps(layout, run, cluster)),
    ensures
        text.with_spaced_runs(layout, from).clusters[cluster].advance.steps
            == text.clusters[cluster].advance.steps + if from <= run {
            spacing_steps(layout, run, cluster)
        } else {
            0
        },
    decreases layout.runs@.len() - from,
{
    if from < layout.runs@.len() {
        let word = layout.runs@[from].word_spacing;
        let letter = layout.runs@[from].letter_spacing;
        let clusters = layout.shaped_text.runs@[from].clusters;
        let next = if word.steps == 0 && letter.steps == 0 {
            text
        } else {
            text.with_spaced_clusters(
                layout.shaped_text.characters@,
                word,
                letter,
                clusters.start as int,
                clusters.end as int,
            )
        };
        assert(clusters.end <= layout.shaped_text.clusters@.len());
        if from == run {
            lemma_spaced_cluster(
                text,
                layout,
                run,
                clusters.start as int,
                clusters.end as int,
                cluster,
            );
            assert(next.clusters[cluster].advance.steps == text.clusters[cluster].advance.steps
                + spacing_steps(layout, run, cluster));
            lemma_spaced_rest(next, layout, from + 1, run, cluster);
        } else {
            assert(!is_in_run(layout, from, cluster));
            lemma_spaced_others(
                text,
                layout,
                from,
                clusters.start as int,
                clusters.end as int,
                cluster,
            );
            lemma_spaced_after(next, layout, from + 1, run, cluster);
        }
    }
}

proof fn lemma_spaced_rest(
    text: Spaced<Fixed>,
    layout: LayoutData<Fixed>,
    from: int,
    run: int,
    cluster: int,
)
    requires
        layout.wf(),
        runs_are_apart(layout),
        same_characters(text, layout),
        0 <= run < from,
        run < layout.runs@.len(),
        0 <= cluster < text.clusters.len(),
        is_in_run(layout, run, cluster),
    ensures
        text.with_spaced_runs(layout, from).clusters[cluster] == text.clusters[cluster],
    decreases layout.runs@.len() - from,
{
    if from < layout.runs@.len() {
        let word = layout.runs@[from].word_spacing;
        let letter = layout.runs@[from].letter_spacing;
        let clusters = layout.shaped_text.runs@[from].clusters;
        assert(clusters.end <= layout.shaped_text.clusters@.len());
        assert(!is_in_run(layout, from, cluster));
        lemma_spaced_others(
            text,
            layout,
            from,
            clusters.start as int,
            clusters.end as int,
            cluster,
        );
        let next = if word.steps == 0 && letter.steps == 0 {
            text
        } else {
            text.with_spaced_clusters(
                layout.shaped_text.characters@,
                word,
                letter,
                clusters.start as int,
                clusters.end as int,
            )
        };
        lemma_spaced_rest(next, layout, from + 1, run, cluster);
    }
}

/// Finishing a layout adds to the advance of every cluster the letter spacing of
/// its run, and after a space the run's word spacing as well.
pub proof fn lemma_spacing_is_added(layout: LayoutData<Fixed>, run: int, cluster: int)
    requires
        layout.wf(),
        runs_are_apart(layout),
        0 <= run < layout.runs@.len(),
        is_in_run(layout, run, cluster),
        i64::MIN <= layout.runs@[run].letter_spacing.steps + layout.runs@[run].word_spacing.steps
            <= i64::MAX,
        i64::MIN <= layout.shaped_text.clusters@[cluster].advance.steps + spacing_steps(
            layout,
            run,
            cluster,
        ) <= i64::MAX,
    ensures
        layout.shaped_text.spaced().with_spaced_runs(layout, 0).clusters[cluster].advance.steps
            == layout.shaped_text.clusters@[cluster].advance.steps + spacing_steps(
            layout,
            run,
            cluster,
        ),
{
    assert(layout.shaped_text.runs@[run].clusters.end <= layout.shaped_text.clusters@.len());
    lemma_spaced_after(layout.shaped_text.spaced(), layout, 0, run, cluster);
}

} // verus!
