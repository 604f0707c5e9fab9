//! Resolves the embedding levels of a paragraph together with its inline
//! objects, without changing the text or its byte offsets.

use crate::context::{CharInfo, LayoutContext};
use crate::inline_box::{InlineBoxInput, InlineBoxKind};
use crate::resolve::white_space;
use crate::resolve::Brush;
use crate::scalar::Scalar;
use crate::style::BaseDirection;
use crate::text;
use vstd::prelude::*;

verus! {

/// The embedding level of a paragraph and those of its characters, as
/// `parley_engine::Analyzer::analyze` finds them (UAX #9). There are no levels
/// where the whole paragraph is left-to-right.
pub uninterp spec fn bidi_analysis(text: Seq<char>, direction: BaseDirection) -> (u8, Seq<u8>);

/// Calls `parley_engine::Analyzer::analyze` and returns the paragraph level and
/// the bidi levels of its result. They depend on the text and the direction
/// alone. There is a level for every character or there are none; what the
/// levels are is left to that crate.
#[verifier::external_body]
fn analyze_bidi(text: &str, direction: BaseDirection) -> (r: (u8, Vec<u8>))
    ensures
        (r.0, r.1@) == bidi_analysis(text@, direction),
        r.1@.len() == 0 || r.1@.len() == text@.len(),
{
    let base_direction = match direction {
        BaseDirection::Auto => parlance::BaseDirection::Auto,
        BaseDirection::Ltr => parlance::BaseDirection::Ltr,
        BaseDirection::Rtl => parlance::BaseDirection::Rtl,
    };
    let mut options = parley_engine::AnalysisOptions::default();
    options.base_direction = base_direction;
    let mut analysis = parley_engine::Analysis::new();
    parley_engine::Analyzer::new().analyze(text, &options, &mut analysis);
    let levels = analysis.bidi_levels().iter().map(|level| level.to_u8()).collect();
    (analysis.paragraph_level().to_u8(), levels)
}

/// The character that stands for an inline object.
pub const OBJECT_REPLACEMENT: char = '\u{fffc}';

/// Whether a box comes before the character at `index`: all that are left come
/// after the last character.
pub open spec fn comes_first(text: Seq<char>, index: int, at: usize) -> bool {
    index >= text.len() || at <= text::offset_of(text, index)
}

/// The offsets of the boxes that take part in bidi analysis.
pub open spec fn object_offsets<T: Scalar>(boxes: Seq<InlineBoxInput<T>>, count: int) -> Seq<usize>
    decreases count,
{
    if count <= 0 {
        Seq::empty()
    } else {
        let rest = object_offsets(boxes, count - 1);
        let inline_box = boxes[count - 1].inline_box;
        if inline_box.kind.spec_is_boundary() {
            rest
        } else {
            rest.push(inline_box.index)
        }
    }
}

/// The text from a character on, with a replacement character for each of the
/// objects from `object` on.
pub open spec fn with_objects(
    text: Seq<char>,
    objects: Seq<usize>,
    index: int,
    object: int,
) -> Seq<char>
    decreases text.len() - index + objects.len() - object,
{
    if 0 <= object < objects.len() && comes_first(text, index, objects[object]) && index
        <= text.len() {
        seq![OBJECT_REPLACEMENT] + with_objects(text, objects, index, object + 1)
    } else if 0 <= index < text.len() && object <= objects.len() {
        seq![text[index]] + with_objects(text, objects, index + 1, object)
    } else {
        Seq::empty()
    }
}

/// Levels that are being handed out to characters and boxes.
pub struct Projection {
    /// The levels of the boxes so far.
    pub boxes: Seq<u8>,
    /// The levels of the characters so far.
    pub characters: Seq<u8>,
    /// The next level.
    pub next: int,
    /// The level that was handed out last.
    pub previous: u8,
}

impl Projection {
    /// Hands the next level to a character.
    pub open spec fn with_character(self, levels: Seq<u8>) -> Self {
        Projection {
            characters: self.characters.push(levels[self.next]),
            next: self.next + 1,
            previous: levels[self.next],
            ..self
        }
    }

    /// Gives a box its level. An object has a level of its own. An opening
    /// edge takes that of what follows, a closing edge that of what precedes.
    pub open spec fn with_box(self, kind: InlineBoxKind, levels: Seq<u8>) -> Self {
        match kind {
            InlineBoxKind::InFlow
            | InlineBoxKind::OutOfFlow
            | InlineBoxKind::CustomOutOfFlow => Projection {
                boxes: self.boxes.push(levels[self.next]),
                next: self.next + 1,
                previous: levels[self.next],
                ..self
            },
            InlineBoxKind::StartBoundary | InlineBoxKind::TextBoundary => Projection {
                boxes: self.boxes.push(
                    if self.next < levels.len() {
                        levels[self.next]
                    } else {
                        self.previous
                    },
                ),
                ..self
            },
            InlineBoxKind::EndBoundary => Projection {
                boxes: self.boxes.push(self.previous),
                ..self
            },
        }
    }

    /// Hands levels to the characters from `index` on and to the boxes that
    /// have none yet.
    pub open spec fn over<T: Scalar>(
        self,
        text: Seq<char>,
        boxes: Seq<InlineBoxInput<T>>,
        levels: Seq<u8>,
        index: int,
    ) -> Self
        decreases text.len() - index + boxes.len() - self.boxes.len(),
    {
        let count = self.boxes.len() as int;
        if count < boxes.len() && comes_first(text, index, boxes[count].inline_box.index) && index
            <= text.len() {
            self.with_box(boxes[count].inline_box.kind, levels).over(text, boxes, levels, index)
        } else if 0 <= index < text.len() && count <= boxes.len() {
            self.with_character(levels).over(text, boxes, levels, index + 1)
        } else {
            self
        }
    }
}

/// The levels of the characters and boxes of a paragraph.
pub open spec fn projected<T: Scalar>(
    text: Seq<char>,
    boxes: Seq<InlineBoxInput<T>>,
    levels: Seq<u8>,
    base_level: u8,
) -> Projection {
    Projection {
        boxes: Seq::empty(),
        characters: Seq::empty(),
        next: 0,
        previous: base_level,
    }.over(text, boxes, levels, 0)
}

/// One level for each of `count` characters; the paragraph's where the
/// analysis gave none.
pub open spec fn levels_or_base(levels: Seq<u8>, base_level: u8, count: nat) -> Seq<u8> {
    if levels.len() == 0 {
        Seq::new(count, |i: int| base_level)
    } else {
        levels
    }
}

/// The boxes with the given levels.
pub open spec fn boxes_with_levels<T: Scalar>(
    boxes: Seq<InlineBoxInput<T>>,
    levels: Seq<u8>,
) -> Seq<InlineBoxInput<T>> {
    Seq::new(boxes.len(), |i: int| InlineBoxInput { bidi_level: levels[i], ..boxes[i] })
}

/// The characters with the given levels.
pub open spec fn info_with_levels(info: Seq<CharInfo>, levels: Seq<u8>) -> Seq<CharInfo> {
    Seq::new(info.len(), |i: int| CharInfo { bidi_level: levels[i], ..info[i] })
}

proof fn lemma_object_count<T: Scalar>(boxes: Seq<InlineBoxInput<T>>, count: int)
    requires
        0 <= count < boxes.len(),
    ensures
        object_offsets(boxes, count).len() <= count,
        object_offsets(boxes, count).len() <= object_offsets(boxes, boxes.len() as int).len(),
        !boxes[count].inline_box.kind.spec_is_boundary() ==> object_offsets(boxes, count).len()
            < object_offsets(boxes, boxes.len() as int).len(),
    decreases boxes.len() - count,
{
    lemma_object_count_bound(boxes, count);
    if count + 1 < boxes.len() {
        lemma_object_count(boxes, count + 1);
    }
}

proof fn lemma_object_count_bound<T: Scalar>(boxes: Seq<InlineBoxInput<T>>, count: int)
    ensures
        object_offsets(boxes, count).len() <= if count > 0 {
            count
        } else {
            0
        },
    decreases count,
{
    if count > 0 {
        lemma_object_count_bound(boxes, count - 1);
    }
}

proof fn lemma_with_objects_len(text: Seq<char>, objects: Seq<usize>, index: int, object: int)
    requires
        0 <= index <= text.len(),
        0 <= object <= objects.len(),
    ensures
        with_objects(text, objects, index, object).len() == text.len() - index + objects.len()
            - object,
    decreases text.len() - index + objects.len() - object,
{
    if object < objects.len() && comes_first(text, index, objects[object]) {
        lemma_with_objects_len(text, objects, index, object + 1);
    } else if index < text.len() {
        lemma_with_objects_len(text, objects, index + 1, object);
    }
}

/// The offsets of the boxes that take part in bidi analysis.
fn collect_objects<T: Scalar>(boxes: &Vec<InlineBoxInput<T>>) -> (r: Vec<usize>)
    ensures
        r@ == object_offsets(boxes@, boxes@.len() as int),
{
    let mut objects: Vec<usize> = Vec::new();
    let mut i: usize = 0;
    while i < boxes.len()
        invariant
            i <= boxes@.len(),
            objects@ == object_offsets(boxes@, i as int),
        decreases boxes@.len() - i,
    {
        let inline_box = boxes[i].inline_box;
        if !inline_box.kind.is_boundary() {
            objects.push(inline_box.index);
        }
        i = i + 1;
    }
    objects
}

/// The text with a replacement character for each object.
fn insert_objects(characters: &Vec<char>, objects: &Vec<usize>) -> (r: String)
    requires
        text::fits(characters@),
    ensures
        r@ == with_objects(characters@, objects@, 0, 0),
{
    let mut out = String::new();
    let mut index: usize = 0;
    let mut object: usize = 0;
    let mut offset: usize = 0;
    while index < characters.len() || object < objects.len()
        invariant
            text::fits(characters@),
            index <= characters@.len(),
            object <= objects@.len(),
            offset == text::offset_of(characters@, index as int),
            out@ + with_objects(characters@, objects@, index as int, object as int)
                == with_objects(characters@, objects@, 0, 0),
        decreases characters@.len() - index + objects@.len() - object,
    {
        let ghost before = out@;
        if object < objects.len() && (index >= characters.len() || objects[object] <= offset) {
            out.push(OBJECT_REPLACEMENT);
            object = object + 1;
        } else {
            proof {
                text::lemma_offset_monotone(characters@, index + 1, characters@.len() as int);
            }
            out.push(characters[index]);
            offset = offset + text::char_len(characters[index]);
            index = index + 1;
        }
        let ghost pushed = seq![out@.last()];
        let ghost rest = with_objects(characters@, objects@, index as int, object as int);
        assert(out@ =~= before + pushed);
        assert(before + (pushed + rest) =~= (before + pushed) + rest);
    }
    assert(out@ + Seq::<char>::empty() =~= out@);
    out
}

/// Gives a box its level; see [`Projection::with_box`].
fn assign_box_level<T: Scalar>(
    input: &mut InlineBoxInput<T>,
    levels: &Vec<u8>,
    next: &mut usize,
    previous: &mut u8,
    Ghost(so_far): Ghost<Projection>,
)
    requires
        so_far.next == *old(next),
        so_far.previous == *old(previous),
        *old(next) <= levels@.len(),
        !old(input).inline_box.kind.spec_is_boundary() ==> *old(next) < levels@.len(),
    ensures
        ({
            let after = so_far.with_box(old(input).inline_box.kind, levels@);
            &&& after.boxes == so_far.boxes.push(final(input).bidi_level)
            &&& after.next == *final(next)
            &&& after.previous == *final(previous)
        }),
        *final(input) == (InlineBoxInput { bidi_level: final(input).bidi_level, ..*old(input) }),
        *final(next) <= levels@.len(),
{
    match input.inline_box.kind {
        InlineBoxKind::InFlow | InlineBoxKind::OutOfFlow | InlineBoxKind::CustomOutOfFlow => {
            *previous = levels[*next];
            assert(levels.len() == levels@.len());
            *next = *next + 1;
            input.bidi_level = *previous;
        },
        InlineBoxKind::StartBoundary | InlineBoxKind::TextBoundary => {
            input.bidi_level = if *next < levels.len() {
                levels[*next]
            } else {
                *previous
            };
        },
        InlineBoxKind::EndBoundary => {
            input.bidi_level = *previous;
        },
    }
}

/// Hands the levels of a text with its objects out to its characters and
/// boxes. Inline edges do not take part in the analysis: an opening edge
/// follows the content after it, a closing edge that before it.
pub fn project_levels<T: Scalar>(
    characters: &Vec<char>,
    boxes: &mut Vec<InlineBoxInput<T>>,
    info: &mut Vec<CharInfo>,
    levels: &Vec<u8>,
    base_level: u8,
)
    requires
        text::fits(characters@),
        old(info)@.len() == characters@.len(),
        levels@.len() == characters@.len() + object_offsets(
            old(boxes)@,
            old(boxes)@.len() as int,
        ).len(),
    ensures
        ({
            let projection = projected(characters@, old(boxes)@, levels@, base_level);
            &&& final(boxes)@ == boxes_with_levels(old(boxes)@, projection.boxes)
            &&& final(info)@ == info_with_levels(old(info)@, projection.characters)
            &&& projection.boxes.len() == old(boxes)@.len()
            &&& projection.characters.len() == characters@.len()
            &&& projection.next == levels@.len()
        }),
{
    let ghost given = boxes@;
    let ghost target = projected(characters@, given, levels@, base_level);
    let ghost mut so_far = Projection {
        boxes: Seq::empty(),
        characters: Seq::empty(),
        next: 0,
        previous: base_level,
    };
    let mut index: usize = 0;
    let mut count: usize = 0;
    let mut offset: usize = 0;
    let mut next: usize = 0;
    let mut previous: u8 = base_level;
    while index < characters.len() || count < boxes.len()
        invariant
            text::fits(characters@),
            given == old(boxes)@,
            boxes@.len() == given.len(),
            info@.len() == characters@.len(),
            old(info)@.len() == characters@.len(),
            levels@.len() == characters@.len() + object_offsets(given, given.len() as int).len(),
            index <= characters@.len(),
            count <= boxes@.len(),
            offset == text::offset_of(characters@, index as int),
            so_far.boxes.len() == count,
            so_far.characters.len() == index,
            so_far.next == next,
            so_far.previous == previous,
            next == index + object_offsets(given, count as int).len(),
            target == projected(characters@, given, levels@, base_level),
            target == so_far.over(characters@, given, levels@, index as int),
            forall|i: int|
                0 <= i < boxes@.len() ==> #[trigger] boxes@[i] == if i < count {
                    InlineBoxInput { bidi_level: so_far.boxes[i], ..given[i] }
                } else {
                    given[i]
                },
            forall|i: int|
                0 <= i < info@.len() ==> #[trigger] info@[i] == if i < index {
                    CharInfo { bidi_level: so_far.characters[i], ..old(info)@[i] }
                } else {
                    old(info)@[i]
                },
        decreases characters@.len() - index + boxes@.len() - count,
    {
        if count < boxes.len() && (index >= characters.len() || boxes[count].inline_box.index
            <= offset) {
            proof {
                lemma_object_count(given, count as int);
            }
            let mut input = boxes[count];
            assign_box_level(&mut input, levels, &mut next, &mut previous, Ghost(so_far));
            boxes[count] = input;
            proof {
                so_far = so_far.with_box(given[count as int].inline_box.kind, levels@);
            }
            count = count + 1;
        } else {
            proof {
                text::lemma_offset_monotone(characters@, index + 1, characters@.len() as int);
                if count < boxes@.len() {
                    lemma_object_count(given, count as int);
                }
            }
            previous = levels[next];
            assert(levels.len() == levels@.len());
            next = next + 1;
            let mut character = info[index];
            character.bidi_level = previous;
            info[index] = character;
            offset = offset + text::char_len(characters[index]);
            proof {
                so_far = so_far.with_character(levels@);
            }
            index = index + 1;
        }
    }
    assert(target == so_far);
    assert(boxes@ =~= boxes_with_levels(given, target.boxes));
    assert(info@ =~= info_with_levels(old(info)@, target.characters));
}

fn push_copies(levels: &mut Vec<u8>, level: u8, count: usize)
    ensures
        final(levels)@ == old(levels)@ + Seq::new(count as nat, |i: int| level),
{
    let mut i: usize = 0;
    assert(levels@ =~= old(levels)@ + Seq::new(0, |k: int| level));
    while i < count
        invariant
            i <= count,
            levels@ == old(levels)@ + Seq::new(i as nat, |k: int| level),
        decreases count - i,
    {
        levels.push(level);
        i = i + 1;
        assert(levels@ =~= old(levels)@ + Seq::new(i as nat, |k: int| level));
    }
}

/// Resolves the embedding levels of a paragraph, its characters and its boxes.
///
/// Every box that is no inline edge takes part as a neutral object at its
/// place in the text.
pub fn resolve<T: Scalar, B: Brush>(
    lcx: &mut LayoutContext<T, B>,
    text: &str,
    base_direction: BaseDirection,
)
    requires
        text::fits(text@),
        old(lcx).info@.len() == text@.len(),
    ensures
        ({
            let boxes = old(lcx).inline_boxes@;
            let objects = object_offsets(boxes, boxes.len() as int);
            let combined = with_objects(text@, objects, 0, 0);
            let (base_level, found) = bidi_analysis(combined, base_direction);
            let levels = levels_or_base(found, base_level, combined.len());
            let projection = projected(text@, boxes, levels, base_level);
            &&& levels.len() == combined.len()
            &&& final(lcx).base_level == base_level
            &&& final(lcx).inline_boxes@ == boxes_with_levels(boxes, projection.boxes)
            &&& final(lcx).info@ == info_with_levels(old(lcx).info@, projection.characters)
        }),
        final(lcx).style_table == old(lcx).style_table,
        final(lcx).style_runs == old(lcx).style_runs,
        final(lcx).tree_style_builder == old(lcx).tree_style_builder,
{
    let characters = white_space::characters_of(text);
    let objects = collect_objects(&lcx.inline_boxes);
    let combined = insert_objects(&characters, &objects);
    proof {
        lemma_with_objects_len(text@, objects@, 0, 0);
    }
    let (base_level, found) = analyze_bidi(combined.as_str(), base_direction);
    let mut levels = found;
    if levels.len() == 0 {
        push_copies(&mut levels, base_level, characters.len());
        push_copies(&mut levels, base_level, objects.len());
    }
    proof {
        assert(levels@ =~= levels_or_base(found@, base_level, combined@.len()));
    }
    project_levels(&characters, &mut lcx.inline_boxes, &mut lcx.info, &levels, base_level);
    lcx.base_level = base_level;
}

// ---------------------------------------------------------------------------
// Laws.

/// The boxes that take part in the analysis, in order.
pub open spec fn objects_of<T: Scalar>(
    boxes: Seq<InlineBoxInput<T>>,
    count: int,
) -> Seq<InlineBoxInput<T>>
    decreases count,
{
    if count <= 0 {
        Seq::empty()
    } else {
        let rest = objects_of(boxes, count - 1);
        if boxes[count - 1].inline_box.kind.spec_is_boundary() {
            rest
        } else {
            rest.push(boxes[count - 1])
        }
    }
}

/// Inline edges take no part in the analysis: a paragraph is analysed as if it
/// had its other boxes alone.
pub proof fn lemma_edges_are_not_analysed<T: Scalar>(boxes: Seq<InlineBoxInput<T>>, count: int)
    requires
        0 <= count <= boxes.len(),
    ensures
        object_offsets(boxes, count) == object_offsets(
            objects_of(boxes, count),
            objects_of(boxes, count).len() as int,
        ),
    decreases count,
{
    if count > 0 {
        lemma_edges_are_not_analysed(boxes, count - 1);
        if !boxes[count - 1].inline_box.kind.spec_is_boundary() {
            let rest = objects_of(boxes, count - 1);
            let objects = rest.push(boxes[count - 1]);
            lemma_object_offsets_of_prefix(rest, objects, rest.len() as int);
        }
    }
}

proof fn lemma_object_offsets_of_prefix<T: Scalar>(
    a: Seq<InlineBoxInput<T>>,
    b: Seq<InlineBoxInput<T>>,
    count: int,
)
    requires
        count <= a.len(),
        forall|i: int| 0 <= i < count ==> a[i] == b[i],
    ensures
        object_offsets(a, count) == object_offsets(b, count),
    decreases count,
{
    if count > 0 {
        lemma_object_offsets_of_prefix(a, b, count - 1);
    }
}

/// A text without objects is analysed as it is.
pub proof fn lemma_text_without_objects(text: Seq<char>, index: int)
    requires
        0 <= index <= text.len(),
    ensures
        with_objects(text, Seq::<usize>::empty(), index, 0) == text.subrange(
            index,
            text.len() as int,
        ),
    decreases text.len() - index,
{
    let len = text.len() as int;
    if index < len {
        lemma_text_without_objects(text, index + 1);
        assert(text.subrange(index, len) =~= seq![text[index]] + text.subrange(index + 1, len));
    } else {
        assert(text.subrange(index, len) =~= Seq::empty());
    }
}

/// Edges change neither the levels of the characters nor how many levels there
/// are: handing out levels to a box that is an edge takes none.
pub proof fn lemma_edges_take_no_level(
    projection: Projection,
    kind: InlineBoxKind,
    levels: Seq<u8>,
)
    ensures
        ({
            let after = projection.with_box(kind, levels);
            &&& after.characters == projection.characters
            &&& kind.spec_is_boundary() ==> after.next == projection.next && after.previous
                == projection.previous
            &&& !kind.spec_is_boundary() ==> after.next == projection.next + 1
                && after.boxes.last() == levels[projection.next]
        }),
{
}

/// An opening edge has the level of what is handed out next, a closing edge the
/// level of what was handed out last.
pub proof fn lemma_edges_follow_their_content(projection: Projection, levels: Seq<u8>)
    requires
        0 <= projection.next < levels.len(),
    ensures
        projection.with_box(InlineBoxKind::StartBoundary, levels).boxes.last()
            == projection.with_character(levels).characters.last(),
        projection.with_character(levels).with_box(InlineBoxKind::EndBoundary, levels).boxes.last()
            == projection.with_character(levels).characters.last(),
{
}

/// The levels of the boxes that take part in the analysis, out of those of the
/// first `count` boxes.
pub open spec fn object_levels<T: Scalar>(
    boxes: Seq<InlineBoxInput<T>>,
    levels: Seq<u8>,
    count: int,
) -> Seq<u8>
    decreases count,
{
    if count <= 0 {
        Seq::empty()
    } else {
        let rest = object_levels(boxes, levels, count - 1);
        if boxes[count - 1].inline_box.kind.spec_is_boundary() {
            rest
        } else {
            rest.push(levels[count - 1])
        }
    }
}

/// The boxes come in the order of their offsets.
pub open spec fn in_order<T: Scalar>(boxes: Seq<InlineBoxInput<T>>) -> bool {
    forall|i: int, j: int|
        0 <= i <= j < boxes.len() ==> (#[trigger] boxes[i]).inline_box.index <= (
        #[trigger] boxes[j]).inline_box.index
}

proof fn lemma_objects_left<T: Scalar>(boxes: Seq<InlineBoxInput<T>>, count: int, to: int)
    requires
        in_order(boxes),
        0 <= count < to <= boxes.len(),
    ensures
        objects_of(boxes, count).len() <= objects_of(boxes, to).len(),
        !boxes[count].inline_box.kind.spec_is_boundary() ==> objects_of(boxes, count).len()
            < objects_of(boxes, to).len() && objects_of(boxes, to)[objects_of(
            boxes,
            count,
        ).len() as int] == boxes[count],
        forall|i: int|
            objects_of(boxes, count).len() <= i < objects_of(boxes, to).len() ==> (
            #[trigger] objects_of(boxes, to)[i]).inline_box.index
                >= boxes[count].inline_box.index,
    decreases to,
{
    if count + 1 < to {
        lemma_objects_left(boxes, count, to - 1);
    }
}

proof fn lemma_object_levels_of_prefix<T: Scalar>(
    boxes: Seq<InlineBoxInput<T>>,
    a: Seq<u8>,
    b: Seq<u8>,
    count: int,
)
    requires
        forall|i: int| 0 <= i < count ==> a[i] == b[i],
    ensures
        object_levels(boxes, a, count) == object_levels(boxes, b, count),
    decreases count,
{
    if count > 0 {
        lemma_object_levels_of_prefix(boxes, a, b, count - 1);
    }
}

proof fn lemma_edges_keep_projection<T: Scalar>(
    all: Projection,
    some: Projection,
    text: Seq<char>,
    boxes: Seq<InlineBoxInput<T>>,
    levels: Seq<u8>,
    index: int,
)
    requires
        in_order(boxes),
        0 <= index <= text.len(),
        all.boxes.len() <= boxes.len(),
        all.characters == some.characters,
        all.next == some.next,
        some.boxes.len() == objects_of(boxes, all.boxes.len() as int).len(),
        some.boxes == object_levels(boxes, all.boxes, all.boxes.len() as int),
    ensures
        ({
            let objects = objects_of(boxes, boxes.len() as int);
            let with_edges = all.over(text, boxes, levels, index);
            let without = some.over(text, objects, levels, index);
            &&& with_edges.characters == without.characters
            &&& without.boxes == object_levels(boxes, with_edges.boxes, boxes.len() as int)
        }),
    decreases text.len() - index + boxes.len() - all.boxes.len(),
{
    let count = all.boxes.len() as int;
    let objects = objects_of(boxes, boxes.len() as int);
    if count < boxes.len() {
        lemma_objects_left(boxes, count, boxes.len() as int);
    }
    if count < boxes.len() && comes_first(text, index, boxes[count].inline_box.index) {
        let kind = boxes[count].inline_box.kind;
        let all_next = all.with_box(kind, levels);
        lemma_object_levels_of_prefix(boxes, all.boxes, all_next.boxes, count);
        if kind.spec_is_boundary() {
            lemma_edges_keep_projection(all_next, some, text, boxes, levels, index);
        } else {
            assert(objects[some.boxes.len() as int] == boxes[count]);
            let some_next = some.with_box(kind, levels);
            lemma_edges_keep_projection(all_next, some_next, text, boxes, levels, index);
        }
    } else if index < text.len() {
        lemma_edges_keep_projection(
            all.with_character(levels),
            some.with_character(levels),
            text,
            boxes,
            levels,
            index + 1,
        );
    }
}

/// Inline edges change no level but their own: characters and the other boxes
/// have the levels that they would have without any edges. It holds of boxes
/// in the order of their offsets.
pub proof fn lemma_edges_change_no_other_level<T: Scalar>(
    text: Seq<char>,
    boxes: Seq<InlineBoxInput<T>>,
    levels: Seq<u8>,
    base_level: u8,
)
    requires
        in_order(boxes),
    ensures
        ({
            let objects = objects_of(boxes, boxes.len() as int);
            let with_edges = projected(text, boxes, levels, base_level);
            let without = projected(text, objects, levels, base_level);
            &&& with_edges.characters == without.characters
            &&& object_levels(boxes, with_edges.boxes, boxes.len() as int) == without.boxes
        }),
{
    let start = Projection {
        boxes: Seq::empty(),
        characters: Seq::empty(),
        next: 0,
        previous: base_level,
    };
    lemma_edges_keep_projection(start, start, text, boxes, levels, 0);
}

/// Where the characters from `index` on, and the objects from `object` on, come
/// to stand in the text with its objects, from the position `at` on.
pub open spec fn places(
    text: Seq<char>,
    objects: Seq<usize>,
    index: int,
    object: int,
    at: int,
) -> (Seq<int>, Seq<int>)
    decreases text.len() - index + objects.len() - object,
{
    if 0 <= object < objects.len() && comes_first(text, index, objects[object]) && index
        <= text.len() {
        let (characters, boxes) = places(text, objects, index, object + 1, at + 1);
        (characters, seq![at] + boxes)
    } else if 0 <= index < text.len() && object <= objects.len() {
        let (characters, boxes) = places(text, objects, index + 1, object, at + 1);
        (seq![at] + characters, boxes)
    } else {
        (Seq::empty(), Seq::empty())
    }
}

/// The levels at the given places.
pub open spec fn levels_at(levels: Seq<u8>, places: Seq<int>) -> Seq<u8> {
    Seq::new(places.len(), |i: int| levels[places[i]])
}

proof fn lemma_all_are_objects<T: Scalar>(boxes: Seq<InlineBoxInput<T>>, count: int)
    requires
        0 <= count <= boxes.len(),
        forall|i: int|
            0 <= i < boxes.len() ==> !(#[trigger] boxes[i]).inline_box.kind.spec_is_boundary(),
    ensures
        object_offsets(boxes, count) == Seq::new(
            count as nat,
            |i: int| boxes[i].inline_box.index,
        ),
    decreases count,
{
    if count > 0 {
        lemma_all_are_objects(boxes, count - 1);
        assert(!boxes[count - 1].inline_box.kind.spec_is_boundary());
    }
    assert(object_offsets(boxes, count) =~= Seq::new(
        count as nat,
        |i: int| boxes[i].inline_box.index,
    ));
}

proof fn lemma_levels_at_places<T: Scalar>(
    so_far: Projection,
    text: Seq<char>,
    boxes: Seq<InlineBoxInput<T>>,
    levels: Seq<u8>,
    index: int,
)
    requires
        forall|i: int|
            0 <= i < boxes.len() ==> !(#[trigger] boxes[i]).inline_box.kind.spec_is_boundary(),
        0 <= index <= text.len(),
        so_far.boxes.len() <= boxes.len(),
    ensures
        ({
            let objects = Seq::new(boxes.len(), |i: int| boxes[i].inline_box.index);
            let object = so_far.boxes.len() as int;
            let (characters, others) = places(text, objects, index, object, so_far.next);
            let combined = with_objects(text, objects, index, object);
            let after = so_far.over(text, boxes, levels, index);
            &&& after.characters == so_far.characters + levels_at(levels, characters)
            &&& after.boxes == so_far.boxes + levels_at(levels, others)
            &&& characters.len() == text.len() - index
            &&& others.len() == boxes.len() - object
            &&& forall|i: int|
                0 <= i < characters.len() ==> 0 <= #[trigger] characters[i] - so_far.next
                    < combined.len() && combined[characters[i] - so_far.next] == text[index + i]
            &&& forall|i: int|
                0 <= i < others.len() ==> 0 <= #[trigger] others[i] - so_far.next < combined.len()
                    && combined[others[i] - so_far.next] == OBJECT_REPLACEMENT
        }),
    decreases text.len() - index + boxes.len() - so_far.boxes.len(),
{
    let objects = Seq::new(boxes.len(), |i: int| boxes[i].inline_box.index);
    let object = so_far.boxes.len() as int;
    let at = so_far.next;
    let (characters, others) = places(text, objects, index, object, at);
    let combined = with_objects(text, objects, index, object);
    let after = so_far.over(text, boxes, levels, index);
    if object < boxes.len() && comes_first(text, index, boxes[object].inline_box.index) {
        let next = so_far.with_box(boxes[object].inline_box.kind, levels);
        assert(!boxes[object].inline_box.kind.spec_is_boundary());
        lemma_levels_at_places(next, text, boxes, levels, index);
        let (rest_characters, rest_others) = places(text, objects, index, object + 1, at + 1);
        let rest = with_objects(text, objects, index, object + 1);
        assert(after.boxes =~= so_far.boxes + levels_at(levels, others));
        assert forall|i: int| 0 <= i < characters.len() implies 0 <= #[trigger] characters[i] - at
            < combined.len() && combined[characters[i] - at] == text[index + i] by {
            assert(rest_characters[i] == characters[i]);
            assert(combined[characters[i] - at] == rest[characters[i] - at - 1]);
        }
        assert forall|i: int| 0 <= i < others.len() implies 0 <= #[trigger] others[i] - at
            < combined.len() && combined[others[i] - at] == OBJECT_REPLACEMENT by {
            if i > 0 {
                assert(rest_others[i - 1] == others[i]);
                assert(combined[others[i] - at] == rest[others[i] - at - 1]);
            }
        }
    } else if index < text.len() {
        let next = so_far.with_character(levels);
        lemma_levels_at_places(next, text, boxes, levels, index + 1);
        let (rest_characters, rest_others) = places(text, objects, index + 1, object, at + 1);
        let rest = with_objects(text, objects, index + 1, object);
        assert(after.characters =~= so_far.characters + levels_at(levels, characters));
        assert forall|i: int| 0 <= i < characters.len() implies 0 <= #[trigger] characters[i] - at
            < combined.len() && combined[characters[i] - at] == text[index + i] by {
            if i > 0 {
                assert(rest_characters[i - 1] == characters[i]);
                assert(combined[characters[i] - at] == rest[characters[i] - at - 1]);
            }
        }
        assert forall|i: int| 0 <= i < others.len() implies 0 <= #[trigger] others[i] - at
            < combined.len() && combined[others[i] - at] == OBJECT_REPLACEMENT by {
            assert(rest_others[i] == others[i]);
            assert(combined[others[i] - at] == rest[others[i] - at - 1]);
        }
    } else {
        assert(after.characters =~= so_far.characters + levels_at(levels, characters));
        assert(after.boxes =~= so_far.boxes + levels_at(levels, others));
    }
}

/// Objects are resolved as if they were written into the text. The text with a
/// replacement character for each object is analysed the same without any
/// boxes, so that it has the same levels. Each character has the level of its
/// copy there, and each object the level of its replacement character.
pub proof fn lemma_objects_are_resolved_as_text<T: Scalar>(
    text: Seq<char>,
    boxes: Seq<InlineBoxInput<T>>,
    levels: Seq<u8>,
    base_level: u8,
)
    requires
        forall|i: int|
            0 <= i < boxes.len() ==> !(#[trigger] boxes[i]).inline_box.kind.spec_is_boundary(),
    ensures
        ({
            let none = Seq::<InlineBoxInput<T>>::empty();
            let objects = object_offsets(boxes, boxes.len() as int);
            let literal = with_objects(text, objects, 0, 0);
            let resolved = projected(text, boxes, levels, base_level);
            let written = projected(literal, none, levels, base_level);
            let (characters, others) = places(text, objects, 0, 0, 0);
            &&& with_objects(literal, object_offsets(none, 0), 0, 0) == literal
            &&& written.characters == Seq::new(literal.len(), |i: int| levels[i])
            &&& resolved.characters == levels_at(written.characters, characters)
            &&& resolved.boxes == levels_at(written.characters, others)
            &&& characters.len() == text.len()
            &&& others.len() == boxes.len()
            &&& forall|i: int|
                0 <= i < characters.len() ==> 0 <= #[trigger] characters[i] < literal.len()
                    && literal[characters[i]] == text[i]
            &&& forall|i: int|
                0 <= i < others.len() ==> 0 <= #[trigger] others[i] < literal.len()
                    && literal[others[i]] == OBJECT_REPLACEMENT
        }),
{
    let none = Seq::<InlineBoxInput<T>>::empty();
    let objects = object_offsets(boxes, boxes.len() as int);
    let literal = with_objects(text, objects, 0, 0);
    lemma_all_are_objects(boxes, boxes.len() as int);
    lemma_text_without_objects(literal, 0);
    assert(object_offsets(none, 0) =~= Seq::<usize>::empty());
    assert(literal.subrange(0, literal.len() as int) =~= literal);
    let start = Projection {
        boxes: Seq::empty(),
        characters: Seq::empty(),
        next: 0,
        previous: base_level,
    };
    lemma_levels_at_places(start, text, boxes, levels, 0);
    lemma_written_levels(start, literal, none, levels, 0);
    let resolved = projected(text, boxes, levels, base_level);
    let (characters, others) = places(text, objects, 0, 0, 0);
    assert forall|i: int| 0 <= i < characters.len() implies 0 <= #[trigger] characters[i]
        < literal.len() && literal[characters[i]] == text[i] by {
        assert(0 <= characters[i] - 0 < literal.len());
    }
    assert forall|i: int| 0 <= i < others.len() implies 0 <= #[trigger] others[i] < literal.len()
        && literal[others[i]] == OBJECT_REPLACEMENT by {
        assert(0 <= others[i] - 0 < literal.len());
    }
    let written = projected(literal, none, levels, base_level);
    assert(written.characters =~= Seq::new(literal.len(), |i: int| levels[i]));
    assert(resolved.characters =~= levels_at(written.characters, characters));
    assert(resolved.boxes =~= levels_at(written.characters, others));
}

/// Without boxes the characters take the levels one by one.
proof fn lemma_written_levels<T: Scalar>(
    so_far: Projection,
    text: Seq<char>,
    none: Seq<InlineBoxInput<T>>,
    levels: Seq<u8>,
    index: int,
)
    requires
        none.len() == 0,
        so_far.boxes.len() == 0,
        0 <= index <= text.len(),
        so_far.next == index,
    ensures
        so_far.over(text, none, levels, index).characters == so_far.characters + Seq::new(
            (text.len() - index) as nat,
            |i: int| levels[index + i],
        ),
    decreases text.len() - index,
{
    let left = Seq::new((text.len() - index) as nat, |i: int| levels[index + i]);
    if index < text.len() {
        let next = so_far.with_character(levels);
        lemma_written_levels(next, text, none, levels, index + 1);
        assert(so_far.characters + left =~= next.characters + Seq::new(
            (text.len() - index - 1) as nat,
            |i: int| levels[index + 1 + i],
        ));
    } else {
        assert(so_far.characters + left =~= so_far.characters);
    }
}

} // verus!
