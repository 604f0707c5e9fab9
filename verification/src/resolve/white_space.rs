//! White-space processing of source text.

use vstd::prelude::*;

verus! {

/// `String::push` appends one character.
pub assume_specification[ String::push ](s: &mut String, c: char)
    ensures
        final(s)@ == old(s)@.push(c),
;

pub open spec fn spec_is_ascii_whitespace(c: char) -> bool {
    c == ' ' || c == '\t' || c == '\n' || c == '\u{c}' || c == '\r'
}

/// Whether a character is ASCII white space.
pub fn is_ascii_whitespace(c: char) -> (r: bool)
    ensures
        r == spec_is_ascii_whitespace(c),
{
    c == ' ' || c == '\t' || c == '\n' || c == '\u{c}' || c == '\r'
}

/// The Unicode line and paragraph separators.
pub open spec fn spec_is_separator(c: char) -> bool {
    c == '\u{2028}' || c == '\u{2029}'
}

fn is_separator(c: char) -> (r: bool)
    ensures
        r == spec_is_separator(c),
{
    c == '\u{2028}' || c == '\u{2029}'
}

/// White space that collapses.
pub open spec fn spec_is_collapsible(c: char) -> bool {
    spec_is_ascii_whitespace(c) || spec_is_separator(c)
}

fn is_collapsible(c: char) -> (r: bool)
    ensures
        r == spec_is_collapsible(c),
{
    is_ascii_whitespace(c) || is_separator(c)
}

/// Whether a segment break starts at a position. A carriage return and the
/// line feed after it are one segment break.
pub open spec fn is_segment_break(text: Seq<char>, at: int) -> bool {
    spec_is_separator(text[at]) || text[at] == '\r' || (text[at] == '\n' && !(at > 0 && text[at
        - 1] == '\r'))
}

/// The number of segment breaks in `from..to`.
pub open spec fn segment_breaks(text: Seq<char>, from: int, to: int) -> nat
    decreases to - from,
{
    if from >= to {
        0
    } else {
        segment_breaks(text, from, to - 1) + if is_segment_break(text, to - 1) {
            1nat
        } else {
            0nat
        }
    }
}

/// The end of the collapsible white space that starts at a position.
pub open spec fn white_space_end(text: Seq<char>, at: int) -> int
    decreases text.len() - at,
{
    if at >= text.len() || !spec_is_collapsible(text[at]) {
        at
    } else {
        white_space_end(text, at + 1)
    }
}

/// The start of the collapsible white space that ends at a position.
pub open spec fn white_space_start(text: Seq<char>, from: int, at: int) -> int
    decreases at - from,
{
    if at <= from || !spec_is_collapsible(text[at - 1]) {
        at
    } else {
        white_space_start(text, from, at - 1)
    }
}

/// What white space with a number of segment breaks collapses to.
pub open spec fn collapsed_run(breaks: nat, preserve_breaks: bool) -> Seq<char> {
    if preserve_breaks && breaks > 0 {
        Seq::new(breaks, |i: int| '\n')
    } else {
        seq![' ']
    }
}

/// The text from a position on with its white space collapsed.
pub open spec fn collapsed_from(text: Seq<char>, at: int, preserve_breaks: bool) -> Seq<char>
    decreases text.len() - at,
{
    if at >= text.len() {
        Seq::empty()
    } else if !spec_is_collapsible(text[at]) {
        seq![text[at]] + collapsed_from(text, at + 1, preserve_breaks)
    } else {
        let end = white_space_end(text, at);
        proof {
            lemma_white_space_end(text, at);
        }
        collapsed_run(segment_breaks(text, at, end), preserve_breaks) + collapsed_from(
            text,
            end,
            preserve_breaks,
        )
    }
}

/// The text without collapsible white space at its ends.
pub open spec fn trimmed(text: Seq<char>, trim_start: bool, trim_end: bool) -> Seq<char> {
    let start = if trim_start {
        white_space_end(text, 0)
    } else {
        0
    };
    let end = if trim_end {
        white_space_start(text, start, text.len() as int)
    } else {
        text.len() as int
    };
    text.subrange(start, end)
}

/// The text with its white space collapsed: each stretch of it becomes a
/// space, or its segment breaks if these are preserved.
pub open spec fn collapsed(
    text: Seq<char>,
    preserve_breaks: bool,
    trim_start: bool,
    trim_end: bool,
) -> Seq<char> {
    collapsed_from(trimmed(text, trim_start, trim_end), 0, preserve_breaks)
}

/// The text from a position on with tabs and segment breaks as spaces.
pub open spec fn spaces_from(text: Seq<char>, at: int) -> Seq<char>
    decreases text.len() - at,
{
    if at >= text.len() {
        Seq::empty()
    } else if text[at] == '\r' && at + 1 < text.len() && text[at + 1] == '\n' {
        seq![' '] + spaces_from(text, at + 2)
    } else if text[at] == '\t' || text[at] == '\n' || text[at] == '\r' || spec_is_separator(
        text[at],
    ) {
        seq![' '] + spaces_from(text, at + 1)
    } else {
        seq![text[at]] + spaces_from(text, at + 1)
    }
}

pub proof fn lemma_white_space_end(text: Seq<char>, at: int)
    ensures
        at <= white_space_end(text, at),
        at <= text.len() ==> white_space_end(text, at) <= text.len(),
        at < text.len() && spec_is_collapsible(text[at]) ==> at < white_space_end(text, at),
        forall|i: int|
            at <= i < white_space_end(text, at) ==> spec_is_collapsible(#[trigger] text[i]),
        at <= text.len() && white_space_end(text, at) < text.len() ==> !spec_is_collapsible(
            text[white_space_end(text, at)],
        ),
    decreases text.len() - at,
{
    if at >= text.len() || !spec_is_collapsible(text[at]) {
    } else {
        lemma_white_space_end(text, at + 1);
    }
}

pub proof fn lemma_white_space_start(text: Seq<char>, from: int, at: int)
    requires
        from <= at,
    ensures
        from <= white_space_start(text, from, at) <= at,
        forall|i: int|
            white_space_start(text, from, at) <= i < at ==> spec_is_collapsible(#[trigger] text[i]),
        from < white_space_start(text, from, at) ==> !spec_is_collapsible(
            text[white_space_start(text, from, at) - 1],
        ),
    decreases at - from,
{
    if at <= from || !spec_is_collapsible(text[at - 1]) {
    } else {
        lemma_white_space_start(text, from, at - 1);
    }
}

/// The characters of a text.
pub(crate) fn characters_of(text: &str) -> (r: Vec<char>)
    ensures
        r@ == text@,
{
    let mut characters: Vec<char> = Vec::new();
    for c in iter: text.chars()
        invariant
            characters@ == iter.seq().take(iter.index()),
            iter.seq() == text@,
    {
        characters.push(c);
    }
    assert(characters@ =~= text@);
    characters
}

fn push_collapsed_run(out: &mut String, breaks: usize, preserve_breaks: bool)
    ensures
        final(out)@ == old(out)@ + collapsed_run(breaks as nat, preserve_breaks),
{
    if preserve_breaks && breaks > 0 {
        let mut i: usize = 0;
        while i < breaks
            invariant
                i <= breaks,
                out@ == old(out)@ + Seq::new(i as nat, |k: int| '\n'),
            decreases breaks - i,
        {
            out.push('\n');
            i = i + 1;
            assert(out@ =~= old(out)@ + Seq::new(i as nat, |k: int| '\n'));
        }
    } else {
        out.push(' ');
        assert(out@ =~= old(out)@ + seq![' ']);
    }
}

/// Collapses white space in place.
///
/// Segment breaks are either collapsed with the white space around them or, to
/// preserve breaks, kept as line feeds. A carriage return and a line feed are
/// one segment break.
pub fn collapse_white_space(
    text: &mut String,
    preserve_breaks: bool,
    trim_start: bool,
    trim_end: bool,
)
    ensures
        final(text)@ == collapsed(old(text)@, preserve_breaks, trim_start, trim_end),
{
    let source = characters_of(text.as_str());
    let mut start: usize = 0;
    if trim_start {
        while start < source.len() && is_collapsible(source[start])
            invariant
                start <= source@.len(),
                white_space_end(source@, 0) == white_space_end(source@, start as int),
            decreases source@.len() - start,
        {
            start = start + 1;
        }
    }
    let mut end: usize = source.len();
    if trim_end {
        while end > start && is_collapsible(source[end - 1])
            invariant
                start <= end <= source@.len(),
                white_space_start(source@, start as int, source@.len() as int)
                    == white_space_start(source@, start as int, end as int),
            decreases end,
        {
            end = end - 1;
        }
    }
    let ghost kept = trimmed(source@, trim_start, trim_end);
    assert(kept == source@.subrange(start as int, end as int));

    let mut out = String::new();
    let mut read: usize = start;
    while read < end
        invariant
            start <= read <= end <= source@.len(),
            kept == source@.subrange(start as int, end as int),
            out@ + collapsed_from(kept, read - start, preserve_breaks) == collapsed_from(
                kept,
                0,
                preserve_breaks,
            ),
        decreases end - read,
    {
        let ghost before = out@;
        let ghost at = read - start;
        if !is_collapsible(source[read]) {
            out.push(source[read]);
            read = read + 1;
            assert(out@ =~= before + seq![kept[at]]);
            assert(before + (seq![kept[at]] + collapsed_from(kept, at + 1, preserve_breaks))
                =~= (before + seq![kept[at]]) + collapsed_from(kept, at + 1, preserve_breaks));
        } else {
            let mut breaks: usize = 0;
            let ghost first = at;
            proof {
                lemma_white_space_end(kept, at);
            }
            while read < end && is_collapsible(source[read])
                invariant
                    start <= read <= end <= source@.len(),
                    kept == source@.subrange(start as int, end as int),
                    0 <= first <= read - start,
                    breaks <= read - start - first,
                    breaks == segment_breaks(kept, first, read - start),
                    white_space_end(kept, first) == white_space_end(kept, read - start),
                decreases end - read,
            {
                let c = source[read];
                if is_separator(c) || c == '\r' || (c == '\n' && !(read > start && source[read - 1]
                    == '\r')) {
                    breaks = breaks + 1;
                }
                read = read + 1;
            }
            push_collapsed_run(&mut out, breaks, preserve_breaks);
            let ghost run = collapsed_run(breaks as nat, preserve_breaks);
            assert(before + (run + collapsed_from(kept, read - start, preserve_breaks)) =~= (before
                + run) + collapsed_from(kept, read - start, preserve_breaks));
        }
    }
    assert(out@ + Seq::<char>::empty() =~= out@);
    *text = out;
}

/// Converts tabs and segment breaks to spaces in place. A carriage return and
/// a line feed are one segment break; the Unicode line and paragraph
/// separators are segment breaks too.
pub fn convert_white_space_to_spaces(text: &mut String)
    ensures
        final(text)@ == spaces_from(old(text)@, 0),
{
    let source = characters_of(text.as_str());
    let mut out = String::new();
    let mut read: usize = 0;
    while read < source.len()
        invariant
            read <= source@.len(),
            out@ + spaces_from(source@, read as int) == spaces_from(source@, 0),
        decreases source@.len() - read,
    {
        let ghost before = out@;
        let ghost at = read as int;
        let c = source[read];
        if c == '\r' && read + 1 < source.len() && source[read + 1] == '\n' {
            out.push(' ');
            read = read + 2;
        } else if c == '\t' || c == '\n' || c == '\r' || is_separator(c) {
            out.push(' ');
            read = read + 1;
        } else {
            out.push(c);
            read = read + 1;
        }
        let ghost pushed = seq![out@.last()];
        assert(out@ =~= before + pushed);
        assert(before + (pushed + spaces_from(source@, read as int)) =~= (before + pushed)
            + spaces_from(source@, read as int));
    }
    assert(out@ + Seq::<char>::empty() =~= out@);
    *text = out;
}

// ---------------------------------------------------------------------------
// Laws.

/// The text holds no white space that collapses but single spaces and, where
/// breaks are preserved, line feeds that nothing else adjoins.
pub open spec fn is_collapsed(text: Seq<char>, preserve_breaks: bool) -> bool {
    &&& forall|i: int|
        0 <= i < text.len() && spec_is_collapsible(#[trigger] text[i]) ==> text[i] == ' ' || (
        preserve_breaks && text[i] == '\n')
    &&& forall|i: int, j: int|
        0 <= i && j == i + 1 && j < text.len() && spec_is_collapsible(#[trigger] text[i])
            && spec_is_collapsible(#[trigger] text[j]) ==> text[i] == '\n' && text[j] == '\n'
}

proof fn lemma_collapsed_from(text: Seq<char>, at: int, preserve_breaks: bool)
    requires
        0 <= at <= text.len(),
    ensures
        is_collapsed(collapsed_from(text, at, preserve_breaks), preserve_breaks),
        at < text.len() ==> collapsed_from(text, at, preserve_breaks).len() > 0,
        at < text.len() ==> spec_is_collapsible(collapsed_from(text, at, preserve_breaks)[0])
            == spec_is_collapsible(text[at]),
    decreases text.len() - at,
{
    let out = collapsed_from(text, at, preserve_breaks);
    if at >= text.len() {
    } else if !spec_is_collapsible(text[at]) {
        lemma_collapsed_from(text, at + 1, preserve_breaks);
        let rest = collapsed_from(text, at + 1, preserve_breaks);
        assert(out == seq![text[at]] + rest);
        assert forall|i: int| 0 <= i < out.len() && spec_is_collapsible(#[trigger] out[i]) implies
            out[i] == ' ' || (preserve_breaks && out[i] == '\n') by {
            assert(out[i] == rest[i - 1]);
        }
        assert forall|i: int, j: int|
            0 <= i && j == i + 1 && j < out.len() && spec_is_collapsible(#[trigger] out[i])
                && spec_is_collapsible(#[trigger] out[j]) implies out[i] == '\n' && out[j]
            == '\n' by {
            assert(out[i] == rest[i - 1]);
            assert(out[j] == rest[j - 1]);
        }
    } else {
        lemma_white_space_end(text, at);
        let end = white_space_end(text, at);
        lemma_collapsed_from(text, end, preserve_breaks);
        let run = collapsed_run(segment_breaks(text, at, end), preserve_breaks);
        let rest = collapsed_from(text, end, preserve_breaks);
        assert(out == run + rest);
        assert(run.len() > 0);
        assert forall|i: int| 0 <= i < out.len() && spec_is_collapsible(#[trigger] out[i]) implies
            out[i] == ' ' || (preserve_breaks && out[i] == '\n') by {
            if i < run.len() {
                assert(out[i] == run[i]);
            } else {
                assert(out[i] == rest[i - run.len()]);
            }
        }
        assert forall|i: int, j: int|
            0 <= i && j == i + 1 && j < out.len() && spec_is_collapsible(#[trigger] out[i])
                && spec_is_collapsible(#[trigger] out[j]) implies out[i] == '\n' && out[j]
            == '\n' by {
            if j < run.len() {
                assert(out[i] == run[i]);
                assert(out[j] == run[j]);
            } else if i < run.len() {
                assert(out[j] == rest[0]);
                assert(end < text.len());
            } else {
                assert(out[i] == rest[i - run.len()]);
                assert(out[j] == rest[j - run.len()]);
            }
        }
    }
}

/// Collapsing leaves no tab, carriage return, form feed or separator, and no
/// two spaces side by side. Line feeds are left where breaks are preserved, and
/// then no space adjoins them.
pub proof fn lemma_collapsed(
    text: Seq<char>,
    preserve_breaks: bool,
    trim_start: bool,
    trim_end: bool,
)
    ensures
        is_collapsed(collapsed(text, preserve_breaks, trim_start, trim_end), preserve_breaks),
{
    lemma_trimmed(text, trim_start, trim_end);
    lemma_collapsed_from(trimmed(text, trim_start, trim_end), 0, preserve_breaks);
}

/// Trimming leaves a part of the text, without collapsible white space at the
/// ends that are trimmed.
pub proof fn lemma_trimmed(text: Seq<char>, trim_start: bool, trim_end: bool)
    ensures
        ({
            let kept = trimmed(text, trim_start, trim_end);
            &&& kept.len() <= text.len()
            &&& kept.len() > 0 && trim_start ==> !spec_is_collapsible(kept[0])
            &&& kept.len() > 0 && trim_end ==> !spec_is_collapsible(kept.last())
            &&& !trim_start && !trim_end ==> kept == text
        }),
{
    lemma_white_space_end(text, 0);
    let start = if trim_start {
        white_space_end(text, 0)
    } else {
        0
    };
    lemma_white_space_start(text, start, text.len() as int);
}

proof fn lemma_collapsed_run_of_text(text: Seq<char>, at: int, preserve_breaks: bool)
    requires
        0 <= at <= text.len(),
        is_collapsed(text, preserve_breaks),
    ensures
        collapsed_from(text, at, preserve_breaks) == text.subrange(at, text.len() as int),
    decreases text.len() - at,
{
    if at >= text.len() {
        assert(text.subrange(at, text.len() as int) =~= Seq::empty());
    } else if !spec_is_collapsible(text[at]) {
        lemma_collapsed_run_of_text(text, at + 1, preserve_breaks);
        assert(text.subrange(at, text.len() as int) =~= seq![text[at]] + text.subrange(
            at + 1,
            text.len() as int,
        ));
    } else {
        lemma_white_space_end(text, at);
        let end = white_space_end(text, at);
        lemma_collapsed_run_of_text(text, end, preserve_breaks);
        lemma_breaks_of_collapsed(text, at, end, end, preserve_breaks);
        let run = collapsed_run(segment_breaks(text, at, end), preserve_breaks);
        assert(run =~= text.subrange(at, end));
        assert(text.subrange(at, text.len() as int) =~= run + text.subrange(
            end,
            text.len() as int,
        ));
    }
}

/// White space in collapsed text is one space, or line feeds alone.
proof fn lemma_breaks_of_collapsed(
    text: Seq<char>,
    at: int,
    to: int,
    end: int,
    preserve_breaks: bool,
)
    requires
        is_collapsed(text, preserve_breaks),
        0 <= at < to <= end <= text.len(),
        forall|i: int| at <= i < end ==> spec_is_collapsible(#[trigger] text[i]),
    ensures
        text[at] == ' ' ==> to == at + 1 && segment_breaks(text, at, to) == 0,
        text[at] != ' ' ==> preserve_breaks && segment_breaks(text, at, to) == to - at && forall|
            i: int,
        |
            at <= i < to ==> #[trigger] text[i] == '\n',
    decreases to - at,
{
    if to == at + 1 {
        assert(segment_breaks(text, at, at) == 0);
        if text[at] != ' ' && at > 0 && text[at - 1] == '\r' {
            assert(spec_is_collapsible(text[at - 1]));
        }
    } else {
        lemma_breaks_of_collapsed(text, at, to - 1, end, preserve_breaks);
        assert(spec_is_collapsible(text[to - 2]));
        assert(spec_is_collapsible(text[to - 1]));
    }
}

/// Collapsing collapsed text changes nothing. So collapsing twice is collapsing
/// once, and text without white space is left alone.
pub proof fn lemma_collapsing_is_idempotent(text: Seq<char>, preserve_breaks: bool)
    requires
        is_collapsed(text, preserve_breaks),
    ensures
        collapsed(text, preserve_breaks, false, false) == text,
{
    lemma_trimmed(text, false, false);
    lemma_collapsed_run_of_text(text, 0, preserve_breaks);
    assert(text.subrange(0, text.len() as int) =~= text);
}

/// The text holds no tab and no segment break.
pub open spec fn is_converted(text: Seq<char>) -> bool {
    forall|i: int|
        0 <= i < text.len() ==> #[trigger] text[i] != '\t' && text[i] != '\n' && text[i] != '\r'
            && !spec_is_separator(text[i])
}

proof fn lemma_spaces_from(text: Seq<char>, at: int)
    requires
        0 <= at,
    ensures
        is_converted(spaces_from(text, at)),
        is_converted(text) && at <= text.len() ==> spaces_from(text, at) == text.subrange(
            at,
            text.len() as int,
        ),
    decreases text.len() - at,
{
    if at >= text.len() {
        if at == text.len() {
            assert(text.subrange(at, text.len() as int) =~= Seq::empty());
        }
    } else {
        let step = if text[at] == '\r' && at + 1 < text.len() && text[at + 1] == '\n' {
            2int
        } else {
            1int
        };
        lemma_spaces_from(text, at + step);
        let out = spaces_from(text, at);
        let rest = spaces_from(text, at + step);
        assert(out == seq![out[0]] + rest);
        assert forall|i: int| 0 <= i < out.len() implies #[trigger] out[i] != '\t' && out[i]
            != '\n' && out[i] != '\r' && !spec_is_separator(out[i]) by {
            if i > 0 {
                assert(out[i] == rest[i - 1]);
            }
        }
        if is_converted(text) {
            assert(text.subrange(at, text.len() as int) =~= seq![text[at]] + text.subrange(
                at + 1,
                text.len() as int,
            ));
        }
    }
}

/// Converting white space to spaces leaves no tab and no segment break, and
/// converting again changes nothing.
pub proof fn lemma_converting_is_idempotent(text: Seq<char>)
    ensures
        is_converted(spaces_from(text, 0)),
        spaces_from(spaces_from(text, 0), 0) == spaces_from(text, 0),
{
    let converted = spaces_from(text, 0);
    lemma_spaces_from(text, 0);
    lemma_spaces_from(converted, 0);
    assert(converted.subrange(0, converted.len() as int) =~= converted);
}

/// The characters of a text that do not collapse.
pub open spec fn content_of(text: Seq<char>) -> Seq<char> {
    text.filter(|c: char| !spec_is_collapsible(c))
}

proof fn lemma_content_of_white_space(text: Seq<char>)
    requires
        forall|i: int| 0 <= i < text.len() ==> spec_is_collapsible(#[trigger] text[i]),
    ensures
        content_of(text) == Seq::<char>::empty(),
    decreases text.len(),
{
    reveal(Seq::filter);
    if text.len() > 0 {
        lemma_content_of_white_space(text.drop_last());
    }
}

proof fn lemma_content_of_sum(a: Seq<char>, b: Seq<char>)
    ensures
        content_of(a + b) == content_of(a) + content_of(b),
{
    Seq::filter_distributes_over_add(a, b, |c: char| !spec_is_collapsible(c));
}

proof fn lemma_collapsed_from_content(text: Seq<char>, at: int, preserve_breaks: bool)
    requires
        0 <= at <= text.len(),
    ensures
        content_of(collapsed_from(text, at, preserve_breaks)) == content_of(
            text.subrange(at, text.len() as int),
        ),
    decreases text.len() - at,
{
    let len = text.len() as int;
    if at >= len {
        assert(text.subrange(at, len) =~= Seq::empty());
    } else if !spec_is_collapsible(text[at]) {
        lemma_collapsed_from_content(text, at + 1, preserve_breaks);
        lemma_content_of_sum(seq![text[at]], collapsed_from(text, at + 1, preserve_breaks));
        lemma_content_of_sum(seq![text[at]], text.subrange(at + 1, len));
        assert(text.subrange(at, len) =~= seq![text[at]] + text.subrange(at + 1, len));
    } else {
        lemma_white_space_end(text, at);
        let end = white_space_end(text, at);
        let run = collapsed_run(segment_breaks(text, at, end), preserve_breaks);
        lemma_collapsed_from_content(text, end, preserve_breaks);
        lemma_content_of_white_space(run);
        lemma_content_of_white_space(text.subrange(at, end));
        lemma_content_of_sum(run, collapsed_from(text, end, preserve_breaks));
        lemma_content_of_sum(text.subrange(at, end), text.subrange(end, len));
        assert(text.subrange(at, len) =~= text.subrange(at, end) + text.subrange(end, len));
    }
}

/// Collapsing drops and replaces white space alone: all other characters stay,
/// in their order. No-break spaces and ideographic spaces are among these.
pub proof fn lemma_collapsing_keeps_content(
    text: Seq<char>,
    preserve_breaks: bool,
    trim_start: bool,
    trim_end: bool,
)
    ensures
        content_of(collapsed(text, preserve_breaks, trim_start, trim_end)) == content_of(text),
{
    let len = text.len() as int;
    lemma_white_space_end(text, 0);
    let start = if trim_start {
        white_space_end(text, 0)
    } else {
        0
    };
    lemma_white_space_start(text, start, len);
    let end = if trim_end {
        white_space_start(text, start, len)
    } else {
        len
    };
    let kept = text.subrange(start, end);
    lemma_collapsed_from_content(kept, 0, preserve_breaks);
    assert(kept.subrange(0, kept.len() as int) =~= kept);
    lemma_content_of_white_space(text.subrange(0, start));
    lemma_content_of_white_space(text.subrange(end, len));
    lemma_content_of_sum(text.subrange(0, start), kept);
    lemma_content_of_sum(text.subrange(0, start) + kept, text.subrange(end, len));
    assert(text =~= text.subrange(0, start) + kept + text.subrange(end, len));
}

/// Text that is collapsed from its first character on can be appended to
/// collapsed text if it does not bring white space to white space.
pub proof fn lemma_collapsed_sum(a: Seq<char>, b: Seq<char>, preserve_breaks: bool)
    requires
        is_collapsed(a, preserve_breaks),
        is_collapsed(b, preserve_breaks),
        a.len() > 0 && b.len() > 0 ==> !spec_is_collapsible(a.last()) || !spec_is_collapsible(b[0]),
    ensures
        is_collapsed(a + b, preserve_breaks),
{
    let sum = a + b;
    assert forall|i: int| 0 <= i < sum.len() && spec_is_collapsible(#[trigger] sum[i]) implies
        sum[i] == ' ' || (preserve_breaks && sum[i] == '\n') by {
        if i < a.len() {
            assert(sum[i] == a[i]);
        } else {
            assert(sum[i] == b[i - a.len()]);
        }
    }
    assert forall|i: int, j: int|
        0 <= i && j == i + 1 && j < sum.len() && spec_is_collapsible(#[trigger] sum[i])
            && spec_is_collapsible(#[trigger] sum[j]) implies sum[i] == '\n' && sum[j] == '\n' by {
        if j < a.len() {
            assert(sum[i] == a[i]);
            assert(sum[j] == a[j]);
        } else if i < a.len() {
            assert(sum[i] == a.last());
            assert(sum[j] == b[0]);
        } else {
            assert(sum[i] == b[i - a.len()]);
            assert(sum[j] == b[j - a.len()]);
        }
    }
}

/// Collapsing that trims the start leaves no white space there.
pub proof fn lemma_trimmed_start_has_content(text: Seq<char>, preserve_breaks: bool, trim_end: bool)
    ensures
        ({
            let out = collapsed(text, preserve_breaks, true, trim_end);
            out.len() > 0 ==> !spec_is_collapsible(out[0])
        }),
{
    lemma_trimmed(text, true, trim_end);
    lemma_collapsed_from(trimmed(text, true, trim_end), 0, preserve_breaks);
}

proof fn lemma_collapsed_from_last(text: Seq<char>, at: int, preserve_breaks: bool)
    requires
        0 <= at < text.len(),
        !spec_is_collapsible(text.last()),
    ensures
        collapsed_from(text, at, preserve_breaks).len() > 0,
        collapsed_from(text, at, preserve_breaks).last() == text.last(),
    decreases text.len() - at,
{
    if !spec_is_collapsible(text[at]) {
        if at + 1 < text.len() {
            lemma_collapsed_from_last(text, at + 1, preserve_breaks);
        } else {
            assert(collapsed_from(text, at + 1, preserve_breaks) =~= Seq::empty());
        }
    } else {
        lemma_white_space_end(text, at);
        let end = white_space_end(text, at);
        if end >= text.len() {
            assert(spec_is_collapsible(text[text.len() - 1]));
        }
        lemma_collapsed_from_last(text, end, preserve_breaks);
    }
}

/// Text that has been trimmed and collapsed is not trimmed any further.
proof fn lemma_collapsed_is_trimmed(
    text: Seq<char>,
    preserve_breaks: bool,
    trim_start: bool,
    trim_end: bool,
)
    ensures
        ({
            let out = collapsed(text, preserve_breaks, trim_start, trim_end);
            trimmed(out, trim_start, trim_end) == out
        }),
{
    let out = collapsed(text, preserve_breaks, trim_start, trim_end);
    let kept = trimmed(text, trim_start, trim_end);
    let len = out.len() as int;
    if trim_start {
        lemma_trimmed_start_has_content(text, preserve_breaks, trim_end);
    }
    let start = if trim_start {
        white_space_end(text, 0)
    } else {
        0
    };
    lemma_white_space_end(text, 0);
    lemma_white_space_start(text, start, text.len() as int);
    if trim_end && kept.len() > 0 {
        assert(kept.last() == text[white_space_start(text, start, text.len() as int) - 1]);
        lemma_collapsed_from_last(kept, 0, preserve_breaks);
    }
    if len > 0 {
        assert(kept.len() > 0);
        assert(out.last() == out[len - 1]);
    }
    assert(trim_start ==> white_space_end(out, 0) == 0);
    assert(trim_end ==> white_space_start(out, 0, len) == len);
    assert(out.subrange(0, len) =~= out);
}

proof fn lemma_white_space_end_of_sum(a: Seq<char>, b: Seq<char>, at: int)
    requires
        0 <= at <= b.len(),
    ensures
        white_space_end(a + b, a.len() + at) == a.len() + white_space_end(b, at),
    decreases b.len() - at,
{
    if at < b.len() {
        assert((a + b)[a.len() + at] == b[at]);
        if spec_is_collapsible(b[at]) {
            lemma_white_space_end_of_sum(a, b, at + 1);
        }
    }
}

proof fn lemma_white_space_end_of_run(run: Seq<char>, rest: Seq<char>, at: int)
    requires
        0 <= at <= run.len(),
        forall|i: int| 0 <= i < run.len() ==> spec_is_collapsible(#[trigger] run[i]),
        rest.len() > 0 ==> !spec_is_collapsible(rest[0]),
    ensures
        white_space_end(run + rest, at) == run.len(),
    decreases run.len() - at,
{
    if at < run.len() {
        assert((run + rest)[at] == run[at]);
        lemma_white_space_end_of_run(run, rest, at + 1);
    } else if rest.len() > 0 {
        assert((run + rest)[at] == rest[0]);
    }
}

/// Without breaks to preserve, what comes before does not matter.
proof fn lemma_collapsed_from_sum(a: Seq<char>, b: Seq<char>, at: int)
    requires
        0 <= at <= b.len(),
    ensures
        collapsed_from(a + b, a.len() + at, false) == collapsed_from(b, at, false),
    decreases b.len() - at,
{
    if at < b.len() {
        assert((a + b)[a.len() + at] == b[at]);
        if !spec_is_collapsible(b[at]) {
            lemma_collapsed_from_sum(a, b, at + 1);
        } else {
            lemma_white_space_end(b, at);
            lemma_white_space_end_of_sum(a, b, at);
            lemma_collapsed_from_sum(a, b, white_space_end(b, at));
        }
    }
}

proof fn lemma_collapsed_in_two_steps(text: Seq<char>, at: int)
    requires
        0 <= at <= text.len(),
    ensures
        collapsed_from(collapsed_from(text, at, true), 0, false) == collapsed_from(text, at, false),
    decreases text.len() - at,
{
    if at < text.len() {
        if !spec_is_collapsible(text[at]) {
            let rest = collapsed_from(text, at + 1, true);
            let out = collapsed_from(text, at, true);
            lemma_collapsed_in_two_steps(text, at + 1);
            lemma_collapsed_from_sum(seq![text[at]], rest, 0);
            assert(out[0] == text[at]);
        } else {
            lemma_white_space_end(text, at);
            let end = white_space_end(text, at);
            let run = collapsed_run(segment_breaks(text, at, end), true);
            let rest = collapsed_from(text, end, true);
            let out = collapsed_from(text, at, true);
            lemma_collapsed_in_two_steps(text, end);
            lemma_collapsed_from(text, end, true);
            lemma_white_space_end_of_run(run, rest, 0);
            lemma_collapsed_from_sum(run, rest, 0);
            assert(out == run + rest);
            assert(out[0] == run[0]);
        }
    }
}

/// Collapsing twice is collapsing once, whether breaks are preserved and ends
/// trimmed or not.
pub proof fn lemma_collapsing_twice_is_collapsing_once(
    text: Seq<char>,
    preserve_breaks: bool,
    trim_start: bool,
    trim_end: bool,
)
    ensures
        ({
            let out = collapsed(text, preserve_breaks, trim_start, trim_end);
            collapsed(out, preserve_breaks, trim_start, trim_end) == out
        }),
{
    let out = collapsed(text, preserve_breaks, trim_start, trim_end);
    lemma_collapsed(text, preserve_breaks, trim_start, trim_end);
    lemma_collapsed_is_trimmed(text, preserve_breaks, trim_start, trim_end);
    lemma_collapsed_run_of_text(out, 0, preserve_breaks);
    assert(out.subrange(0, out.len() as int) =~= out);
}

/// Collapsing the breaks as well, after they were preserved, is collapsing
/// everything at once.
pub proof fn lemma_breaks_can_be_collapsed_later(
    text: Seq<char>,
    trim_start: bool,
    trim_end: bool,
)
    ensures
        collapsed(
            collapsed(text, true, trim_start, trim_end),
            false,
            trim_start,
            trim_end,
        ) == collapsed(text, false, trim_start, trim_end),
{
    lemma_collapsed_is_trimmed(text, true, trim_start, trim_end);
    lemma_collapsed_in_two_steps(trimmed(text, trim_start, trim_end), 0);
}

/// There is nothing to collapse in empty text.
pub proof fn lemma_nothing_collapses(preserve_breaks: bool, trim_start: bool, trim_end: bool)
    ensures
        collapsed(Seq::empty(), preserve_breaks, trim_start, trim_end) == Seq::<char>::empty(),
{
    let none = Seq::<char>::empty();
    assert(white_space_end(none, 0) == 0);
    assert(white_space_start(none, 0, 0) == 0);
    assert(trimmed(none, trim_start, trim_end) =~= none);
}

} // verus!
