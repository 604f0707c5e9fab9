use parley::resolve::white_space::{
    collapse_white_space, convert_white_space_to_spaces, is_ascii_whitespace,
};

fn collapsed(text: &str, preserve_breaks: bool, trim_start: bool, trim_end: bool) -> String {
    let mut text = String::from(text);
    collapse_white_space(&mut text, preserve_breaks, trim_start, trim_end);
    text
}

fn converted(text: &str) -> String {
    let mut text = String::from(text);
    convert_white_space_to_spaces(&mut text);
    text
}

#[test]
fn white_space_becomes_one_space() {
    assert_eq!(collapsed("a \t\r\n\u{c}\u{2028} b", false, false, false), "a b");
    assert_eq!(collapsed("", false, true, true), "");
    assert_eq!(collapsed("  ", false, true, true), "");
    assert_eq!(collapsed("  ", false, false, false), " ");
}

#[test]
fn ends_are_trimmed_if_asked_for() {
    assert_eq!(collapsed(" \n a ", false, true, false), "a ");
    assert_eq!(collapsed(" \n a ", false, false, true), " a");
    assert_eq!(collapsed(" \n a ", false, true, true), "a");
    assert_eq!(collapsed("\u{a0}a\u{3000}", false, true, true), "\u{a0}a\u{3000}");
}

#[test]
fn preserved_breaks_lose_the_spaces_around_them() {
    assert_eq!(collapsed("a \r\n \n\tb  c", true, false, false), "a\n\nb c");
    assert_eq!(collapsed("a\r\rb", true, false, false), "a\n\nb");
    assert_eq!(collapsed("a\n\rb", true, false, false), "a\n\nb");
    assert_eq!(collapsed("\u{2028}a\u{2029}", true, false, false), "\na\n");
}

#[test]
fn collapsing_twice_is_collapsing_once() {
    for text in ["a  b", " \n\n x \t", "\u{2029}\u{2028}", "plain", "\u{e9} \u{1f600}  z"] {
        for preserve_breaks in [false, true] {
            let once = collapsed(text, preserve_breaks, false, false);
            assert_eq!(collapsed(&once, preserve_breaks, false, false), once);
        }
    }
}

#[test]
fn collapsing_keeps_all_other_characters() {
    let text = " \u{a0}a \u{1f600}\tb\u{3000}\r\n c ";
    let content = |text: &str| {
        text.chars().filter(|&c| !is_ascii_whitespace(c)).collect::<String>()
    };
    assert_eq!(content(&collapsed(text, true, true, true)), content(text));
}

#[test]
fn conversion_keeps_the_number_of_spaces() {
    assert_eq!(converted("a\tb\nc\rd\r\ne\u{2028}f\u{2029}g"), "a b c d e f g");
    assert_eq!(converted("  \n\r "), "     ");
    assert_eq!(converted(&converted("\r\n\t")), converted("\r\n\t"));
    assert_eq!(converted("\u{c}\u{a0}"), "\u{c}\u{a0}");
}

#[test]
fn ascii_white_space_is_five_characters() {
    let found: Vec<char> =
        (0u8..=255).map(char::from).filter(|&c| is_ascii_whitespace(c)).collect();
    assert_eq!(found, ['\t', '\n', '\u{c}', '\r', ' ']);
}

#[test]
fn collapsing_again_changes_nothing_with_any_flags() {
    for text in ["", " ", "\n", " a \r\n b\t", "\u{2028} a  b \n\n"] {
        for flags in 0..8 {
            let (breaks, start, end) = (flags & 1 > 0, flags & 2 > 0, flags & 4 > 0);
            let once = collapsed(text, breaks, start, end);
            assert_eq!(collapsed(&once, breaks, start, end), once);
            let kept = collapsed(text, true, start, end);
            assert_eq!(collapsed(&kept, false, start, end), collapsed(text, false, start, end));
        }
    }
    assert_eq!(collapsed(" a \r\n b\t", true, true, true), "a\nb");
    assert_eq!(collapsed("a\nb", false, true, true), "a b");
}
