use lsp_types::Url;
use lua_hints::document::{
    line_count_of, line_offset_of, Change, Doc, TextPosition, TextRange,
};

fn doc(text: &str) -> Doc {
    Doc::new(text.to_string(), Url::parse("file:///tmp/test.lua").unwrap(), 1)
}

fn range(l1: u32, c1: u32, l2: u32, c2: u32) -> TextRange {
    TextRange {
        start: TextPosition { line: l1, character: c1 },
        end: TextPosition { line: l2, character: c2 },
    }
}

fn change(range: Option<TextRange>, text: &str) -> Change {
    Change { range, text: text.to_string() }
}

#[test]
fn new_document_holds_its_text_uri_and_version() {
    let d = doc("local x = 1\nprint(x)\n");
    assert_eq!(d.text(), "local x = 1\nprint(x)\n");
    assert_eq!(d.version(), 1);
    assert_eq!(d.uri().as_str(), "file:///tmp/test.lua");
}

#[test]
fn replace_puts_text_in_the_place_of_a_stretch() {
    let mut d = doc("hello\nworld");
    assert!(d.accepts(&range(1, 0, 1, 5)));
    d.replace(&range(1, 0, 1, 5), "there");
    assert_eq!(d.text(), "hello\nthere");
    assert!(d.try_replace(&range(0, 5, 1, 0), " "));
    assert_eq!(d.text(), "hello there");
    assert_eq!(d.version(), 1);
}

#[test]
fn empty_stretch_inserts_and_empty_text_deletes() {
    let mut d = doc("ab\ncd");
    assert!(d.try_replace(&range(1, 1, 1, 1), "XY"));
    assert_eq!(d.text(), "ab\ncXYd");
    assert!(d.try_replace(&range(0, 1, 1, 2), ""));
    assert_eq!(d.text(), "aYd");
}

#[test]
fn lines_end_at_line_feeds_with_or_without_carriage_return() {
    let mut d = doc("a\r\nbc\nd");
    assert!(d.try_replace(&range(1, 0, 1, 2), "B"));
    assert_eq!(d.text(), "a\r\nB\nd");
    assert!(d.try_replace(&range(2, 0, 2, 1), "D"));
    assert_eq!(d.text(), "a\r\nB\nD");
}

#[test]
fn the_line_after_the_last_starts_at_the_end_of_the_text() {
    let mut d = doc("a\nb");
    assert!(d.try_replace(&range(2, 0, 2, 0), "!"));
    assert_eq!(d.text(), "a\nb!");
    let mut e = doc("");
    assert!(e.try_replace(&range(0, 0, 0, 0), "first"));
    assert_eq!(e.text(), "first");
}

#[test]
fn a_stretch_that_does_not_fit_changes_nothing() {
    let mut d = doc("ab\ncd");
    // no such line
    assert!(!d.accepts(&range(3, 0, 3, 0)));
    assert!(!d.try_replace(&range(3, 0, 3, 0), "x"));
    assert!(!d.try_replace(&range(0, 0, 3, 0), "x"));
    // beyond the end of the text
    assert!(!d.try_replace(&range(1, 0, 1, 3), "x"));
    assert!(!d.try_replace(&range(0, 0, 0, u32::MAX), "x"));
    // ends before it starts
    assert!(!d.try_replace(&range(1, 1, 0, 1), "x"));
    assert_eq!(d.text(), "ab\ncd");
}

#[test]
fn a_stretch_must_not_split_a_character() {
    let mut d = doc("ƒoo");
    assert!(!d.try_replace(&range(0, 1, 0, 1), "x"));
    assert!(!d.try_replace(&range(0, 0, 0, 1), "x"));
    assert_eq!(d.text(), "ƒoo");
    assert!(d.try_replace(&range(0, 0, 0, 2), "f"));
    assert_eq!(d.text(), "foo");
}

#[test]
fn apply_changes_applies_in_order_and_takes_the_version() {
    let mut d = doc("function f() end\n");
    let changes = vec![
        change(Some(range(0, 11, 0, 11)), "a"),
        change(None, "ignored"),
        change(Some(range(0, 12, 0, 12)), ", b"),
        change(Some(range(1, 0, 1, 0)), "f(1, 2)\n"),
    ];
    assert_eq!(d.apply_changes(&changes, 7), None);
    assert_eq!(d.text(), "function f(a, b) end\nf(1, 2)\n");
    assert_eq!(d.version(), 7);
}

#[test]
fn apply_changes_stops_at_the_first_change_that_does_not_fit() {
    let mut d = doc("ab");
    let changes = vec![
        change(Some(range(0, 0, 0, 1)), "A"),
        change(Some(range(5, 0, 5, 0)), "nowhere"),
        change(Some(range(0, 1, 0, 2)), "B"),
    ];
    assert_eq!(d.apply_changes(&changes, 2), Some(1));
    assert_eq!(d.text(), "Ab");
    assert_eq!(d.version(), 1);
    assert_eq!(d.apply_changes(&vec![], 3), None);
    assert_eq!(d.version(), 3);
}

#[test]
fn lines_are_counted_and_placed_as_the_rope_does() {
    let texts = [
        "",
        "a",
        "\n",
        "a\n",
        "a\nb",
        "a\r\nb\n",
        "\n\n\n",
        "\r",
        "a\rb",
        "ƒoo\nbär\r\nbaz",
        "x\u{2028}y\u{85}z\u{b}w\u{c}v",
        "last line feed\n\n",
    ];
    for text in texts {
        let rope = crop::Rope::from(text);
        assert_eq!(line_count_of(text.as_bytes()), rope.line_len(), "lines of {:?}", text);
        for line in 0..=rope.line_len() {
            assert_eq!(
                line_offset_of(text.as_bytes(), line),
                rope.byte_of_line(line),
                "line {} of {:?}",
                line,
                text
            );
        }
        assert_eq!(line_offset_of(text.as_bytes(), rope.line_len() + 7), text.len());
    }
}

#[test]
fn lines_of_known_texts() {
    assert_eq!(line_count_of(b""), 0);
    assert_eq!(line_count_of(b"a"), 1);
    assert_eq!(line_count_of(b"a\n"), 1);
    assert_eq!(line_count_of(b"a\nb"), 2);
    assert_eq!(line_offset_of(b"ab\ncd\n", 0), 0);
    assert_eq!(line_offset_of(b"ab\ncd\n", 1), 3);
    assert_eq!(line_offset_of(b"ab\ncd\n", 2), 6);
    assert_eq!(line_offset_of(b"ab\ncd\n", 3), 6);
}
