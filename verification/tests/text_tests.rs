use bsr::grammar::CharClass;
use bsr::parse::{parse_attribute, read_content, scan_chars};
use bsr::text::{string_of, to_chars, trim_bounds, white_space};

#[test]
fn to_chars_keeps_every_char() {
    assert_eq!(to_chars("añ<b>"), vec!['a', 'ñ', '<', 'b', '>']);
    assert!(to_chars("").is_empty());
}

#[test]
fn string_of_range() {
    let c = to_chars("hello world");
    assert_eq!(string_of(&c, 6, 11), "world");
    assert_eq!(string_of(&c, 3, 3), "");
}

#[test]
fn white_space_is_unicode() {
    for c in [' ', '\t', '\n', '\r', '\u{b}', '\u{c}', '\u{85}', '\u{a0}', '\u{2000}', '\u{200a}', '\u{3000}'] {
        assert!(white_space(c), "{:?}", c);
        assert_eq!(white_space(c), c.is_whitespace());
    }
    for c in ['a', '<', '\u{200b}', '\u{0}', '\u{180e}'] {
        assert!(!white_space(c));
        assert_eq!(white_space(c), c.is_whitespace());
    }
}

#[test]
fn trim_bounds_matches_str_trim() {
    for s in ["  a b  ", "abc", "   ", "", "\u{3000}x\u{a0}"] {
        let c = to_chars(s);
        let (lo, hi) = trim_bounds(&c, 0, c.len());
        assert_eq!(string_of(&c, lo, hi), s.trim());
    }
}

#[test]
fn scan_chars_classes() {
    let c = to_chars("ab-1 =  \"v\"");
    assert_eq!(scan_chars(&c, 0, CharClass::Name), 4);
    assert_eq!(scan_chars(&c, 4, CharClass::Space), 5);
    assert_eq!(scan_chars(&c, 9, CharClass::Quoted), 10);
    assert_eq!(scan_chars(&c, 0, CharClass::Text), c.len());
}

#[test]
fn attribute_parsing() {
    let c = to_chars("id = \"x y\" rest");
    assert_eq!(parse_attribute(&c, 0), Some(("id".to_string(), "x y".to_string(), 10)));
    assert_eq!(parse_attribute(&to_chars("id=\"open"), 0), None);
    assert_eq!(parse_attribute(&to_chars("=\"v\""), 0), None);
}

#[test]
fn content_parsing_stops_at_close_tag() {
    let c = to_chars("a<b>c</b> d</x>");
    let (items, ok, end) = read_content(&c, 0);
    assert_eq!(items.len(), 3);
    assert!(ok);
    assert_eq!(end, 11);
}
