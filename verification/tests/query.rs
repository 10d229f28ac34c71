use fast_search::convert_query;
use fast_search::query::is_whitespace;

#[test]
fn convert_query_removes_white_space() {
    assert_eq!(convert_query(" a b\tc\n"), "abc");
}

#[test]
fn convert_query_keeps_the_order_of_what_stays() {
    assert_eq!(convert_query("hello  big world"), "hellobigworld");
    assert_eq!(convert_query("ㅇㅏㄴ ㄴㅕㅇ"), "ㅇㅏㄴㄴㅕㅇ");
}

#[test]
fn convert_query_of_nothing_is_nothing() {
    assert_eq!(convert_query(""), "");
}

#[test]
fn convert_query_of_white_space_alone_is_nothing() {
    let spaces = " \t\r\n\u{000b}\u{000c}\u{0085}\u{00a0}\u{1680}\u{2003}\u{2028}\u{2029}\u{202f}";
    assert_eq!(convert_query(spaces), "");
    assert_eq!(convert_query("\u{205f}\u{3000}\u{2000}\u{200a}"), "");
}

#[test]
fn convert_query_keeps_what_only_looks_like_space() {
    // The zero-width space and the Hangul filler are not white space.
    assert_eq!(convert_query("a\u{200b}b\u{3164}c"), "a\u{200b}b\u{3164}c");
}

#[test]
fn convert_query_twice_is_convert_query_once() {
    let texts =
        ["", " ", "abc", " a b\tc\n", "ㅎ ㅏ ㄴ\u{3000}ㄱ ㅡ ㄹ", "no-space", "x\u{2009}y"];
    for text in texts.iter() {
        let once = convert_query(text);
        let twice = convert_query(&once);
        assert_eq!(once, twice);
        assert!(!once.chars().any(|c| c.is_whitespace()));
    }
}

#[test]
fn convert_query_leaves_a_normal_form_unchanged() {
    assert_eq!(convert_query("ㅎㅏㄴㄱㅡㄹ"), "ㅎㅏㄴㄱㅡㄹ");
    assert_eq!(convert_query("world"), "world");
}

#[test]
fn is_whitespace_agrees_with_the_standard_library_on_every_character() {
    let mut code: u32 = 0;
    while code <= 0x10ffff {
        if let Some(c) = char::from_u32(code) {
            assert_eq!(is_whitespace(c), c.is_whitespace(), "U+{:04X}", code);
        }
        code += 1;
    }
}

#[test]
fn convert_query_does_what_retaining_the_rest_does() {
    let texts = [" a b\tc\n", "ㅎ ㅏ ㄴ\u{3000}ㄱ ㅡ ㄹ", "  ", "tab\tnew\nline\r\n"];
    for text in texts.iter() {
        let mut expected = text.to_string();
        expected.retain(|c| !c.is_whitespace());
        assert_eq!(convert_query(text), expected);
    }
}
