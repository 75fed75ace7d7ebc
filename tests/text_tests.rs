use editor_engine::layout::{approx_width, wrap_text_for_cell, ApproxMeasure, MonospaceMeasure, TextMeasure};
use editor_engine::text::{
    byte_to_char_index, char_count, char_substring, char_to_byte_index, is_word_boundary, next_word_boundary,
    prev_word_boundary, split_into_runs,
};

#[test]
fn test_char_count_ascii() {
    assert_eq!(char_count("hello"), 5);
}

#[test]
fn test_char_count_unicode() {
    assert_eq!(char_count("héllo"), 5);
    assert_eq!(char_count("你好"), 2);
    assert_eq!(char_count("👋🌍"), 2);
}

#[test]
fn test_char_count_empty() {
    assert_eq!(char_count(""), 0);
}

#[test]
fn test_char_count_mixed() {
    assert_eq!(char_count("Hello 你好 👋"), 10);
}

#[test]
fn test_char_substring() {
    assert_eq!(char_substring("hello", 1, 4), "ell");
    assert_eq!(char_substring("héllo", 1, 4), "éll");
    assert_eq!(char_substring("你好世界", 1, 3), "好世");
}

#[test]
fn test_char_substring_full() {
    assert_eq!(char_substring("hello", 0, 5), "hello");
}

#[test]
fn test_char_substring_empty() {
    assert_eq!(char_substring("hello", 2, 2), "");
}

#[test]
fn test_char_substring_emoji() {
    assert_eq!(char_substring("👋🌍🎉", 1, 2), "🌍");
}

#[test]
fn char_substring_clamps_to_the_text() {
    assert_eq!(char_substring("hello", 3, 40), "lo");
    assert_eq!(char_substring("hello", 9, 40), "");
}

#[test]
fn approximate_width_is_half_the_font_per_char() {
    assert_eq!(approx_width(5, 16), 40);
    assert_eq!(ApproxMeasure.measure(&['a', 'b', 'c'], 10), 15);
    assert_eq!(MonospaceMeasure { char_width: 7 }.measure(&['a', 'b'], 99), 14);
}

#[test]
fn cell_text_splits_at_breaks_then_wraps() {
    let m = MonospaceMeasure { char_width: 10 };
    let lines = wrap_text_for_cell(&"ab cd\n\nxyz".to_string(), 30, 16, &m, 0);
    assert_eq!(lines, vec!["ab ".to_string(), "cd".to_string(), String::new(), "xyz".to_string()]);
    let empty = wrap_text_for_cell(&String::new(), 30, 16, &m, 0);
    assert_eq!(empty, vec![String::new()]);
    let trailing = wrap_text_for_cell(&"a\n".to_string(), 30, 16, &m, 0);
    assert_eq!(trailing, vec!["a".to_string(), String::new()]);
}

#[test]
fn test_word_boundaries() {
    let text = "hello world test";
    assert_eq!(next_word_boundary(text, 0), 6);
    assert_eq!(next_word_boundary(text, 6), 12);
    assert_eq!(prev_word_boundary(text, 11), 6);
    assert_eq!(prev_word_boundary(text, 6), 0);
}

#[test]
fn test_next_word_boundary_end() {
    let text = "hello";
    assert_eq!(next_word_boundary(text, 5), 5);
    assert_eq!(next_word_boundary(text, 10), 5);
}

#[test]
fn test_prev_word_boundary_start() {
    let text = "hello";
    assert_eq!(prev_word_boundary(text, 0), 0);
}

#[test]
fn test_word_boundary_multiple_spaces() {
    let text = "hello   world";
    assert_eq!(next_word_boundary(text, 0), 8);
}

#[test]
fn test_is_word_boundary() {
    assert!(is_word_boundary(' '));
    assert!(is_word_boundary('.'));
    assert!(is_word_boundary(','));
    assert!(is_word_boundary('\n'));
    assert!(is_word_boundary('\t'));

    assert!(!is_word_boundary('a'));
    assert!(!is_word_boundary('Z'));
    assert!(!is_word_boundary('5'));
}

#[test]
fn test_char_to_byte_index() {
    let text = "héllo";
    assert_eq!(char_to_byte_index(text, 0), 0);
    assert_eq!(char_to_byte_index(text, 1), 1);
    assert_eq!(char_to_byte_index(text, 2), 3);
}

#[test]
fn test_byte_to_char_index() {
    let text = "héllo";
    assert_eq!(byte_to_char_index(text, 0), 0);
    assert_eq!(byte_to_char_index(text, 1), 1);
    assert_eq!(byte_to_char_index(text, 3), 2);
}

#[test]
fn test_split_into_runs_empty() {
    let runs = split_into_runs("");
    assert!(runs.is_empty());
}

#[test]
fn test_split_into_runs_simple() {
    let runs = split_into_runs("hello");
    assert_eq!(runs.len(), 1);
    assert_eq!(runs[0].text, "hello");
    assert_eq!(runs[0].start, 0);
    assert_eq!(runs[0].end, 5);
}

#[test]
fn byte_and_char_indices_past_the_end() {
    assert_eq!(char_to_byte_index("a你b", 9), 5);
    assert_eq!(byte_to_char_index("a你b", 40), 3);
    assert_eq!(char_to_byte_index("👋x", 1), 4);
}

#[test]
fn word_boundaries_at_punctuation() {
    assert_eq!(next_word_boundary("foo.bar baz", 0), 3);
    assert_eq!(prev_word_boundary("foo.bar baz", 7), 4);
    assert!(is_word_boundary('~'));
    assert!(!is_word_boundary('é'));
}

#[test]
fn unicode_white_space_bounds_words() {
    assert!(is_word_boundary('\u{00A0}'));
    assert!(is_word_boundary('\u{3000}'));
    assert!(is_word_boundary('\u{2009}'));
    assert!(!is_word_boundary('\u{200B}'));
    for c in ['\u{0009}', '\u{000D}', '\u{0085}', '\u{1680}', '\u{2028}', '\u{202F}', '\u{205F}'] {
        assert_eq!(is_word_boundary(c), c.is_whitespace());
    }
}
