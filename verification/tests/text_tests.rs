use clawpanel::text::{
    contains, decimal_text, has_prefix, last_word_of, same_text, text_before, trim_end_char,
    trim_start_char, trim_text,
};

#[test]
fn trim_matches_the_standard_library() {
    for s in ["", " ", "a", "  a b  ", "\t\n x \r\n", "\u{3000}全角\u{3000}", "\u{85}x\u{a0}", "\u{200b}x", "x\u{2029}"] {
        assert_eq!(trim_text(s), s.trim(), "{s:?}");
    }
}

#[test]
fn trimming_twice_is_trimming_once() {
    for s in ["  a  ", "\u{3000} b", "", "c"] {
        assert_eq!(trim_text(&trim_text(s)), trim_text(s));
    }
}

#[test]
fn trim_by_character() {
    assert_eq!(trim_end_char("a///", '/'), "a");
    assert_eq!(trim_end_char("///", '/'), "");
    assert_eq!(trim_start_char("vv1.0v", 'v'), "1.0v");
    assert_eq!(trim_start_char("1.0", 'v'), "1.0");
}

#[test]
fn words_and_patterns() {
    assert_eq!(last_word_of("a b\u{3000}c  ").as_deref(), Some("c"));
    assert_eq!(last_word_of("   "), None);
    assert!(contains("abc", ""));
    assert!(contains("abc", "bc"));
    assert!(!contains("abc", "cb"));
    assert!(!contains("", "a"));
    assert!(has_prefix("~/x", "~/"));
    assert!(!has_prefix("~", "~/"));
    assert!(same_text("汉字", "汉字"));
    assert!(!same_text("a", "ab"));
}

#[test]
fn decimal_matches_to_string() {
    for n in [0u64, 7, 10, 99, 100, 12345, u64::MAX] {
        assert_eq!(decimal_text(n), n.to_string());
    }
}

#[test]
fn text_order_matches_string_order() {
    let words = ["", "a", "ab", "b", "B", "é", "z", "汉", "aa"];
    for a in words {
        for b in words {
            assert_eq!(text_before(a, b), a < b, "{a} < {b}");
        }
    }
}
