use cargo_task::order::str_lt;
use cargo_task::text::{is_whitespace, join_strs, split_char, split_whitespace, trim_str};

#[test]
fn trim_removes_both_ends() {
    assert_eq!(trim_str("  a b \n"), "a b");
    assert_eq!(trim_str("\t\r\n "), "");
    assert_eq!(trim_str("x"), "x");
    assert_eq!(trim_str("\u{2003}x\u{85}"), "x");
}

#[test]
fn whitespace_matches_std() {
    for u in 0u32..0x3100 {
        if let Some(c) = char::from_u32(u) {
            assert_eq!(is_whitespace(c), c.is_whitespace(), "{:x}", u);
        }
    }
}

#[test]
fn split_whitespace_words() {
    assert_eq!(split_whitespace("  one\ttwo\n three  "), vec!["one", "two", "three"]);
    assert!(split_whitespace("   ").is_empty());
    assert!(split_whitespace("").is_empty());
}

#[test]
fn split_char_pieces() {
    assert_eq!(split_char("a\nb", '\n'), vec!["a", "b"]);
    assert_eq!(split_char("", '\n'), vec![""]);
    assert_eq!(split_char("a\n", '\n'), vec!["a", ""]);
    assert_eq!(split_char("1.2.3", '.'), vec!["1", "2", "3"]);
}

#[test]
fn join_pieces() {
    let v = vec!["a".to_string(), "b".to_string(), "c".to_string()];
    assert_eq!(join_strs(&v, ", "), "a, b, c");
    assert_eq!(join_strs(&Vec::new(), ", "), "");
}

#[test]
fn name_order_is_byte_order() {
    let names = ["a", "a_b", "aZ", "b", "", "é", "z"];
    for x in names.iter() {
        for y in names.iter() {
            assert_eq!(str_lt(x, y), x < y, "{} {}", x, y);
        }
    }
}
