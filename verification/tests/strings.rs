use gun::text::{chars_of, str_contains, str_eq, str_lt, str_replace};

#[test]
fn string_order_matches_std() {
    let words = ["", "a", "b", "ab", "B", "_", "é", "z", "\"henry\"", "\"\\\"henry\\\"\""];
    for x in words.iter() {
        for y in words.iter() {
            assert_eq!(str_lt(x, y), x < y, "{} < {}", x, y);
            assert_eq!(str_eq(x, y), x == y);
        }
    }
}

#[test]
fn search_and_replace() {
    assert!(str_contains("https://a", "https"));
    assert!(!str_contains("http://a", "https"));
    assert!(str_contains("abc", ""));
    assert_eq!(str_replace("https://a/https", "https", "ws"), "ws://a/ws");
    assert_eq!(str_replace("aaa", "aa", "b"), "ba");
    assert_eq!(str_replace("xyz", "q", "r"), "xyz");
    assert_eq!(chars_of("héllo"), vec!['h', 'é', 'l', 'l', 'o']);
}
