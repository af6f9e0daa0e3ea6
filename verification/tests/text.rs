use hskclustering::text::{hash_word, str_eq, str_less, valid_graph_token, valid_xml_char};

#[test]
fn string_order_is_code_point_order() {
    for (a, b) in [("a", "b"), ("", "a"), ("ab", "abc"), ("Z", "a"), ("中", "文"), ("b", "a"), ("x", "x")] {
        assert_eq!(str_less(a, b), a < b, "{a} {b}");
    }
    assert!(str_eq("学习", "学习"));
    assert!(!str_eq("学习", "学"));
}

#[test]
fn graph_tokens_are_nonempty_xml_text() {
    assert!(valid_graph_token("学习&中文"));
    assert!(valid_graph_token("a\t\"<b"));
    assert!(!valid_graph_token(""));
    assert!(!valid_graph_token("a\u{0}"));
    assert!(!valid_graph_token("\u{fffe}"));
    assert!(valid_xml_char('\u{10000}'));
    assert!(!valid_xml_char('\u{1f}'));
}

#[test]
fn word_hash_is_fnv1a() {
    assert_eq!(hash_word(""), 0xcbf29ce484222325);
    assert_eq!(hash_word("a"), 0xaf63dc4c8601ec8c);
    assert_eq!(hash_word("foobar"), 0x85944171f73967e8);
}
