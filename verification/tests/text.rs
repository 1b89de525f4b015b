use importer::text::{
    chars_of, contains, last_occurrence, matches_at, push_lower_hex, text_after_last, text_eq,
    text_precedes,
};

fn letters(text: &str) -> Vec<char> {
    text.chars().collect()
}

fn hex(n: u64) -> String {
    let mut out = String::new();
    push_lower_hex(n, &mut out);
    out
}

#[test]
fn chars_are_the_characters_in_order() {
    assert_eq!(chars_of("a\u{e9}\u{1F600}z"), vec!['a', '\u{e9}', '\u{1F600}', 'z']);
    assert_eq!(chars_of(""), Vec::<char>::new());
}

#[test]
fn occurrence_is_tested_at_a_position() {
    let hay = letters("abcabc");
    assert!(matches_at(&hay, &letters("abc"), 0));
    assert!(matches_at(&hay, &letters("abc"), 3));
    assert!(!matches_at(&hay, &letters("abc"), 1));
    assert!(matches_at(&hay, &letters(""), 6));
}

#[test]
fn containment_is_by_substring() {
    assert!(contains(&letters("images/abc123.png"), &letters("abc123")));
    assert!(contains(&letters("abc"), &letters("abc")));
    assert!(contains(&letters("abc"), &letters("")));
    assert!(contains(&letters(""), &letters("")));
    assert!(!contains(&letters("abc"), &letters("abcd")));
    assert!(!contains(&letters("abc"), &letters("ac")));
    assert!(!contains(&letters(""), &letters("a")));
    assert!(contains(&letters("aab"), &letters("ab")));
}

#[test]
fn last_occurrence_is_the_last() {
    assert_eq!(last_occurrence(&letters("a.b.c"), &letters(".")), Some(3));
    assert_eq!(last_occurrence(&letters("abc"), &letters(".")), None);
    assert_eq!(last_occurrence(&letters("abc"), &letters("")), Some(3));
    assert_eq!(last_occurrence(&letters("aaa"), &letters("aa")), Some(1));
    assert_eq!(last_occurrence(&letters("a"), &letters("aa")), None);
    assert_eq!(last_occurrence(&letters("xab"), &letters("xa")), Some(0));
}

#[test]
fn suffix_follows_the_last_marker() {
    assert_eq!(text_after_last("a/b/c", &letters("/")), "c");
    assert_eq!(text_after_last("abc", &letters("/")), "abc");
    assert_eq!(text_after_last("abc/", &letters("/")), "");
    assert_eq!(text_after_last("\u{e9}--\u{e8}--\u{ea}", &letters("--")), "\u{ea}");
}

#[test]
fn equality_is_by_characters() {
    assert!(text_eq("", ""));
    assert!(text_eq("user", "user"));
    assert!(!text_eq("user", "users"));
    assert!(!text_eq("user", "usér"));
    assert!(!text_eq("a", ""));
}

#[test]
fn order_is_lexicographic() {
    assert!(text_precedes("", "a"));
    assert!(!text_precedes("", ""));
    assert!(!text_precedes("a", ""));
    assert!(text_precedes("a", "b"));
    assert!(!text_precedes("b", "a"));
    assert!(text_precedes("ab", "abc"));
    assert!(!text_precedes("abc", "ab"));
    assert!(!text_precedes("abc", "abc"));
    assert!(text_precedes("abd", "b"));
    assert!(text_precedes("Z", "a"));
    assert!(text_precedes("z", "\u{e9}"));
    assert!(text_precedes("10", "9"));
}

#[test]
fn order_agrees_with_the_order_of_str() {
    let samples = ["", "a", "ab", "b", "B", "\u{e9}", "\u{1F600}", "node-1", "node-10", "node-2"];
    for a in samples {
        for b in samples {
            assert_eq!(text_precedes(a, b), a < b);
        }
    }
}

#[test]
fn hexadecimal_has_no_leading_zeros() {
    assert_eq!(hex(0), "0");
    assert_eq!(hex(9), "9");
    assert_eq!(hex(10), "a");
    assert_eq!(hex(15), "f");
    assert_eq!(hex(16), "10");
    assert_eq!(hex(255), "ff");
    assert_eq!(hex(4096), "1000");
    assert_eq!(hex(0xdead_beef), "deadbeef");
    assert_eq!(hex(u64::MAX), "ffffffffffffffff");
}

#[test]
fn hexadecimal_is_appended() {
    let mut out = String::from("conv_");
    push_lower_hex(0x1a2b, &mut out);
    assert_eq!(out, "conv_1a2b");
}
