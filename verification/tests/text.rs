use houdini_launcher::text::{
    chars_of, comes_before, matches_at, replace_all, same_chars, same_text, starts_with, string_of,
};

fn chars(text: &str) -> Vec<char> {
    text.chars().collect()
}

fn replace(text: &str, pattern: &str, value: &str) -> String {
    replace_all(&chars(text), &chars(pattern), &chars(value)).into_iter().collect()
}

#[test]
fn chars_and_strings_convert_both_ways() {
    assert_eq!(chars_of("hé$"), vec!['h', 'é', '$']);
    assert_eq!(string_of(&vec!['h', 'é', '$']), "hé$");
    assert_eq!(chars_of(""), Vec::<char>::new());
    assert_eq!(string_of(&Vec::new()), "");
}

#[test]
fn matches_at_tests_one_position() {
    assert!(matches_at(&chars("abcabc"), &chars("bc"), 1));
    assert!(matches_at(&chars("abcabc"), &chars("bc"), 4));
    assert!(!matches_at(&chars("abcabc"), &chars("bc"), 0));
    assert!(!matches_at(&chars("abcabc"), &chars("bc"), 5));
    assert!(!matches_at(&chars("abc"), &chars("bc"), 7));
    assert!(matches_at(&chars("abc"), &chars(""), 3));
}

#[test]
fn texts_are_the_same_when_their_characters_are() {
    assert!(same_text("path", "path"));
    assert!(!same_text("path", "hpath"));
    assert!(!same_text("path", "pat"));
    assert!(same_text("", ""));
    assert!(same_chars(&chars("é"), &chars("é")));
    assert!(!same_chars(&chars("e"), &chars("é")));
}

#[test]
fn starts_with_tests_a_prefix() {
    assert!(starts_with("Houdini 20.5", "Houdini"));
    assert!(starts_with("Houdini", "Houdini"));
    assert!(starts_with("x", ""));
    assert!(!starts_with("houdini", "Houdini"));
    assert!(!starts_with("Houd", "Houdini"));
}

#[test]
fn replace_all_replaces_every_occurrence() {
    assert_eq!(replace("$A/$A", "$A", "x"), "x/x");
    assert_eq!(replace("aaa", "aa", "b"), "ba");
    assert_eq!(replace("abc", "d", "x"), "abc");
    assert_eq!(replace("", "d", "x"), "");
    assert_eq!(replace("abc", "abc", ""), "");
    assert_eq!(replace("ab", "abc", "x"), "ab");
    assert_eq!(replace("$ROOT2", "$ROOT", "r"), "r2");
}

#[test]
fn replace_all_does_not_look_into_what_it_put_in() {
    assert_eq!(replace("ab", "a", "aa"), "aab");
    assert_eq!(replace("xx", "x", "xx"), "xxxx");
}

#[test]
fn an_empty_pattern_occurs_nowhere() {
    assert_eq!(replace("abc", "", "x"), "abc");
}

#[test]
fn replace_all_agrees_with_the_standard_library() {
    for (text, pattern, value) in [
        ("$ROOT/x/$ROOT", "$ROOT", "C:/h"),
        ("ababab", "aba", "-"),
        ("..a..", "..", "."),
        ("héllo wörld", "ö", "oe"),
    ] {
        assert_eq!(replace(text, pattern, value), text.replace(pattern, value));
    }
}

#[test]
fn texts_are_ordered_by_their_characters() {
    assert!(comes_before(&chars("a"), &chars("b")));
    assert!(comes_before(&chars("a"), &chars("ab")));
    assert!(comes_before(&chars(""), &chars("a")));
    assert!(comes_before(&chars("B"), &chars("a")));
    assert!(!comes_before(&chars("b"), &chars("a")));
    assert!(!comes_before(&chars("a"), &chars("a")));
    assert!(!comes_before(&chars("ab"), &chars("a")));
    assert!(!comes_before(&chars(""), &chars("")));
}

#[test]
fn the_order_of_texts_is_that_of_strings() {
    let words = ["", "a", "A", "ab", "b", "é", "z", "Houdini 19", "Houdini 20"];
    for x in words {
        for y in words {
            assert_eq!(comes_before(&chars(x), &chars(y)), x < y);
        }
    }
}
