use stump::text::{chars_of, equals_ignore_ascii_case, replace_chars, string_from_chars, trimmed_chars};

fn chars(s: &str) -> Vec<char> {
    chars_of(s)
}

#[test]
fn replace_goes_left_to_right_without_overlap() {
    let r = replace_chars(&chars("aaaa"), &chars("aa"), &chars("b"));
    assert_eq!(string_from_chars(&r), "bb");
    let r = replace_chars(&chars("xaaax"), &chars("aa"), &chars("<>"));
    assert_eq!(string_from_chars(&r), "x<>ax");
    let r = replace_chars(&chars("abc"), &chars("abcd"), &chars("z"));
    assert_eq!(string_from_chars(&r), "abc");
}

#[test]
fn trim_removes_unicode_white_space() {
    let t = trimmed_chars("\u{2003} a b \u{85}\n");
    assert_eq!(string_from_chars(&t), "a b");
    assert_eq!(string_from_chars(&trimmed_chars("   ")), "");
}

#[test]
fn ascii_case_is_ignored_only_for_ascii() {
    assert!(equals_ignore_ascii_case("AbC", "aBc"));
    assert!(!equals_ignore_ascii_case("É", "é"));
    assert!(!equals_ignore_ascii_case("ab", "abc"));
}
