use clux::text::{lowercase_equals, str_chars, str_equal};

#[test]
fn chars_in_order() {
    assert_eq!(str_chars("வேகம்!"), vec!['வ', 'ே', 'க', 'ம', '்', '!']);
    assert_eq!(str_chars(""), Vec::<char>::new());
}

#[test]
fn string_equality() {
    assert!(str_equal("வேகம்", "வேகம்"));
    assert!(!str_equal("ab", "abc"));
    assert!(!str_equal("ab", "aB"));
}

#[test]
fn ascii_lowercase_comparison() {
    assert!(lowercase_equals("InT8", "int8"));
    assert!(lowercase_equals("", ""));
    assert!(!lowercase_equals("INT8", "INT8"));
    assert!(!lowercase_equals("É", "é"));
}
