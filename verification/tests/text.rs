use tiny_claw::text::{chars_of, contains, decimal, find, starts_with, str_eq, text_less, trim, trim_end, trim_end_slashes, trim_start};

#[test]
fn trimming() {
    assert_eq!(trim(" \t\n a b \u{3000}"), "a b");
    assert_eq!(trim_start("  x "), "x ");
    assert_eq!(trim_end("  x "), "  x");
    assert_eq!(trim("\u{85}\u{a0}"), "");
    assert_eq!(trim_end_slashes("a//"), "a");
    assert_eq!(trim_end_slashes("/"), "");
}

#[test]
fn searching() {
    assert_eq!(find("abcabc", "ca"), Some(2));
    assert_eq!(find("abc", "x"), None);
    assert_eq!(find("héllo", "llo"), Some(2));
    assert_eq!(find("abc", ""), Some(0));
    assert!(contains("xyz", "y"));
    assert!(starts_with("http://", "http"));
    assert!(!starts_with("ht", "http"));
    assert!(str_eq("a", "a"));
    assert!(!str_eq("a", "ab"));
    assert_eq!(chars_of("hé"), vec!['h', 'é']);
}

#[test]
fn ordering_and_numbers() {
    assert!(text_less("a", "b"));
    assert!(text_less("a", "ab"));
    assert!(!text_less("b", "a"));
    assert!(!text_less("a", "a"));
    assert!(text_less("Z", "a"));
    assert_eq!(decimal(0), "0");
    assert_eq!(decimal(-7), "-7");
    assert_eq!(decimal(1234567890), "1234567890");
    assert_eq!(decimal(i64::MIN), "-9223372036854775808");
    assert_eq!(decimal(i64::MAX), "9223372036854775807");
}
