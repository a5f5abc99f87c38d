use chezfl::text::{decimal_string, join_strings, signed_decimal_string, trim};
use chezfl::tools::fs::up_to_date;
use chezfl::tools::git::is_clean;
use chezfl::tools::mime::{is_default, query_default};

#[test]
fn up_to_date_like_make() {
    assert!(!up_to_date(None, &[Some(1)]));
    assert!(up_to_date(Some(10), &[Some(5), Some(10)]));
    assert!(!up_to_date(Some(10), &[Some(11)]));
    assert!(!up_to_date(Some(10), &[None]));
    assert!(up_to_date(Some(0), &[]));
}

#[test]
fn clean_tree() {
    assert!(is_clean(""));
    assert!(is_clean(" \n\t"));
    assert!(!is_clean(" M src/lib.rs\n"));
}

#[test]
fn mime_default() {
    assert_eq!(query_default(Some("firefox.desktop\n")), Some("firefox.desktop".to_string()));
    assert_eq!(query_default(None), None);
    assert!(is_default(&Some("firefox.desktop".to_string()), "firefox.desktop"));
    assert!(!is_default(&Some("chromium.desktop".to_string()), "firefox.desktop"));
    assert!(!is_default(&None, "firefox.desktop"));
}

#[test]
fn text_helpers() {
    assert_eq!(decimal_string(0), "0");
    assert_eq!(decimal_string(1754000000), "1754000000");
    assert_eq!(signed_decimal_string(-42), "-42");
    assert_eq!(signed_decimal_string(i32::MIN), "-2147483648");
    assert_eq!(trim("  a b \n"), "a b");
    assert_eq!(trim("   "), "");
    assert_eq!(join_strings(&vec!["a".to_string(), "b".to_string()], " -> "), "a -> b");
    assert_eq!(join_strings(&vec![], " "), "");
}

#[test]
fn out_of_date_stays_out_of_date() {
    let seen = [Some(20), None];
    assert!(!up_to_date(Some(10), &seen[..1]));
    assert!(!up_to_date(Some(10), &seen));
    assert!(!up_to_date(Some(10), &[None, Some(1), Some(2)]));
    assert!(up_to_date(Some(10), &[Some(1), Some(10)]));
}
