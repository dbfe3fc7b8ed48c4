use audioserve::cache_paths::{parent_path, split_path};
use audioserve::audio_meta::{FoldersOrdering, TimeStamp};
use audioserve::cache_paths::is_current;
use audioserve::collator::{cmp_natural, compare_folders, compare_str, normalize_posix_locale, split_name};
use audioserve::numbers::{parse_u32, parse_u64, parse_usize};
use std::cmp::Ordering;

#[test]
fn test_natural_order() {
    let mut terms = ["10 - v deset", "2 - dve", "10 - deset", "3 - tri"];
    terms.sort_by(|a, b| cmp_natural(a, b));
    assert_eq!("2 - dve", terms[0]);
    assert_eq!("3 - tri", terms[1]);
    assert_eq!("10 - deset", terms[2]);
    assert_eq!("10 - v deset", terms[3]);
}

#[test]
fn test_natural_order_with_prefix() {
    let mut terms = ["Chapter 10", "Chapter 3", "Chapter 20", "Chapter 1"];
    terms.sort_unstable_by(|a, b| cmp_natural(a, b));
    assert_eq!("Chapter 1", terms[0]);
    assert_eq!("Chapter 3", terms[1]);
    assert_eq!("Chapter 10", terms[2]);
    assert_eq!("Chapter 20", terms[3]);
}

#[test]
fn split_name_parts() {
    let (prefix, n, rest) = split_name("Chapter 12 - end").unwrap();
    assert_eq!(prefix, "Chapter ");
    assert_eq!(n, 12);
    assert_eq!(rest, " - end");
    assert!(split_name("no number").is_none());
    // eleven digits: the first ten are the number
    let (prefix, n, rest) = split_name("a12345678901").unwrap();
    assert_eq!(prefix, "a");
    assert_eq!(n, 1234567890);
    assert_eq!(rest, "1");
    // ten digits over u32::MAX: no split
    assert!(split_name("x9999999999").is_none());
}

#[test]
fn parse_u32_cases() {
    assert_eq!(parse_u32("0"), Some(0));
    assert_eq!(parse_u32("+42"), Some(42));
    assert_eq!(parse_u32("4294967295"), Some(u32::MAX));
    assert_eq!(parse_u32("4294967296"), None);
    assert_eq!(parse_u32(""), None);
    assert_eq!(parse_u32("+"), None);
    assert_eq!(parse_u32("1a"), None);
    assert_eq!(parse_u32("-1"), None);
    assert_eq!(parse_u64("18446744073709551615"), Some(u64::MAX));
    assert_eq!(parse_u64("18446744073709551616"), None);
}

#[test]
fn natural_order_edges() {
    assert_eq!(cmp_natural("a", "a"), Ordering::Equal);
    assert_eq!(cmp_natural("x 2", "y 1"), Ordering::Less);
    assert_eq!(cmp_natural("file", "file 1"), Ordering::Less);
    assert_eq!(cmp_natural("track 007", "track 7"), Ordering::Equal);
    assert_eq!(cmp_natural("track 7b", "track 7a"), Ordering::Greater);
    assert_eq!(compare_str("abc", "abd"), Ordering::Less);
    assert_eq!(compare_str("ab", "a"), Ordering::Greater);
    assert_eq!(compare_str("é", "z"), Ordering::Greater);
}

#[test]
fn test_parent_path() {
    assert_eq!("usak", parent_path("usak/kulisak"));
    assert_eq!("", parent_path("usak"));
}

#[test]
fn split_path_cases() {
    assert_eq!(split_path("a/b/c.mp3"), ("a/b".to_string(), "c.mp3".to_string()));
    assert_eq!(split_path("c.mp3"), ("".to_string(), "c.mp3".to_string()));
    assert_eq!(split_path("a/"), ("a".to_string(), "".to_string()));
}

#[test]
fn usize_numbers() {
    assert_eq!(parse_usize("0"), Some(0));
    assert_eq!(parse_usize("+42"), Some(42));
    assert_eq!(parse_usize(""), None);
    assert_eq!(parse_usize("-1"), None);
    assert_eq!(parse_usize("1a"), None);
    assert_eq!(parse_usize("99999999999999999999999"), None);
}

#[test]
fn posix_locales_as_tags() {
    assert_eq!(normalize_posix_locale("cs_CZ.UTF-8"), "cs-CZ");
    assert_eq!(normalize_posix_locale("en_US@euro"), "en-US");
    assert_eq!(normalize_posix_locale("de_DE.UTF-8@x"), "de-DE");
    assert_eq!(normalize_posix_locale("C"), "C");
    assert_eq!(normalize_posix_locale(""), "");
}

#[test]
fn folder_orders() {
    let a = FoldersOrdering::Alphabetical;
    let r = FoldersOrdering::RecentFirst;
    assert_eq!(compare_folders(a, "abc", None, "ABD", None), Ordering::Less);
    assert_eq!(compare_folders(a, "Abc", None, "aBC", None), Ordering::Equal);
    assert_eq!(compare_folders(a, "b", None, "A", None), Ordering::Greater);
    let t = |n: u64| Some(TimeStamp(n));
    assert_eq!(compare_folders(r, "a", t(10), "b", t(5)), Ordering::Less);
    assert_eq!(compare_folders(r, "a", t(5), "b", t(10)), Ordering::Greater);
    assert_eq!(compare_folders(r, "a", t(5), "b", t(5)), Ordering::Equal);
    assert_eq!(compare_folders(r, "a", t(5), "b", None), Ordering::Less);
    assert_eq!(compare_folders(r, "a", None, "b", t(5)), Ordering::Greater);
    assert_eq!(compare_folders(r, "a", None, "b", None), Ordering::Equal);
}

#[test]
fn cached_folder_is_current() {
    assert!(is_current(Some(10), Some(10)));
    assert!(is_current(Some(11), Some(10)));
    assert!(!is_current(Some(9), Some(10)));
    assert!(!is_current(None, Some(10)));
    assert!(!is_current(Some(10), None));
}
