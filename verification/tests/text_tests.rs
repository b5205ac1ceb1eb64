//! Tests of the text helpers: splitting, trimming, equality, and the
//! decimal parsing used for descriptor ids and return values.

use strace_tree::numparse::{parse_i64, parse_usize};
use strace_tree::strutil::{split_str, str_eq, starts_with_char, trim_char};

#[test]
fn split_on_separator() {
    assert_eq!(split_str("a|b|c", '|'), vec!["a", "b", "c"]);
    assert_eq!(split_str("a|b|", '|'), vec!["a", "b", ""]);
    assert_eq!(split_str("", '|'), vec![""]);
    assert_eq!(split_str("||", '|'), vec!["", "", ""]);
    assert_eq!(split_str("/a/b", '/'), vec!["", "a", "b"]);
    assert_eq!(split_str("plain", '/'), vec!["plain"]);
}

#[test]
fn trim_removes_both_ends_only() {
    assert_eq!(trim_char("\"/tmp/x\"", '"'), "/tmp/x");
    assert_eq!(trim_char("\"\"\"x\"\"", '"'), "x");
    assert_eq!(trim_char("no-quotes", '"'), "no-quotes");
    assert_eq!(trim_char("a\"b", '"'), "a\"b");
    assert_eq!(trim_char("\"\"", '"'), "");
    assert_eq!(trim_char("[3", '['), "3");
    assert_eq!(trim_char("4]", ']'), "4");
}

#[test]
fn string_equality_and_prefix() {
    assert!(str_eq("openat", "openat"));
    assert!(!str_eq("open", "openat"));
    assert!(!str_eq("close", "write"));
    assert!(starts_with_char("-1 ENOENT", '-'));
    assert!(!starts_with_char("3", '-'));
    assert!(!starts_with_char("", '-'));
}

#[test]
fn parse_unsigned_values() {
    assert_eq!(parse_usize("0"), Some(0));
    assert_eq!(parse_usize("123"), Some(123));
    assert_eq!(parse_usize(""), None);
    assert_eq!(parse_usize("-3"), None);
    assert_eq!(parse_usize("12a"), None);
    assert_eq!(parse_usize("18446744073709551615"), Some(usize::MAX));
    assert_eq!(parse_usize("18446744073709551616"), None);
    assert_eq!(parse_usize("99999999999999999999999999"), None);
}

#[test]
fn parse_signed_values() {
    assert_eq!(parse_i64("0"), Some(0));
    assert_eq!(parse_i64("-1"), Some(-1));
    assert_eq!(parse_i64("+7"), Some(7));
    assert_eq!(parse_i64("9223372036854775807"), Some(i64::MAX));
    assert_eq!(parse_i64("-9223372036854775808"), Some(i64::MIN));
    assert_eq!(parse_i64("9223372036854775808"), None);
    assert_eq!(parse_i64("-9223372036854775809"), None);
    assert_eq!(parse_i64("-"), None);
    assert_eq!(parse_i64("--1"), None);
    assert_eq!(parse_i64("1 ENOENT"), None);
}
