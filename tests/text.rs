use rebos::text::{blank, cut, decimal, parse_number, sed, str_to_string_vec, string_vec_to_string, trim};

#[test]
fn trim_removes_outer_whitespace() {
    assert_eq!(trim("  12 \n"), "12");
    assert_eq!(trim("\u{3000}a b\u{a0}"), "a b");
    assert_eq!(trim(" \t "), "");
    assert_eq!(trim(""), "");
}

#[test]
fn blank_detects_whitespace_only() {
    assert!(blank(""));
    assert!(blank(" \t\n"));
    assert!(!blank(" x "));
}

#[test]
fn parse_number_reads_pointer_files() {
    assert_eq!(parse_number("3\n"), Some(3));
    assert_eq!(parse_number("  42  "), Some(42));
    assert_eq!(parse_number("+7"), Some(7));
    assert_eq!(parse_number("007"), Some(7));
    assert_eq!(parse_number("0"), Some(0));
    assert_eq!(parse_number(""), None);
    assert_eq!(parse_number("+"), None);
    assert_eq!(parse_number("-1"), None);
    assert_eq!(parse_number("12a"), None);
    assert_eq!(parse_number("1 2"), None);
}

#[test]
fn parse_number_rejects_overflow() {
    let max = usize::MAX.to_string();
    assert_eq!(parse_number(&max), Some(usize::MAX));
    let over = format!("{}0", max);
    assert_eq!(parse_number(&over), None);
}

#[test]
fn decimal_matches_to_string() {
    assert_eq!(decimal(0), "0");
    assert_eq!(decimal(7), "7");
    assert_eq!(decimal(1234), "1234");
    assert_eq!(decimal(usize::MAX), usize::MAX.to_string());
}

#[test]
fn sed_replaces_every_marker() {
    assert_eq!(sed("sudo apt install #:?", "#:?", "git vim"), "sudo apt install git vim");
    assert_eq!(sed("a#:?b#:?c", "#:?", "-"), "a-b-c");
    assert_eq!(sed("no marker", "#:?", "x"), "no marker");
    assert_eq!(sed("##:?", "#:?", "x"), "#x");
}

#[test]
fn string_vec_to_string_joins_with_filler() {
    let v = vec!["a".to_string(), "b".to_string(), "c".to_string()];
    assert_eq!(string_vec_to_string(&v, " "), "a b c");
    assert_eq!(string_vec_to_string(&Vec::new(), " "), "");
    assert_eq!(string_vec_to_string(&vec!["x".to_string()], ", "), "x");
}

#[test]
fn sed_with_an_empty_pattern_matches_split_and_join() {
    assert_eq!(sed("abc", "", "-"), "abc".split("").collect::<Vec<_>>().join("-"));
    assert_eq!(sed("abc", "", "-"), "-a-b-c-");
    assert_eq!(sed("", "", "x"), "".split("").collect::<Vec<_>>().join("x"));
}

fn std_split(s: &str, p: &str) -> Vec<String> {
    s.split(p).map(|x| x.to_string()).collect()
}

#[test]
fn str_to_string_vec_matches_split() {
    for (s, p) in [("a,b,,c", ","), ("", ","), ("abc", ""), ("", ""), ("a::b:::c", "::"), ("xx", "xx"), ("no sep", "#")] {
        assert_eq!(str_to_string_vec(s, p), std_split(s, p), "{s:?} split at {p:?}");
    }
}

#[test]
fn cut_picks_a_field() {
    assert_eq!(cut("a:b:c", 2, ':'), "b");
    assert_eq!(cut("a:b:c", 1, ':'), "a");
    assert_eq!(cut("a:b:c", 4, ':'), "");
    assert_eq!(cut("abc", 1, ':'), "abc");
}
