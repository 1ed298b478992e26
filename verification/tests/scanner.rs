use tsp_anneal::scanner::Scanner;
use tsp_anneal::text::{parse_usize, trim_chars};

fn chars(s: &str) -> Vec<char> {
    s.chars().collect()
}

fn text(v: &[char]) -> String {
    v.iter().collect()
}

fn all_tokens(sc: &mut Scanner) -> Vec<String> {
    let mut out = Vec::new();
    while let Some(t) = sc.next() {
        out.push(text(&t));
    }
    out
}

#[test]
fn next_splits_lines_and_spaces() {
    let mut sc = Scanner::new("NAME : a280\n  DIMENSION:  280 \n\n1 288 149\n");
    assert_eq!(
        all_tokens(&mut sc),
        vec!["NAME", ":", "a280", "DIMENSION:", "280", "1", "288", "149"]
    );
    assert!(sc.next().is_none());
}

#[test]
fn next_on_empty_and_blank_text() {
    let mut sc = Scanner::new("");
    assert!(sc.next().is_none());
    let mut sc = Scanner::new("   \n\t\n \r\n");
    assert!(sc.next().is_none());
    assert!(sc.next().is_none());
}

#[test]
fn next_keeps_tabs_inside_tokens() {
    // Only spaces separate tokens within a line; a tab inside stays.
    let mut sc = Scanner::new("\ta\tb c\t\n");
    assert_eq!(all_tokens(&mut sc), vec!["a\tb", "c"]);
}

#[test]
fn next_trims_unicode_white_space_and_crlf() {
    let mut sc = Scanner::new("\u{3000}x y\u{a0}\r\nz");
    assert_eq!(all_tokens(&mut sc), vec!["x", "y", "z"]);
}

#[test]
fn next_line_reads_lines_with_their_breaks() {
    let mut sc = Scanner::new("ab\n\ncd");
    assert_eq!(sc.next_line().map(|l| text(&l)), Some("ab\n".to_string()));
    assert_eq!(sc.next_line().map(|l| text(&l)), Some("\n".to_string()));
    assert_eq!(sc.next_line().map(|l| text(&l)), Some("cd".to_string()));
    assert_eq!(sc.next_line(), None);
}

#[test]
fn ne_hands_out_tokens_in_order() {
    let mut sc = Scanner::new("3 4\n5");
    assert_eq!(text(&sc.ne()), "3");
    assert_eq!(text(&sc.ne()), "4");
    assert_eq!(text(&sc.ne()), "5");
    assert!(sc.next().is_none());
}

#[test]
fn trim_removes_surrounding_white_space_only() {
    assert_eq!(text(&trim_chars(&chars("  a b \n"))), "a b");
    assert_eq!(text(&trim_chars(&chars("\u{2028}\u{85}"))), "");
    assert_eq!(text(&trim_chars(&chars("x"))), "x");
    assert_eq!(text(&trim_chars(&chars("\u{200b}x"))), "\u{200b}x");
}

#[test]
fn parse_usize_accepts_what_from_str_accepts() {
    for s in ["0", "42", "+7", "007", "", "+", "-1", "-0", "1a", " 1", "++1", "18446744073709551615", "18446744073709551616", "99999999999999999999999"] {
        let expected = s.parse::<usize>().ok();
        assert_eq!(parse_usize(&chars(s)), expected, "token {:?}", s);
    }
    assert_eq!(parse_usize(&chars("+280")), Some(280));
    assert_eq!(parse_usize(&chars("2 8")), None);
}

#[test]
fn exhausted_only_after_reading_past_the_end() {
    let mut sc = Scanner::new("a\nb\n");
    assert_eq!(text(&sc.ne()), "a");
    assert_eq!(text(&sc.ne()), "b");
    assert!(!sc.exhausted());
    assert!(sc.next().is_none());
    assert!(sc.exhausted());
}
