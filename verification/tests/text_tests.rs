use smg::text::{
    chars_le, chars_of, contains, join_chars, matches_at, same_chars, split, split_at_marks,
    starts_with, string_of, trim_end,
};

fn text_chars(s: &str) -> Vec<char> {
    s.chars().collect()
}

#[test]
fn chars_and_strings_round_trip() {
    assert_eq!(chars_of("héllo"), vec!['h', 'é', 'l', 'l', 'o']);
    assert_eq!(string_of(&vec!['a', '/', 'b']), "a/b".to_string());
    assert_eq!(string_of(&chars_of("")), String::new());
}

#[test]
fn split_keeps_empty_pieces() {
    let parts = split(&text_chars("/a//b/"), '/');
    let expected: Vec<Vec<char>> =
        vec![vec![], vec!['a'], vec![], vec!['b'], vec![]];
    assert_eq!(parts, expected);
    assert_eq!(split(&text_chars(""), '/'), vec![Vec::<char>::new()]);
}

#[test]
fn split_at_marks_cuts_where_marked() {
    let parts = split_at_marks(&text_chars("abcd"), &vec![false, true, false, false]);
    assert_eq!(parts, vec![vec!['a'], vec!['c', 'd']]);
}

#[test]
fn positions_without_a_mark_are_not_cut() {
    let parts = split_at_marks(&text_chars("abcd"), &vec![true]);
    assert_eq!(parts, vec![vec![], vec!['b', 'c', 'd']]);
    let more = split_at_marks(&text_chars("ab"), &vec![false, true, true, true]);
    assert_eq!(more, vec![vec!['a'], vec![]]);
}

#[test]
fn join_puts_separator_between() {
    let parts = vec![text_chars("a"), text_chars("bc"), text_chars("")];
    assert_eq!(join_chars(&parts, &text_chars(", ")), text_chars("a, bc, "));
    assert_eq!(join_chars(&Vec::new(), &text_chars("/")), Vec::<char>::new());
    assert_eq!(join_chars(&vec![text_chars("x")], &text_chars("/")), text_chars("x"));
}

#[test]
fn finding_text() {
    let hay = text_chars("app/api/page.tsx");
    assert!(contains(&hay, &text_chars("/api/")));
    assert!(!contains(&hay, &text_chars("/_")));
    assert!(contains(&hay, &text_chars("")));
    assert!(!contains(&text_chars("ab"), &text_chars("abc")));
    assert!(matches_at(&hay, &text_chars("api"), 4));
    assert!(!matches_at(&hay, &text_chars("api"), 3));
    assert!(!matches_at(&hay, &text_chars("tsx"), 14));
    assert!(starts_with(&hay, &text_chars("app/")));
    assert!(!starts_with(&hay, &text_chars("api")));
    assert!(same_chars(&text_chars("abc"), &text_chars("abc")));
    assert!(!same_chars(&text_chars("abc"), &text_chars("abd")));
    assert!(!same_chars(&text_chars("abc"), &text_chars("ab")));
}

#[test]
fn trimming_trailing_slashes() {
    assert_eq!(trim_end(&text_chars("https://x.com///"), '/'), text_chars("https://x.com"));
    assert_eq!(trim_end(&text_chars("https://x.com"), '/'), text_chars("https://x.com"));
    assert_eq!(trim_end(&text_chars("///"), '/'), Vec::<char>::new());
}

#[test]
fn order_is_that_of_strings() {
    let samples = ["", "/", "/a", "/a/b", "/ab", "/b", "/B", "/é", "/:x", "/a-b", "/a/:id"];
    for a in samples.iter() {
        for b in samples.iter() {
            assert_eq!(chars_le(&text_chars(a), &text_chars(b)), a <= b, "{} vs {}", a, b);
        }
    }
}
