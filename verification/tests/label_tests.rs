use smg::label::{capitalize_words, default_label_for_route, replace_first};

#[test]
fn root_is_home() {
    assert_eq!(default_label_for_route("/"), "Home");
}

#[test]
fn plain_segment_is_title_cased() {
    assert_eq!(default_label_for_route("/about"), "About");
    assert_eq!(default_label_for_route("/blog/my-first-post"), "My First Post");
    assert_eq!(default_label_for_route("/docs/intro/"), "Intro");
}

#[test]
fn dynamic_segment_gets_detail_suffix() {
    assert_eq!(default_label_for_route("/blog/:slug"), "Slug Detail");
    assert_eq!(default_label_for_route("/shop/:product-id"), "Product Id Detail");
    assert_eq!(default_label_for_route("/docs/:...slug"), "...slug Detail");
    assert_eq!(default_label_for_route("/:"), " Detail");
}

#[test]
fn route_without_components_is_page() {
    assert_eq!(default_label_for_route(""), "Page");
    assert_eq!(default_label_for_route("//"), "Page");
}

#[test]
fn capitalize_words_collapses_whitespace() {
    assert_eq!(capitalize_words("hello   world"), "Hello World");
    assert_eq!(capitalize_words("  leading and trailing\t"), "Leading And Trailing");
    assert_eq!(capitalize_words("tab\tseparated\nlines"), "Tab Separated Lines");
    assert_eq!(capitalize_words(""), "");
    assert_eq!(capitalize_words("   "), "");
}

#[test]
fn capitalize_words_touches_only_the_first_character() {
    assert_eq!(capitalize_words("hELLO wORLD"), "HELLO WORLD");
    assert_eq!(capitalize_words("123 go"), "123 Go");
    assert_eq!(capitalize_words("éclair"), "Éclair");
}

#[test]
fn uppercase_may_be_several_characters() {
    assert_eq!(capitalize_words("ßeta"), "SSeta");
}

#[test]
fn non_breaking_space_separates_words() {
    assert_eq!(capitalize_words("a\u{a0}b"), "A B");
}

#[test]
fn replace_first_swaps_the_initial() {
    let word: Vec<char> = "slug".chars().collect();
    let initial: Vec<char> = "SS".chars().collect();
    let expected: Vec<char> = "SSlug".chars().collect();
    assert_eq!(replace_first(&word, &initial), expected);
    assert_eq!(replace_first(&Vec::new(), &initial), initial);
}

fn has_white_space_property(c: char) -> bool {
    let n = c as u32;
    (0x09..=0x0D).contains(&n)
        || n == 0x20
        || n == 0x85
        || n == 0xA0
        || n == 0x1680
        || (0x2000..=0x200A).contains(&n)
        || (0x2028..=0x2029).contains(&n)
        || n == 0x202F
        || n == 0x205F
        || n == 0x3000
}

#[test]
fn whitespace_is_the_white_space_property() {
    for n in 0..=0x10FFFFu32 {
        if let Some(c) = char::from_u32(n) {
            let text: String = vec!['x', c, 'y'].into_iter().collect();
            let expected: String = if has_white_space_property(c) {
                "X Y".to_string()
            } else {
                vec!['X', c, 'y'].into_iter().collect()
            };
            assert_eq!(capitalize_words(&text), expected, "code point {:#x}", n);
        }
    }
}

#[test]
fn ascii_uppercase_is_one_character() {
    for n in 0..0x80u32 {
        let c = char::from_u32(n).unwrap();
        if has_white_space_property(c) {
            continue;
        }
        let upper = if ('a'..='z').contains(&c) { char::from_u32(n - 0x20).unwrap() } else { c };
        let text: String = vec![c, 'q'].into_iter().collect();
        let expected: String = vec![upper, 'q'].into_iter().collect();
        assert_eq!(capitalize_words(&text), expected, "code point {:#x}", n);
    }
}
