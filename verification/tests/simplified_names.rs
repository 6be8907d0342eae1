use czkawka::simplified_name::{
    classify, get_simplified_name, get_simplified_name_internal, pick_name, NamePart,
};

#[test]
fn test_simplified_names() {
    let cases = [
        ("roman ( ziemniak ) ", "roman"),
        ("  HH)    ", "HH"),
        ("  fsf.f.  ", "fsf f"),
        ("  śśśśćććć  ", "sssscccc"),
        ("rr\t", "rr"),
        ("Kekistan (feat. roman) [Mix on Mix]", "Kekistan"),
        ("23", "23"),
        ("23 (random)", "23"),
        ("(23)", "(23)"),
    ];

    for (input, expected) in cases {
        let res = get_simplified_name(input);
        assert_eq!(res, expected, "Input: {input}, Expected: {expected}, Got: {res}");
    }
}

#[test]
fn numbers_count_only_where_nothing_else_is_left() {
    assert_eq!(get_simplified_name_internal("Track 01", true), "Track");
    assert_eq!(get_simplified_name_internal("Track 01", false), "Track 01");
    assert_eq!(get_simplified_name_internal("2001", true), "");
    assert_eq!(get_simplified_name("Track 01"), "Track");
}

#[test]
fn unbalanced_brackets() {
    assert_eq!(get_simplified_name("a) b"), "a b");
    assert_eq!(get_simplified_name("a (b"), "a");
    assert_eq!(get_simplified_name("a (b [c) d] e"), "a e");
}

#[test]
fn a_name_has_single_spaces_between_words() {
    assert_eq!(get_simplified_name("  one...two , three  "), "one two three");
    assert_eq!(get_simplified_name("one\u{a0}\u{2003}two"), "one two");
}

#[test]
fn transliteration_is_used() {
    assert_eq!(get_simplified_name("Æneid"), "AEneid");
    assert_eq!(get_simplified_name("ŁÓDŹ"), "LODZ");
    // A text of which nothing is kept otherwise is transliterated as a whole.
    assert_eq!(get_simplified_name("(é)"), "(e)");
}

#[test]
fn a_blank_title_has_an_empty_name() {
    assert_eq!(get_simplified_name(""), "");
    assert_eq!(get_simplified_name(" \t\n "), "");
    assert_eq!(get_simplified_name("..."), "...");
}

#[test]
fn parts_of_a_title() {
    assert!(matches!(classify('(', false, false, Some("(")), NamePart::OpenBracket));
    assert!(matches!(classify(']', false, false, Some("]")), NamePart::CloseBracket));
    assert!(matches!(classify('\t', true, false, None), NamePart::Space));
    assert!(matches!(classify('x', false, true, Some("x")), NamePart::Kept('x')));
    assert!(matches!(classify('.', false, false, Some(".")), NamePart::Separator));
    assert!(matches!(classify('ś', false, false, Some("s")), NamePart::Replaced("s")));
}

#[test]
fn names_are_tried_in_order() {
    let text = |s: &str| s.to_string();
    assert_eq!(pick_name(text("a"), text("b"), "c", "d"), "a");
    assert_eq!(pick_name(text(""), text("b"), "c", "d"), "b");
    assert_eq!(pick_name(text(""), text(""), "c", "d"), "c");
    assert_eq!(pick_name(text(""), text(""), "", "d"), "d");
}

#[test]
fn a_simplified_name_is_simple() {
    let titles =
        ["Kekistan (feat. roman) [Mix on Mix]", " 23 (random) 5", "(23)", "a) b.c", "...", ""];
    for title in titles {
        let name = get_simplified_name(title);
        assert_eq!(get_simplified_name(&name), name);
    }
}

#[test]
fn white_space_separates_words() {
    let white_space: Vec<char> =
        ('\0'..=char::MAX).filter(|c| get_simplified_name(&format!("a({c})b")) == "a b").collect();
    let mut expected: Vec<char> = ('\u{9}'..='\u{d}').collect();
    expected.extend([' ', '\u{85}', '\u{a0}', '\u{1680}']);
    expected.extend('\u{2000}'..='\u{200a}');
    expected.extend(['\u{2028}', '\u{2029}', '\u{202f}', '\u{205f}', '\u{3000}']);
    assert_eq!(white_space, expected);
}

#[test]
fn digits_are_the_numbers_of_ascii() {
    let numbers: String =
        ('\0'..='\u{7f}').filter(|c| c.is_numeric()).collect();
    assert_eq!(numbers, "0123456789");
    assert_eq!(get_simplified_name("2!3"), "2 3");
}

#[test]
fn whole_titles_are_transliterated_piece_by_piece() {
    // Nothing outside the brackets, so the whole title counts.
    assert_eq!(get_simplified_name("(北京)"), "(Bei Jing )");
    assert_eq!(get_simplified_name("(北 京)"), "(Bei Jing )");
    assert_eq!(get_simplified_name("(é\u{1}é)"), "(ee)");
    assert_eq!(get_simplified_name("(\u{1}é)"), "(\u{1}e)");
    assert_eq!(get_simplified_name("(é\u{e000})"), "(e[?])");
}

#[test]
fn lowercase_of_ascii() {
    let all: String = ('\0'..='\u{7f}').collect();
    let expected: String = all
        .chars()
        .map(|c| if c.is_ascii_uppercase() { (c as u8 + 32) as char } else { c })
        .collect();
    assert_eq!(all.to_lowercase(), expected);
}

#[test]
fn lowercase_keeps_text() {
    for c in ('\0'..=char::MAX).filter(|c| !c.is_whitespace()) {
        assert!(!c.to_string().to_lowercase().trim().is_empty());
    }
}
