use cerveau::text::{
    chars_of, clip, is_blank, is_whitespace, same_text, single_spaced, split_commas,
    to_ascii_lowercase, trim,
};

#[test]
fn white_space_is_what_std_says() {
    for c in '\0'..=char::MAX {
        assert_eq!(is_whitespace(c), c.is_whitespace());
    }
}

#[test]
fn texts_are_trimmed_as_std_does() {
    for s in ["", " ", "a", " a b ", "\u{3000}x\u{85}", "\n\t", "é "] {
        assert_eq!(trim(s), s.trim());
        assert_eq!(is_blank(s), s.trim().is_empty());
        assert_eq!(single_spaced(s), s.split_whitespace().collect::<Vec<&str>>().join(" "));
        assert_eq!(to_ascii_lowercase(s), s.to_ascii_lowercase());
        assert_eq!(chars_of(s), s.chars().collect::<Vec<char>>());
    }
}

#[test]
fn only_ascii_letters_are_lowered() {
    assert_eq!(to_ascii_lowercase("AZ[az@Éé"), "az[az@Éé");
}

#[test]
fn texts_are_clipped_by_characters() {
    assert_eq!(clip("éab", 2), "éa");
    assert_eq!(clip("éab", 3), "éab");
    assert_eq!(clip("", 3), "");
    assert_eq!(clip("ab", 0), "");
}

#[test]
fn texts_are_compared_whole() {
    assert!(same_text("", "") && same_text("é", "é"));
    assert!(!same_text("a", "A") && !same_text("a", "ab"));
}

#[test]
fn commas_split() {
    assert_eq!(split_commas("a,b , c,,\t"), vec!["a", "b", "c"]);
}
