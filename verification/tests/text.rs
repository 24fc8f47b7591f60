use oblivion_waf::text::{
    chars_of, contains_chars, find_char_from, find_seq, has_char, is_space_char, matches_at,
    same_chars, skip_spaces_from, skip_word_from, string_of, trim,
};

fn cs(s: &str) -> Vec<char> {
    s.chars().collect()
}

#[test]
fn text_goes_to_characters_and_back() {
    assert_eq!(chars_of("aé\u{1F600}"), vec!['a', 'é', '\u{1F600}']);
    assert_eq!(chars_of(""), Vec::<char>::new());
    assert_eq!(string_of(&['a', 'é', '\u{1F600}']), "aé\u{1F600}");
    assert_eq!(string_of(&[]), "");
}

#[test]
fn whitespace_is_ascii_whitespace() {
    for c in [' ', '\t', '\n', '\x0C', '\r'] {
        assert!(is_space_char(c));
    }
    for c in ['a', '\x0B', '\u{a0}', '\u{2003}', '\0'] {
        assert!(!is_space_char(c));
    }
}

#[test]
fn scans_stop_where_they_should() {
    let s = cs("  ab \tc");
    assert_eq!(skip_spaces_from(&s, 0), 2);
    assert_eq!(skip_spaces_from(&s, 2), 2);
    assert_eq!(skip_word_from(&s, 2), 4);
    assert_eq!(skip_spaces_from(&s, 4), 6);
    assert_eq!(skip_word_from(&s, 6), 7);
    assert_eq!(skip_spaces_from(&s, 7), 7);
    assert_eq!(find_char_from(&s, 'b', 0), 3);
    assert_eq!(find_char_from(&s, 'b', 4), 7);
    assert_eq!(find_char_from(&s, 'z', 0), 7);
}

#[test]
fn trim_drops_both_ends_only() {
    assert_eq!(trim(&cs(" \t a b \r\n")), &cs("a b")[..]);
    assert_eq!(trim(&cs("ab")), &cs("ab")[..]);
    assert_eq!(trim(&cs(" \t ")), &cs("")[..]);
    assert_eq!(trim(&cs("")), &cs("")[..]);
}

#[test]
fn search_finds_the_first_occurrence() {
    let hay = cs("abcabcabd");
    assert_eq!(find_seq(&hay, &cs("abc")), Some(0));
    assert_eq!(find_seq(&hay, &cs("abd")), Some(6));
    assert_eq!(find_seq(&hay, &cs("bca")), Some(1));
    assert_eq!(find_seq(&hay, &cs("abe")), None);
    assert_eq!(find_seq(&hay, &cs("")), Some(0));
    assert_eq!(find_seq(&cs(""), &cs("")), Some(0));
    assert_eq!(find_seq(&cs("ab"), &cs("abc")), None);
    assert!(contains_chars(&hay, &cs("cab")));
    assert!(!contains_chars(&hay, &cs("ba")));
    assert!(matches_at(&hay, &cs("abd"), 6));
    assert!(!matches_at(&hay, &cs("abd"), 3));
    assert!(!matches_at(&hay, &cs("abd"), 7));
    assert!(matches_at(&hay, &cs(""), 9));
    assert!(!matches_at(&hay, &cs(""), 10));
}

#[test]
fn characters_are_compared_one_by_one() {
    assert!(same_chars(&cs("abc"), &cs("abc")));
    assert!(!same_chars(&cs("abc"), &cs("abd")));
    assert!(!same_chars(&cs("abc"), &cs("ab")));
    assert!(same_chars(&cs(""), &cs("")));
    assert!(has_char(&cs("a\0b"), '\0'));
    assert!(!has_char(&cs("ab"), '\0'));
}
