use betterjenkins::text::{after_last_char, chars_of, contains_chars, decimal_string, string_from_chars};

#[test]
fn chars_of_keeps_every_character() {
    assert_eq!(chars_of("aé_z"), vec!['a', 'é', '_', 'z']);
    assert_eq!(chars_of(""), Vec::<char>::new());
}

#[test]
fn contains_chars_finds_pieces() {
    let s = chars_of("Content-Type: application/x-yaml");
    assert!(contains_chars(&s, &chars_of("Content-Type")));
    assert!(contains_chars(&s, &chars_of("yaml")));
    assert!(contains_chars(&s, &chars_of("")));
    assert!(!contains_chars(&s, &chars_of("json")));
    assert!(!contains_chars(&chars_of("ya"), &chars_of("yaml")));
    assert!(contains_chars(&chars_of("yaml"), &chars_of("yaml")));
}

#[test]
fn after_last_char_takes_the_last_piece() {
    assert_eq!(after_last_char("stage_1", '_'), "1");
    assert_eq!(after_last_char("a_b_c", '_'), "c");
    assert_eq!(after_last_char("plain", '_'), "plain");
    assert_eq!(after_last_char("trailing_", '_'), "");
    assert_eq!(after_last_char("", '_'), "");
}

#[test]
fn decimal_string_matches_formatting() {
    for n in [0i64, 7, 10, 42, 1234567890, -1, -5, -100, i64::MAX, i64::MIN] {
        assert_eq!(decimal_string(n), format!("{}", n));
    }
}

#[test]
fn string_from_chars_takes_the_range() {
    let v = chars_of("workspace");
    assert_eq!(string_from_chars(&v, 0, 4), "work");
    assert_eq!(string_from_chars(&v, 4, 9), "space");
    assert_eq!(string_from_chars(&v, 3, 3), "");
}
