use hybrid_session::text::{is_space_char, trim, two_fields, two_words};

#[test]
fn white_space_is_unicodes() {
    for c in 0u32..0x11000 {
        if let Some(c) = char::from_u32(c) {
            assert_eq!(is_space_char(c), c.is_whitespace());
        }
    }
}

#[test]
fn words_are_split_at_white_space() {
    let pair = |a: &str, b: &str| (a.to_string(), b.to_string());
    assert_eq!(two_words("COM_BEGIN 123\n"), pair("COM_BEGIN", "123"));
    assert_eq!(two_words("  a\t\tb  c "), pair("a", "b"));
    assert_eq!(two_words("one"), pair("one", ""));
    assert_eq!(two_words("one   "), pair("one", ""));
    assert_eq!(two_words(""), pair("", ""));
    assert_eq!(two_words(" \n\t "), pair("", ""));
    assert_eq!(two_words("é\u{2003}ü\u{a0}x"), pair("é", "ü"));
    for line in ["a b", " a  b c", "", "x", "\u{3000}k\u{85}l\u{2028}"] {
        let mut words = line.split_whitespace();
        let first = words.next().unwrap_or("").to_string();
        let second = words.next().unwrap_or("").to_string();
        assert_eq!(two_words(line), (first, second));
    }
}

#[test]
fn trim_takes_white_space_off_both_ends() {
    for line in ["", " ", "a", " a", "a ", "  a b  ", "\n\ta\u{2003}b\r\n", "\u{a0}é \u{3000}", " \n "] {
        assert_eq!(trim(line), line.trim());
    }
    assert_eq!(trim("  a b  "), "a b");
}

#[test]
fn fields_are_split_at_the_separator() {
    assert_eq!(two_fields("RSA:1 2", ':'), ("RSA".to_string(), Some("1 2".to_string())));
    assert_eq!(two_fields("RSA", ':'), ("RSA".to_string(), None));
    assert_eq!(two_fields("", ':'), ("".to_string(), None));
    assert_eq!(two_fields(":", ':'), ("".to_string(), Some("".to_string())));
    assert_eq!(two_fields("a:b:c", ':'), ("a".to_string(), Some("b".to_string())));
    assert_eq!(two_fields("a::c", ':'), ("a".to_string(), Some("".to_string())));
    assert_eq!(two_fields("é:ü", ':'), ("é".to_string(), Some("ü".to_string())));
    for line in ["a:b", "a", ":a", "a:", "x:y:z", "::"] {
        let parts: Vec<&str> = line.split(':').collect();
        let expected = (parts[0].to_string(), parts.get(1).map(|s| s.to_string()));
        assert_eq!(two_fields(line, ':'), expected);
    }
}
