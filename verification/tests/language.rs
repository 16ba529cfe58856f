use words_breaker::language::{language_named, parse_language, wordlist, Language, WORDLIST_LEN};

const NAMES: [(&str, Language); 10] = [
    ("english", Language::English),
    ("portuguese", Language::Portuguese),
    ("spanish", Language::Spanish),
    ("french", Language::French),
    ("italian", Language::Italian),
    ("czech", Language::Czech),
    ("korean", Language::Korean),
    ("japanese", Language::Japanese),
    ("chinese-simplified", Language::SimplifiedChinese),
    ("chinese-traditional", Language::TraditionalChinese),
];

#[test]
fn every_language_has_its_name() {
    for (name, language) in NAMES {
        assert_eq!(language_named(&name.to_string()), Some(language));
        assert!(matches!(parse_language(name), Ok(l) if l == language));
    }
}

#[test]
fn names_are_read_in_any_case() {
    for (name, language) in NAMES {
        assert!(matches!(parse_language(&name.to_uppercase()), Ok(l) if l == language));
    }
    assert!(matches!(parse_language("Chinese-Simplified"), Ok(Language::SimplifiedChinese)));
    assert!(matches!(parse_language("\u{212a}orean"), Ok(Language::Korean)));
    assert_eq!(language_named(&"English".to_string()), None);
}

#[test]
fn other_names_are_refused() {
    for name in ["", "klingon", "english ", "Chinese"] {
        match parse_language(name) {
            Err(e) => assert_eq!(e.name, name),
            Ok(_) => panic!("there is no such language"),
        }
    }
}

#[test]
fn every_list_has_2048_different_words() {
    for (_, language) in NAMES {
        let mut words = wordlist(language);
        assert_eq!(words.len(), WORDLIST_LEN);
        words.sort();
        words.dedup();
        assert_eq!(words.len(), 2048);
    }
}

#[test]
fn english_words_stand_where_they_should() {
    let words = wordlist(Language::English);
    assert_eq!(words[0], "abandon");
    assert_eq!(words[3], "about");
    assert_eq!(words[2047], "zoo");
    assert_ne!(wordlist(Language::Czech)[0], "abandon");
}
