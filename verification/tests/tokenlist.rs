use words_breaker::language::Language;
use words_breaker::text::{is_whitespace, split, split_nonempty, to_chars, from_chars, Separator};
use words_breaker::tokenlist::{parse_tokenlist, Alternative, Slot, Token, TokenlistError};
use words_breaker::validate::{check_words, validate_slots};

fn show(slot: &Slot) -> Vec<Vec<String>> {
    slot.iter()
        .map(|alt: &Alternative| {
            alt.iter()
                .map(|t| match t {
                    Token::Word(w) => w.clone(),
                    Token::Missing => "(missing)".to_string(),
                })
                .collect()
        })
        .collect()
}

#[test]
fn one_line_is_one_slot() {
    let text = "galaxy,meat,evil,faith\noxygen,donor,?,donkey\npopular,friend,oval,venture\n";
    let list = parse_tokenlist(text).ok().unwrap();
    assert_eq!(list.slots.len(), 3);
    assert_eq!(show(&list.slots[0]), vec![vec!["galaxy", "meat", "evil", "faith"]]);
    assert_eq!(show(&list.slots[1]), vec![vec!["oxygen", "donor", "(missing)", "donkey"]]);
    assert_eq!(show(&list.slots[2]), vec![vec!["popular", "friend", "oval", "venture"]]);
    assert!(list.skipped.is_empty());
}

#[test]
fn alternatives_are_separated_by_white_space() {
    let list = parse_tokenlist("zebra,liquid,tornado,?   abandon,art").ok().unwrap();
    assert_eq!(
        show(&list.slots[0]),
        vec![vec!["zebra", "liquid", "tornado", "(missing)"], vec!["abandon", "art"]]
    );
    let tabs = parse_tokenlist("\ta\t\tb\u{3000}c\r\n").ok().unwrap();
    assert_eq!(show(&tabs.slots[0]), vec![vec!["a"], vec!["b"], vec!["c"]]);
}

#[test]
fn only_a_bare_question_mark_is_missing() {
    let list = parse_tokenlist("?oxygen,? ??").ok().unwrap();
    assert_eq!(show(&list.slots[0]), vec![vec!["?oxygen", "(missing)"], vec!["??"]]);
}

#[test]
fn blank_lines_and_comments_are_ignored() {
    let plain = parse_tokenlist("a b\nc").ok().unwrap();
    let noisy = parse_tokenlist("# head\n\na b\n   \n  # indented, comment\nc\n#").ok().unwrap();
    assert_eq!(plain.slots.len(), noisy.slots.len());
    for i in 0..plain.slots.len() {
        assert_eq!(show(&plain.slots[i]), show(&noisy.slots[i]));
    }
    assert!(noisy.skipped.is_empty());
}

#[test]
fn a_number_sign_inside_a_line_is_no_comment() {
    let list = parse_tokenlist("a #b").ok().unwrap();
    assert_eq!(show(&list.slots[0]), vec![vec!["a"], vec!["#b"]]);
}

#[test]
fn empty_words_and_alternatives_are_left_out() {
    let list = parse_tokenlist(",a,,b, , c,").ok().unwrap();
    assert_eq!(show(&list.slots[0]), vec![vec!["a", "b"], vec!["c"]]);
}

#[test]
fn lines_of_commas_are_skipped_with_their_number() {
    let list = parse_tokenlist("# one\n,,\na\n, ,,\n").ok().unwrap();
    assert_eq!(list.slots.len(), 1);
    assert_eq!(list.skipped, vec![2, 4]);
}

#[test]
fn a_list_without_slots_is_an_error() {
    for text in ["", "\n\n", "# only a comment\n"] {
        assert!(matches!(
            parse_tokenlist(text),
            Err(TokenlistError::Empty { skipped }) if skipped.is_empty()
        ));
    }
    assert!(matches!(
        parse_tokenlist(",,,\n# comment\n, ,"),
        Err(TokenlistError::Empty { skipped }) if skipped == vec![1, 3]
    ));
}

#[test]
fn known_words_pass() {
    let list = parse_tokenlist("galaxy,? meat\nevil,faith").ok().unwrap();
    assert!(validate_slots(&list.slots, Language::English).is_ok());
}

#[test]
fn the_first_unknown_word_is_reported() {
    let list = parse_tokenlist("galaxy meat,?\nevil faith,nope,? nada").ok().unwrap();
    match validate_slots(&list.slots, Language::English) {
        Err(TokenlistError::UnknownWord { slot, alternative, word }) => {
            assert_eq!((slot, alternative, word.as_str()), (2, 2, "nope"));
        }
        _ => panic!("the word is not in the list"),
    }
}

#[test]
fn words_must_match_exactly() {
    let list = parse_tokenlist("Galaxy").ok().unwrap();
    assert!(validate_slots(&list.slots, Language::English).is_err());
    let words = vec!["Galaxy".to_string()];
    assert!(check_words(&list.slots, &words).is_ok());
    assert!(check_words(&list.slots, &vec![]).is_err());
}

#[test]
fn white_space_is_what_it_is_for_chars() {
    for n in 0..=0x10ffffu32 {
        if let Some(c) = char::from_u32(n) {
            assert_eq!(is_whitespace(c), c.is_whitespace(), "{n:x}");
        }
    }
}

#[test]
fn text_is_cut_and_put_together() {
    let chars = to_chars("a,,b");
    assert_eq!(chars, vec!['a', ',', ',', 'b']);
    assert_eq!(from_chars(&chars), "a,,b");
    assert_eq!(split(&chars, Separator::Comma), vec![vec!['a'], vec![], vec!['b']]);
    assert_eq!(split_nonempty(&chars, Separator::Comma), vec![vec!['a'], vec!['b']]);
    assert_eq!(split(&vec![], Separator::LineFeed), vec![Vec::<char>::new()]);
}
