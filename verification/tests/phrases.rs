use words_breaker::enumerate::enumerate_phrases;
use words_breaker::expand::{expand_alternative, find_word, known_indices, slot_candidates};
use words_breaker::lazy::LazyPhraseIter;
use words_breaker::tokenlist::{parse_tokenlist, Slot, Token};

fn words(list: &[&str]) -> Vec<String> {
    list.iter().map(|w| w.to_string()).collect()
}

fn lazy(slots: &[&Slot], token: bool, word: bool, list: &Vec<String>) -> Vec<Vec<u16>> {
    let mut it = LazyPhraseIter::new(slots, token, word, list);
    let mut all: Vec<Vec<u16>> = Vec::new();
    while let Some(p) = it.next() {
        all.push(p.to_vec());
    }
    assert_eq!(it.next(), None);
    all
}

fn eager(slots: &[&Slot], token: bool, word: bool, list: &Vec<String>) -> Vec<Vec<u16>> {
    enumerate_phrases(slots, token, word, list)
}

#[test]
fn an_alternative_is_parted() {
    let alt = vec![
        Token::Word("a".to_string()),
        Token::Missing,
        Token::Word("b".to_string()),
        Token::Missing,
    ];
    let (known, missing) = expand_alternative(&alt);
    assert_eq!(known, vec!["a", "b"]);
    assert_eq!(missing, vec![1, 3]);
}

#[test]
fn words_are_looked_up() {
    let list = words(&["x", "y", "z", "y"]);
    assert_eq!(find_word(&list, &"y".to_string()), Some(1));
    assert_eq!(find_word(&list, &"q".to_string()), None);
    assert_eq!(known_indices(&list, &words(&["z", "x"])), vec![2, 0]);
}

#[test]
fn missing_places_stay_where_they_are() {
    let all = slot_candidates(&[10, 20], &[1], 3, true, 2);
    assert_eq!(all, vec![vec![10, 0, 20], vec![10, 1, 20]]);
}

#[test]
fn known_words_are_permuted() {
    let all = slot_candidates(&[10, 20], &[1], 3, false, 2);
    assert_eq!(
        all,
        vec![vec![10, 0, 20], vec![10, 1, 20], vec![20, 0, 10], vec![20, 1, 10]]
    );
    assert_eq!(slot_candidates(&[1, 2, 3], &[], 3, false, 5).len(), 6);
    assert_eq!(slot_candidates(&[7, 7], &[], 2, false, 5), vec![vec![7, 7], vec![7, 7]]);
}

#[test]
fn candidates_at_the_edges() {
    assert_eq!(slot_candidates(&[], &[], 0, false, 5), vec![Vec::<u16>::new()]);
    assert!(slot_candidates(&[], &[0], 1, true, 0).is_empty());
    assert_eq!(slot_candidates(&[], &[0, 1], 2, true, 3).len(), 9);
    assert_eq!(slot_candidates(&[], &[0], 1, true, 65_536).len(), 65_536);
    assert_eq!(slot_candidates(&[5], &[], 1, true, usize::MAX), vec![vec![5]]);
}

#[test]
fn slots_are_put_together_in_order() {
    let list = words(&["a", "b", "c", "d"]);
    let parsed = parse_tokenlist("a,b,a,b,a,b c\nc,d,c,d,c,d").ok().unwrap();
    let slots: Vec<&Slot> = parsed.slots.iter().collect();
    let all = eager(&slots, true, true, &list);
    assert_eq!(all, vec![vec![0, 1, 0, 1, 0, 1, 2, 3, 2, 3, 2, 3], vec![2, 2, 3, 2, 3, 2, 3]]);
    let phrases = lazy(&slots, true, true, &list);
    assert_eq!(phrases, vec![vec![0, 1, 0, 1, 0, 1, 2, 3, 2, 3, 2, 3]]);
}

#[test]
fn slots_are_permuted() {
    let list = words(&["a", "b"]);
    let parsed = parse_tokenlist("a,a,a,a,a,a\nb,b,b,b,b,b").ok().unwrap();
    let slots: Vec<&Slot> = parsed.slots.iter().collect();
    let expected = vec![
        vec![0, 0, 0, 0, 0, 0, 1, 1, 1, 1, 1, 1],
        vec![1, 1, 1, 1, 1, 1, 0, 0, 0, 0, 0, 0],
    ];
    assert_eq!(lazy(&slots, false, true, &list), expected);
    assert_eq!(eager(&slots, false, true, &list), expected);
}

#[test]
fn both_listings_hold_the_same_phrases() {
    let list = words(&["a", "b", "c", "d"]);
    let text = "a,b,c,? d,c b\nc,?,a a,b,c,d,a,b b,b,b\na,b,c,d,d ?,d,b,c,a c,c,c,c";
    let parsed = parse_tokenlist(text).ok().unwrap();
    let slots: Vec<&Slot> = parsed.slots.iter().collect();
    for token in [false, true] {
        for word in [false, true] {
            let mut one = lazy(&slots, token, word, &list);
            let mut all: Vec<Vec<u16>> = eager(&slots, token, word, &list)
                .into_iter()
                .filter(|p| p.len() == 12)
                .collect();
            assert!(!one.is_empty());
            one.sort();
            all.sort();
            assert_eq!(one, all);
        }
    }
}

#[test]
fn keeping_order_leaves_candidates_out() {
    let list = words(&["a", "b", "c"]);
    let parsed = parse_tokenlist("a,b,c,?\nc,?,a,a\na,b,c,b").ok().unwrap();
    let slots: Vec<&Slot> = parsed.slots.iter().collect();
    let most = lazy(&slots, false, false, &list);
    let kept = lazy(&slots, true, true, &list);
    assert_eq!(kept.len(), 9);
    assert!(most.len() > kept.len());
    assert!(kept.iter().all(|p| most.contains(p)));
}

#[test]
fn without_slots_there_is_no_phrase() {
    let list = words(&["a"]);
    assert!(lazy(&[], false, false, &list).is_empty());
    assert_eq!(eager(&[], false, false, &list), vec![Vec::<u16>::new()]);
}

#[test]
fn phrases_of_another_length_are_not_handed_out() {
    let list = words(&["a"]);
    let parsed = parse_tokenlist("a,a,a,a,a,a,a,a,a,a,a,a,a a").ok().unwrap();
    let slots: Vec<&Slot> = parsed.slots.iter().collect();
    assert!(lazy(&slots, false, true, &list).is_empty());
}

#[test]
fn the_order_of_writing_does_not_matter() {
    let list = words(&["a", "b", "c", "d"]);
    let first = parse_tokenlist("a,b,?,a b,c\nc,d,c,c a,?,c\nd,d,d,d,a b").ok().unwrap();
    let second = parse_tokenlist("b d,d,d,d,a\nb,c a,b,?,a\na,?,c c,d,c,c").ok().unwrap();
    let one: Vec<&Slot> = first.slots.iter().collect();
    let two: Vec<&Slot> = second.slots.iter().collect();
    for word in [false, true] {
        let mut x = eager(&one, false, word, &list);
        let mut y = eager(&two, false, word, &list);
        assert_ne!(x, y);
        x.sort();
        y.sort();
        assert_eq!(x, y);
    }
}
