use words_breaker::gpu::{GpuSearch, Hit, Outcome};
use words_breaker::language::{wordlist, Language};
use words_breaker::lengths::makes_phrase;
use words_breaker::search::{
    check_phrase, fewest_slots, list_phrases, phrase_text, recover, run_search_cpu, tells_progress,
    thread_count, RecoverError, SearchOptions, Subsets,
};
use words_breaker::tokenlist::{parse_tokenlist, TokenlistError};
use words_breaker::wallet::{parse_target, TargetError};

const ADDRESS: &str = "1LqBGSKuX5yYUonjxT5qGfpUsXKYYWeabA";

const ABOUT: &str = "abandon abandon abandon abandon abandon abandon abandon abandon abandon \
                     abandon abandon about";

fn options(token: bool, word: bool, min_token: Option<usize>) -> SearchOptions {
    SearchOptions { keep_token_order: token, keep_word_order: word, min_token }
}

fn selections(n: usize, min_token: Option<usize>) -> Vec<Vec<usize>> {
    let mut it = Subsets::new(n, min_token);
    let mut all: Vec<Vec<usize>> = Vec::new();
    while let Some(s) = it.next() {
        all.push(s);
    }
    assert_eq!(it.next(), None);
    all
}

#[test]
fn the_fewest_slots() {
    assert_eq!(fewest_slots(None, 3), 3);
    assert_eq!(fewest_slots(Some(2), 3), 2);
    assert_eq!(fewest_slots(Some(9), 3), 3);
    assert_eq!(fewest_slots(Some(0), 3), 0);
}

#[test]
fn the_number_of_threads() {
    assert_eq!(thread_count(0, 8), 8);
    assert_eq!(thread_count(3, 8), 3);
}

#[test]
fn progress_is_told_now_and_then() {
    assert!(!tells_progress(0));
    assert!(!tells_progress(99_999));
    assert!(tells_progress(100_000));
    assert!(!tells_progress(100_001));
    assert!(tells_progress(300_000));
}

#[test]
fn small_selections_come_first() {
    assert_eq!(
        selections(3, Some(2)),
        vec![vec![0, 1], vec![0, 2], vec![1, 2], vec![0, 1, 2]]
    );
    assert_eq!(selections(3, None), vec![vec![0, 1, 2]]);
    assert_eq!(selections(2, Some(0)), vec![vec![], vec![0], vec![1], vec![0, 1]]);
    assert_eq!(selections(0, None), vec![Vec::<usize>::new()]);
}

#[test]
fn phrases_are_read_out() {
    let words = wordlist(Language::English);
    assert_eq!(phrase_text(&[0, 3, 2047], &words), "abandon about zoo");
    assert_eq!(phrase_text(&[3], &words), "about");
    assert_eq!(phrase_text(&[], &words), "");
}

#[test]
fn one_phrase_is_checked() {
    let words = wordlist(Language::English);
    let mut p = [0u16; 12];
    assert_eq!(check_phrase(Language::English, &words, &ADDRESS.to_string(), &p), None);
    p[11] = 3;
    assert_eq!(
        check_phrase(Language::English, &words, &ADDRESS.to_string(), &p).as_deref(),
        Some(ABOUT)
    );
    assert_eq!(check_phrase(Language::English, &words, &"1x".to_string(), &p), None);
}

#[test]
fn only_phrases_of_twelve_words_are_listed() {
    let words = wordlist(Language::English);
    let list = parse_tokenlist(
        "abandon,about,able,above\nzoo,zone,zero,youth zoo\nact,action,actor,actress",
    )
    .ok()
    .unwrap();
    let all = list_phrases(&list.slots, &vec![0, 1, 2], &options(true, true, None), &words);
    assert_eq!(all.len(), 1);
    assert!(list_phrases(&list.slots, &vec![0, 1], &options(true, true, None), &words).is_empty());
    let free = list_phrases(&list.slots, &vec![0, 1, 2], &options(false, true, None), &words);
    assert_eq!(free.len(), 6);
}

#[test]
fn a_missing_word_is_found() {
    let text = "abandon,abandon,abandon,abandon\nabandon,abandon,abandon,abandon\n\
                abandon,abandon,abandon,?";
    let found = recover(ADDRESS, "english", text, &options(true, true, None)).ok().unwrap().unwrap();
    assert_eq!(found.phrase, ABOUT);
    assert_eq!(found.index, 3);
}

#[test]
fn slots_are_put_in_order() {
    let text = "abandon,abandon,about\nabandon,abandon,abandon,abandon,abandon\n\
                abandon,abandon,abandon,abandon";
    let kept = recover(ADDRESS, "English", text, &options(true, true, None)).ok().unwrap();
    assert!(kept.is_none());
    let found = recover(ADDRESS, "English", text, &options(false, true, None)).ok().unwrap();
    assert_eq!(found.unwrap().phrase, ABOUT);
}

#[test]
fn a_superfluous_slot_is_left_out() {
    let text = "abandon,abandon,abandon,abandon,abandon,abandon\nzoo,zoo\n\
                abandon,abandon,abandon,abandon,abandon,about";
    let all = recover(ADDRESS, "english", text, &options(true, true, None)).ok().unwrap();
    assert!(all.is_none());
    let found = recover(ADDRESS, "english", text, &options(true, true, Some(2))).ok().unwrap();
    assert_eq!(found.unwrap().phrase, ABOUT);
}

#[test]
fn the_search_takes_parsed_slots() {
    let list = parse_tokenlist(
        "abandon,abandon,abandon,abandon,abandon,abandon\n\
         abandon,abandon,abandon,abandon,abandon,ability abandon,abandon,abandon,abandon,abandon,about",
    )
    .ok()
    .unwrap();
    let target = parse_target(ADDRESS).ok().unwrap();
    let found =
        run_search_cpu(&options(true, true, None), &list.slots, &target, Language::English).unwrap();
    assert_eq!((found.phrase.as_str(), found.index), (ABOUT, 1));
}

#[test]
fn the_first_thing_that_is_wrong_is_the_error() {
    let o = options(false, false, None);
    assert!(matches!(
        recover("nonsense", "klingon", "", &o),
        Err(RecoverError::Target(TargetError::InvalidAddress))
    ));
    assert!(matches!(
        recover(ADDRESS, "klingon", "", &o),
        Err(RecoverError::Language(e)) if e.name == "klingon"
    ));
    assert!(matches!(
        recover(ADDRESS, "english", "# nothing", &o),
        Err(RecoverError::Tokenlist(TokenlistError::Empty { .. }))
    ));
    assert!(matches!(
        recover(ADDRESS, "english", "zoo,zooo", &o),
        Err(RecoverError::Tokenlist(TokenlistError::UnknownWord { slot: 1, alternative: 1, .. }))
    ));
}

#[test]
fn rounds_stream_what_is_listed() {
    let words = wordlist(Language::English);
    let list = parse_tokenlist(
        "abandon,about,able,above zoo,zoo\nzoo,zone,zero,youth act,act\nact,action,actor,actress \
         abandon,about,able,above,abandon,about,able,above",
    )
    .ok()
    .unwrap();
    let o = options(false, true, Some(2));
    let mut course = GpuSearch::new(list.slots.len(), &o);
    let mut rounds = 0;
    let mut streamed = 0;
    while let Some(mut round) = course.next_round(&list.slots, &o, &words) {
        let mut one: Vec<Vec<u16>> = Vec::new();
        while let Some(p) = round.phrases.next() {
            one.push(p.to_vec());
        }
        let mut all = list_phrases(&list.slots, &round.chosen, &o, &words);
        one.sort();
        all.sort();
        assert_eq!(one, all);
        streamed += one.len();
        match course.report(None, &words) {
            Outcome::NoMatch { checked } => assert_eq!(checked, rounds),
            Outcome::Match { .. } => panic!("nothing was reported"),
        }
        rounds += 1;
    }
    assert_eq!(rounds, 4);
    assert!(streamed > 0);
    assert!(course.next_round(&list.slots, &o, &words).is_none());
}

#[test]
fn a_hit_is_read_out() {
    let words = wordlist(Language::English);
    let o = options(true, true, None);
    let mut course = GpuSearch::new(2, &o);
    course.report(None, &words);
    let mut indices = [0u16; 12];
    indices[11] = 3;
    match course.report(Some(Hit { indices, global_index: 41 }), &words) {
        Outcome::Match { phrase, index, global } => {
            assert_eq!((phrase.as_str(), index, global), (ABOUT, 41, 42));
        }
        Outcome::NoMatch { .. } => panic!("a hit was reported"),
    }
    match course.report(Some(Hit { indices, global_index: usize::MAX }), &words) {
        Outcome::Match { index, global, .. } => assert_eq!((index, global), (usize::MAX, 0)),
        Outcome::NoMatch { .. } => panic!("a hit was reported"),
    }
}

#[test]
fn slots_that_make_no_phrase_are_told() {
    let tells = |text: &str, min_token: Option<usize>| {
        let list = parse_tokenlist(text).ok().unwrap();
        makes_phrase(&list.slots, &options(false, false, min_token))
    };
    let twelve = "a,b,c,d\na,b,c,d\na,b,?,d";
    assert!(tells(twelve, None));
    assert!(!tells("a,b,c,d\na,b,c,d", None));
    assert!(tells("a,b,c a,b,c,d\na,b,c,d,e,f,g,h", None));
    assert!(!tells("a,b,c,d\na,b,c,d\na,b,c,d\na", None));
    assert!(tells("a,b,c,d\na,b,c,d\na,b,c,d\na", Some(3)));
    assert!(tells("a,b,c,d\na,b,c,d\na,b,c,d\na", Some(0)));
    assert!(!tells("a,b,c,d,e,f,g,h,i,j,k,l,m", Some(0)));
    assert!(tells("a,b,c,d,e,f,g,h,i,j,k,l,m a,b,c,d,e,f,g,h,i,j,k,l", None));
}
