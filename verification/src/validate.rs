//! Whether the words of a tokenlist are in a word list.

use vstd::prelude::*;

use crate::expand;
use crate::language;
use crate::language::Language;
use crate::phrases;
use crate::tokenlist;
use crate::tokenlist::{Slot, Token, TokenlistError};

verus! {

/// The token is a word that is not in the word list.
pub open spec fn is_unknown(token: Option<Seq<char>>, words: Seq<Seq<char>>) -> bool {
    token matches Some(word) && !words.contains(word)
}

/// Token `t` of alternative `a` of slot `s` is the first word that is not in the word list.
pub open spec fn is_first_unknown(
    slots: Seq<Seq<Seq<Option<Seq<char>>>>>,
    words: Seq<Seq<char>>,
    s: int,
    a: int,
    t: int,
) -> bool {
    &&& 0 <= s < slots.len()
    &&& 0 <= a < slots[s].len()
    &&& 0 <= t < slots[s][a].len()
    &&& is_unknown(slots[s][a][t], words)
    &&& phrases::all_known(slots.take(s), words)
    &&& phrases::slot_known(slots[s].take(a), words)
    &&& phrases::alternative_known(slots[s][a].take(t), words)
}

/// What the check of the slots gives: success if and only if every known word is in the word
/// list, and else the first word that is not, with the numbers of its slot and alternative.
pub open spec fn checks(
    slots: Seq<Seq<Seq<Option<Seq<char>>>>>,
    words: Seq<Seq<char>>,
    r: Result<(), TokenlistError>,
) -> bool {
    match r {
        Ok(_) => phrases::all_known(slots, words),
        Err(TokenlistError::Empty { skipped }) => false,
        Err(TokenlistError::UnknownWord { slot, alternative, word }) => exists|t: int|
            {
                &&& #[trigger] is_first_unknown(slots, words, slot - 1, alternative - 1, t)
                &&& slots[slot - 1][alternative - 1][t] == Some(word@)
            },
    }
}

/// Checks that every known word is in the word list.
pub fn check_words(slots: &[Slot], wordlist: &Vec<String>) -> (r: Result<(), TokenlistError>)
    ensures
        checks(tokenlist::slots_view(slots@), tokenlist::texts(wordlist@), r),
{
    let ghost words = tokenlist::texts(wordlist@);
    let ghost view = tokenlist::slots_view(slots@);
    let slot_count: usize = slots.len();
    let mut s: usize = 0;
    while s < slot_count
        invariant
            s <= slot_count,
            slot_count == slots@.len(),
            words == tokenlist::texts(wordlist@),
            view == tokenlist::slots_view(slots@),
            phrases::all_known(view.take(s as int), words),
        decreases slots@.len() - s,
    {
        let slot: &Slot = &slots[s];
        let ghost slot_view = view[s as int];
        let alternative_count: usize = slot.len();
        let mut a: usize = 0;
        while a < alternative_count
            invariant
                s < slot_count,
                slot_count == slots@.len(),
                a <= alternative_count,
                alternative_count == slot@.len(),
                *slot == slots@[s as int],
                words == tokenlist::texts(wordlist@),
                view == tokenlist::slots_view(slots@),
                slot_view == view[s as int],
                phrases::all_known(view.take(s as int), words),
                phrases::slot_known(slot_view.take(a as int), words),
            decreases slot@.len() - a,
        {
            let alternative = &slot[a];
            let ghost alt_view = slot_view[a as int];
            assert(alt_view == tokenlist::alternative_view(alternative@));
            let mut t: usize = 0;
            while t < alternative.len()
                invariant
                    s < slot_count,
                    slot_count == slots@.len(),
                    a < alternative_count,
                    alternative_count == slot@.len(),
                    t <= alternative@.len(),
                    *slot == slots@[s as int],
                    words == tokenlist::texts(wordlist@),
                    view == tokenlist::slots_view(slots@),
                    slot_view == view[s as int],
                    alt_view == slot_view[a as int],
                    alt_view == tokenlist::alternative_view(alternative@),
                    phrases::all_known(view.take(s as int), words),
                    phrases::slot_known(slot_view.take(a as int), words),
                    phrases::alternative_known(alt_view.take(t as int), words),
                decreases alternative@.len() - t,
            {
                assert(alt_view[t as int] == alternative@[t as int]@);
                if let Token::Word(word) = &alternative[t] {
                    if expand::find_word(wordlist, word).is_none() {
                        assert(is_first_unknown(view, words, s as int, a as int, t as int));
                        assert(is_first_unknown(view, words, (s + 1) - 1, (a + 1) - 1, t as int));
                        return Err(
                            TokenlistError::UnknownWord {
                                slot: s + 1,
                                alternative: a + 1,
                                word: word.clone(),
                            },
                        );
                    }
                }
                t = t + 1;
                assert forall|i: int| 0 <= i < t implies match #[trigger] alt_view.take(
                    t as int,
                )[i] {
                    Some(word) => words.contains(word),
                    None => true,
                } by {
                    if i < t - 1 {
                        assert(alt_view.take(t - 1)[i] == alt_view[i]);
                    }
                }
            }
            assert(alt_view.take(t as int) =~= alt_view);
            a = a + 1;
            assert forall|i: int| 0 <= i < a implies phrases::alternative_known(
                #[trigger] slot_view.take(a as int)[i],
                words,
            ) by {
                if i < a - 1 {
                    assert(slot_view.take(a - 1)[i] == slot_view[i]);
                }
            }
        }
        assert(slot_view.take(a as int) =~= slot_view);
        s = s + 1;
        assert forall|i: int| 0 <= i < s implies phrases::slot_known(
            #[trigger] view.take(s as int)[i],
            words,
        ) by {
            if i < s - 1 {
                assert(view.take(s - 1)[i] == view[i]);
            }
        }
    }
    assert(view.take(s as int) =~= view);
    Ok(())
}

/// Checks that every known word is in the word list of the language.
pub fn validate_slots(slots: &[Slot], language: Language) -> (r: Result<(), TokenlistError>)
    ensures
        checks(tokenlist::slots_view(slots@), language::words_of(language), r),
{
    let wordlist = language::wordlist(language);
    check_words(slots, &wordlist)
}

/// Where a first unknown word is named, the words are not all known: the check fails if and only
/// if a word is not in the word list.
pub proof fn lemma_first_unknown(
    slots: Seq<Seq<Seq<Option<Seq<char>>>>>,
    words: Seq<Seq<char>>,
    s: int,
    a: int,
    t: int,
)
    requires
        is_first_unknown(slots, words, s, a, t),
    ensures
        !phrases::all_known(slots, words),
{
    if phrases::all_known(slots, words) {
        assert(phrases::slot_known(slots[s], words));
        assert(phrases::alternative_known(slots[s][a], words));
        assert(words.contains(slots[s][a][t]->0));
    }
}

/// The first unknown word is the only first one.
pub proof fn lemma_first_unknown_unique(
    slots: Seq<Seq<Seq<Option<Seq<char>>>>>,
    words: Seq<Seq<char>>,
    s: int,
    a: int,
    t: int,
    s2: int,
    a2: int,
    t2: int,
)
    requires
        is_first_unknown(slots, words, s, a, t),
        is_first_unknown(slots, words, s2, a2, t2),
    ensures
        s == s2,
        a == a2,
        t == t2,
{
    lemma_not_later(slots, words, s, a, t, s2, a2, t2);
    lemma_not_later(slots, words, s2, a2, t2, s, a, t);
}

proof fn lemma_not_later(
    slots: Seq<Seq<Seq<Option<Seq<char>>>>>,
    words: Seq<Seq<char>>,
    s: int,
    a: int,
    t: int,
    s2: int,
    a2: int,
    t2: int,
)
    requires
        is_first_unknown(slots, words, s, a, t),
        is_first_unknown(slots, words, s2, a2, t2),
    ensures
        !(s < s2),
        s == s2 ==> !(a < a2),
        s == s2 && a == a2 ==> !(t < t2),
{
    if s < s2 {
        assert(phrases::slot_known(slots.take(s2)[s], words));
        assert(phrases::alternative_known(slots[s][a], words));
        assert(words.contains(slots[s][a][t]->0));
    } else if s == s2 && a < a2 {
        assert(phrases::alternative_known(slots[s].take(a2)[a], words));
        assert(words.contains(slots[s][a][t]->0));
    } else if s == s2 && a == a2 && t < t2 {
        assert(slots[s][a].take(t2)[t] == slots[s][a][t]);
        assert(words.contains(slots[s][a][t]->0));
    }
}

/// All words are known if and only if every word of every alternative of every slot is one of the
/// list.
pub proof fn lemma_all_known(slots: Seq<Seq<Seq<Option<Seq<char>>>>>, words: Seq<Seq<char>>)
    ensures
        phrases::all_known(slots, words) <==> forall|s: int, a: int, t: int|
            0 <= s < slots.len() && 0 <= a < slots[s].len() && 0 <= t < slots[s][a].len() && (
            #[trigger] slots[s][a][t]) is Some ==> words.contains(slots[s][a][t]->0),
{
    if phrases::all_known(slots, words) {
        assert forall|s: int, a: int, t: int|
            0 <= s < slots.len() && 0 <= a < slots[s].len() && 0 <= t < slots[s][a].len() && (
            #[trigger] slots[s][a][t]) is Some implies words.contains(slots[s][a][t]->0) by {
            assert(phrases::slot_known(slots[s], words));
            assert(phrases::alternative_known(slots[s][a], words));
        }
    }
    if forall|s: int, a: int, t: int|
        0 <= s < slots.len() && 0 <= a < slots[s].len() && 0 <= t < slots[s][a].len() && (
        #[trigger] slots[s][a][t]) is Some ==> words.contains(slots[s][a][t]->0) {
        assert forall|s: int| 0 <= s < slots.len() implies phrases::slot_known(
            #[trigger] slots[s],
            words,
        ) by {
            assert forall|a: int| 0 <= a < slots[s].len() implies phrases::alternative_known(
                #[trigger] slots[s][a],
                words,
            ) by {
                assert forall|t: int| 0 <= t < slots[s][a].len() implies match #[trigger] slots[s][a][t] {
                    Some(word) => words.contains(word),
                    None => true,
                } by {
                    assert(slots[s][a][t] is Some ==> words.contains(slots[s][a][t]->0));
                }
            }
        }
    }
}

/// The check succeeds if and only if every word of every alternative is one of the list. Else it
/// names a word that stands in the slot and alternative with the numbers that it gives, that is not
/// one of the list, and before which, slot by slot and alternative by alternative, every word is.
pub proof fn lemma_checks(
    slots: Seq<Seq<Seq<Option<Seq<char>>>>>,
    words: Seq<Seq<char>>,
    r: Result<(), TokenlistError>,
)
    requires
        checks(slots, words, r),
    ensures
        r is Ok <==> forall|s: int, a: int, t: int|
            0 <= s < slots.len() && 0 <= a < slots[s].len() && 0 <= t < slots[s][a].len() && (
            #[trigger] slots[s][a][t]) is Some ==> words.contains(slots[s][a][t]->0),
        r matches Err(e) ==> e is UnknownWord,
        r matches Err(TokenlistError::UnknownWord { slot, alternative, word }) ==> {
            &&& 1 <= slot <= slots.len()
            &&& 1 <= alternative <= slots[slot - 1].len()
            &&& !words.contains(word@)
            &&& exists|t: int|
                {
                    &&& 0 <= t < slots[slot - 1][alternative - 1].len()
                    &&& (#[trigger] slots[slot - 1][alternative - 1][t]) == Some(word@)
                    &&& forall|u: int|
                        0 <= u < t && (#[trigger] slots[slot - 1][alternative - 1][u]) is Some
                            ==> words.contains(slots[slot - 1][alternative - 1][u]->0)
                }
            &&& forall|s: int, a: int, t: int|
                0 <= s < slots.len() && 0 <= a < slots[s].len() && 0 <= t < slots[s][a].len() && (s
                    < slot - 1 || (s == slot - 1 && a < alternative - 1)) && (
                #[trigger] slots[s][a][t]) is Some ==> words.contains(slots[s][a][t]->0)
        },
{
    lemma_all_known(slots, words);
    match r {
        Ok(_) => {},
        Err(TokenlistError::Empty { skipped }) => {},
        Err(TokenlistError::UnknownWord { slot, alternative, word }) => {
            let t = choose|t: int|
                {
                    &&& #[trigger] is_first_unknown(slots, words, slot - 1, alternative - 1, t)
                    &&& slots[slot - 1][alternative - 1][t] == Some(word@)
                };
            lemma_first_unknown(slots, words, slot - 1, alternative - 1, t);
            let alt = slots[slot - 1][alternative - 1];
            assert(alt[t] == Some(word@));
            assert forall|u: int| 0 <= u < t && (
            #[trigger] slots[slot - 1][alternative - 1][u]) is Some implies words.contains(
                slots[slot - 1][alternative - 1][u]->0,
            ) by {
                assert(alt.take(t)[u] == alt[u]);
            }
            assert forall|s: int, a: int, v: int|
                0 <= s < slots.len() && 0 <= a < slots[s].len() && 0 <= v < slots[s][a].len() && (s
                    < slot - 1 || (s == slot - 1 && a < alternative - 1)) && (
                #[trigger] slots[s][a][v]) is Some implies words.contains(slots[s][a][v]->0) by {
                if s < slot - 1 {
                    assert(phrases::slot_known(slots.take(slot - 1)[s], words));
                    assert(phrases::alternative_known(slots[s][a], words));
                } else {
                    assert(phrases::alternative_known(slots[s].take(alternative - 1)[a], words));
                }
            }
        },
    }
}

} // verus!
