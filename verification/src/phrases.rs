//! What chosen slots can stand for: the candidates of each, and the orders in which they are taken.

use vstd::prelude::*;

use crate::candidates;
use crate::expand;
use crate::orders;
use crate::sequences;
use crate::tokenlist;
use crate::tokenlist::{Alternative, Slot};

verus! {

/// The contents of chosen slots.
pub open spec fn chosen_view(chosen: Seq<&Slot>) -> Seq<Seq<Seq<Option<Seq<char>>>>> {
    Seq::new(chosen.len(), |i: int| tokenlist::slot_view(chosen[i]@))
}

/// Every known word is in the word list.
pub open spec fn alternative_known(
    alternative: Seq<Option<Seq<char>>>,
    words: Seq<Seq<char>>,
) -> bool {
    forall|t: int|
        0 <= t < alternative.len() ==> match #[trigger] alternative[t] {
            Some(word) => words.contains(word),
            None => true,
        }
}

/// Every known word of the slot is in the word list.
pub open spec fn slot_known(
    slot: Seq<Seq<Option<Seq<char>>>>,
    words: Seq<Seq<char>>,
) -> bool {
    forall|a: int| 0 <= a < slot.len() ==> alternative_known(#[trigger] slot[a], words)
}

/// Every known word of the slots is in the word list.
pub open spec fn all_known(
    slots: Seq<Seq<Seq<Option<Seq<char>>>>>,
    words: Seq<Seq<char>>,
) -> bool {
    forall|s: int| 0 <= s < slots.len() ==> slot_known(#[trigger] slots[s], words)
}

/// The sequences of word indices that an alternative can stand for.
pub open spec fn alternative_candidates(
    alternative: Seq<Option<Seq<char>>>,
    words: Seq<Seq<char>>,
    keep_word_order: bool,
) -> Seq<Seq<u16>> {
    expand::candidates_of(
        expand::indices_of(words, expand::known_words(alternative)),
        expand::missing_positions(alternative),
        alternative.len(),
        keep_word_order,
        words.len(),
    )
}

/// The candidates of each alternative of a slot.
pub open spec fn slot_table(
    slot: Seq<Seq<Option<Seq<char>>>>,
    words: Seq<Seq<char>>,
    keep_word_order: bool,
) -> Seq<Seq<Seq<u16>>> {
    Seq::new(slot.len(), |a: int| alternative_candidates(slot[a], words, keep_word_order))
}

/// The candidates of each alternative of each slot.
pub open spec fn table_of(
    slots: Seq<Seq<Seq<Option<Seq<char>>>>>,
    words: Seq<Seq<char>>,
    keep_word_order: bool,
) -> Seq<Seq<Seq<Seq<u16>>>> {
    Seq::new(slots.len(), |s: int| slot_table(slots[s], words, keep_word_order))
}

/// The contents of the candidates of the alternatives of a slot.
pub open spec fn row_view(row: Seq<Vec<Vec<u16>>>) -> Seq<Seq<Seq<u16>>> {
    Seq::new(row.len(), |a: int| sequences::contents(row[a]@))
}

/// The contents of the candidates of the alternatives of the slots.
pub open spec fn table_view(table: Seq<Vec<Vec<Vec<u16>>>>) -> Seq<Seq<Seq<Seq<u16>>>> {
    Seq::new(table.len(), |s: int| row_view(table[s]@))
}

/// What each slot can stand for, in the given order of the slots: the candidates of its first
/// alternative, then those of the next, and so on.
pub open spec fn order_choices(
    table: Seq<Seq<Seq<Seq<u16>>>>,
    order: Seq<usize>,
) -> Seq<Seq<Seq<u16>>> {
    Seq::new(order.len(), |j: int| table[order[j] as int].flatten())
}

/// Each list of parts, put together.
pub open spec fn joined_each(listing: Seq<Seq<Seq<u16>>>) -> Seq<Seq<u16>> {
    Seq::new(listing.len(), |i: int| listing[i].flatten())
}

/// The sequences that have as many words as a phrase.
pub open spec fn full_phrases(listing: Seq<Seq<u16>>) -> Seq<Seq<u16>>
    decreases listing.len(),
{
    if listing.len() == 0 {
        seq![]
    } else if listing[0].len() == candidates::PHRASE_LEN {
        seq![listing[0]] + full_phrases(listing.drop_first())
    } else {
        full_phrases(listing.drop_first())
    }
}

/// The orders in which the slots are tried.
pub open spec fn slot_orders(n: nat, keep_token_order: bool) -> Seq<Seq<usize>> {
    if keep_token_order {
        seq![sequences::positions(n)]
    } else {
        sequences::arrangements(sequences::positions(n), n)
    }
}

/// The phrases for one order of the slots.
pub open spec fn order_phrases(table: Seq<Seq<Seq<Seq<u16>>>>, order: Seq<usize>) -> Seq<
    Seq<u16>,
> {
    full_phrases(joined_each(sequences::product(order_choices(table, order))))
}

/// The phrases for each of the orders, one order after the other.
pub open spec fn phrases_in_orders(
    table: Seq<Seq<Seq<Seq<u16>>>>,
    orders: Seq<Seq<usize>>,
) -> Seq<Seq<u16>>
    decreases orders.len(),
{
    if orders.len() == 0 {
        seq![]
    } else {
        order_phrases(table, orders[0]) + phrases_in_orders(table, orders.drop_first())
    }
}

/// Every slot has an alternative, and every alternative has a candidate.
pub open spec fn has_candidates(table: Seq<Seq<Seq<Seq<u16>>>>) -> bool {
    forall|s: int|
        0 <= s < table.len() ==> (#[trigger] table[s]).len() > 0 && forall|a: int|
            0 <= a < table[s].len() ==> (#[trigger] table[s][a]).len() > 0
}

/// Every slot has an alternative, and where a word is missing there are words to fill it with.
pub open spec fn expandable(
    slots: Seq<Seq<Seq<Option<Seq<char>>>>>,
    words: Seq<Seq<char>>,
) -> bool {
    forall|s: int|
        0 <= s < slots.len() ==> (#[trigger] slots[s]).len() > 0 && forall|a: int|
            0 <= a < slots[s].len() ==> expand::missing_positions(
                #[trigger] slots[s][a],
            ).len() == 0 || words.len() > 0
}

/// Slots that can be expanded are those whose alternatives all have a candidate.
pub proof fn lemma_expandable(
    slots: Seq<Seq<Seq<Option<Seq<char>>>>>,
    words: Seq<Seq<char>>,
    keep_word_order: bool,
)
    ensures
        expandable(slots, words) <==> has_candidates(table_of(slots, words, keep_word_order)),
{
    let table = table_of(slots, words, keep_word_order);
    assert forall|s: int, a: int|
        0 <= s < slots.len() && 0 <= a < slots[s].len() implies ((
    #[trigger] table[s][a]).len() > 0 <==> expand::missing_positions(slots[s][a]).len() == 0
        || words.len() > 0) by {
        lemma_alternative_candidates_nonempty(slots[s][a], words, keep_word_order);
    }
    if expandable(slots, words) {
        assert forall|s: int| 0 <= s < table.len() implies (#[trigger] table[s]).len() > 0
            && forall|a: int| 0 <= a < table[s].len() ==> (#[trigger] table[s][a]).len() > 0 by {
            assert(slots[s].len() > 0);
            assert forall|a: int| 0 <= a < table[s].len() implies (#[trigger] table[s][a]).len()
                > 0 by {
                assert(expand::missing_positions(slots[s][a]).len() == 0
                    || words.len() > 0);
            }
        }
    }
    if has_candidates(table) {
        assert forall|s: int| 0 <= s < slots.len() implies (#[trigger] slots[s]).len() > 0
            && forall|a: int|
            0 <= a < slots[s].len() ==> expand::missing_positions(#[trigger] slots[s][a]).len() == 0
                || words.len() > 0 by {
            assert(table[s].len() > 0);
            assert forall|a: int| 0 <= a < slots[s].len() implies expand::missing_positions(
                #[trigger] slots[s][a],
            ).len() == 0 || words.len() > 0 by {
                assert(table[s][a].len() > 0);
            }
        }
    }
}

/// An alternative stands for something unless a word is missing and there is none to fill it with.
pub proof fn lemma_alternative_candidates_nonempty(
    alternative: Seq<Option<Seq<char>>>,
    words: Seq<Seq<char>>,
    keep_word_order: bool,
)
    ensures
        alternative_candidates(alternative, words, keep_word_order).len() > 0
            <==> expand::missing_positions(alternative).len() == 0 || words.len() > 0,
{
    let known = expand::indices_of(words, expand::known_words(alternative));
    let missing = expand::missing_positions(alternative);
    let n = words.len();
    expand::lemma_candidates_len(
        known,
        missing,
        alternative.len(),
        keep_word_order,
        words.len(),
    );
    sequences::lemma_factorial_positive(known.len());
    sequences::lemma_power_positive(n, missing.len());
    let f = sequences::factorial(known.len());
    let p = sequences::power(n, missing.len());
    assert(f * p > 0 <==> p > 0) by (nonlinear_arith)
        requires
            f > 0,
            p >= 0,
    ;
}

/// All candidates of one alternative.
fn expand_words(
    alternative: &Alternative,
    keep_word_order: bool,
    wordlist: &Vec<String>,
) -> (list: Vec<Vec<u16>>)
    requires
        wordlist@.len() <= candidates::MAX_WORDS,
        alternative_known(
            tokenlist::alternative_view(alternative@),
            tokenlist::texts(wordlist@),
        ),
    ensures
        sequences::contents(list@) == alternative_candidates(
            tokenlist::alternative_view(alternative@),
            tokenlist::texts(wordlist@),
            keep_word_order,
        ),
{
    let ghost view = tokenlist::alternative_view(alternative@);
    let total_len: usize = alternative.len();
    let (known, missing) = expand::expand_alternative(alternative);
    proof {
        lemma_known_words_in(view, tokenlist::texts(wordlist@));
        expand::lemma_words_known_or_missing(view);
    }
    let indices = expand::known_indices(wordlist, &known);
    expand::slot_candidates(
        indices.as_slice(),
        missing.as_slice(),
        total_len,
        keep_word_order,
        wordlist.len(),
    )
}

pub proof fn lemma_known_words_in(alternative: Seq<Option<Seq<char>>>, words: Seq<Seq<char>>)
    requires
        alternative_known(alternative, words),
    ensures
        forall|i: int|
            0 <= i < expand::known_words(alternative).len() ==> words.contains(
                #[trigger] expand::known_words(alternative)[i],
            ),
    decreases alternative.len(),
{
    if alternative.len() > 0 {
        let before = alternative.drop_last();
        assert forall|t: int| 0 <= t < before.len() implies match #[trigger] before[t] {
            Some(word) => words.contains(word),
            None => true,
        } by {
            assert(alternative[t] == before[t]);
        }
        lemma_known_words_in(before, words);
        assert(alternative[alternative.len() - 1] == alternative.last());
        let known = expand::known_words(alternative);
        assert forall|i: int| 0 <= i < known.len() implies words.contains(#[trigger] known[i]) by {
            if i < expand::known_words(before).len() {
                assert(known[i] == expand::known_words(before)[i]);
            }
        }
    }
}

/// The candidates of each alternative of each slot.
pub(crate) fn expand_slots(
    chosen_slots: &[&Slot],
    keep_word_order: bool,
    wordlist: &Vec<String>,
) -> (table: Vec<Vec<Vec<Vec<u16>>>>)
    requires
        wordlist@.len() <= candidates::MAX_WORDS,
        all_known(chosen_view(chosen_slots@), tokenlist::texts(wordlist@)),
    ensures
        table_view(table@) == table_of(
            chosen_view(chosen_slots@),
            tokenlist::texts(wordlist@),
            keep_word_order,
        ),
{
    let ghost words = tokenlist::texts(wordlist@);
    let ghost slots = chosen_view(chosen_slots@);
    let mut table: Vec<Vec<Vec<Vec<u16>>>> = Vec::new();
    let mut s: usize = 0;
    while s < chosen_slots.len()
        invariant
            s <= chosen_slots@.len(),
            wordlist@.len() <= candidates::MAX_WORDS,
            words == tokenlist::texts(wordlist@),
            slots == chosen_view(chosen_slots@),
            all_known(slots, words),
            table@.len() == s,
            forall|i: int|
                0 <= i < s ==> row_view((#[trigger] table@[i])@) == slot_table(
                    slots[i],
                    words,
                    keep_word_order,
                ),
        decreases chosen_slots@.len() - s,
    {
        let slot: &Slot = chosen_slots[s];
        let ghost view = tokenlist::slot_view(slot@);
        assert(slots[s as int] == view);
        assert(slot_known(slots[s as int], words));
        let mut row: Vec<Vec<Vec<u16>>> = Vec::new();
        let mut a: usize = 0;
        while a < slot.len()
            invariant
                a <= slot@.len(),
                wordlist@.len() <= candidates::MAX_WORDS,
                words == tokenlist::texts(wordlist@),
                view == tokenlist::slot_view(slot@),
                slot_known(view, words),
                row@.len() == a,
                forall|i: int|
                    0 <= i < a ==> sequences::contents((#[trigger] row@[i])@)
                        == alternative_candidates(view[i], words, keep_word_order),
            decreases slot@.len() - a,
        {
            assert(view[a as int] == tokenlist::alternative_view(slot@[a as int]@));
            assert(alternative_known(view[a as int], words));
            row.push(expand_words(&slot[a], keep_word_order, wordlist));
            a = a + 1;
        }
        assert(row_view(row@) =~= slot_table(view, words, keep_word_order));
        table.push(row);
        s = s + 1;
    }
    assert(table_view(table@) =~= table_of(slots, words, keep_word_order));
    table
}

/// The orders in which the slots are tried.
pub(crate) fn list_slot_orders(n: usize, keep_token_order: bool) -> (list: Vec<Vec<usize>>)
    ensures
        sequences::contents(list@) == slot_orders(n as nat, keep_token_order),
        forall|i: int| 0 <= i < list@.len() ==> sequences::is_order(#[trigger] list@[i]@, n as nat),
{
    let mut list: Vec<Vec<usize>> = Vec::new();
    if keep_token_order {
        let mut order: Vec<usize> = Vec::new();
        let mut i: usize = 0;
        while i < n
            invariant
                i <= n,
                order@.len() == i,
                forall|j: int| 0 <= j < i ==> order@[j] == j,
            decreases n - i,
        {
            order.push(i);
            i = i + 1;
        }
        assert(order@ =~= sequences::positions(n as nat));
        list.push(order);
        assert(sequences::contents(list@) =~= slot_orders(n as nat, keep_token_order));
        return list;
    }
    let mut it = orders::permutations(n, n);
    let ghost all = orders::orders_left(it);
    let ghost mut done: int = 0;
    proof {
        sequences::lemma_orders_in_range(n as nat);
        assert(all.skip(0) =~= all);
        assert(sequences::contents(list@) =~= all.take(0));
    }
    loop
        invariant
            0 <= done <= all.len(),
            orders::orders_left(it) == all.skip(done),
            sequences::contents(list@) == all.take(done),
        ensures
            done == all.len(),
        decreases all.len() - done,
    {
        match orders::next_permutation(&mut it) {
            None => {
                break;
            },
            Some(order) => {
                list.push(order);
                proof {
                    assert(all.skip(done).drop_first() =~= all.skip(done + 1));
                    assert(sequences::contents(list@) =~= all.take(done).push(order@));
                    assert(all.take(done).push(order@) =~= all.take(done + 1));
                    done = done + 1;
                }
            },
        }
    }
    assert(all.take(done) =~= all);
    assert forall|i: int| 0 <= i < list@.len() implies sequences::is_order(
        #[trigger] list@[i]@,
        n as nat,
    ) by {
        assert(sequences::contents(list@)[i] == list@[i]@);
    }
    list
}

/// A single slot, or none, has one order.
pub proof fn lemma_one_order(n: nat)
    requires
        n <= 1,
    ensures
        slot_orders(n, false) == slot_orders(n, true),
{
    let p = sequences::positions(n);
    if n == 0 {
        assert(p =~= seq![]);
        assert(slot_orders(n, false) =~= slot_orders(n, true));
    } else {
        let rest = p.remove(0);
        assert(sequences::arrangements(rest, 0) =~= seq![seq![]]);
        assert(sequences::prefixed(p[0], sequences::arrangements(rest, 0))[0] =~= p);
        assert(sequences::arrangements_from(p, 1, 1) =~= seq![]);
        assert(slot_orders(n, false) =~= slot_orders(n, true));
    }
}

/// What is said of chosen slots and of tables is said of what they hold.
pub proof fn lemma_views(chosen: Seq<&Slot>, table: Seq<Vec<Vec<Vec<u16>>>>)
    ensures
        chosen_view(chosen).len() == chosen.len(),
        forall|s: int|
            0 <= s < chosen.len() ==> (#[trigger] chosen_view(chosen)[s]) == tokenlist::slot_view(
                chosen[s]@,
            ),
        table_view(table).len() == table.len(),
        forall|s: int|
            0 <= s < table.len() ==> (#[trigger] table_view(table)[s]).len() == table[s]@.len(),
        forall|s: int, a: int|
            0 <= s < table.len() && 0 <= a < table[s]@.len() ==> (#[trigger] table_view(
                table,
            )[s][a]).len() == table[s]@[a]@.len(),
        forall|s: int, a: int, c: int|
            0 <= s < table.len() && 0 <= a < table[s]@.len() && 0 <= c < table[s]@[a]@.len() ==> (
            #[trigger] table_view(table)[s][a][c]) == table[s]@[a]@[c]@,
{
}

} // verus!
