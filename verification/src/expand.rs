//! From an alternative to the sequences of word indices that it can stand for.

use vstd::prelude::*;

use crate::candidates;
use crate::orders;
use crate::replacement;
use crate::sequences;
use crate::tokenlist;
use crate::tokenlist::{Alternative, Token};

verus! {

/// The known words of an alternative, in order.
pub open spec fn known_words(alternative: Seq<Option<Seq<char>>>) -> Seq<Seq<char>>
    decreases alternative.len(),
{
    if alternative.len() == 0 {
        seq![]
    } else {
        let before = known_words(alternative.drop_last());
        match alternative.last() {
            Some(word) => before.push(word),
            None => before,
        }
    }
}

/// The positions of the missing words of an alternative, in order.
pub open spec fn missing_positions(alternative: Seq<Option<Seq<char>>>) -> Seq<usize>
    decreases alternative.len(),
{
    if alternative.len() == 0 {
        seq![]
    } else {
        let before = missing_positions(alternative.drop_last());
        match alternative.last() {
            Some(word) => before,
            None => before.push((alternative.len() - 1) as usize),
        }
    }
}

/// Parts an alternative into its known words and the positions of its missing ones.
pub fn expand_alternative(alt: &Alternative) -> (r: (Vec<String>, Vec<usize>))
    ensures
        tokenlist::texts(r.0@) == known_words(tokenlist::alternative_view(alt@)),
        r.1@ == missing_positions(tokenlist::alternative_view(alt@)),
{
    let ghost all = tokenlist::alternative_view(alt@);
    let mut words: Vec<String> = Vec::new();
    let mut missing: Vec<usize> = Vec::new();
    let mut i: usize = 0;
    assert(tokenlist::texts(words@) =~= known_words(all.take(0)));
    assert(missing@ =~= missing_positions(all.take(0)));
    while i < alt.len()
        invariant
            i <= alt@.len(),
            all == tokenlist::alternative_view(alt@),
            tokenlist::texts(words@) == known_words(all.take(i as int)),
            missing@ == missing_positions(all.take(i as int)),
        decreases alt@.len() - i,
    {
        let ghost before = tokenlist::texts(words@);
        assert(all.take(i + 1).drop_last() =~= all.take(i as int));
        assert(all.take(i + 1).last() == alt@[i as int]@);
        match &alt[i] {
            Token::Word(word) => {
                words.push(word.clone());
                assert(tokenlist::texts(words@) =~= before.push(word@));
            },
            Token::Missing => {
                missing.push(i);
            },
        }
        i = i + 1;
    }
    assert(all.take(i as int) =~= all);
    (words, missing)
}

/// The first position of `word` in `words`, where it occurs.
pub open spec fn first_index(words: Seq<Seq<char>>, word: Seq<char>) -> nat
    decreases words.len(),
{
    if words.len() == 0 || words[0] == word {
        0
    } else {
        1 + first_index(words.drop_first(), word)
    }
}

proof fn lemma_first_index(words: Seq<Seq<char>>, word: Seq<char>, i: int)
    requires
        0 <= i < words.len(),
        words[i] == word,
        forall|j: int| 0 <= j < i ==> words[j] != word,
    ensures
        first_index(words, word) == i,
    decreases i,
{
    if i > 0 {
        assert(words[0] != word);
        let rest = words.drop_first();
        assert forall|j: int| 0 <= j < i - 1 implies rest[j] != word by {
            assert(words[j + 1] != word);
        }
        lemma_first_index(rest, word, i - 1);
    }
}

/// The word of the list at the first index is the word.
pub proof fn lemma_first_index_is_word(words: Seq<Seq<char>>, word: Seq<char>)
    requires
        words.contains(word),
    ensures
        first_index(words, word) < words.len(),
        words[first_index(words, word) as int] == word,
    decreases words.len(),
{
    if words[0] != word {
        let i = choose|i: int| 0 <= i < words.len() && words[i] == word;
        assert(words.drop_first()[i - 1] == word);
        lemma_first_index_is_word(words.drop_first(), word);
    }
}

/// Looks a word up in a word list.
pub fn find_word(wordlist: &Vec<String>, word: &String) -> (index: Option<usize>)
    ensures
        match index {
            Some(i) => i < wordlist@.len() && tokenlist::texts(wordlist@).contains(word@) && i
                == first_index(tokenlist::texts(wordlist@), word@),
            None => !tokenlist::texts(wordlist@).contains(word@),
        },
{
    let ghost words = tokenlist::texts(wordlist@);
    let mut i: usize = 0;
    while i < wordlist.len()
        invariant
            i <= wordlist@.len(),
            words == tokenlist::texts(wordlist@),
            forall|j: int| 0 <= j < i ==> words[j] != word@,
        decreases wordlist@.len() - i,
    {
        assert(words[i as int] == wordlist@[i as int]@);
        if wordlist[i] == *word {
            proof {
                lemma_first_index(words, word@, i as int);
            }
            return Some(i);
        }
        i = i + 1;
    }
    None
}

/// The index of a word: its first position in the word list.
pub open spec fn word_index(words: Seq<Seq<char>>, word: Seq<char>) -> u16 {
    first_index(words, word) as u16
}

/// The indices of the given words.
pub open spec fn indices_of(words: Seq<Seq<char>>, known: Seq<Seq<char>>) -> Seq<u16> {
    Seq::new(known.len(), |i: int| word_index(words, known[i]))
}

/// The indices of words that are all in the word list, which is no longer than indices go.
pub fn known_indices(wordlist: &Vec<String>, known: &Vec<String>) -> (indices: Vec<u16>)
    requires
        wordlist@.len() <= candidates::MAX_WORDS,
        forall|i: int|
            0 <= i < known@.len() ==> tokenlist::texts(wordlist@).contains(
                #[trigger] tokenlist::texts(known@)[i],
            ),
    ensures
        indices@ == indices_of(tokenlist::texts(wordlist@), tokenlist::texts(known@)),
{
    let ghost words = tokenlist::texts(wordlist@);
    let mut indices: Vec<u16> = Vec::new();
    let mut i: usize = 0;
    while i < known.len()
        invariant
            i <= known@.len(),
            wordlist@.len() <= candidates::MAX_WORDS,
            words == tokenlist::texts(wordlist@),
            forall|j: int|
                0 <= j < known@.len() ==> words.contains(#[trigger] tokenlist::texts(known@)[j]),
            indices@.len() == i,
            forall|j: int|
                0 <= j < i ==> indices@[j] == indices_of(words, tokenlist::texts(known@))[j],
        decreases known@.len() - i,
    {
        assert(words.contains(tokenlist::texts(known@)[i as int]));
        let position: usize = match find_word(wordlist, &known[i]) {
            Some(position) => position,
            None => 0,
        };
        indices.push(position as u16);
        i = i + 1;
    }
    assert(indices@ =~= indices_of(words, tokenlist::texts(known@)));
    indices
}

/// The number of positions before `end` that are missing.
pub open spec fn missing_before(missing: Seq<usize>, end: nat) -> nat
    decreases end,
{
    if end == 0 {
        0
    } else {
        missing_before(missing, (end - 1) as nat) + if missing.contains((end - 1) as usize) {
            1nat
        } else {
            0nat
        }
    }
}

/// The known items and the values for the missing places, put together: a missing place takes
/// the next value, any other place the next known item.
pub open spec fn woven(
    known: Seq<u16>,
    values: Seq<u16>,
    missing: Seq<usize>,
    total: nat,
) -> Seq<u16> {
    Seq::new(
        total,
        |pos: int|
            if missing.contains(pos as usize) {
                values[missing_before(missing, pos as nat) as int]
            } else {
                known[pos - missing_before(missing, pos as nat)]
            },
    )
}

/// `woven` for each of `values`.
pub open spec fn woven_each(
    known: Seq<u16>,
    values: Seq<Seq<u16>>,
    missing: Seq<usize>,
    total: nat,
) -> Seq<Seq<u16>> {
    Seq::new(values.len(), |i: int| woven(known, values[i], missing, total))
}

/// `woven_each` for each of `orders`, one after the other.
pub open spec fn woven_all(
    orders: Seq<Seq<u16>>,
    values: Seq<Seq<u16>>,
    missing: Seq<usize>,
    total: nat,
) -> Seq<Seq<u16>>
    decreases orders.len(),
{
    if orders.len() == 0 {
        seq![]
    } else {
        woven_each(orders[0], values, missing, total) + woven_all(
            orders.drop_first(),
            values,
            missing,
            total,
        )
    }
}

/// The orders in which the known items are tried.
pub open spec fn known_orders(known: Seq<u16>, keep_word_order: bool) -> Seq<Seq<u16>> {
    if keep_word_order {
        seq![known]
    } else {
        sequences::arrangements(known, known.len())
    }
}

/// The sequences that an alternative can stand for: every order of the known items with every
/// filling of the missing places.
pub open spec fn candidates_of(
    known: Seq<u16>,
    missing: Seq<usize>,
    total: nat,
    keep_word_order: bool,
    wordlist_len: nat,
) -> Seq<Seq<u16>> {
    woven_all(
        known_orders(known, keep_word_order),
        replacement::tuples(candidates::word_indices(wordlist_len), missing.len()),
        missing,
        total,
    )
}

/// There are at most as many missing places as `missing` has items.
pub proof fn lemma_missing_before_bound(missing: Seq<usize>, end: nat)
    requires
        end <= usize::MAX,
    ensures
        missing_before(missing, end) <= missing.len(),
        missing_before(missing, end) <= end,
{
    lemma_missing_before_set(missing, end);
    let below = Set::new(|p: usize| p < end && missing.contains(p));
    assert(below.subset_of(missing.to_set()));
    vstd::set_lib::lemma_len_subset(below, missing.to_set());
    missing.lemma_cardinality_of_set();
}

proof fn lemma_missing_before_set(missing: Seq<usize>, end: nat)
    requires
        end <= usize::MAX,
    ensures
        Set::new(|p: usize| p < end && missing.contains(p)).finite(),
        missing_before(missing, end) == Set::new(|p: usize| p < end && missing.contains(p)).len(),
        missing_before(missing, end) <= end,
    decreases end,
{
    let below = Set::new(|p: usize| p < end && missing.contains(p));
    if end == 0 {
        assert(below =~= Set::empty());
    } else {
        let last = (end - 1) as usize;
        let before = Set::new(|p: usize| p < end - 1 && missing.contains(p));
        lemma_missing_before_set(missing, (end - 1) as nat);
        assert(before =~= Set::new(|p: usize| p < (end - 1) as nat && missing.contains(p)));
        if missing.contains(last) {
            assert(below =~= before.insert(last));
        } else {
            assert(below =~= before);
        }
    }
}

/// Each place more has at most one missing place more.
pub proof fn lemma_missing_before_monotonic(missing: Seq<usize>, a: nat, b: nat)
    requires
        a <= b,
    ensures
        missing_before(missing, a) <= missing_before(missing, b),
        missing_before(missing, b) - missing_before(missing, a) <= b - a,
    decreases b - a,
{
    if a < b {
        lemma_missing_before_monotonic(missing, a, (b - 1) as nat);
    }
}

fn is_missing(missing: &[usize], pos: usize) -> (r: bool)
    ensures
        r == missing@.contains(pos),
{
    let mut i: usize = 0;
    while i < missing.len()
        invariant
            i <= missing@.len(),
            forall|j: int| 0 <= j < i ==> missing@[j] != pos,
        decreases missing@.len() - i,
    {
        if missing[i] == pos {
            return true;
        }
        i = i + 1;
    }
    false
}

/// Puts the known items and the values for the missing places together.
fn weave(known: &Vec<u16>, values: &Vec<u16>, missing: &[usize], total_len: usize) -> (whole: Vec<
    u16,
>)
    requires
        values@.len() == missing@.len(),
        total_len - missing_before(missing@, total_len as nat) <= known@.len(),
    ensures
        whole@ == woven(known@, values@, missing@, total_len as nat),
{
    let mut whole: Vec<u16> = Vec::new();
    let mut ki: usize = 0;
    let mut mi: usize = 0;
    let mut pos: usize = 0;
    while pos < total_len
        invariant
            pos <= total_len,
            mi == missing_before(missing@, pos as nat),
            ki == pos - mi,
            mi <= pos,
            values@.len() == missing@.len(),
            total_len - missing_before(missing@, total_len as nat) <= known@.len(),
            whole@.len() == pos,
            forall|j: int|
                0 <= j < pos ==> whole@[j] == woven(
                    known@,
                    values@,
                    missing@,
                    total_len as nat,
                )[j],
        decreases total_len - pos,
    {
        proof {
            lemma_missing_before_bound(missing@, (pos + 1) as nat);
            lemma_missing_before_monotonic(missing@, (pos + 1) as nat, total_len as nat);
        }
        if is_missing(missing, pos) {
            whole.push(values[mi]);
            mi = mi + 1;
        } else {
            whole.push(known[ki]);
            ki = ki + 1;
        }
        pos = pos + 1;
    }
    assert(whole@ =~= woven(known@, values@, missing@, total_len as nat));
    whole
}

/// Appends every filling of the missing places for one order of the known items.
fn add_fillings(
    results: &mut Vec<Vec<u16>>,
    known: &Vec<u16>,
    missing: &[usize],
    total_len: usize,
    wordlist_len: usize,
)
    requires
        total_len - missing_before(missing@, total_len as nat) <= known@.len() || (missing@.len()
            > 0 && wordlist_len == 0),
        missing@.len() > 0 ==> wordlist_len <= candidates::MAX_WORDS,
    ensures
        sequences::contents(final(results)@) == sequences::contents(old(results)@) + woven_each(
            known@,
            replacement::tuples(candidates::word_indices(wordlist_len as nat), missing@.len()),
            missing@,
            total_len as nat,
        ),
{
    let pool: Vec<u16> = if missing.len() > 0 {
        candidates::all_word_indices(wordlist_len)
    } else {
        Vec::new()
    };
    proof {
        if missing@.len() == 0 {
            assert(replacement::same_choices(pool@, 0) =~= replacement::same_choices(
                candidates::word_indices(wordlist_len as nat),
                0,
            ));
        }
    }
    let ghost choices = replacement::same_choices(pool@, missing@.len());
    let ghost values_all = replacement::tuples(pool@, missing@.len());
    let mut fillings = replacement::permutations_with_replacement(pool, missing.len());
    let ghost start = sequences::contents(results@);
    let ghost mut done: int = 0;
    assert(woven_each(known@, values_all.take(0), missing@, total_len as nat) =~= seq![]);
    assert(values_all.skip(0) =~= values_all);
    assert(start + woven_each(known@, values_all.take(0), missing@, total_len as nat) =~= start);
    proof {
        if missing@.len() > 0 && wordlist_len == 0 {
            assert(choices[0].len() == 0);
            assert(values_all =~= seq![]);
        }
    }
    loop
        invariant
            fillings.wf(),
            0 <= done <= values_all.len(),
            values_all == sequences::product(choices),
            choices.len() == missing@.len(),
            fillings.left() == values_all.skip(done),
            values_all.len() > 0 ==> total_len - missing_before(missing@, total_len as nat)
                <= known@.len(),
            sequences::contents(results@) == start + woven_each(
                known@,
                values_all.take(done),
                missing@,
                total_len as nat,
            ),
        ensures
            done == values_all.len(),
        decreases values_all.len() - done,
    {
        let ghost before = sequences::contents(results@);
        match fillings.next() {
            None => {
                break;
            },
            Some(values) => {
                assert(values@ == values_all[done]);
                assert(values_all.contains(values_all[done]));
                proof {
                    sequences::lemma_product_contains(choices, values@);
                }
                let whole = weave(known, &values, missing, total_len);
                results.push(whole);
                proof {
                    assert(sequences::contents(results@) =~= before.push(whole@));
                    assert(values_all.skip(done).drop_first() =~= values_all.skip(done + 1));
                    assert(woven_each(
                        known@,
                        values_all.take(done + 1),
                        missing@,
                        total_len as nat,
                    ) =~= woven_each(
                        known@,
                        values_all.take(done),
                        missing@,
                        total_len as nat,
                    ).push(whole@));
                    done = done + 1;
                }
                assert(sequences::contents(results@) =~= start + woven_each(
                    known@,
                    values_all.take(done),
                    missing@,
                    total_len as nat,
                ));
            },
        }
    }
    assert(values_all.take(done) =~= values_all);
}

/// The items at the given positions.
fn reorder(known: &[u16], order: &Vec<usize>) -> (items: Vec<u16>)
    requires
        sequences::is_order(order@, known@.len()),
    ensures
        items@ == sequences::reordered(known@, order@),
{
    let mut items: Vec<u16> = Vec::new();
    let mut i: usize = 0;
    while i < order.len()
        invariant
            i <= order@.len(),
            sequences::is_order(order@, known@.len()),
            items@.len() == i,
            forall|j: int| 0 <= j < i ==> items@[j] == known@[order@[j] as int],
        decreases order@.len() - i,
    {
        items.push(known[order[i]]);
        i = i + 1;
    }
    assert(items@ =~= sequences::reordered(known@, order@));
    items
}

/// Appends `woven_each` for one more order.
proof fn lemma_woven_all_push(
    orders: Seq<Seq<u16>>,
    order: Seq<u16>,
    values: Seq<Seq<u16>>,
    missing: Seq<usize>,
    total: nat,
)
    ensures
        woven_all(orders.push(order), values, missing, total) == woven_all(
            orders,
            values,
            missing,
            total,
        ) + woven_each(order, values, missing, total),
    decreases orders.len(),
{
    let more = orders.push(order);
    if orders.len() == 0 {
        assert(more.drop_first() =~= seq![]);
        assert(woven_all(more.drop_first(), values, missing, total) =~= seq![]);
        assert(woven_all(more, values, missing, total) =~= woven_all(
            orders,
            values,
            missing,
            total,
        ) + woven_each(order, values, missing, total));
    } else {
        assert(more.drop_first() =~= orders.drop_first().push(order));
        lemma_woven_all_push(orders.drop_first(), order, values, missing, total);
        assert(woven_all(more, values, missing, total) =~= woven_all(
            orders,
            values,
            missing,
            total,
        ) + woven_each(order, values, missing, total));
    }
}

/// All sequences that an alternative with these known items and missing places can stand for.
///
/// Where there is anything to list, the places that are not missing are no more than the known
/// items. Where a place is missing, every index that fills it fits a `u16`.
pub fn slot_candidates(
    known_indices: &[u16],
    missing_positions: &[usize],
    total_len: usize,
    keep_word_order: bool,
    wordlist_len: usize,
) -> (results: Vec<Vec<u16>>)
    requires
        total_len - missing_before(missing_positions@, total_len as nat) <= known_indices@.len()
            || (missing_positions@.len() > 0 && wordlist_len == 0),
        missing_positions@.len() > 0 ==> wordlist_len <= candidates::MAX_WORDS,
    ensures
        sequences::contents(results@) == candidates_of(
            known_indices@,
            missing_positions@,
            total_len as nat,
            keep_word_order,
            wordlist_len as nat,
        ),
{
    let mut results: Vec<Vec<u16>> = Vec::new();
    let n: usize = known_indices.len();
    let ghost values = replacement::tuples(
        candidates::word_indices(wordlist_len as nat),
        missing_positions@.len(),
    );
    let ghost missing = missing_positions@;
    let ghost total = total_len as nat;
    assert(sequences::contents(results@) =~= seq![]);
    if keep_word_order {
        let known: Vec<u16> = vstd::slice::slice_to_vec(known_indices);
        add_fillings(&mut results, &known, missing_positions, total_len, wordlist_len);
        proof {
            let orders = seq![known@];
            lemma_woven_all_push(seq![], known@, values, missing, total);
            assert(Seq::<Seq<u16>>::empty().push(known@) =~= orders);
            assert(known@ =~= known_indices@);
            assert(sequences::contents(results@) =~= woven_all(orders, values, missing, total));
        }
        return results;
    }
    let mut orders = orders::permutations(n, n);
    let ghost all = orders::orders_left(orders);
    let ghost tried = sequences::reordered_each(known_indices@, all);
    let ghost mut done: int = 0;
    proof {
        sequences::lemma_orders_in_range(n as nat);
        sequences::lemma_arrangements_by_position(known_indices@);
    }
    assert(all.skip(0) =~= all);
    assert(tried.take(0) =~= seq![]);
    loop
        invariant
            0 <= done <= all.len(),
            orders::orders_left(orders) == all.skip(done),
            tried == sequences::reordered_each(known_indices@, all),
            forall|i: int|
                0 <= i < all.len() ==> sequences::is_order(
                    #[trigger] all[i],
                    known_indices@.len(),
                ),
            values == replacement::tuples(
                candidates::word_indices(wordlist_len as nat),
                missing_positions@.len(),
            ),
            missing == missing_positions@,
            total == total_len,
            total_len - missing_before(missing_positions@, total_len as nat)
                <= known_indices@.len() || (missing_positions@.len() > 0 && wordlist_len == 0),
            missing_positions@.len() > 0 ==> wordlist_len <= candidates::MAX_WORDS,
            sequences::contents(results@) == woven_all(tried.take(done), values, missing, total),
        ensures
            done == all.len(),
        decreases all.len() - done,
    {
        match orders::next_permutation(&mut orders) {
            None => {
                break;
            },
            Some(order) => {
                assert(order@ == all[done]);
                let known = reorder(known_indices, &order);
                add_fillings(&mut results, &known, missing_positions, total_len, wordlist_len);
                proof {
                    assert(known@ == tried[done]);
                    lemma_woven_all_push(tried.take(done), known@, values, missing, total);
                    assert(tried.take(done).push(known@) =~= tried.take(done + 1));
                    assert(all.skip(done).drop_first() =~= all.skip(done + 1));
                    done = done + 1;
                }
            },
        }
    }
    assert(tried.take(done) =~= tried);
    results
}

/// The missing positions are those of the missing words.
pub proof fn lemma_missing_positions(alternative: Seq<Option<Seq<char>>>, p: usize)
    requires
        alternative.len() <= usize::MAX,
    ensures
        missing_positions(alternative).contains(p) <==> p < alternative.len()
            && alternative[p as int] is None,
    decreases alternative.len(),
{
    if alternative.len() > 0 {
        let before = alternative.drop_last();
        let last = (alternative.len() - 1) as usize;
        lemma_missing_positions(before, p);
        let m = missing_positions(before);
        if alternative.last() is None {
            assert(m.push(last)[m.len() as int] == last);
            assert(m.push(last).contains(p) <==> m.contains(p) || p == last) by {
                if m.contains(p) {
                    let i = choose|i: int| 0 <= i < m.len() && m[i] == p;
                    assert(m.push(last)[i] == p);
                }
            }
        }
    }
}

/// Every word of an alternative is known or missing.
pub proof fn lemma_words_known_or_missing(alternative: Seq<Option<Seq<char>>>)
    requires
        alternative.len() <= usize::MAX,
    ensures
        known_words(alternative).len() + missing_positions(alternative).len() == alternative.len(),
        missing_before(missing_positions(alternative), alternative.len()) == missing_positions(
            alternative,
        ).len(),
{
    lemma_count_missing(alternative, alternative.len());
    assert(alternative.take(alternative.len() as int) =~= alternative);
}

pub proof fn lemma_count_missing(alternative: Seq<Option<Seq<char>>>, end: nat)
    requires
        end <= alternative.len() <= usize::MAX,
    ensures
        known_words(alternative.take(end as int)).len() + missing_positions(
            alternative.take(end as int),
        ).len() == end,
        missing_before(missing_positions(alternative), end) == missing_positions(
            alternative.take(end as int),
        ).len(),
    decreases end,
{
    if end > 0 {
        let before = (end - 1) as nat;
        lemma_count_missing(alternative, before);
        assert(alternative.take(end as int).drop_last() =~= alternative.take(before as int));
        lemma_missing_positions(alternative, before as usize);
    }
}

/// As many sequences as there are orders, times as many as there are fillings.
pub proof fn lemma_woven_all_len(
    orders: Seq<Seq<u16>>,
    values: Seq<Seq<u16>>,
    missing: Seq<usize>,
    total: nat,
)
    ensures
        woven_all(orders, values, missing, total).len() == orders.len() * values.len(),
    decreases orders.len(),
{
    if orders.len() > 0 {
        lemma_woven_all_len(orders.drop_first(), values, missing, total);
        assert(orders.len() * values.len() == values.len() + (orders.len() - 1) * values.len())
            by (nonlinear_arith);
    }
}

/// An alternative stands for one sequence for each order of its known items and each filling of
/// its missing places: `n!` orders, or one if the order is kept, and as many fillings as there are
/// words to the power of the missing places.
pub proof fn lemma_candidates_len(
    known: Seq<u16>,
    missing: Seq<usize>,
    total: nat,
    keep_word_order: bool,
    wordlist_len: nat,
)
    ensures
        candidates_of(known, missing, total, keep_word_order, wordlist_len).len() == (
        if keep_word_order {
            1nat
        } else {
            sequences::factorial(known.len())
        }) * sequences::power(wordlist_len, missing.len()),
{
    let pool = candidates::word_indices(wordlist_len);
    lemma_woven_all_len(
        known_orders(known, keep_word_order),
        replacement::tuples(pool, missing.len()),
        missing,
        total,
    );
    sequences::lemma_product_len(replacement::same_choices(pool, missing.len()), pool.len());
    sequences::lemma_arrangements_len(known);
}

/// A word that is in the list keeps its identity: its index is that of a word of the list, that
/// word is it, and no earlier word is.
pub proof fn lemma_word_index(words: Seq<Seq<char>>, word: Seq<char>)
    requires
        words.contains(word),
        words.len() <= 65536,
    ensures
        word_index(words, word) < words.len(),
        words[word_index(words, word) as int] == word,
        forall|j: int| 0 <= j < word_index(words, word) ==> (#[trigger] words[j]) != word,
{
    lemma_first_index_is_word(words, word);
    lemma_none_before(words, word);
}

proof fn lemma_none_before(words: Seq<Seq<char>>, word: Seq<char>)
    ensures
        forall|j: int|
            0 <= j < first_index(words, word) && j < words.len() ==> (#[trigger] words[j]) != word,
    decreases words.len(),
{
    if words.len() > 0 && words[0] != word {
        let rest = words.drop_first();
        lemma_none_before(rest, word);
        assert forall|j: int| 0 <= j < first_index(words, word) && j < words.len() implies (
        #[trigger] words[j]) != word by {
            if j > 0 {
                assert(rest[j - 1] != word);
            }
        }
    }
}

/// The indices of known words read those words again.
pub proof fn lemma_indices_read(words: Seq<Seq<char>>, known: Seq<Seq<char>>)
    requires
        words.len() <= 65536,
        forall|i: int| 0 <= i < known.len() ==> words.contains(#[trigger] known[i]),
    ensures
        indices_of(words, known).len() == known.len(),
        forall|i: int|
            0 <= i < known.len() ==> (#[trigger] indices_of(words, known)[i]) < words.len()
                && words[indices_of(words, known)[i] as int] == known[i],
{
    assert forall|i: int| 0 <= i < known.len() implies (#[trigger] indices_of(words, known)[i])
        < words.len() && words[indices_of(words, known)[i] as int] == known[i] by {
        assert(words.contains(known[i]));
        lemma_word_index(words, known[i]);
    }
}

/// The known words are all the words of the alternative, in their order, and nothing else.
pub proof fn lemma_known_words(alternative: Seq<Option<Seq<char>>>)
    ensures
        known_words(alternative) == alternative.filter(
            |t: Option<Seq<char>>| t is Some,
        ).map_values(|t: Option<Seq<char>>| t->0),
    decreases alternative.len(),
{
    reveal(Seq::filter);
    let is_word = |t: Option<Seq<char>>| t is Some;
    let word_of = |t: Option<Seq<char>>| t->0;
    if alternative.len() == 0 {
        assert(known_words(alternative) =~= alternative.filter(is_word).map_values(word_of));
    } else {
        let before = alternative.drop_last();
        lemma_known_words(before);
        assert(known_words(alternative) =~= alternative.filter(is_word).map_values(word_of));
    }
}

/// The missing positions come in increasing order, so none comes twice.
pub proof fn lemma_missing_increasing(alternative: Seq<Option<Seq<char>>>)
    requires
        alternative.len() <= usize::MAX,
    ensures
        forall|i: int, j: int|
            0 <= i < j < missing_positions(alternative).len() ==> #[trigger] missing_positions(
                alternative,
            )[i] < #[trigger] missing_positions(alternative)[j] < alternative.len(),
        forall|i: int|
            0 <= i < missing_positions(alternative).len() ==> (#[trigger] missing_positions(
                alternative,
            )[i]) < alternative.len(),
    decreases alternative.len(),
{
    if alternative.len() > 0 {
        let before = missing_positions(alternative.drop_last());
        let all = missing_positions(alternative);
        lemma_missing_increasing(alternative.drop_last());
        assert forall|i: int| 0 <= i < all.len() implies (#[trigger] all[i])
            < alternative.len() by {
            if i < before.len() {
                assert(all[i] == before[i]);
            }
        }
        assert forall|i: int, j: int| 0 <= i < j < all.len() implies #[trigger] all[i]
            < #[trigger] all[j] < alternative.len() by {
            assert(all[i] == before[i]);
            if j < before.len() {
                assert(all[j] == before[j]);
            }
        }
    }
}

/// Without the order of the known items kept, the sequences for one order of them come before those
/// for the next, and for each order they are those that come when that order is kept.
pub proof fn lemma_candidates_by_order(
    known: Seq<u16>,
    missing: Seq<usize>,
    total: nat,
    wordlist_len: nat,
    o: int,
    v: int,
)
    requires
        0 <= o < sequences::arrangements(known, known.len()).len(),
        0 <= v < sequences::power(wordlist_len, missing.len()),
    ensures
        ({
            let n = sequences::power(wordlist_len, missing.len());
            let order = sequences::arrangements(known, known.len())[o];
            let all = candidates_of(known, missing, total, false, wordlist_len);
            &&& 0 <= o * n + v < all.len()
            &&& all[o * n + v] == candidates_of(order, missing, total, true, wordlist_len)[v]
        }),
{
    let pool = candidates::word_indices(wordlist_len);
    let values = replacement::tuples(pool, missing.len());
    replacement::lemma_tuples_len(pool, missing.len());
    let orders = sequences::arrangements(known, known.len());
    let one = seq![orders[o]];
    assert(one.drop_first() =~= seq![]);
    assert(woven_all(one.drop_first(), values, missing, total) =~= seq![]);
    lemma_woven_all_index(orders, values, missing, total, o, v);
}

proof fn lemma_woven_all_index(
    orders: Seq<Seq<u16>>,
    values: Seq<Seq<u16>>,
    missing: Seq<usize>,
    total: nat,
    o: int,
    v: int,
)
    requires
        0 <= o < orders.len(),
        0 <= v < values.len(),
    ensures
        0 <= o * values.len() + v < woven_all(orders, values, missing, total).len(),
        woven_all(orders, values, missing, total)[o * values.len() + v] == woven(
            orders[o],
            values[v],
            missing,
            total,
        ),
    decreases o,
{
    let n = values.len() as int;
    let rest = orders.drop_first();
    lemma_woven_all_len(rest, values, missing, total);
    lemma_woven_all_len(orders, values, missing, total);
    if o == 0 {
        assert(0 * n == 0);
    } else {
        lemma_woven_all_index(rest, values, missing, total, o - 1, v);
        assert(o * n == n + (o - 1) * n) by (nonlinear_arith);
        assert((o - 1) * n >= 0) by (nonlinear_arith)
            requires
                o >= 1,
                n >= 0,
        ;
    }
}

} // verus!
