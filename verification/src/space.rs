//! What the slots of a tokenlist can stand for, described without a listing: which sequences of
//! word indices are candidates.

use vstd::prelude::*;

use crate::candidates;
use crate::enumerate;
use crate::expand;
use crate::phrases;
use crate::replacement;
use crate::sequences;

verus! {

/// The items of `s` at the places of the known words.
pub open spec fn known_items(alternative: Seq<Option<Seq<char>>>, s: Seq<u16>) -> Seq<u16>
    decreases alternative.len(),
{
    if alternative.len() == 0 {
        seq![]
    } else {
        let before = known_items(alternative.drop_last(), s.drop_last());
        match alternative.last() {
            Some(word) => before.push(s.last()),
            None => before,
        }
    }
}

/// The items of `s` at the places of the missing words.
pub open spec fn missing_items(alternative: Seq<Option<Seq<char>>>, s: Seq<u16>) -> Seq<u16>
    decreases alternative.len(),
{
    if alternative.len() == 0 {
        seq![]
    } else {
        let before = missing_items(alternative.drop_last(), s.drop_last());
        match alternative.last() {
            Some(word) => before,
            None => before.push(s.last()),
        }
    }
}

/// `s` is a sequence of word indices that the alternative can stand for: it has a word for each
/// token, any word of the list at the place of a missing one, and at the other places the known
/// words, in their order or, unless that is to be kept, in any order.
pub open spec fn stands_for(
    alternative: Seq<Option<Seq<char>>>,
    words: Seq<Seq<char>>,
    keep_word_order: bool,
    s: Seq<u16>,
) -> bool {
    let known = expand::indices_of(words, expand::known_words(alternative));
    &&& s.len() == alternative.len()
    &&& forall|p: int|
        0 <= p < alternative.len() && (#[trigger] alternative[p]) is None ==> s[p]
            < words.len()
    &&& if keep_word_order {
        known_items(alternative, s) == known
    } else {
        known_items(alternative, s).to_multiset() == known.to_multiset()
    }
}

proof fn lemma_items_len(alternative: Seq<Option<Seq<char>>>, s: Seq<u16>)
    requires
        s.len() == alternative.len(),
    ensures
        known_items(alternative, s).len() == expand::known_words(alternative).len(),
        missing_items(alternative, s).len() == expand::missing_positions(alternative).len(),
    decreases alternative.len(),
{
    if alternative.len() > 0 {
        lemma_items_len(alternative.drop_last(), s.drop_last());
    }
}

/// Where an item of `s` stands among the known or the missing ones.
proof fn lemma_item_at(alternative: Seq<Option<Seq<char>>>, s: Seq<u16>, p: int)
    requires
        s.len() == alternative.len(),
        0 <= p < s.len(),
    ensures
        alternative[p] is Some ==> expand::known_words(alternative.take(p)).len() < known_items(
            alternative,
            s,
        ).len() && known_items(alternative, s)[expand::known_words(
            alternative.take(p),
        ).len() as int] == s[p],
        alternative[p] is None ==> expand::missing_positions(alternative.take(p)).len()
            < missing_items(alternative, s).len() && missing_items(
            alternative,
            s,
        )[expand::missing_positions(alternative.take(p)).len() as int] == s[p],
    decreases alternative.len(),
{
    let before = alternative.drop_last();
    let t = s.drop_last();
    lemma_items_len(before, t);
    if p < s.len() - 1 {
        lemma_item_at(before, t, p);
        assert(before.take(p) =~= alternative.take(p));
        assert(before[p] == alternative[p]);
    } else {
        assert(alternative.take(p) =~= before);
    }
}

/// The place that a position of an alternative has among the missing or the known ones.
proof fn lemma_place(alternative: Seq<Option<Seq<char>>>, p: int)
    requires
        0 <= p < alternative.len() <= usize::MAX,
    ensures
        expand::missing_before(expand::missing_positions(alternative), p as nat)
            == expand::missing_positions(alternative.take(p)).len(),
        expand::known_words(alternative.take(p)).len() == p - expand::missing_positions(
            alternative.take(p),
        ).len(),
        expand::missing_positions(alternative).contains(p as usize) <==> alternative[p] is None,
{
    expand::lemma_count_missing(alternative, p as nat);
    expand::lemma_missing_positions(alternative, p as usize);
}

/// A sequence is put together again from its items at the known and the missing places.
proof fn lemma_woven_items(alternative: Seq<Option<Seq<char>>>, s: Seq<u16>)
    requires
        s.len() == alternative.len() <= usize::MAX,
    ensures
        expand::woven(
            known_items(alternative, s),
            missing_items(alternative, s),
            expand::missing_positions(alternative),
            alternative.len(),
        ) == s,
{
    let w = expand::woven(
        known_items(alternative, s),
        missing_items(alternative, s),
        expand::missing_positions(alternative),
        alternative.len(),
    );
    assert forall|p: int| 0 <= p < s.len() implies w[p] == s[p] by {
        lemma_item_at(alternative, s, p);
        lemma_place(alternative, p);
    }
    assert(w =~= s);
}

/// What is put together has the given items at the known and the missing places.
proof fn lemma_items_woven(
    alternative: Seq<Option<Seq<char>>>,
    known: Seq<u16>,
    values: Seq<u16>,
    end: nat,
)
    requires
        end <= alternative.len() <= usize::MAX,
        known.len() == expand::known_words(alternative).len(),
        values.len() == expand::missing_positions(alternative).len(),
    ensures
        ({
            let w = expand::woven(
                known,
                values,
                expand::missing_positions(alternative),
                alternative.len(),
            );
            let part = alternative.take(end as int);
            &&& expand::known_words(part).len() <= known.len()
            &&& expand::missing_positions(part).len() <= values.len()
            &&& known_items(part, w.take(end as int)) == known.take(
                expand::known_words(part).len() as int,
            )
            &&& missing_items(part, w.take(end as int)) == values.take(
                expand::missing_positions(part).len() as int,
            )
        }),
    decreases end,
{
    let w = expand::woven(
        known,
        values,
        expand::missing_positions(alternative),
        alternative.len(),
    );
    let part = alternative.take(end as int);
    lemma_prefix_lens(alternative, end);
    if end == 0 {
        assert(known.take(0) =~= seq![]);
        assert(values.take(0) =~= seq![]);
    } else {
        let p = end - 1;
        lemma_items_woven(alternative, known, values, p as nat);
        lemma_place(alternative, p);
        let before = alternative.take(p);
        assert(part.drop_last() =~= before);
        assert(w.take(end as int).drop_last() =~= w.take(p));
        assert(part.last() == alternative[p]);
        assert(w.take(end as int).last() == w[p]);
        let k = expand::known_words(before).len() as int;
        let m = expand::missing_positions(before).len() as int;
        match alternative[p] {
            Some(word) => {
                assert(known.take(k).push(known[k]) =~= known.take(k + 1));
            },
            None => {
                assert(values.take(m).push(values[m]) =~= values.take(m + 1));
            },
        }
    }
}

/// The beginning of an alternative has no more known or missing words than the whole.
proof fn lemma_prefix_lens(alternative: Seq<Option<Seq<char>>>, end: nat)
    requires
        end <= alternative.len(),
    ensures
        expand::known_words(alternative.take(end as int)).len() <= expand::known_words(
            alternative,
        ).len(),
        expand::missing_positions(alternative.take(end as int)).len() <= expand::missing_positions(
            alternative,
        ).len(),
    decreases alternative.len(),
{
    if end < alternative.len() {
        let before = alternative.drop_last();
        lemma_prefix_lens(before, end);
        assert(before.take(end as int) =~= alternative.take(end as int));
    } else {
        assert(alternative.take(end as int) =~= alternative);
    }
}

/// The items at the missing places are in range where each of those places holds one that is.
proof fn lemma_missing_in_range(alternative: Seq<Option<Seq<char>>>, s: Seq<u16>, n: nat)
    requires
        s.len() == alternative.len(),
    ensures
        (forall|j: int|
            0 <= j < missing_items(alternative, s).len() ==> (#[trigger] missing_items(
                alternative,
                s,
            )[j]) < n) <==> (forall|p: int|
            0 <= p < alternative.len() && (#[trigger] alternative[p]) is None ==> s[p] < n),
    decreases alternative.len(),
{
    if alternative.len() > 0 {
        let before = alternative.drop_last();
        let t = s.drop_last();
        let last = alternative.len() - 1;
        lemma_missing_in_range(before, t, n);
        let m = missing_items(alternative, s);
        let mb = missing_items(before, t);
        assert(alternative.last() == alternative[last]);
        if forall|j: int| 0 <= j < m.len() ==> (#[trigger] m[j]) < n {
            assert forall|j: int| 0 <= j < mb.len() implies (#[trigger] mb[j]) < n by {
                assert(m[j] == mb[j]);
            }
            assert forall|p: int|
                0 <= p < alternative.len() && (#[trigger] alternative[p]) is None implies s[p]
                < n by {
                if p < last {
                    assert(before[p] is None);
                } else {
                    assert(m[m.len() - 1] == s[p]);
                }
            }
        }
        if forall|p: int|
            0 <= p < alternative.len() && (#[trigger] alternative[p]) is None ==> s[p] < n {
            assert forall|p: int| 0 <= p < before.len() && (#[trigger] before[p]) is None implies t[p]
                < n by {
                assert(alternative[p] is None);
            }
            assert forall|j: int| 0 <= j < m.len() implies (#[trigger] m[j]) < n by {
                if j < mb.len() {
                    assert(m[j] == mb[j]);
                } else {
                    assert(alternative[last] is None);
                }
            }
        }
    }
}

proof fn lemma_woven_all_contains(
    orders: Seq<Seq<u16>>,
    values: Seq<Seq<u16>>,
    missing: Seq<usize>,
    total: nat,
    s: Seq<u16>,
)
    ensures
        expand::woven_all(orders, values, missing, total).contains(s) <==> exists|o: int, v: int|
            0 <= o < orders.len() && 0 <= v < values.len() && s == #[trigger] expand::woven(
                orders[o],
                values[v],
                missing,
                total,
            ),
    decreases orders.len(),
{
    let all = expand::woven_all(orders, values, missing, total);
    if orders.len() > 0 {
        let first = expand::woven_each(orders[0], values, missing, total);
        let rest = orders.drop_first();
        lemma_woven_all_contains(rest, values, missing, total, s);
        sequences::lemma_concat_contains(
            first,
            expand::woven_all(rest, values, missing, total),
            s,
        );
        if all.contains(s) {
            if first.contains(s) {
                let v = choose|v: int| 0 <= v < first.len() && first[v] == s;
                assert(s == expand::woven(orders[0], values[v], missing, total));
            } else {
                let (o, v) = choose|o: int, v: int|
                    0 <= o < rest.len() && 0 <= v < values.len() && s == #[trigger] expand::woven(
                        rest[o],
                        values[v],
                        missing,
                        total,
                    );
                assert(s == expand::woven(orders[o + 1], values[v], missing, total));
            }
        }
        if exists|o: int, v: int|
            0 <= o < orders.len() && 0 <= v < values.len() && s == #[trigger] expand::woven(
                orders[o],
                values[v],
                missing,
                total,
            ) {
            let (o, v) = choose|o: int, v: int|
                0 <= o < orders.len() && 0 <= v < values.len() && s == #[trigger] expand::woven(
                    orders[o],
                    values[v],
                    missing,
                    total,
                );
            if o == 0 {
                assert(first[v] == s);
            } else {
                assert(s == expand::woven(rest[o - 1], values[v], missing, total));
            }
        }
    }
}

/// A filling is listed if and only if it has a word for each place.
proof fn lemma_tuples_contains(wordlist_len: nat, k: nat, v: Seq<u16>)
    ensures
        replacement::tuples(candidates::word_indices(wordlist_len), k).contains(v) <==> v.len() == k
            && forall|j: int| 0 <= j < v.len() ==> (#[trigger] v[j]) < wordlist_len,
{
    let pool = candidates::word_indices(wordlist_len);
    let choices = replacement::same_choices(pool, k);
    sequences::lemma_product_contains(choices, v);
    if replacement::tuples(pool, k).contains(v) {
        assert forall|j: int| 0 <= j < v.len() implies (#[trigger] v[j]) < wordlist_len by {
            assert(choices[j].contains(v[j]));
        }
    }
    if v.len() == k && forall|j: int|
        0 <= j < v.len() ==> (#[trigger] v[j]) < wordlist_len {
        assert forall|j: int| 0 <= j < choices.len() implies (#[trigger] choices[j]).contains(
            v[j],
        ) by {
            assert(pool[v[j] as int] == v[j]);
        }
    }
}

/// The candidates of an alternative are exactly the sequences that it can stand for.
pub proof fn lemma_alternative_candidates(
    alternative: Seq<Option<Seq<char>>>,
    words: Seq<Seq<char>>,
    keep_word_order: bool,
    s: Seq<u16>,
)
    requires
        alternative.len() <= usize::MAX,
    ensures
        phrases::alternative_candidates(alternative, words, keep_word_order).contains(s)
            <==> stands_for(alternative, words, keep_word_order, s),
{
    broadcast use vstd::seq_lib::group_to_multiset_ensures;

    let known = expand::indices_of(words, expand::known_words(alternative));
    let missing = expand::missing_positions(alternative);
    let orders = expand::known_orders(known, keep_word_order);
    let n = words.len();
    let values = replacement::tuples(candidates::word_indices(n), missing.len());
    let total = alternative.len();
    lemma_woven_all_contains(orders, values, missing, total, s);
    if phrases::alternative_candidates(alternative, words, keep_word_order).contains(s) {
        let (o, v) = choose|o: int, v: int|
            0 <= o < orders.len() && 0 <= v < values.len() && s == #[trigger] expand::woven(
                orders[o],
                values[v],
                missing,
                total,
            );
        assert(orders.contains(orders[o]));
        assert(values.contains(values[v]));
        sequences::lemma_arrangements_contains(known, orders[o]);
        assert(orders[o].to_multiset() == known.to_multiset());
        assert(orders[o].to_multiset().len() == orders[o].len() && known.to_multiset().len()
            == known.len());
        lemma_tuples_contains(n, missing.len(), values[v]);
        lemma_items_woven(alternative, orders[o], values[v], total);
        assert(alternative.take(total as int) =~= alternative);
        assert(s.take(total as int) =~= s);
        assert(known_items(alternative, s) =~= orders[o]);
        assert(missing_items(alternative, s) =~= values[v]);
        lemma_missing_in_range(alternative, s, n);
    }
    if stands_for(alternative, words, keep_word_order, s) {
        let k = known_items(alternative, s);
        let m = missing_items(alternative, s);
        lemma_items_len(alternative, s);
        lemma_missing_in_range(alternative, s, n);
        lemma_tuples_contains(n, missing.len(), m);
        sequences::lemma_arrangements_contains(known, k);
        if keep_word_order {
            assert(orders[0] == k);
        }
        assert(orders.contains(k));
        let o = choose|o: int| 0 <= o < orders.len() && orders[o] == k;
        let v = choose|v: int| 0 <= v < values.len() && values[v] == m;
        lemma_woven_items(alternative, s);
        assert(s == expand::woven(orders[o], values[v], missing, total));
    }
}

/// One of the alternatives of the slot can stand for `s`.
pub open spec fn slot_stands_for(
    slot: Seq<Seq<Option<Seq<char>>>>,
    words: Seq<Seq<char>>,
    keep_word_order: bool,
    s: Seq<u16>,
) -> bool {
    exists|a: int|
        0 <= a < slot.len() && stands_for(#[trigger] slot[a], words, keep_word_order, s)
}

/// The slots can be taken in this order: each of them once, and as they were written if that
/// order is to be kept.
pub open spec fn is_slot_order(order: Seq<usize>, n: nat, keep_token_order: bool) -> bool {
    sequences::is_order(order, n) && (keep_token_order ==> order == sequences::positions(n))
}

/// There is one part for each slot, in the given order, that the slot can stand for.
pub open spec fn fits(
    slots: Seq<Seq<Seq<Option<Seq<char>>>>>,
    words: Seq<Seq<char>>,
    keep_word_order: bool,
    order: Seq<usize>,
    parts: Seq<Seq<u16>>,
) -> bool {
    &&& parts.len() == order.len()
    &&& forall|j: int|
        0 <= j < order.len() ==> slot_stands_for(
            slots[order[j] as int],
            words,
            keep_word_order,
            #[trigger] parts[j],
        )
}

/// `p` is a phrase that the slots can stand for: it has 12 words and is put together, in some
/// order of the slots, of one part for each slot.
pub open spec fn is_candidate(
    slots: Seq<Seq<Seq<Option<Seq<char>>>>>,
    words: Seq<Seq<char>>,
    keep_token_order: bool,
    keep_word_order: bool,
    p: Seq<u16>,
) -> bool {
    p.len() == candidates::PHRASE_LEN && exists|order: Seq<usize>, parts: Seq<Seq<u16>>|
        {
            &&& is_slot_order(order, slots.len(), keep_token_order)
            &&& #[trigger] fits(slots, words, keep_word_order, order, parts)
            &&& p == parts.flatten()
        }
}

/// The slots and their alternatives are short enough to be numbered.
pub open spec fn numbered(slots: Seq<Seq<Seq<Option<Seq<char>>>>>) -> bool {
    &&& slots.len() <= usize::MAX
    &&& forall|s: int, a: int|
        0 <= s < slots.len() && 0 <= a < slots[s].len() ==> (#[trigger] slots[s][a]).len()
            <= usize::MAX
}

/// The candidates of a slot are exactly the sequences that one of its alternatives can stand for.
pub proof fn lemma_slot_candidates(
    slot: Seq<Seq<Option<Seq<char>>>>,
    words: Seq<Seq<char>>,
    keep_word_order: bool,
    s: Seq<u16>,
)
    requires
        forall|a: int| 0 <= a < slot.len() ==> (#[trigger] slot[a]).len() <= usize::MAX,
    ensures
        phrases::slot_table(slot, words, keep_word_order).flatten().contains(s) <==> slot_stands_for(
            slot,
            words,
            keep_word_order,
            s,
        ),
{
    let row = phrases::slot_table(slot, words, keep_word_order);
    sequences::lemma_flatten_contains(row, s);
    assert forall|a: int| 0 <= a < slot.len() implies ((#[trigger] row[a]).contains(s)
        <==> stands_for(slot[a], words, keep_word_order, s)) by {
        assert(slot[a].len() <= usize::MAX);
        lemma_alternative_candidates(slot[a], words, keep_word_order, s);
    }
    if row.flatten().contains(s) {
        let a = choose|a: int| 0 <= a < row.len() && (#[trigger] row[a]).contains(s);
        assert(stands_for(slot[a], words, keep_word_order, s));
    }
    if slot_stands_for(slot, words, keep_word_order, s) {
        let a = choose|a: int|
            0 <= a < slot.len() && stands_for(#[trigger] slot[a], words, keep_word_order, s);
        assert(row[a].contains(s));
    }
}

/// The orders that are tried are exactly those in which the slots can be taken.
pub proof fn lemma_slot_orders(n: nat, keep_token_order: bool, order: Seq<usize>)
    requires
        n <= usize::MAX,
    ensures
        phrases::slot_orders(n, keep_token_order).contains(order) <==> is_slot_order(
            order,
            n,
            keep_token_order,
        ),
{
    let p = sequences::positions(n);
    if keep_token_order {
        assert(seq![p][0] == p);
        assert(sequences::is_order(p, n));
    } else {
        sequences::lemma_orders_contains(n, order);
    }
}

/// No order of the slots is tried twice.
pub proof fn lemma_slot_orders_no_duplicates(n: nat, keep_token_order: bool)
    requires
        n <= usize::MAX,
    ensures
        phrases::slot_orders(n, keep_token_order).no_duplicates(),
{
    assert(sequences::positions(n).no_duplicates());
    sequences::lemma_arrangements_no_duplicates(sequences::positions(n), n);
}

/// The parts that are chosen for one order are exactly those that fit.
proof fn lemma_parts(
    slots: Seq<Seq<Seq<Option<Seq<char>>>>>,
    words: Seq<Seq<char>>,
    keep_word_order: bool,
    order: Seq<usize>,
    parts: Seq<Seq<u16>>,
)
    requires
        numbered(slots),
        sequences::is_order(order, slots.len()),
    ensures
        sequences::product(
            phrases::order_choices(phrases::table_of(slots, words, keep_word_order), order),
        ).contains(parts) <==> fits(slots, words, keep_word_order, order, parts),
{
    let table = phrases::table_of(slots, words, keep_word_order);
    let choices = phrases::order_choices(table, order);
    sequences::lemma_product_contains(choices, parts);
    assert forall|j: int| 0 <= j < order.len() implies (#[trigger] choices[j].contains(parts[j])
        <==> slot_stands_for(slots[order[j] as int], words, keep_word_order, parts[j])) by {
        let slot = slots[order[j] as int];
        assert forall|a: int| 0 <= a < slot.len() implies (#[trigger] slot[a]).len()
            <= usize::MAX by {
            assert(slots[order[j] as int][a].len() <= usize::MAX);
        }
        lemma_slot_candidates(slot, words, keep_word_order, parts[j]);
    }
    if sequences::product(choices).contains(parts) {
        assert forall|j: int| 0 <= j < order.len() implies slot_stands_for(
            slots[order[j] as int],
            words,
            keep_word_order,
            #[trigger] parts[j],
        ) by {
            assert(choices[j].contains(parts[j]));
        }
    }
    if fits(slots, words, keep_word_order, order, parts) {
        assert forall|j: int| 0 <= j < choices.len() implies (#[trigger] choices[j]).contains(
            parts[j],
        ) by {
            assert(slot_stands_for(
                slots[order[j] as int],
                words,
                keep_word_order,
                parts[j],
            ));
        }
    }
}

/// The phrases for one order are those that are put together of parts that fit.
proof fn lemma_order_phrases(
    slots: Seq<Seq<Seq<Option<Seq<char>>>>>,
    words: Seq<Seq<char>>,
    keep_word_order: bool,
    order: Seq<usize>,
    p: Seq<u16>,
)
    requires
        numbered(slots),
        sequences::is_order(order, slots.len()),
    ensures
        phrases::order_phrases(phrases::table_of(slots, words, keep_word_order), order).contains(p)
            <==> p.len() == candidates::PHRASE_LEN && exists|parts: Seq<Seq<u16>>|
            #[trigger] fits(slots, words, keep_word_order, order, parts) && p == parts.flatten(),
{
    let table = phrases::table_of(slots, words, keep_word_order);
    let all = sequences::product(phrases::order_choices(table, order));
    let joined = phrases::joined_each(all);
    enumerate::lemma_full_contains(joined, p);
    if joined.contains(p) {
        let i = choose|i: int| 0 <= i < joined.len() && joined[i] == p;
        assert(all.contains(all[i]));
        lemma_parts(slots, words, keep_word_order, order, all[i]);
        assert(fits(slots, words, keep_word_order, order, all[i]));
    }
    if exists|parts: Seq<Seq<u16>>|
        #[trigger] fits(slots, words, keep_word_order, order, parts) && p == parts.flatten() {
        let parts = choose|parts: Seq<Seq<u16>>|
            #[trigger] fits(slots, words, keep_word_order, order, parts) && p == parts.flatten();
        lemma_parts(slots, words, keep_word_order, order, parts);
        let i = choose|i: int| 0 <= i < all.len() && all[i] == parts;
        assert(joined[i] == p);
    }
}

proof fn lemma_in_orders_contains(
    table: Seq<Seq<Seq<Seq<u16>>>>,
    orders: Seq<Seq<usize>>,
    p: Seq<u16>,
)
    ensures
        phrases::phrases_in_orders(table, orders).contains(p) <==> exists|i: int|
            0 <= i < orders.len() && phrases::order_phrases(table, #[trigger] orders[i]).contains(
                p,
            ),
    decreases orders.len(),
{
    if orders.len() > 0 {
        let rest = orders.drop_first();
        lemma_in_orders_contains(table, rest, p);
        sequences::lemma_concat_contains(
            phrases::order_phrases(table, orders[0]),
            phrases::phrases_in_orders(table, rest),
            p,
        );
        if phrases::phrases_in_orders(table, rest).contains(p) {
            let i = choose|i: int|
                0 <= i < rest.len() && phrases::order_phrases(table, #[trigger] rest[i]).contains(
                    p,
                );
            assert(phrases::order_phrases(table, orders[i + 1]).contains(p));
        }
        if exists|i: int|
            0 <= i < orders.len() && phrases::order_phrases(table, #[trigger] orders[i]).contains(
                p,
            ) {
            let i = choose|i: int|
                0 <= i < orders.len() && phrases::order_phrases(
                    table,
                    #[trigger] orders[i],
                ).contains(p);
            if i > 0 {
                assert(phrases::order_phrases(table, rest[i - 1]).contains(p));
            }
        }
    }
}

/// The phrases that come one at a time are exactly the candidates.
pub proof fn lemma_lazy_phrases(
    slots: Seq<Seq<Seq<Option<Seq<char>>>>>,
    words: Seq<Seq<char>>,
    keep_token_order: bool,
    keep_word_order: bool,
    p: Seq<u16>,
)
    requires
        numbered(slots),
    ensures
        phrases::phrases_in_orders(
            phrases::table_of(slots, words, keep_word_order),
            phrases::slot_orders(slots.len(), keep_token_order),
        ).contains(p) <==> is_candidate(slots, words, keep_token_order, keep_word_order, p),
{
    let table = phrases::table_of(slots, words, keep_word_order);
    let n = slots.len();
    let orders = phrases::slot_orders(n, keep_token_order);
    lemma_in_orders_contains(table, orders, p);
    if phrases::phrases_in_orders(table, orders).contains(p) {
        let i = choose|i: int|
            0 <= i < orders.len() && phrases::order_phrases(table, #[trigger] orders[i]).contains(
                p,
            );
        assert(orders.contains(orders[i]));
        lemma_slot_orders(n, keep_token_order, orders[i]);
        lemma_order_phrases(slots, words, keep_word_order, orders[i], p);
        let parts = choose|parts: Seq<Seq<u16>>|
            #[trigger] fits(slots, words, keep_word_order, orders[i], parts) && p
                == parts.flatten();
        assert(fits(slots, words, keep_word_order, orders[i], parts));
    }
    if is_candidate(slots, words, keep_token_order, keep_word_order, p) {
        let (order, parts) = choose|order: Seq<usize>, parts: Seq<Seq<u16>>|
            {
                &&& is_slot_order(order, slots.len(), keep_token_order)
                &&& #[trigger] fits(slots, words, keep_word_order, order, parts)
                &&& p == parts.flatten()
            };
        lemma_slot_orders(n, keep_token_order, order);
        let i = choose|i: int| 0 <= i < orders.len() && orders[i] == order;
        lemma_order_phrases(slots, words, keep_word_order, order, p);
        assert(phrases::order_phrases(table, orders[i]).contains(p));
    }
}

/// The phrases that come all at once, without those of another length, are exactly the candidates.
pub proof fn lemma_eager_phrases(
    slots: Seq<Seq<Seq<Option<Seq<char>>>>>,
    words: Seq<Seq<char>>,
    keep_token_order: bool,
    keep_word_order: bool,
    p: Seq<u16>,
)
    requires
        numbered(slots),
    ensures
        phrases::full_phrases(
            enumerate::listing(
                phrases::table_of(slots, words, keep_word_order),
                phrases::slot_orders(slots.len(), keep_token_order),
            ),
        ).contains(p) <==> is_candidate(slots, words, keep_token_order, keep_word_order, p),
{
    let table = phrases::table_of(slots, words, keep_word_order);
    let orders = phrases::slot_orders(slots.len(), keep_token_order);
    enumerate::lemma_same_phrases(table, orders);
    sequences::lemma_same_multiset_contains(
        phrases::full_phrases(enumerate::listing(table, orders)),
        phrases::phrases_in_orders(table, orders),
        p,
    );
    lemma_lazy_phrases(slots, words, keep_token_order, keep_word_order, p);
}

/// To keep an order only leaves candidates out: what is a candidate with the orders kept is one
/// without.
pub proof fn lemma_keeping_order(
    slots: Seq<Seq<Seq<Option<Seq<char>>>>>,
    words: Seq<Seq<char>>,
    keep_token_order: bool,
    keep_word_order: bool,
    p: Seq<u16>,
)
    requires
        is_candidate(slots, words, keep_token_order, keep_word_order, p),
    ensures
        is_candidate(slots, words, false, keep_word_order, p),
        is_candidate(slots, words, keep_token_order, false, p),
{
    let (order, parts) = choose|order: Seq<usize>, parts: Seq<Seq<u16>>|
        {
            &&& is_slot_order(order, slots.len(), keep_token_order)
            &&& #[trigger] fits(slots, words, keep_word_order, order, parts)
            &&& p == parts.flatten()
        };
    assert(is_slot_order(order, slots.len(), false));
    assert(fits(slots, words, keep_word_order, order, parts));
    assert(fits(slots, words, false, order, parts)) by {
        assert forall|j: int| 0 <= j < order.len() implies slot_stands_for(
            slots[order[j] as int],
            words,
            false,
            #[trigger] parts[j],
        ) by {
            let slot = slots[order[j] as int];
            assert(slot_stands_for(slot, words, keep_word_order, parts[j]));
            let a = choose|a: int|
                0 <= a < slot.len() && stands_for(
                    #[trigger] slot[a],
                    words,
                    keep_word_order,
                    parts[j],
                );
            assert(stands_for(slot[a], words, false, parts[j]));
        }
    }
}

/// All indices are indices of words.
pub open spec fn within(s: Seq<u16>, n: nat) -> bool {
    forall|i: int| 0 <= i < s.len() ==> (#[trigger] s[i]) < n
}

/// Every index of a sequence that an alternative can stand for is the index of a word.
pub proof fn lemma_stands_for_within(
    alternative: Seq<Option<Seq<char>>>,
    words: Seq<Seq<char>>,
    keep_word_order: bool,
    s: Seq<u16>,
)
    requires
        words.len() <= usize::MAX,
        phrases::alternative_known(alternative, words),
        stands_for(alternative, words, keep_word_order, s),
    ensures
        within(s, words.len()),
{
    broadcast use vstd::seq_lib::group_to_multiset_ensures;

    let names = expand::known_words(alternative);
    let known = expand::indices_of(words, names);
    let items = known_items(alternative, s);
    assert(items.to_multiset() == known.to_multiset());
    phrases::lemma_known_words_in(alternative, words);
    assert forall|p: int| 0 <= p < s.len() implies (#[trigger] s[p]) < words.len() by {
        lemma_item_at(alternative, s, p);
        match alternative[p] {
            None => {},
            Some(word) => {
                let k = expand::known_words(alternative.take(p)).len() as int;
                assert(items.contains(items[k]));
                sequences::lemma_same_multiset_contains(items, known, items[k]);
                let i = choose|i: int| 0 <= i < known.len() && known[i] == s[p];
                assert(words.contains(names[i]));
                expand::lemma_first_index_is_word(words, names[i]);
            },
        }
    }
}

/// Every candidate can be read out: each of its indices is the index of a word.
pub proof fn lemma_candidate_within(
    slots: Seq<Seq<Seq<Option<Seq<char>>>>>,
    words: Seq<Seq<char>>,
    keep_token_order: bool,
    keep_word_order: bool,
    p: Seq<u16>,
)
    requires
        words.len() <= usize::MAX,
        phrases::all_known(slots, words),
        is_candidate(slots, words, keep_token_order, keep_word_order, p),
    ensures
        within(p, words.len()),
{
    let (order, parts) = choose|order: Seq<usize>, parts: Seq<Seq<u16>>|
        {
            &&& is_slot_order(order, slots.len(), keep_token_order)
            &&& #[trigger] fits(slots, words, keep_word_order, order, parts)
            &&& p == parts.flatten()
        };
    assert forall|j: int| 0 <= j < parts.len() implies within(#[trigger] parts[j], words.len()) by {
        let slot = slots[order[j] as int];
        assert(slot_stands_for(slot, words, keep_word_order, parts[j]));
        let a = choose|a: int|
            0 <= a < slot.len() && stands_for(#[trigger] slot[a], words, keep_word_order, parts[j]);
        assert(phrases::slot_known(slot, words));
        assert(phrases::alternative_known(slot[a], words));
        lemma_stands_for_within(slot[a], words, keep_word_order, parts[j]);
    }
    assert forall|i: int| 0 <= i < p.len() implies (#[trigger] p[i]) < words.len() by {
        assert(p.contains(p[i]));
        sequences::lemma_flatten_contains(parts, p[i]);
        let j = choose|j: int| 0 <= j < parts.len() && (#[trigger] parts[j]).contains(p[i]);
        assert(within(parts[j], words.len()));
        let k = choose|k: int| 0 <= k < parts[j].len() && parts[j][k] == p[i];
    }
}

/// `s` reads as the alternative was written: at the place of a known word stands the first index of
/// just that word, and at the place of a missing one the index of any word.
pub open spec fn reads(
    alternative: Seq<Option<Seq<char>>>,
    words: Seq<Seq<char>>,
    s: Seq<u16>,
) -> bool {
    &&& s.len() == alternative.len()
    &&& forall|p: int|
        0 <= p < alternative.len() ==> (#[trigger] s[p]) < words.len() && match alternative[p] {
            Some(word) => words[s[p] as int] == word && forall|j: int|
                0 <= j < s[p] ==> (#[trigger] words[j]) != word,
            None => true,
        }
}

/// With the order of the words kept, the known items are the indices of the known words if and only
/// if each stands where its word was written.
proof fn lemma_items_in_place(
    alternative: Seq<Option<Seq<char>>>,
    words: Seq<Seq<char>>,
    s: Seq<u16>,
)
    requires
        s.len() == alternative.len(),
    ensures
        known_items(alternative, s) == expand::indices_of(words, expand::known_words(alternative))
            <==> forall|p: int|
            0 <= p < alternative.len() && (#[trigger] alternative[p]) is Some ==> s[p]
                == expand::word_index(words, alternative[p]->0),
    decreases alternative.len(),
{
    let items = known_items(alternative, s);
    let known = expand::indices_of(words, expand::known_words(alternative));
    if alternative.len() == 0 {
        assert(items =~= known);
    } else {
        let before = alternative.drop_last();
        let t = s.drop_last();
        let last = alternative.len() - 1;
        lemma_items_in_place(before, words, t);
        lemma_items_len(before, t);
        let i0 = known_items(before, t);
        let k0 = expand::indices_of(words, expand::known_words(before));
        assert(alternative.last() == alternative[last]);
        match alternative.last() {
            None => {
                assert(known =~= k0);
            },
            Some(word) => {
                assert(known =~= k0.push(expand::word_index(words, word)));
                if items == known {
                    assert(items.drop_last() =~= i0);
                    assert(known.drop_last() =~= k0);
                    assert(items.last() == known.last());
                }
            },
        }
        if items == known {
            assert forall|p: int| 0 <= p < alternative.len() && (
            #[trigger] alternative[p]) is Some implies s[p] == expand::word_index(
                words,
                alternative[p]->0,
            ) by {
                if p < last {
                    assert(before[p] is Some);
                }
            }
        }
        if forall|p: int|
            0 <= p < alternative.len() && (#[trigger] alternative[p]) is Some ==> s[p]
                == expand::word_index(words, alternative[p]->0) {
            assert forall|p: int| 0 <= p < before.len() && (
            #[trigger] before[p]) is Some implies t[p] == expand::word_index(
                words,
                before[p]->0,
            ) by {
                assert(alternative[p] is Some);
            }
            assert(i0 == k0);
        }
    }
}

/// With the order of the words kept, an alternative stands for exactly the sequences that read as it
/// was written.
pub proof fn lemma_kept_words(
    alternative: Seq<Option<Seq<char>>>,
    words: Seq<Seq<char>>,
    s: Seq<u16>,
)
    requires
        alternative.len() <= usize::MAX,
        words.len() <= 65536,
        forall|p: int|
            0 <= p < alternative.len() && (#[trigger] alternative[p]) is Some ==> words.contains(
                alternative[p]->0,
            ),
    ensures
        phrases::alternative_candidates(alternative, words, true).contains(s) <==> reads(
            alternative,
            words,
            s,
        ),
        stands_for(alternative, words, true, s) <==> reads(alternative, words, s),
{
    lemma_alternative_candidates(alternative, words, true, s);
    if s.len() == alternative.len() {
        lemma_items_in_place(alternative, words, s);
        assert forall|p: int| 0 <= p < alternative.len() && (
        #[trigger] alternative[p]) is Some implies {
            let i = expand::word_index(words, alternative[p]->0);
            &&& i < words.len()
            &&& words[i as int] == alternative[p]->0
            &&& forall|j: int| 0 <= j < i ==> (#[trigger] words[j]) != alternative[p]->0
        } by {
            assert(words.contains(alternative[p]->0));
            expand::lemma_word_index(words, alternative[p]->0);
        }
        if stands_for(alternative, words, true, s) {
            assert forall|p: int| 0 <= p < alternative.len() implies (#[trigger] s[p])
                < words.len() && match alternative[p] {
                Some(word) => words[s[p] as int] == word && forall|j: int|
                    0 <= j < s[p] ==> (#[trigger] words[j]) != word,
                None => true,
            } by {
                assert(alternative[p] is Some || alternative[p] is None);
            }
        }
        if reads(alternative, words, s) {
            assert forall|p: int| 0 <= p < alternative.len() && (
            #[trigger] alternative[p]) is Some implies s[p] == expand::word_index(
                words,
                alternative[p]->0,
            ) by {
                let i = expand::word_index(words, alternative[p]->0);
                assert(s[p] < words.len());
                if i < s[p] {
                    assert(words[i as int] != alternative[p]->0);
                }
                if s[p] < i {
                    assert(words[s[p] as int] != alternative[p]->0);
                }
            }
        }
    }
}

/// How often each word and how often no word stands in an alternative.
proof fn lemma_token_counts(alternative: Seq<Option<Seq<char>>>, w: Seq<char>)
    ensures
        alternative.to_multiset().count(Some(w)) == expand::known_words(
            alternative,
        ).to_multiset().count(w),
        alternative.to_multiset().count(None) + expand::known_words(alternative).len()
            == alternative.len(),
    decreases alternative.len(),
{
    broadcast use vstd::seq_lib::group_to_multiset_ensures;

    let known = expand::known_words(alternative);
    if alternative.len() == 0 {
        assert(!alternative.contains(Some(w)));
        assert(!alternative.contains(None));
        assert(!known.contains(w));
    } else {
        let before = alternative.drop_last();
        lemma_token_counts(before, w);
        assert(alternative =~= before.push(alternative.last()));
    }
}

proof fn lemma_indices_multiset(words: Seq<Seq<char>>, a: Seq<Seq<char>>, b: Seq<Seq<char>>)
    requires
        a.to_multiset() == b.to_multiset(),
    ensures
        expand::indices_of(words, a).to_multiset() == expand::indices_of(words, b).to_multiset(),
    decreases a.len(),
{
    broadcast use vstd::seq_lib::group_to_multiset_ensures;

    assert(a.to_multiset().len() == a.len() && b.to_multiset().len() == b.len());
    let x = expand::indices_of(words, a);
    let y = expand::indices_of(words, b);
    if a.len() == 0 {
        assert(x =~= y);
    } else {
        assert(a.contains(a[0]));
        sequences::lemma_same_multiset_contains(a, b, a[0]);
        let i = choose|i: int| 0 <= i < b.len() && b[i] == a[0];
        sequences::lemma_multiset_of_removed(a, 0);
        sequences::lemma_multiset_of_removed(b, i);
        lemma_indices_multiset(words, a.remove(0), b.remove(i));
        assert(x.remove(0) =~= expand::indices_of(words, a.remove(0)));
        assert(y.remove(i) =~= expand::indices_of(words, b.remove(i)));
        sequences::lemma_multiset_of_removed(x, 0);
        sequences::lemma_multiset_of_removed(y, i);
    }
}

/// The words that indices read.
spec fn read_words(words: Seq<Seq<char>>, indices: Seq<u16>) -> Seq<Seq<char>> {
    Seq::new(indices.len(), |i: int| words[indices[i] as int])
}

proof fn lemma_read_multiset(words: Seq<Seq<char>>, a: Seq<u16>, b: Seq<u16>)
    requires
        a.to_multiset() == b.to_multiset(),
    ensures
        read_words(words, a).to_multiset() == read_words(words, b).to_multiset(),
    decreases a.len(),
{
    broadcast use vstd::seq_lib::group_to_multiset_ensures;

    assert(a.to_multiset().len() == a.len() && b.to_multiset().len() == b.len());
    let x = read_words(words, a);
    let y = read_words(words, b);
    if a.len() == 0 {
        assert(x =~= y);
    } else {
        assert(a.contains(a[0]));
        sequences::lemma_same_multiset_contains(a, b, a[0]);
        let i = choose|i: int| 0 <= i < b.len() && b[i] == a[0];
        sequences::lemma_multiset_of_removed(a, 0);
        sequences::lemma_multiset_of_removed(b, i);
        lemma_read_multiset(words, a.remove(0), b.remove(i));
        assert(x.remove(0) =~= read_words(words, a.remove(0)));
        assert(y.remove(i) =~= read_words(words, b.remove(i)));
        sequences::lemma_multiset_of_removed(x, 0);
        sequences::lemma_multiset_of_removed(y, i);
    }
}

/// The alternatives are the same but for the order of the known words: the missing words stand at the
/// same places, and each token comes equally often.
pub open spec fn same_words(
    alternative: Seq<Option<Seq<char>>>,
    other: Seq<Option<Seq<char>>>,
) -> bool {
    &&& other.len() == alternative.len()
    &&& forall|p: int|
        0 <= p < alternative.len() ==> ((#[trigger] other[p]) is None <==> alternative[p] is None)
    &&& other.to_multiset() == alternative.to_multiset()
}

proof fn lemma_same_places(
    a: Seq<Option<Seq<char>>>,
    b: Seq<Option<Seq<char>>>,
    s: Seq<u16>,
)
    requires
        a.len() == b.len() == s.len(),
        forall|p: int| 0 <= p < a.len() ==> ((#[trigger] b[p]) is None <==> a[p] is None),
    ensures
        known_items(a, s) == known_items(b, s),
    decreases a.len(),
{
    if a.len() > 0 {
        let x = a.drop_last();
        let y = b.drop_last();
        assert forall|p: int| 0 <= p < x.len() implies ((#[trigger] y[p]) is None
            <==> x[p] is None) by {
            assert(b[p] is None <==> a[p] is None);
        }
        lemma_same_places(x, y, s.drop_last());
        assert(b[b.len() - 1] is None <==> a[a.len() - 1] is None);
    }
}

/// The alternative that `s` reads as, with the missing words of the given one.
spec fn as_read(
    alternative: Seq<Option<Seq<char>>>,
    words: Seq<Seq<char>>,
    s: Seq<u16>,
) -> Seq<Option<Seq<char>>> {
    Seq::new(
        alternative.len(),
        |p: int|
            match alternative[p] {
                Some(word) => Some(words[s[p] as int]),
                None => None,
            },
    )
}

proof fn lemma_as_read_words(
    alternative: Seq<Option<Seq<char>>>,
    words: Seq<Seq<char>>,
    s: Seq<u16>,
)
    requires
        s.len() == alternative.len(),
    ensures
        expand::known_words(as_read(alternative, words, s)) == read_words(
            words,
            known_items(alternative, s),
        ),
    decreases alternative.len(),
{
    let all = as_read(alternative, words, s);
    if alternative.len() == 0 {
        assert(expand::known_words(all) =~= read_words(words, known_items(alternative, s)));
    } else {
        let before = alternative.drop_last();
        lemma_as_read_words(before, words, s.drop_last());
        assert(all.drop_last() =~= as_read(before, words, s.drop_last()));
        assert(expand::known_words(all) =~= read_words(words, known_items(alternative, s)));
    }
}

/// Without the order of the words kept, an alternative stands for exactly what the alternatives with
/// the same words in any order, and the missing words at the same places, stand for as they are
/// written.
pub proof fn lemma_free_words(
    alternative: Seq<Option<Seq<char>>>,
    words: Seq<Seq<char>>,
    s: Seq<u16>,
)
    requires
        alternative.len() <= usize::MAX,
        words.len() <= 65536,
        forall|p: int|
            0 <= p < alternative.len() && (#[trigger] alternative[p]) is Some ==> words.contains(
                alternative[p]->0,
            ),
    ensures
        phrases::alternative_candidates(alternative, words, false).contains(s)
            <==> exists|other: Seq<Option<Seq<char>>>| #[trigger]
            same_words(alternative, other) && reads(other, words, s),
        stands_for(alternative, words, false, s) <==> exists|other: Seq<Option<Seq<char>>>|
            #[trigger]
            same_words(alternative, other) && reads(other, words, s),
{
    broadcast use vstd::seq_lib::group_to_multiset_ensures;

    lemma_alternative_candidates(alternative, words, false, s);
    let names = expand::known_words(alternative);
    let known = expand::indices_of(words, names);
    assert(phrases::alternative_known(alternative, words)) by {
        assert forall|t: int| 0 <= t < alternative.len() implies match #[trigger] alternative[t] {
            Some(word) => words.contains(word),
            None => true,
        } by {
            assert(alternative[t] is Some || alternative[t] is None);
        }
    }
    phrases::lemma_known_words_in(alternative, words);
    expand::lemma_indices_read(words, names);
    if stands_for(alternative, words, false, s) {
        let items = known_items(alternative, s);
        let other = as_read(alternative, words, s);
        lemma_as_read_words(alternative, words, s);
        lemma_read_multiset(words, items, known);
        assert(read_words(words, known) =~= names);
        assert(expand::known_words(other).to_multiset() == names.to_multiset());
        assert(expand::known_words(other).to_multiset().len() == expand::known_words(other).len()
            && names.to_multiset().len() == names.len());
        assert forall|t: Option<Seq<char>>|
            other.to_multiset().count(t) == alternative.to_multiset().count(t) by {
            let w = match t {
                Some(word) => word,
                None => seq![],
            };
            lemma_token_counts(other, w);
            lemma_token_counts(alternative, w);
        }
        assert(other.to_multiset() =~= alternative.to_multiset());
        assert(same_words(alternative, other));
        lemma_other_known(alternative, other, words);
        lemma_same_places(alternative, other, s);
        lemma_items_len(alternative, s);
        assert forall|p: int| 0 <= p < other.len() implies (#[trigger] s[p]) < words.len()
            && match other[p] {
            Some(word) => words[s[p] as int] == word && forall|j: int|
                0 <= j < s[p] ==> (#[trigger] words[j]) != word,
            None => true,
        } by {
            if alternative[p] is Some {
                lemma_item_at(alternative, s, p);
                let k = expand::known_words(alternative.take(p)).len() as int;
                assert(items.contains(items[k]));
                sequences::lemma_same_multiset_contains(items, known, items[k]);
                let i = choose|i: int| 0 <= i < known.len() && known[i] == s[p];
                assert(words.contains(names[i]));
                expand::lemma_word_index(words, names[i]);
            }
        }
        assert(reads(other, words, s));
    }
    if exists|other: Seq<Option<Seq<char>>>| #[trigger]
        same_words(alternative, other) && reads(other, words, s) {
        let other = choose|other: Seq<Option<Seq<char>>>| #[trigger]
            same_words(alternative, other) && reads(other, words, s);
        lemma_other_known(alternative, other, words);
        lemma_kept_words(other, words, s);
        assert forall|w: Seq<char>|
            expand::known_words(other).to_multiset().count(w) == names.to_multiset().count(w) by {
            lemma_token_counts(other, w);
            lemma_token_counts(alternative, w);
        }
        assert(expand::known_words(other).to_multiset() =~= names.to_multiset());
        lemma_indices_multiset(words, expand::known_words(other), names);
        lemma_same_places(alternative, other, s);
        assert(known_items(alternative, s).to_multiset() == known.to_multiset());
        assert forall|p: int| 0 <= p < alternative.len() && (
        #[trigger] alternative[p]) is None implies s[p] < words.len() by {
            assert(s[p] < words.len());
        }
        assert(stands_for(alternative, words, false, s));
    }
}

proof fn lemma_other_known(
    alternative: Seq<Option<Seq<char>>>,
    other: Seq<Option<Seq<char>>>,
    words: Seq<Seq<char>>,
)
    requires
        other.to_multiset() == alternative.to_multiset(),
        forall|p: int|
            0 <= p < alternative.len() && (#[trigger] alternative[p]) is Some ==> words.contains(
                alternative[p]->0,
            ),
    ensures
        forall|p: int|
            0 <= p < other.len() && (#[trigger] other[p]) is Some ==> words.contains(other[p]->0),
{
    assert forall|p: int| 0 <= p < other.len() && (#[trigger] other[p]) is Some implies words.contains(
        other[p]->0,
    ) by {
        assert(other.contains(other[p]));
        sequences::lemma_same_multiset_contains(other, alternative, other[p]);
        let q = choose|q: int| 0 <= q < alternative.len() && alternative[q] == other[p];
        assert(words.contains(alternative[q]->0));
    }
}

/// With the order of the slots kept, a candidate is put together of one part for each slot, in their
/// order, that one of the slot's alternatives stands for.
pub proof fn lemma_kept_slots(
    slots: Seq<Seq<Seq<Option<Seq<char>>>>>,
    words: Seq<Seq<char>>,
    keep_word_order: bool,
    p: Seq<u16>,
)
    requires
        slots.len() <= usize::MAX,
    ensures
        is_candidate(slots, words, true, keep_word_order, p) <==> p.len() == 12
            && exists|parts: Seq<Seq<u16>>|
            {
                &&& parts.len() == slots.len()
                &&& p == #[trigger] parts.flatten()
                &&& forall|j: int|
                    0 <= j < slots.len() ==> slot_stands_for(slots[j], words, keep_word_order, #[trigger] parts[j])
            },
{
    let n = slots.len();
    let order = sequences::positions(n);
    assert(sequences::is_order(order, n));
    if is_candidate(slots, words, true, keep_word_order, p) {
        let (o, parts) = choose|order: Seq<usize>, parts: Seq<Seq<u16>>|
            {
                &&& is_slot_order(order, slots.len(), true)
                &&& #[trigger] fits(slots, words, keep_word_order, order, parts)
                &&& p == parts.flatten()
            };
        assert forall|j: int| 0 <= j < slots.len() implies slot_stands_for(slots[j], words, keep_word_order, #[trigger] parts[j]) by {
            assert(slot_stands_for(slots[o[j] as int], words, keep_word_order, parts[j]));
        }
        assert(p == parts.flatten());
    }
    if p.len() == 12 && exists|parts: Seq<Seq<u16>>|
        {
            &&& parts.len() == slots.len()
            &&& p == #[trigger] parts.flatten()
            &&& forall|j: int|
                0 <= j < slots.len() ==> slot_stands_for(slots[j], words, keep_word_order, #[trigger] parts[j])
        } {
        let parts = choose|parts: Seq<Seq<u16>>|
            {
                &&& parts.len() == slots.len()
                &&& p == #[trigger] parts.flatten()
                &&& forall|j: int|
                    0 <= j < slots.len() ==> slot_stands_for(slots[j], words, keep_word_order, #[trigger] parts[j])
            };
        assert forall|j: int| 0 <= j < order.len() implies slot_stands_for(
            slots[order[j] as int],
            words,
            keep_word_order,
            #[trigger] parts[j],
        ) by {
            assert(slot_stands_for(slots[j], words, keep_word_order, parts[j]));
        }
        assert(is_slot_order(order, n, true));
        assert(fits(slots, words, keep_word_order, order, parts));
    }
}

/// Without the order of the slots kept, the candidates are exactly those of the slots in any order in
/// which each comes once.
pub proof fn lemma_free_slots(
    slots: Seq<Seq<Seq<Option<Seq<char>>>>>,
    words: Seq<Seq<char>>,
    keep_word_order: bool,
    p: Seq<u16>,
)
    requires
        slots.len() <= usize::MAX,
    ensures
        is_candidate(slots, words, false, keep_word_order, p) <==> exists|order: Seq<usize>|
            {
                &&& order.len() == slots.len()
                &&& order.no_duplicates()
                &&& forall|i: int| 0 <= i < order.len() ==> (#[trigger] order[i]) < slots.len()
                &&& is_candidate(
                    #[trigger] sequences::reordered(slots, order),
                    words,
                    true,
                    keep_word_order,
                    p,
                )
            },
{
    let n = slots.len();
    let kept = sequences::positions(n);
    assert(sequences::is_order(kept, n));
    if is_candidate(slots, words, false, keep_word_order, p) {
        let (order, parts) = choose|order: Seq<usize>, parts: Seq<Seq<u16>>|
            {
                &&& is_slot_order(order, slots.len(), false)
                &&& #[trigger] fits(slots, words, keep_word_order, order, parts)
                &&& p == parts.flatten()
            };
        let moved = sequences::reordered(slots, order);
        assert forall|j: int| 0 <= j < kept.len() implies slot_stands_for(
            moved[kept[j] as int],
            words,
            keep_word_order,
            #[trigger] parts[j],
        ) by {
            assert(slot_stands_for(slots[order[j] as int], words, keep_word_order, parts[j]));
        }
        assert(is_slot_order(kept, moved.len(), true));
        assert(fits(moved, words, keep_word_order, kept, parts));
        assert(is_candidate(sequences::reordered(slots, order), words, true, keep_word_order, p));
    }
    if exists|order: Seq<usize>|
        {
            &&& order.len() == slots.len()
            &&& order.no_duplicates()
            &&& forall|i: int| 0 <= i < order.len() ==> (#[trigger] order[i]) < slots.len()
            &&& is_candidate(
                #[trigger] sequences::reordered(slots, order),
                words,
                true,
                keep_word_order,
                p,
            )
        } {
        let order = choose|order: Seq<usize>|
            {
                &&& order.len() == slots.len()
                &&& order.no_duplicates()
                &&& forall|i: int| 0 <= i < order.len() ==> (#[trigger] order[i]) < slots.len()
                &&& is_candidate(
                    #[trigger] sequences::reordered(slots, order),
                    words,
                    true,
                    keep_word_order,
                    p,
                )
            };
        let moved = sequences::reordered(slots, order);
        let (o, parts) = choose|o: Seq<usize>, parts: Seq<Seq<u16>>|
            {
                &&& is_slot_order(o, moved.len(), true)
                &&& #[trigger] fits(moved, words, keep_word_order, o, parts)
                &&& p == parts.flatten()
            };
        assert forall|j: int| 0 <= j < order.len() implies slot_stands_for(
            slots[order[j] as int],
            words,
            keep_word_order,
            #[trigger] parts[j],
        ) by {
            assert(slot_stands_for(moved[o[j] as int], words, keep_word_order, parts[j]));
        }
        assert(is_slot_order(order, n, false));
        assert(fits(slots, words, keep_word_order, order, parts));
    }
}

/// Sequences that are alike part by part are alike.
proof fn lemma_flatten_reads(
    alts: Seq<Seq<Option<Seq<char>>>>,
    words: Seq<Seq<char>>,
    parts: Seq<Seq<u16>>,
)
    requires
        alts.len() == parts.len(),
        forall|j: int| 0 <= j < parts.len() ==> reads(#[trigger] alts[j], words, parts[j]),
    ensures
        reads(alts.flatten(), words, parts.flatten()),
    decreases parts.len(),
{
    if parts.len() == 0 {
        assert(alts.flatten() =~= seq![]);
        assert(parts.flatten() =~= seq![]);
    } else {
        let x = alts.drop_last();
        let y = parts.drop_last();
        let last = parts.len() - 1;
        assert forall|j: int| 0 <= j < y.len() implies reads(#[trigger] x[j], words, y[j]) by {
            assert(reads(alts[j], words, parts[j]));
        }
        lemma_flatten_reads(x, words, y);
        assert(alts =~= x.push(alts[last]));
        assert(parts =~= y.push(parts[last]));
        x.lemma_flatten_push(alts[last]);
        y.lemma_flatten_push(parts[last]);
        let a = alts.flatten();
        let s = parts.flatten();
        let n = y.flatten().len() as int;
        assert(reads(alts[last], words, parts[last]));
        assert forall|p: int| 0 <= p < a.len() implies (#[trigger] s[p]) < words.len()
            && match a[p] {
            Some(word) => words[s[p] as int] == word && forall|j: int|
                0 <= j < s[p] ==> (#[trigger] words[j]) != word,
            None => true,
        } by {
            if p < n {
                assert(s[p] == y.flatten()[p]);
                assert(a[p] == x.flatten()[p]);
            } else {
                assert(s[p] == parts[last][p - n]);
                assert(a[p] == alts[last][p - n]);
            }
        }
    }
}

/// With both orders kept, a candidate reads, word for word, as one alternative of each slot was
/// written, one behind the other.
pub proof fn lemma_read_as_written(
    slots: Seq<Seq<Seq<Option<Seq<char>>>>>,
    words: Seq<Seq<char>>,
    p: Seq<u16>,
)
    requires
        numbered(slots),
        words.len() <= 65536,
        phrases::all_known(slots, words),
        is_candidate(slots, words, true, true, p),
    ensures
        p.len() == 12,
        exists|alts: Seq<Seq<Option<Seq<char>>>>|
            {
                &&& alts.len() == slots.len()
                &&& forall|j: int| 0 <= j < slots.len() ==> slots[j].contains(#[trigger] alts[j])
                &&& reads(#[trigger] alts.flatten(), words, p)
            },
{
    lemma_kept_slots(slots, words, true, p);
    let parts = choose|parts: Seq<Seq<u16>>|
        {
            &&& parts.len() == slots.len()
            &&& p == #[trigger] parts.flatten()
            &&& forall|j: int|
                0 <= j < slots.len() ==> slot_stands_for(slots[j], words, true, #[trigger] parts[j])
        };
    let alts = Seq::new(
        slots.len(),
        |j: int|
            slots[j][choose|a: int|
                0 <= a < slots[j].len() && stands_for(
                    #[trigger] slots[j][a],
                    words,
                    true,
                    parts[j],
                )],
    );
    assert forall|j: int| 0 <= j < slots.len() implies slots[j].contains(#[trigger] alts[j])
        && reads(alts[j], words, parts[j]) by {
        assert(slot_stands_for(slots[j], words, true, parts[j]));
        let a = choose|a: int|
            0 <= a < slots[j].len() && stands_for(#[trigger] slots[j][a], words, true, parts[j]);
        assert(alts[j] == slots[j][a]);
        assert(slots[j][a].len() <= usize::MAX);
        assert(phrases::slot_known(slots[j], words));
        assert(phrases::alternative_known(slots[j][a], words));
        lemma_kept_words(slots[j][a], words, parts[j]);
    }
    lemma_flatten_reads(alts, words, parts);
    assert(reads(alts.flatten(), words, p));
}

proof fn lemma_order_listing_contains(
    slots: Seq<Seq<Seq<Option<Seq<char>>>>>,
    words: Seq<Seq<char>>,
    keep_word_order: bool,
    order: Seq<usize>,
    p: Seq<u16>,
)
    requires
        numbered(slots),
        sequences::is_order(order, slots.len()),
    ensures
        enumerate::order_listing(phrases::table_of(slots, words, keep_word_order), order).contains(
            p,
        ) <==> exists|parts: Seq<Seq<u16>>| #[trigger]
            fits(slots, words, keep_word_order, order, parts) && p == parts.flatten(),
{
    let table = phrases::table_of(slots, words, keep_word_order);
    let all = sequences::product(phrases::order_choices(table, order));
    let joined = phrases::joined_each(all);
    enumerate::lemma_order_listing(table, order);
    sequences::lemma_same_multiset_contains(enumerate::order_listing(table, order), joined, p);
    if joined.contains(p) {
        let i = choose|i: int| 0 <= i < joined.len() && joined[i] == p;
        assert(all.contains(all[i]));
        lemma_parts(slots, words, keep_word_order, order, all[i]);
        assert(fits(slots, words, keep_word_order, order, all[i]));
    }
    if exists|parts: Seq<Seq<u16>>| #[trigger]
        fits(slots, words, keep_word_order, order, parts) && p == parts.flatten() {
        let parts = choose|parts: Seq<Seq<u16>>| #[trigger]
            fits(slots, words, keep_word_order, order, parts) && p == parts.flatten();
        lemma_parts(slots, words, keep_word_order, order, parts);
        let i = choose|i: int| 0 <= i < all.len() && all[i] == parts;
        assert(joined[i] == p);
    }
}

proof fn lemma_listing_orders_contains(
    table: Seq<Seq<Seq<Seq<u16>>>>,
    orders: Seq<Seq<usize>>,
    p: Seq<u16>,
)
    ensures
        enumerate::listing(table, orders).contains(p) <==> exists|i: int|
            0 <= i < orders.len() && enumerate::order_listing(
                table,
                #[trigger] orders[i],
            ).contains(p),
    decreases orders.len(),
{
    if orders.len() > 0 {
        let rest = orders.drop_first();
        lemma_listing_orders_contains(table, rest, p);
        sequences::lemma_concat_contains(
            enumerate::order_listing(table, orders[0]),
            enumerate::listing(table, rest),
            p,
        );
        if enumerate::listing(table, rest).contains(p) {
            let i = choose|i: int|
                0 <= i < rest.len() && enumerate::order_listing(
                    table,
                    #[trigger] rest[i],
                ).contains(p);
            assert(enumerate::order_listing(table, orders[i + 1]).contains(p));
        }
        if exists|i: int|
            0 <= i < orders.len() && enumerate::order_listing(
                table,
                #[trigger] orders[i],
            ).contains(p) {
            let i = choose|i: int|
                0 <= i < orders.len() && enumerate::order_listing(
                    table,
                    #[trigger] orders[i],
                ).contains(p);
            if i > 0 {
                assert(enumerate::order_listing(table, rest[i - 1]).contains(p));
            }
        }
    }
}

/// All at once, exactly what can be put together comes, whatever its length: in some order of the
/// slots, one part for each slot.
pub proof fn lemma_listing(
    slots: Seq<Seq<Seq<Option<Seq<char>>>>>,
    words: Seq<Seq<char>>,
    keep_token_order: bool,
    keep_word_order: bool,
    p: Seq<u16>,
)
    requires
        numbered(slots),
    ensures
        enumerate::listing(
            phrases::table_of(slots, words, keep_word_order),
            phrases::slot_orders(slots.len(), keep_token_order),
        ).contains(p) <==> exists|order: Seq<usize>, parts: Seq<Seq<u16>>|
            {
                &&& is_slot_order(order, slots.len(), keep_token_order)
                &&& #[trigger] fits(slots, words, keep_word_order, order, parts)
                &&& p == parts.flatten()
            },
{
    let table = phrases::table_of(slots, words, keep_word_order);
    let n = slots.len();
    let orders = phrases::slot_orders(n, keep_token_order);
    lemma_listing_orders_contains(table, orders, p);
    if enumerate::listing(table, orders).contains(p) {
        let i = choose|i: int|
            0 <= i < orders.len() && enumerate::order_listing(
                table,
                #[trigger] orders[i],
            ).contains(p);
        assert(orders.contains(orders[i]));
        lemma_slot_orders(n, keep_token_order, orders[i]);
        lemma_order_listing_contains(slots, words, keep_word_order, orders[i], p);
        let parts = choose|parts: Seq<Seq<u16>>| #[trigger]
            fits(slots, words, keep_word_order, orders[i], parts) && p == parts.flatten();
        assert(fits(slots, words, keep_word_order, orders[i], parts));
    }
    if exists|order: Seq<usize>, parts: Seq<Seq<u16>>|
        {
            &&& is_slot_order(order, slots.len(), keep_token_order)
            &&& #[trigger] fits(slots, words, keep_word_order, order, parts)
            &&& p == parts.flatten()
        } {
        let (order, parts) = choose|order: Seq<usize>, parts: Seq<Seq<u16>>|
            {
                &&& is_slot_order(order, slots.len(), keep_token_order)
                &&& #[trigger] fits(slots, words, keep_word_order, order, parts)
                &&& p == parts.flatten()
            };
        lemma_slot_orders(n, keep_token_order, order);
        let i = choose|i: int| 0 <= i < orders.len() && orders[i] == order;
        lemma_order_listing_contains(slots, words, keep_word_order, order, p);
        assert(enumerate::order_listing(table, orders[i]).contains(p));
    }
}

/// If no known word comes twice, an alternative stands for no sequence twice.
pub proof fn lemma_candidates_no_duplicates(
    alternative: Seq<Option<Seq<char>>>,
    words: Seq<Seq<char>>,
    keep_word_order: bool,
)
    requires
        alternative.len() <= usize::MAX,
        words.len() <= 65536,
        phrases::alternative_known(alternative, words),
        expand::known_words(alternative).no_duplicates(),
    ensures
        phrases::alternative_candidates(alternative, words, keep_word_order).no_duplicates(),
{
    let names = expand::known_words(alternative);
    let known = expand::indices_of(words, names);
    let missing = expand::missing_positions(alternative);
    phrases::lemma_known_words_in(alternative, words);
    expand::lemma_indices_read(words, names);
    assert forall|i: int, j: int| 0 <= i < known.len() && 0 <= j < known.len() && i != j implies known[i]
        != known[j] by {
        assert(words[known[i] as int] == names[i]);
        assert(words[known[j] as int] == names[j]);
    }
    let pool = candidates::word_indices(words.len());
    replacement::lemma_tuples_no_duplicates(pool, missing.len());
    sequences::lemma_arrangements_no_duplicates(known, known.len());
    let orders = expand::known_orders(known, keep_word_order);
    let values = replacement::tuples(pool, missing.len());
    assert forall|o: int| 0 <= o < orders.len() implies (#[trigger] orders[o]).len()
        == names.len() by {
        broadcast use vstd::seq_lib::group_to_multiset_ensures;

        assert(orders.contains(orders[o]));
        if !keep_word_order {
            sequences::lemma_arrangements_contains(known, orders[o]);
            assert(orders[o].to_multiset().len() == orders[o].len() && known.to_multiset().len()
                == known.len());
        }
    }
    assert forall|v: int| 0 <= v < values.len() implies (#[trigger] values[v]).len()
        == missing.len() by {
        assert(values.contains(values[v]));
        replacement::lemma_tuples_contains(pool, missing.len(), values[v]);
    }
    lemma_woven_no_duplicates(alternative, orders, values);
}

proof fn lemma_woven_no_duplicates(
    alternative: Seq<Option<Seq<char>>>,
    orders: Seq<Seq<u16>>,
    values: Seq<Seq<u16>>,
)
    requires
        alternative.len() <= usize::MAX,
        orders.no_duplicates(),
        values.no_duplicates(),
        forall|o: int|
            0 <= o < orders.len() ==> (#[trigger] orders[o]).len() == expand::known_words(
                alternative,
            ).len(),
        forall|v: int|
            0 <= v < values.len() ==> (#[trigger] values[v]).len() == expand::missing_positions(
                alternative,
            ).len(),
    ensures
        expand::woven_all(
            orders,
            values,
            expand::missing_positions(alternative),
            alternative.len(),
        ).no_duplicates(),
    decreases orders.len(),
{
    let missing = expand::missing_positions(alternative);
    let total = alternative.len();
    if orders.len() > 0 {
        let rest = orders.drop_first();
        let first = expand::woven_each(orders[0], values, missing, total);
        let others = expand::woven_all(rest, values, missing, total);
        assert forall|o: int| 0 <= o < rest.len() implies (#[trigger] rest[o]).len()
            == expand::known_words(alternative).len() by {
            assert(rest[o] == orders[o + 1]);
        }
        lemma_woven_no_duplicates(alternative, rest, values);
        assert forall|i: int, j: int|
            0 <= i < first.len() && 0 <= j < first.len() && i != j implies first[i] != first[j] by {
            lemma_woven_parts(alternative, orders[0], values[i]);
            lemma_woven_parts(alternative, orders[0], values[j]);
            assert(values[i] != values[j]);
        }
        assert forall|x: Seq<u16>| first.contains(x) implies !others.contains(x) by {
            let i = choose|i: int| 0 <= i < first.len() && first[i] == x;
            lemma_woven_parts(alternative, orders[0], values[i]);
            lemma_woven_all_contains(rest, values, missing, total, x);
            if others.contains(x) {
                let (o, v) = choose|o: int, v: int|
                    0 <= o < rest.len() && 0 <= v < values.len() && x == #[trigger] expand::woven(
                        rest[o],
                        values[v],
                        missing,
                        total,
                    );
                lemma_woven_parts(alternative, rest[o], values[v]);
                assert(orders[o + 1] == orders[0]);
            }
        }
        sequences::lemma_concat_no_duplicates(first, others);
    }
}

/// What is put together holds its parts.
proof fn lemma_woven_parts(
    alternative: Seq<Option<Seq<char>>>,
    known: Seq<u16>,
    values: Seq<u16>,
)
    requires
        alternative.len() <= usize::MAX,
        known.len() == expand::known_words(alternative).len(),
        values.len() == expand::missing_positions(alternative).len(),
    ensures
        ({
            let w = expand::woven(
                known,
                values,
                expand::missing_positions(alternative),
                alternative.len(),
            );
            known_items(alternative, w) == known && missing_items(alternative, w) == values
        }),
{
    let total = alternative.len();
    let w = expand::woven(known, values, expand::missing_positions(alternative), total);
    lemma_items_woven(alternative, known, values, total);
    assert(alternative.take(total as int) =~= alternative);
    assert(w.take(total as int) =~= w);
    assert(known.take(known.len() as int) =~= known);
    assert(values.take(values.len() as int) =~= values);
}

/// The place of each missing word.
proof fn lemma_missing_place(alternative: Seq<Option<Seq<char>>>, q: int) -> (p: int)
    requires
        0 <= q < expand::missing_positions(alternative).len(),
    ensures
        0 <= p < alternative.len(),
        alternative[p] is None,
        expand::missing_positions(alternative.take(p)).len() == q,
    decreases alternative.len(),
{
    let before = alternative.drop_last();
    let last = alternative.len() - 1;
    if q < expand::missing_positions(before).len() {
        let p = lemma_missing_place(before, q);
        assert(before.take(p) =~= alternative.take(p));
        p
    } else {
        assert(alternative.take(last) =~= before);
        last
    }
}

/// With the order of the words kept, what an alternative stands for comes in lexicographic order.
pub proof fn lemma_candidates_lexicographic(
    alternative: Seq<Option<Seq<char>>>,
    words: Seq<Seq<char>>,
    i: int,
    j: int,
)
    requires
        alternative.len() <= usize::MAX,
        words.len() <= 65536,
        0 <= i < j < phrases::alternative_candidates(alternative, words, true).len(),
    ensures
        sequences::precedes(
            phrases::alternative_candidates(alternative, words, true)[i],
            phrases::alternative_candidates(alternative, words, true)[j],
        ),
{
    let known = expand::indices_of(words, expand::known_words(alternative));
    let missing = expand::missing_positions(alternative);
    let pool = candidates::word_indices(words.len());
    assert(pool =~= Seq::new(words.len(), |x: int| x as u16));
    let values = replacement::tuples(pool, missing.len());
    let all = phrases::alternative_candidates(alternative, words, true);
    let one = seq![known];
    assert(one.drop_first() =~= seq![]);
    assert(expand::woven_all(one.drop_first(), values, missing, alternative.len()) =~= seq![]);
    assert(all =~= expand::woven_each(known, values, missing, alternative.len()));
    replacement::lemma_tuples_lexicographic(words.len(), missing.len(), i, j);
    let x = values[i];
    let y = values[j];
    assert(values.contains(x) && values.contains(y));
    replacement::lemma_tuples_contains(pool, missing.len(), x);
    let q = choose|q: int|
        0 <= q < x.len() && q < y.len() && (#[trigger] x[q]) < y[q] && forall|r: int|
            0 <= r < q ==> (#[trigger] x[r]) == y[r];
    let p = lemma_missing_place(alternative, q);
    lemma_place(alternative, p);
    assert(all[i][p] < all[j][p]);
    assert forall|r: int| 0 <= r < p implies (#[trigger] all[i][r]) == all[j][r] by {
        lemma_place(alternative, r);
        if alternative[r] is None {
            expand::lemma_missing_before_monotonic(missing, (r + 1) as nat, p as nat);
            let k = expand::missing_before(missing, r as nat) as int;
            assert(x[k] == y[k]);
        }
    }
}

} // verus!
