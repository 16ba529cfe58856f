//! Whether the slots can make a phrase at all: some choice of slots and alternatives must have 12
//! words together.

use vstd::prelude::*;

use crate::candidates;
use crate::phrases;
use crate::search;
use crate::search::SearchOptions;
use crate::sequences;
use crate::space;
use crate::tokenlist;
use crate::tokenlist::Slot;

verus! {

/// Some `k` of the slots, with one alternative each, have `t` words together.
pub open spec fn reaches(slots: Seq<Seq<Seq<Option<Seq<char>>>>>, k: nat, t: nat) -> bool
    decreases slots.len(),
{
    if slots.len() == 0 {
        k == 0 && t == 0
    } else {
        reaches(slots.drop_last(), k, t) || (k > 0 && exists|a: int|
            0 <= a < slots.last().len() && (#[trigger] slots.last()[a]).len() <= t && reaches(
                slots.drop_last(),
                (k - 1) as nat,
                (t - slots.last()[a].len()) as nat,
            ))
    }
}

/// As many slots as are to be taken together, or more, can have the words of a phrase.
pub open spec fn can_make_phrase(
    slots: Seq<Seq<Seq<Option<Seq<char>>>>>,
    options: SearchOptions,
) -> bool {
    exists|k: nat|
        search::fewest(options.min_token, slots.len()) <= k <= slots.len() && #[trigger] reaches(
            slots,
            k,
            candidates::PHRASE_LEN as nat,
        )
}

proof fn lemma_not_more_than_slots(slots: Seq<Seq<Seq<Option<Seq<char>>>>>, k: nat, t: nat)
    requires
        reaches(slots, k, t),
    ensures
        k <= slots.len(),
    decreases slots.len(),
{
    if slots.len() > 0 {
        if reaches(slots.drop_last(), k, t) {
            lemma_not_more_than_slots(slots.drop_last(), k, t);
        } else {
            let a = choose|a: int|
                0 <= a < slots.last().len() && (#[trigger] slots.last()[a]).len() <= t && reaches(
                    slots.drop_last(),
                    (k - 1) as nat,
                    (t - slots.last()[a].len()) as nat,
                );
            lemma_not_more_than_slots(
                slots.drop_last(),
                (k - 1) as nat,
                (t - slots.last()[a].len()) as nat,
            );
        }
    }
}

/// `row[t]` tells whether `t` words are reached, for every `t` up to the words of a phrase.
spec fn is_row(row: Seq<bool>, slots: Seq<Seq<Seq<Option<Seq<char>>>>>, k: nat) -> bool {
    &&& row.len() == candidates::PHRASE_LEN + 1
    &&& forall|t: int| 0 <= t < row.len() ==> (#[trigger] row[t]) == reaches(slots, k, t as nat)
}

/// Row `k` for the slots with one more, of the rows `k` and `k - 1` without it.
fn next_row(
    same: &Vec<bool>,
    fewer: &Vec<bool>,
    k: usize,
    slot: &Slot,
    Ghost(slots): Ghost<Seq<Seq<Seq<Option<Seq<char>>>>>>,
) -> (row: Vec<bool>)
    requires
        slots.len() > 0,
        slots.last() == tokenlist::slot_view(slot@),
        is_row(same@, slots.drop_last(), k as nat),
        k > 0 ==> is_row(fewer@, slots.drop_last(), (k - 1) as nat),
    ensures
        is_row(row@, slots, k as nat),
{
    let ghost before = slots.drop_last();
    let mut row: Vec<bool> = Vec::new();
    let mut t: usize = 0;
    while t <= candidates::PHRASE_LEN
        invariant
            t <= candidates::PHRASE_LEN + 1,
            slots.len() > 0,
            before == slots.drop_last(),
            slots.last() == tokenlist::slot_view(slot@),
            is_row(same@, before, k as nat),
            k > 0 ==> is_row(fewer@, before, (k - 1) as nat),
            row@.len() == t,
            forall|i: int| 0 <= i < t ==> (#[trigger] row@[i]) == reaches(slots, k as nat, i as nat),
        decreases candidates::PHRASE_LEN + 1 - t,
    {
        let mut r: bool = same[t];
        assert(same@[t as int] == reaches(before, k as nat, t as nat));
        if k > 0 {
            let mut a: usize = 0;
            while a < slot.len()
                invariant
                    k > 0,
                    t <= candidates::PHRASE_LEN,
                    a <= slot@.len(),
                    slots.len() > 0,
                    slots.last() == tokenlist::slot_view(slot@),
                    before == slots.drop_last(),
                    is_row(fewer@, before, (k - 1) as nat),
                    r == (reaches(before, k as nat, t as nat) || exists|b: int|
                        0 <= b < a && (#[trigger] slots.last()[b]).len() <= t && reaches(
                            before,
                            (k - 1) as nat,
                            (t - slots.last()[b].len()) as nat,
                        )),
                decreases slot@.len() - a,
            {
                let words: usize = slot[a].len();
                assert(slots.last()[a as int].len() == words);
                if words <= t {
                    let rest: usize = t - words;
                    assert(fewer@[rest as int] == reaches(before, (k - 1) as nat, rest as nat));
                    if fewer[rest] {
                        r = true;
                    }
                }
                a = a + 1;
            }
        }
        row.push(r);
        assert(r == reaches(slots, k as nat, t as nat));
        t = t + 1;
    }
    row
}

/// Tells whether the slots can make a phrase: whether as many of them as are to be taken together,
/// or more, with one alternative each, have 12 words together.
pub fn makes_phrase(slots: &[Slot], options: &SearchOptions) -> (r: bool)
    ensures
        r == can_make_phrase(tokenlist::slots_view(slots@), *options),
{
    let ghost view = tokenlist::slots_view(slots@);
    let n: usize = slots.len();
    let mut nothing: Vec<bool> = Vec::new();
    let mut t: usize = 0;
    while t <= candidates::PHRASE_LEN
        invariant
            t <= candidates::PHRASE_LEN + 1,
            nothing@.len() == t,
            forall|i: int| 0 <= i < t ==> !(#[trigger] nothing@[i]),
        decreases candidates::PHRASE_LEN + 1 - t,
    {
        nothing.push(false);
        t = t + 1;
    }
    let mut first: Vec<bool> = nothing.clone();
    assert(first@ =~= nothing@);
    first[0] = true;
    let mut rows: Vec<Vec<bool>> = Vec::new();
    rows.push(first);
    let mut i: usize = 0;
    assert(is_row(rows@[0]@, view.take(0), 0)) by {
        assert(view.take(0) =~= seq![]);
    }
    while i < n
        invariant
            i <= n,
            n == slots@.len(),
            view == tokenlist::slots_view(slots@),
            nothing@.len() == candidates::PHRASE_LEN + 1,
            forall|j: int| 0 <= j < nothing@.len() ==> !(#[trigger] nothing@[j]),
            rows@.len() == i + 1,
            forall|k: int|
                0 <= k <= i ==> is_row((#[trigger] rows@[k])@, view.take(i as int), k as nat),
        decreases n - i,
    {
        let ghost more = view.take(i + 1);
        assert(more.drop_last() =~= view.take(i as int));
        assert(more.last() == tokenlist::slot_view(slots@[i as int]@));
        assert(is_row(nothing@, view.take(i as int), (i + 1) as nat)) by {
            assert forall|t: int| 0 <= t < nothing@.len() implies (#[trigger] nothing@[t])
                == reaches(view.take(i as int), (i + 1) as nat, t as nat) by {
                if reaches(view.take(i as int), (i + 1) as nat, t as nat) {
                    lemma_not_more_than_slots(view.take(i as int), (i + 1) as nat, t as nat);
                }
            }
        }
        let mut next: Vec<Vec<bool>> = Vec::new();
        let mut k: usize = 0;
        while k <= i
            invariant
                k <= i + 1,
                i < n,
                n == slots@.len(),
                more == view.take(i + 1),
                more.len() > 0,
                more.drop_last() == view.take(i as int),
                more.last() == tokenlist::slot_view(slots@[i as int]@),
                rows@.len() == i + 1,
                forall|k: int|
                    0 <= k <= i ==> is_row((#[trigger] rows@[k])@, view.take(i as int), k as nat),
                next@.len() == k,
                forall|j: int| 0 <= j < k ==> is_row((#[trigger] next@[j])@, more, j as nat),
            decreases i + 1 - k,
        {
            assert(is_row(rows@[k as int]@, view.take(i as int), k as nat));
            let fewer: &Vec<bool> = if k > 0 {
                &rows[k - 1]
            } else {
                &rows[0]
            };
            assert(k > 0 ==> is_row(fewer@, view.take(i as int), (k - 1) as nat));
            next.push(next_row(&rows[k], fewer, k, &slots[i], Ghost(more)));
            k = k + 1;
        }
        assert(is_row(rows@[i as int]@, view.take(i as int), i as nat));
        next.push(next_row(&nothing, &rows[i], i + 1, &slots[i], Ghost(more)));
        rows = next;
        i = i + 1;
    }
    assert(view.take(n as int) =~= view);
    let fewest: usize = search::fewest_slots(options.min_token, n);
    let mut k: usize = fewest;
    while k < rows.len()
        invariant
            fewest <= k <= n + 1,
            n == slots@.len(),
            rows@.len() == n + 1,
            view == tokenlist::slots_view(slots@),
            fewest == search::fewest(options.min_token, n as nat),
            forall|k: int| 0 <= k <= n ==> is_row((#[trigger] rows@[k])@, view, k as nat),
            forall|j: nat|
                fewest <= j < k ==> !(#[trigger] reaches(
                    view,
                    j,
                    candidates::PHRASE_LEN as nat,
                )),
        decreases n + 1 - k,
    {
        assert(is_row(rows@[k as int]@, view, k as nat));
        assert(rows@[k as int]@[candidates::PHRASE_LEN as int] == reaches(
            view,
            k as nat,
            candidates::PHRASE_LEN as nat,
        ));
        if rows[k][candidates::PHRASE_LEN] {
            return true;
        }
        k = k + 1;
    }
    false
}

/// Where parts stand for slots that were chosen in their order, so many words are reached.
proof fn lemma_parts_reach(
    slots: Seq<Seq<Seq<Option<Seq<char>>>>>,
    words: Seq<Seq<char>>,
    keep_word_order: bool,
    chosen: Seq<usize>,
    parts: Seq<Seq<u16>>,
)
    requires
        sequences::increasing_within(chosen, 0, slots.len()),
        parts.len() == chosen.len(),
        forall|i: int|
            0 <= i < chosen.len() ==> space::slot_stands_for(
                slots[chosen[i] as int],
                words,
                keep_word_order,
                #[trigger] parts[i],
            ),
    ensures
        reaches(slots, chosen.len(), parts.flatten().len()),
    decreases slots.len(),
{
    if slots.len() == 0 {
        if chosen.len() > 0 {
            assert(0 <= chosen[0] < slots.len());
        }
        assert(parts =~= seq![]);
    } else {
        let before = slots.drop_last();
        let last = slots.len() - 1;
        if chosen.len() > 0 && chosen.last() == last {
            let c = chosen.drop_last();
            let q = parts.drop_last();
            assert forall|i: int| 0 <= i < c.len() implies 0 <= #[trigger] c[i] < before.len() by {
                assert(c[i] == chosen[i]);
                assert(chosen[i] < chosen[chosen.len() - 1]);
            }
            assert forall|i: int, j: int| 0 <= i < j < c.len() implies #[trigger] c[i]
                < #[trigger] c[j] by {
                assert(chosen[i] < chosen[j]);
            }
            assert forall|i: int| 0 <= i < c.len() implies space::slot_stands_for(
                before[c[i] as int],
                words,
                keep_word_order,
                #[trigger] q[i],
            ) by {
                assert(c[i] < before.len());
                assert(space::slot_stands_for(
                    slots[chosen[i] as int],
                    words,
                    keep_word_order,
                    parts[i],
                ));
            }
            lemma_parts_reach(before, words, keep_word_order, c, q);
            let end = parts.len() - 1;
            assert(space::slot_stands_for(
                slots[chosen[end] as int],
                words,
                keep_word_order,
                parts[end],
            ));
            let a = choose|a: int|
                0 <= a < slots.last().len() && space::stands_for(
                    #[trigger] slots.last()[a],
                    words,
                    keep_word_order,
                    parts[end],
                );
            assert(parts =~= q.push(parts[end]));
            q.lemma_flatten_push(parts[end]);
            assert(slots.last()[a].len() == parts[end].len());
        } else {
            assert forall|i: int| 0 <= i < chosen.len() implies 0 <= #[trigger] chosen[i]
                < before.len() by {
                assert(0 <= chosen[i] < slots.len());
                if i < chosen.len() - 1 {
                    assert(chosen[i] < chosen[chosen.len() - 1]);
                }
                assert(chosen[chosen.len() - 1] < slots.len());
            }
            assert forall|i: int| 0 <= i < chosen.len() implies space::slot_stands_for(
                before[chosen[i] as int],
                words,
                keep_word_order,
                #[trigger] parts[i],
            ) by {
                assert(chosen[i] < before.len());
                assert(space::slot_stands_for(
                    slots[chosen[i] as int],
                    words,
                    keep_word_order,
                    parts[i],
                ));
            }
            lemma_parts_reach(before, words, keep_word_order, chosen, parts);
        }
    }
}

/// Where so many words are reached, slots can be chosen, and parts that stand for them.
proof fn lemma_reached_by_parts(
    slots: Seq<Seq<Seq<Option<Seq<char>>>>>,
    words: Seq<Seq<char>>,
    keep_word_order: bool,
    k: nat,
    t: nat,
) -> (r: (Seq<usize>, Seq<Seq<u16>>))
    requires
        space::numbered(slots),
        words.len() > 0,
        reaches(slots, k, t),
    ensures
        r.0.len() == k,
        r.1.len() == k,
        sequences::increasing_within(r.0, 0, slots.len()),
        r.1.flatten().len() == t,
        forall|i: int|
            0 <= i < k ==> space::slot_stands_for(
                slots[r.0[i] as int],
                words,
                keep_word_order,
                #[trigger] r.1[i],
            ),
    decreases slots.len(),
{
    if slots.len() == 0 {
        let parts: Seq<Seq<u16>> = seq![];
        assert(parts.flatten() =~= seq![]);
        (seq![], parts)
    } else {
        let before = slots.drop_last();
        assert forall|s: int, a: int| 0 <= s < before.len() && 0 <= a < before[s].len() implies (
        #[trigger] before[s][a]).len() <= usize::MAX by {
            assert(slots[s][a].len() <= usize::MAX);
        }
        if reaches(before, k, t) {
            let (chosen, parts) = lemma_reached_by_parts(before, words, keep_word_order, k, t);
            assert forall|i: int| 0 <= i < chosen.len() implies 0 <= #[trigger] chosen[i]
                < slots.len() by {
                assert(0 <= chosen[i] < before.len());
            }
            assert forall|i: int| 0 <= i < k implies space::slot_stands_for(
                slots[chosen[i] as int],
                words,
                keep_word_order,
                #[trigger] parts[i],
            ) by {
                assert(0 <= chosen[i] < before.len());
                assert(space::slot_stands_for(
                    before[chosen[i] as int],
                    words,
                    keep_word_order,
                    parts[i],
                ));
            }
            (chosen, parts)
        } else {
            let a = choose|a: int|
                0 <= a < slots.last().len() && (#[trigger] slots.last()[a]).len() <= t && reaches(
                    before,
                    (k - 1) as nat,
                    (t - slots.last()[a].len()) as nat,
                );
            let alternative = slots.last()[a];
            let last = slots.len() - 1;
            assert(slots[last][a].len() <= usize::MAX);
            let (c, q) = lemma_reached_by_parts(
                before,
                words,
                keep_word_order,
                (k - 1) as nat,
                (t - alternative.len()) as nat,
            );
            phrases::lemma_alternative_candidates_nonempty(alternative, words, keep_word_order);
            let all = phrases::alternative_candidates(alternative, words, keep_word_order);
            let part = all[0];
            assert(all.contains(part));
            space::lemma_alternative_candidates(alternative, words, keep_word_order, part);
            let chosen = c.push(last as usize);
            let parts = q.push(part);
            q.lemma_flatten_push(part);
            assert forall|i: int| 0 <= i < chosen.len() implies 0 <= #[trigger] chosen[i]
                < slots.len() by {
                if i < c.len() {
                    assert(0 <= c[i] < before.len());
                }
            }
            assert forall|i: int, j: int| 0 <= i < j < chosen.len() implies #[trigger] chosen[i]
                < #[trigger] chosen[j] by {
                assert(0 <= c[i] < before.len());
                if j < c.len() {
                    assert(c[i] < c[j]);
                }
            }
            assert forall|i: int| 0 <= i < k implies space::slot_stands_for(
                slots[chosen[i] as int],
                words,
                keep_word_order,
                #[trigger] parts[i],
            ) by {
                if i < q.len() {
                    assert(0 <= c[i] < before.len());
                    assert(space::slot_stands_for(
                        before[c[i] as int],
                        words,
                        keep_word_order,
                        q[i],
                    ));
                } else {
                    assert(space::stands_for(
                        slots[last][a],
                        words,
                        keep_word_order,
                        part,
                    ));
                }
            }
            (chosen, parts)
        }
    }
}

/// The same parts in the order of the slots have as many words.
proof fn lemma_parts_in_order(
    slots: Seq<Seq<Seq<Option<Seq<char>>>>>,
    words: Seq<Seq<char>>,
    keep_word_order: bool,
    order: Seq<usize>,
    parts: Seq<Seq<u16>>,
) -> (sorted: Seq<Seq<u16>>)
    requires
        slots.len() <= usize::MAX,
        sequences::is_order(order, slots.len()),
        space::fits(slots, words, keep_word_order, order, parts),
    ensures
        sorted.len() == slots.len(),
        sorted.flatten().len() == parts.flatten().len(),
        forall|i: int|
            0 <= i < slots.len() ==> space::slot_stands_for(
                slots[i],
                words,
                keep_word_order,
                #[trigger] sorted[i],
            ),
{
    broadcast use vstd::seq_lib::group_to_multiset_ensures;

    let n = slots.len();
    let sorted = Seq::new(n, |i: int| parts[order.index_of(i as usize)]);
    sequences::lemma_orders_contains(n, order);
    assert forall|i: int| 0 <= i < n implies 0 <= #[trigger] order.index_of(i as usize) < n
        && order[order.index_of(i as usize)] == i by {
        sequences::lemma_order_has(order, n, i as usize);
        let j = choose|j: int| 0 <= j < order.len() && order[j] == i as usize;
        assert(order[order.index_of(i as usize)] == i as usize);
    }
    let again = sequences::reordered(sorted, order);
    assert forall|j: int| 0 <= j < n implies again[j] == parts[j] by {
        let i = order[j] as int;
        assert(0 <= order.index_of(i as usize) < n);
        assert(order[order.index_of(i as usize)] == order[j]);
    }
    assert(again =~= parts);
    sequences::lemma_arrangements_by_position(sorted);
    let orders = sequences::arrangements(sequences::positions(n), n);
    let at = choose|at: int| 0 <= at < orders.len() && orders[at] == order;
    assert(sequences::reordered_each(sorted, orders)[at] == parts);
    assert(sequences::arrangements(sorted, sorted.len()).contains(parts));
    sequences::lemma_arrangements_contains(sorted, parts);
    sequences::lemma_flatten_multiset(sorted, parts);
    assert(sorted.flatten().to_multiset().len() == sorted.flatten().len()
        && parts.flatten().to_multiset().len() == parts.flatten().len());
    assert forall|i: int| 0 <= i < n implies space::slot_stands_for(
        slots[i],
        words,
        keep_word_order,
        #[trigger] sorted[i],
    ) by {
        let j = order.index_of(i as usize);
        assert(0 <= j < n);
        assert(space::slot_stands_for(
            slots[order[j] as int],
            words,
            keep_word_order,
            parts[j],
        ));
    }
    sorted
}

/// There is something to search if and only if the slots can make a phrase: else the total of the
/// words is never that of a phrase.
pub proof fn lemma_makes_phrase(
    slots: Seq<Seq<Seq<Option<Seq<char>>>>>,
    words: Seq<Seq<char>>,
    options: SearchOptions,
)
    requires
        space::numbered(slots),
        words.len() > 0,
    ensures
        can_make_phrase(slots, options) <==> exists|p: Seq<u16>| #[trigger]
            search::is_searched(slots, words, options, p),
{
    let n = slots.len();
    let kw = options.keep_word_order;
    let full = candidates::PHRASE_LEN as nat;
    if can_make_phrase(slots, options) {
        let k = choose|k: nat|
            search::fewest(options.min_token, slots.len()) <= k <= slots.len()
                && #[trigger] reaches(slots, k, full);
        let (chosen, parts) = lemma_reached_by_parts(slots, words, kw, k, full);
        let part = sequences::reordered(slots, chosen);
        let order = sequences::positions(k);
        assert(sequences::is_order(order, k));
        assert forall|j: int| 0 <= j < order.len() implies space::slot_stands_for(
            part[order[j] as int],
            words,
            kw,
            #[trigger] parts[j],
        ) by {
            assert(space::slot_stands_for(slots[chosen[j] as int], words, kw, parts[j]));
        }
        let p = parts.flatten();
        assert(space::is_slot_order(order, part.len(), options.keep_token_order));
        assert(space::fits(part, words, kw, order, parts));
        assert(space::is_candidate(
            sequences::reordered(slots, chosen),
            words,
            options.keep_token_order,
            kw,
            p,
        ));
        assert(search::is_searched(slots, words, options, p));
    }
    if exists|p: Seq<u16>| #[trigger] search::is_searched(slots, words, options, p) {
        let p = choose|p: Seq<u16>| #[trigger] search::is_searched(slots, words, options, p);
        let chosen = choose|chosen: Seq<usize>|
            {
                &&& search::fewest(options.min_token, slots.len()) <= chosen.len() <= slots.len()
                &&& sequences::increasing_within(chosen, 0, slots.len())
                &&& space::is_candidate(
                    #[trigger] sequences::reordered(slots, chosen),
                    words,
                    options.keep_token_order,
                    kw,
                    p,
                )
            };
        let part = sequences::reordered(slots, chosen);
        let (order, parts) = choose|order: Seq<usize>, parts: Seq<Seq<u16>>|
            {
                &&& space::is_slot_order(order, part.len(), options.keep_token_order)
                &&& #[trigger] space::fits(part, words, kw, order, parts)
                &&& p == parts.flatten()
            };
        let sorted = lemma_parts_in_order(part, words, kw, order, parts);
        assert forall|i: int| 0 <= i < chosen.len() implies space::slot_stands_for(
            slots[chosen[i] as int],
            words,
            kw,
            #[trigger] sorted[i],
        ) by {
            assert(space::slot_stands_for(part[i], words, kw, sorted[i]));
        }
        lemma_parts_reach(slots, words, kw, chosen, sorted);
        assert(reaches(slots, chosen.len(), full));
    }
}

} // verus!
