//! All phrases of chosen slots at once.

use vstd::prelude::*;

use crate::candidates;
use crate::orders;
use crate::phrases;
use crate::sequences;
use crate::tokenlist;
use crate::tokenlist::Slot;

verus! {

/// The alternatives of each slot, in the given order of the slots.
pub open spec fn alternative_choices(
    table: Seq<Seq<Seq<Seq<u16>>>>,
    order: Seq<usize>,
) -> Seq<Seq<Seq<Seq<u16>>>> {
    Seq::new(order.len(), |j: int| table[order[j] as int])
}

/// For each choice of alternatives, every choice of candidates, put together.
pub open spec fn joined_choices(per_slot: Seq<Seq<Seq<Seq<u16>>>>) -> Seq<Seq<u16>>
    decreases per_slot.len(),
{
    if per_slot.len() == 0 {
        seq![]
    } else {
        phrases::joined_each(sequences::product(per_slot[0])) + joined_choices(
            per_slot.drop_first(),
        )
    }
}

/// Everything that the slots can stand for in one order, of any length.
pub open spec fn order_listing(table: Seq<Seq<Seq<Seq<u16>>>>, order: Seq<usize>) -> Seq<
    Seq<u16>,
> {
    joined_choices(sequences::product(alternative_choices(table, order)))
}

/// `order_listing` for each of the orders, one after the other.
pub open spec fn listing(table: Seq<Seq<Seq<Seq<u16>>>>, orders: Seq<Seq<usize>>) -> Seq<Seq<u16>>
    decreases orders.len(),
{
    if orders.len() == 0 {
        seq![]
    } else {
        order_listing(table, orders[0]) + listing(table, orders.drop_first())
    }
}

proof fn lemma_joined_choices_push(per_slot: Seq<Seq<Seq<Seq<u16>>>>, more: Seq<Seq<Seq<u16>>>)
    ensures
        joined_choices(per_slot.push(more)) == joined_choices(per_slot) + phrases::joined_each(
            sequences::product(more),
        ),
    decreases per_slot.len(),
{
    let all = per_slot.push(more);
    let added = phrases::joined_each(sequences::product(more));
    if per_slot.len() == 0 {
        assert(all.drop_first() =~= seq![]);
        assert(joined_choices(all.drop_first()) =~= seq![]);
        assert(joined_choices(all) =~= joined_choices(per_slot) + added);
    } else {
        assert(all.drop_first() =~= per_slot.drop_first().push(more));
        lemma_joined_choices_push(per_slot.drop_first(), more);
        assert(joined_choices(all) =~= joined_choices(per_slot) + added);
    }
}

proof fn lemma_listing_push(
    table: Seq<Seq<Seq<Seq<u16>>>>,
    orders: Seq<Seq<usize>>,
    order: Seq<usize>,
)
    ensures
        listing(table, orders.push(order)) == listing(table, orders) + order_listing(table, order),
    decreases orders.len(),
{
    let all = orders.push(order);
    if orders.len() == 0 {
        assert(all.drop_first() =~= seq![]);
        assert(listing(table, all.drop_first()) =~= seq![]);
        assert(listing(table, all) =~= listing(table, orders) + order_listing(table, order));
    } else {
        assert(all.drop_first() =~= orders.drop_first().push(order));
        lemma_listing_push(table, orders.drop_first(), order);
        assert(listing(table, all) =~= listing(table, orders) + order_listing(table, order));
    }
}

/// Puts the chosen candidates of all slots together.
fn join_parts(
    table: &Vec<Vec<Vec<Vec<u16>>>>,
    order: &Vec<usize>,
    alts: &Vec<usize>,
    cands: &Vec<usize>,
    Ghost(per_slot): Ghost<Seq<Seq<Seq<u16>>>>,
) -> (phrase: Vec<u16>)
    requires
        sequences::is_order(order@, table@.len()),
        alts@.len() == order@.len(),
        cands@.len() == order@.len(),
        per_slot.len() == order@.len(),
        forall|j: int|
            0 <= j < order@.len() ==> #[trigger] alts@[j] < table@[order@[j] as int]@.len(),
        forall|j: int|
            0 <= j < order@.len() ==> #[trigger] per_slot[j] == phrases::table_view(
                table@,
            )[order@[j] as int][alts@[j] as int],
        forall|j: int| 0 <= j < order@.len() ==> #[trigger] cands@[j] < per_slot[j].len(),
    ensures
        phrase@ == sequences::picked(per_slot, sequences::as_ints(cands@)).flatten(),
{
    let ghost parts = sequences::picked(per_slot, sequences::as_ints(cands@));
    let mut phrase: Vec<u16> = Vec::new();
    let mut j: usize = 0;
    assert(parts.take(0) =~= seq![]);
    while j < order.len()
        invariant
            j <= order@.len(),
            sequences::is_order(order@, table@.len()),
            alts@.len() == order@.len(),
            cands@.len() == order@.len(),
            per_slot.len() == order@.len(),
            forall|j: int|
                0 <= j < order@.len() ==> #[trigger] alts@[j] < table@[order@[j] as int]@.len(),
            forall|j: int|
                0 <= j < order@.len() ==> #[trigger] per_slot[j] == phrases::table_view(
                    table@,
                )[order@[j] as int][alts@[j] as int],
            forall|j: int| 0 <= j < order@.len() ==> #[trigger] cands@[j] < per_slot[j].len(),
            parts == sequences::picked(per_slot, sequences::as_ints(cands@)),
            phrase@ == parts.take(j as int).flatten(),
        decreases order@.len() - j,
    {
        let si: usize = order[j];
        let ai: usize = alts[j];
        let ci: usize = cands[j];
        assert(per_slot[j as int] == sequences::contents(table@[si as int]@[ai as int]@));
        let words: &Vec<u16> = &table[si][ai][ci];
        proof {
            assert(parts[j as int] == words@);
            assert(parts.take(j + 1) =~= parts.take(j as int).push(words@));
            parts.take(j as int).lemma_flatten_push(words@);
        }
        let mut copy: Vec<u16> = words.clone();
        assert(copy@ =~= words@);
        phrase.append(&mut copy);
        j = j + 1;
    }
    assert(parts.take(j as int) =~= parts);
    phrase
}

/// Adds every choice of candidates for one choice of alternatives.
fn add_choice(
    results: &mut Vec<Vec<u16>>,
    table: &Vec<Vec<Vec<Vec<u16>>>>,
    order: &Vec<usize>,
    alts: &Vec<usize>,
    Ghost(per_slot): Ghost<Seq<Seq<Seq<u16>>>>,
)
    requires
        sequences::is_order(order@, table@.len()),
        alts@.len() == order@.len(),
        per_slot.len() == order@.len(),
        forall|j: int|
            0 <= j < order@.len() ==> #[trigger] alts@[j] < table@[order@[j] as int]@.len(),
        forall|j: int|
            0 <= j < order@.len() ==> #[trigger] per_slot[j] == phrases::table_view(
                table@,
            )[order@[j] as int][alts@[j] as int],
    ensures
        sequences::contents(final(results)@) == sequences::contents(old(results)@)
            + phrases::joined_each(sequences::product(per_slot)),
{
    let ghost start = sequences::contents(results@);
    let mut counts: Vec<usize> = Vec::new();
    let mut j: usize = 0;
    while j < order.len()
        invariant
            j <= order@.len(),
            sequences::is_order(order@, table@.len()),
            alts@.len() == order@.len(),
            per_slot.len() == order@.len(),
            forall|j: int|
                0 <= j < order@.len() ==> #[trigger] alts@[j] < table@[order@[j] as int]@.len(),
            forall|j: int|
                0 <= j < order@.len() ==> #[trigger] per_slot[j] == phrases::table_view(
                    table@,
                )[order@[j] as int][alts@[j] as int],
            counts@.len() == j,
            forall|i: int| 0 <= i < j ==> #[trigger] counts@[i] == per_slot[i].len(),
        decreases order@.len() - j,
    {
        let si: usize = order[j];
        let ai: usize = alts[j];
        assert(per_slot[j as int] == sequences::contents(table@[si as int]@[ai as int]@));
        counts.push(table[si][ai].len());
        j = j + 1;
    }
    let mut products = orders::position_product(&counts);
    let ghost all = sequences::product(sequences::position_choices(counts@));
    let ghost added = phrases::joined_each(sequences::product(per_slot));
    proof {
        sequences::lemma_product_by_position(per_slot, counts@);
        sequences::lemma_position_product(counts@);
        assert(start + added.take(0) =~= start);
    }
    let ghost mut i: int = 0;
    assert(all.skip(0) =~= all);
    loop
        invariant
            0 <= i <= all.len(),
            orders::products_left(products) == all.skip(i),
            sequences::is_order(order@, table@.len()),
            alts@.len() == order@.len(),
            per_slot.len() == order@.len(),
            counts@.len() == order@.len(),
            forall|j: int|
                0 <= j < order@.len() ==> #[trigger] alts@[j] < table@[order@[j] as int]@.len(),
            forall|j: int|
                0 <= j < order@.len() ==> #[trigger] per_slot[j] == phrases::table_view(
                    table@,
                )[order@[j] as int][alts@[j] as int],
            forall|i: int| 0 <= i < counts@.len() ==> #[trigger] counts@[i] == per_slot[i].len(),
            forall|i: int|
                #![trigger all[i]]
                0 <= i < all.len() ==> all[i].len() == counts@.len() && forall|j: int|
                    0 <= j < counts@.len() ==> (#[trigger] all[i][j]) < counts@[j],
            sequences::product(per_slot) == sequences::picked_each(per_slot, all),
            added == phrases::joined_each(sequences::product(per_slot)),
            sequences::contents(results@) == start + added.take(i),
        ensures
            i == all.len(),
        decreases all.len() - i,
    {
        let ghost before = sequences::contents(results@);
        match orders::next_product(&mut products) {
            None => {
                break;
            },
            Some(cands) => {
                assert(all[i] == cands@);
                assert forall|j: int| 0 <= j < order@.len() implies #[trigger] cands@[j]
                    < per_slot[j].len() by {
                    assert(all[i][j] < counts@[j]);
                }
                let phrase = join_parts(table, order, alts, &cands, Ghost(per_slot));
                results.push(phrase);
                proof {
                    assert(added[i] == phrase@);
                    assert(sequences::contents(results@) =~= before.push(phrase@));
                    assert(start + added.take(i + 1) =~= before.push(phrase@));
                    assert(all.skip(i).drop_first() =~= all.skip(i + 1));
                    i = i + 1;
                }
            },
        }
    }
    assert(added.take(i) =~= added);
}

/// Adds everything for one order of the slots.
fn add_order(
    results: &mut Vec<Vec<u16>>,
    table: &Vec<Vec<Vec<Vec<u16>>>>,
    order: &Vec<usize>,
)
    requires
        sequences::is_order(order@, table@.len()),
    ensures
        sequences::contents(final(results)@) == sequences::contents(old(results)@) + order_listing(
            phrases::table_view(table@),
            order@,
        ),
{
    let ghost start = sequences::contents(results@);
    let ghost view = phrases::table_view(table@);
    let ghost choices = alternative_choices(view, order@);
    let mut counts: Vec<usize> = Vec::new();
    let mut j: usize = 0;
    while j < order.len()
        invariant
            j <= order@.len(),
            sequences::is_order(order@, table@.len()),
            view == phrases::table_view(table@),
            choices == alternative_choices(view, order@),
            counts@.len() == j,
            forall|i: int| 0 <= i < j ==> #[trigger] counts@[i] == choices[i].len(),
        decreases order@.len() - j,
    {
        let si: usize = order[j];
        assert(view[si as int] == phrases::row_view(table@[si as int]@));
        counts.push(table[si].len());
        j = j + 1;
    }
    let mut products = orders::position_product(&counts);
    let ghost all = sequences::product(sequences::position_choices(counts@));
    let ghost per_slots = sequences::product(choices);
    proof {
        sequences::lemma_product_by_position(choices, counts@);
        sequences::lemma_position_product(counts@);
        assert(per_slots.take(0) =~= seq![]);
        assert(start + joined_choices(per_slots.take(0)) =~= start);
    }
    let ghost mut i: int = 0;
    assert(all.skip(0) =~= all);
    loop
        invariant
            0 <= i <= all.len(),
            orders::products_left(products) == all.skip(i),
            sequences::is_order(order@, table@.len()),
            view == phrases::table_view(table@),
            choices == alternative_choices(view, order@),
            counts@.len() == order@.len(),
            forall|i: int| 0 <= i < counts@.len() ==> #[trigger] counts@[i] == choices[i].len(),
            forall|i: int|
                #![trigger all[i]]
                0 <= i < all.len() ==> all[i].len() == counts@.len() && forall|j: int|
                    0 <= j < counts@.len() ==> (#[trigger] all[i][j]) < counts@[j],
            per_slots == sequences::picked_each(choices, all),
            sequences::contents(results@) == start + joined_choices(per_slots.take(i)),
        ensures
            i == all.len(),
        decreases all.len() - i,
    {
        match orders::next_product(&mut products) {
            None => {
                break;
            },
            Some(alts) => {
                assert(all[i] == alts@);
                let ghost per_slot = per_slots[i];
                assert forall|j: int| 0 <= j < order@.len() implies #[trigger] alts@[j]
                    < table@[order@[j] as int]@.len() by {
                    assert(all[i][j] < counts@[j]);
                    assert(choices[j] == phrases::row_view(table@[order@[j] as int]@));
                }
                add_choice(results, table, order, &alts, Ghost(per_slot));
                proof {
                    lemma_joined_choices_push(per_slots.take(i), per_slot);
                    assert(per_slots.take(i + 1) =~= per_slots.take(i).push(per_slot));
                    assert(sequences::contents(results@) =~= start + joined_choices(
                        per_slots.take(i + 1),
                    ));
                    assert(all.skip(i).drop_first() =~= all.skip(i + 1));
                    i = i + 1;
                }
            },
        }
    }
    assert(per_slots.take(i) =~= per_slots);
}

/// Lists everything that the chosen slots can stand for, of any length.
///
/// The word list is no longer than indices go, and every known word is in it.
pub fn enumerate_phrases(
    chosen_slots: &[&Slot],
    keep_token_order: bool,
    keep_word_order: bool,
    wordlist: &Vec<String>,
) -> (results: Vec<Vec<u16>>)
    requires
        wordlist@.len() <= candidates::MAX_WORDS,
        phrases::all_known(phrases::chosen_view(chosen_slots@), tokenlist::texts(wordlist@)),
    ensures
        sequences::contents(results@) == listing(
            phrases::table_of(
                phrases::chosen_view(chosen_slots@),
                tokenlist::texts(wordlist@),
                keep_word_order,
            ),
            phrases::slot_orders(chosen_slots@.len(), keep_token_order),
        ),
{
    let table = phrases::expand_slots(chosen_slots, keep_word_order, wordlist);
    let ghost view = phrases::table_view(table@);
    assert(view.len() == chosen_slots@.len());
    let tried = phrases::list_slot_orders(chosen_slots.len(), keep_token_order);
    let ghost all = sequences::contents(tried@);
    let mut results: Vec<Vec<u16>> = Vec::new();
    let mut i: usize = 0;
    assert(all.take(0) =~= seq![]);
    assert(sequences::contents(results@) =~= listing(view, all.take(0)));
    while i < tried.len()
        invariant
            i <= tried@.len(),
            all == sequences::contents(tried@),
            view == phrases::table_view(table@),
            forall|i: int|
                0 <= i < tried@.len() ==> sequences::is_order(#[trigger] tried@[i]@, table@.len()),
            sequences::contents(results@) == listing(view, all.take(i as int)),
        decreases tried@.len() - i,
    {
        assert(sequences::is_order(tried@[i as int]@, table@.len()));
        add_order(&mut results, &table, &tried[i]);
        proof {
            lemma_listing_push(view, all.take(i as int), tried@[i as int]@);
            assert(all.take(i + 1) =~= all.take(i as int).push(tried@[i as int]@));
        }
        i = i + 1;
    }
    assert(all.take(i as int) =~= all);
    results
}

/// The products of each of the lists of choices, one after the other.
spec fn products(per_slots: Seq<Seq<Seq<Seq<u16>>>>) -> Seq<Seq<Seq<u16>>>
    decreases per_slots.len(),
{
    if per_slots.len() == 0 {
        seq![]
    } else {
        sequences::product(per_slots[0]) + products(per_slots.drop_first())
    }
}

/// The choices of each slot in one list.
spec fn flat_choices(choices: Seq<Seq<Seq<Seq<u16>>>>) -> Seq<Seq<Seq<u16>>> {
    Seq::new(choices.len(), |j: int| choices[j].flatten())
}

proof fn lemma_products_concat(a: Seq<Seq<Seq<Seq<u16>>>>, b: Seq<Seq<Seq<Seq<u16>>>>)
    ensures
        products(a + b) == products(a) + products(b),
    decreases a.len(),
{
    if a.len() == 0 {
        assert(a + b =~= b);
        assert(products(a) + products(b) =~= products(b));
    } else {
        assert((a + b).drop_first() =~= a.drop_first() + b);
        lemma_products_concat(a.drop_first(), b);
        assert(products(a + b) =~= products(a) + products(b));
    }
}

/// To choose an alternative first, and then of each of the others, comes to the same as to choose
/// of the others with this alternative in front.
proof fn lemma_products_prefixed(
    alternative: Seq<Seq<u16>>,
    tails: Seq<Seq<Seq<Seq<u16>>>>,
)
    ensures
        products(sequences::prefixed(alternative, tails)).to_multiset() == sequences::branches(
            alternative,
            products(tails),
        ).to_multiset(),
    decreases tails.len(),
{
    let all = sequences::prefixed(alternative, tails);
    if tails.len() == 0 {
        assert(all =~= seq![]);
        lemma_branches_of_nothing(alternative);
    } else {
        let rest = tails.drop_first();
        lemma_products_prefixed(alternative, rest);
        assert(all.drop_first() =~= sequences::prefixed(alternative, rest));
        assert(all[0].drop_first() =~= tails[0]);
        assert(sequences::product(all[0]) == sequences::branches(
            alternative,
            sequences::product(tails[0]),
        ));
        sequences::lemma_branches_of_concat(
            alternative,
            sequences::product(tails[0]),
            products(rest),
        );
        sequences::lemma_concat_multiset(sequences::product(all[0]), products(all.drop_first()));
    }
}

proof fn lemma_branches_of_nothing(heads: Seq<Seq<u16>>)
    ensures
        sequences::branches(heads, seq![]) == Seq::<Seq<Seq<u16>>>::empty(),
    decreases heads.len(),
{
    if heads.len() > 0 {
        lemma_branches_of_nothing(heads.drop_first());
        assert(sequences::prefixed(heads[0], seq![]) =~= seq![]);
        assert(sequences::branches(heads, seq![]) =~= seq![]);
    }
}

proof fn lemma_products_branches(
    alternatives: Seq<Seq<Seq<u16>>>,
    tails: Seq<Seq<Seq<Seq<u16>>>>,
)
    ensures
        products(sequences::branches(alternatives, tails)).to_multiset() == sequences::branches(
            alternatives.flatten(),
            products(tails),
        ).to_multiset(),
    decreases alternatives.len(),
{
    if alternatives.len() > 0 {
        let rest = alternatives.drop_first();
        let a = sequences::prefixed(alternatives[0], tails);
        let b = sequences::branches(rest, tails);
        lemma_products_branches(rest, tails);
        lemma_products_prefixed(alternatives[0], tails);
        lemma_products_concat(a, b);
        sequences::lemma_concat_multiset(products(a), products(b));
        assert(alternatives.flatten() =~= alternatives[0] + rest.flatten());
        sequences::lemma_branches_concat(alternatives[0], rest.flatten(), products(tails));
        sequences::lemma_concat_multiset(
            sequences::branches(alternatives[0], products(tails)),
            sequences::branches(rest.flatten(), products(tails)),
        );
    } else {
        assert(alternatives.flatten() =~= seq![]);
    }
}

/// To choose the alternatives first and then their candidates comes to the same as to choose among
/// all candidates of each slot.
proof fn lemma_products_flat(choices: Seq<Seq<Seq<Seq<u16>>>>)
    ensures
        products(sequences::product(choices)).to_multiset() == sequences::product(
            flat_choices(choices),
        ).to_multiset(),
    decreases choices.len(),
{
    let flat = flat_choices(choices);
    if choices.len() == 0 {
        let all = sequences::product(choices);
        assert(all.drop_first() =~= seq![]);
        assert(products(all.drop_first()) =~= seq![]);
        assert(all[0] =~= seq![]);
        assert(products(all) =~= sequences::product(flat));
    } else {
        let rest = choices.drop_first();
        lemma_products_flat(rest);
        assert(flat.drop_first() =~= flat_choices(rest));
        lemma_products_branches(choices[0], sequences::product(rest));
        sequences::lemma_branches_multiset(
            flat[0],
            products(sequences::product(rest)),
            sequences::product(flat_choices(rest)),
        );
    }
}

proof fn lemma_joined_choices(per_slots: Seq<Seq<Seq<Seq<u16>>>>)
    ensures
        joined_choices(per_slots) == phrases::joined_each(products(per_slots)),
    decreases per_slots.len(),
{
    if per_slots.len() == 0 {
        assert(phrases::joined_each(products(per_slots)) =~= seq![]);
    } else {
        lemma_joined_choices(per_slots.drop_first());
        assert(joined_choices(per_slots) =~= phrases::joined_each(products(per_slots)));
    }
}

/// What is put together depends on which parts there are, not on the order of the listing.
pub proof fn lemma_joined_multiset(a: Seq<Seq<Seq<u16>>>, b: Seq<Seq<Seq<u16>>>)
    requires
        a.to_multiset() == b.to_multiset(),
    ensures
        phrases::joined_each(a).to_multiset() == phrases::joined_each(b).to_multiset(),
    decreases a.len(),
{
    broadcast use vstd::seq_lib::group_to_multiset_ensures;

    assert(a.to_multiset().len() == a.len() && b.to_multiset().len() == b.len());
    let ja = phrases::joined_each(a);
    let jb = phrases::joined_each(b);
    if a.len() == 0 {
        assert(ja =~= jb);
    } else {
        assert(a.contains(a[0]));
        sequences::lemma_same_multiset_contains(a, b, a[0]);
        let i = choose|i: int| 0 <= i < b.len() && b[i] == a[0];
        sequences::lemma_multiset_of_removed(a, 0);
        sequences::lemma_multiset_of_removed(b, i);
        lemma_joined_multiset(a.remove(0), b.remove(i));
        assert(ja.remove(0) =~= phrases::joined_each(a.remove(0)));
        assert(jb.remove(i) =~= phrases::joined_each(b.remove(i)));
        sequences::lemma_multiset_of_removed(ja, 0);
        sequences::lemma_multiset_of_removed(jb, i);
    }
}

/// One order is listed as if all candidates of each slot stood in one list.
pub proof fn lemma_order_listing(table: Seq<Seq<Seq<Seq<u16>>>>, order: Seq<usize>)
    ensures
        order_listing(table, order).to_multiset() == phrases::joined_each(
            sequences::product(phrases::order_choices(table, order)),
        ).to_multiset(),
{
    let choices = alternative_choices(table, order);
    assert(flat_choices(choices) =~= phrases::order_choices(table, order));
    lemma_products_flat(choices);
    lemma_joined_choices(sequences::product(choices));
    lemma_joined_multiset(
        products(sequences::product(choices)),
        sequences::product(phrases::order_choices(table, order)),
    );
}

/// The phrases among a listing, as often as they are listed.
proof fn lemma_full_count(listing: Seq<Seq<u16>>, p: Seq<u16>)
    ensures
        phrases::full_phrases(listing).to_multiset().count(p) == if p.len()
            == candidates::PHRASE_LEN {
            listing.to_multiset().count(p)
        } else {
            0nat
        },
    decreases listing.len(),
{
    broadcast use vstd::seq_lib::group_to_multiset_ensures;

    let full = phrases::full_phrases(listing);
    if listing.len() == 0 {
        assert(!full.contains(p));
        assert(!listing.contains(p));
    } else {
        lemma_full_count(listing.drop_first(), p);
        sequences::lemma_multiset_of_head(listing);
        if listing[0].len() == candidates::PHRASE_LEN {
            assert(full.drop_first() =~= phrases::full_phrases(listing.drop_first()));
            sequences::lemma_multiset_of_head(full);
        }
    }
}

/// A phrase is what is listed and has as many words as a phrase.
pub proof fn lemma_full_contains(listing: Seq<Seq<u16>>, p: Seq<u16>)
    ensures
        phrases::full_phrases(listing).contains(p) <==> listing.contains(p) && p.len()
            == candidates::PHRASE_LEN,
{
    broadcast use vstd::seq_lib::group_to_multiset_ensures;

    lemma_full_count(listing, p);
    assert(listing.contains(p) <==> listing.to_multiset().count(p) > 0);
    let full = phrases::full_phrases(listing);
    assert(full.contains(p) <==> full.to_multiset().count(p) > 0);
}

/// The phrases among a listing depend on what it holds, not on the order.
pub proof fn lemma_full_multiset(a: Seq<Seq<u16>>, b: Seq<Seq<u16>>)
    requires
        a.to_multiset() == b.to_multiset(),
    ensures
        phrases::full_phrases(a).to_multiset() == phrases::full_phrases(b).to_multiset(),
{
    assert forall|p: Seq<u16>|
        phrases::full_phrases(a).to_multiset().count(p) == phrases::full_phrases(
            b,
        ).to_multiset().count(p) by {
        lemma_full_count(a, p);
        lemma_full_count(b, p);
    }
    assert(phrases::full_phrases(a).to_multiset() =~= phrases::full_phrases(b).to_multiset());
}

proof fn lemma_full_concat(a: Seq<Seq<u16>>, b: Seq<Seq<u16>>)
    ensures
        phrases::full_phrases(a + b) == phrases::full_phrases(a) + phrases::full_phrases(b),
    decreases a.len(),
{
    if a.len() == 0 {
        assert(a + b =~= b);
        assert(phrases::full_phrases(a) + phrases::full_phrases(b) =~= phrases::full_phrases(b));
    } else {
        assert((a + b).drop_first() =~= a.drop_first() + b);
        lemma_full_concat(a.drop_first(), b);
        assert(phrases::full_phrases(a + b) =~= phrases::full_phrases(a) + phrases::full_phrases(
            b,
        ));
    }
}

/// All at once and one at a time, the same phrases come for every order, and each equally often.
pub proof fn lemma_same_phrases(table: Seq<Seq<Seq<Seq<u16>>>>, orders: Seq<Seq<usize>>)
    ensures
        phrases::full_phrases(listing(table, orders)).to_multiset() == phrases::phrases_in_orders(
            table,
            orders,
        ).to_multiset(),
    decreases orders.len(),
{
    if orders.len() > 0 {
        let rest = orders.drop_first();
        lemma_same_phrases(table, rest);
        lemma_order_listing(table, orders[0]);
        lemma_full_multiset(
            order_listing(table, orders[0]),
            phrases::joined_each(
                sequences::product(phrases::order_choices(table, orders[0])),
            ),
        );
        lemma_full_concat(order_listing(table, orders[0]), listing(table, rest));
        sequences::lemma_concat_multiset(
            phrases::full_phrases(order_listing(table, orders[0])),
            phrases::full_phrases(listing(table, rest)),
        );
        sequences::lemma_concat_multiset(
            phrases::order_phrases(table, orders[0]),
            phrases::phrases_in_orders(table, rest),
        );
    }
}

} // verus!
