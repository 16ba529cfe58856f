//! The order in which slots and alternatives are written does not matter, unless it is to be kept.

use vstd::prelude::*;

use crate::enumerate;
use crate::phrases;
use crate::sequences;

verus! {

/// `other` holds the same slots in another order, slot `i` being slot `order[i]` of `slots`, and
/// each slot holds the same alternatives in some order.
pub open spec fn rewritten(
    slots: Seq<Seq<Seq<Option<Seq<char>>>>>,
    order: Seq<usize>,
    other: Seq<Seq<Seq<Option<Seq<char>>>>>,
) -> bool {
    &&& sequences::is_order(order, slots.len())
    &&& other.len() == slots.len()
    &&& forall|i: int|
        0 <= i < other.len() ==> (#[trigger] other[i]).to_multiset()
            == slots[order[i] as int].to_multiset()
}

/// Slots with the same alternatives have the same candidates, alternative by alternative.
proof fn lemma_slot_table_multiset(
    a: Seq<Seq<Option<Seq<char>>>>,
    b: Seq<Seq<Option<Seq<char>>>>,
    words: Seq<Seq<char>>,
    keep_word_order: bool,
)
    requires
        a.to_multiset() == b.to_multiset(),
    ensures
        phrases::slot_table(a, words, keep_word_order).to_multiset() == phrases::slot_table(
            b,
            words,
            keep_word_order,
        ).to_multiset(),
    decreases a.len(),
{
    broadcast use vstd::seq_lib::group_to_multiset_ensures;

    assert(a.to_multiset().len() == a.len() && b.to_multiset().len() == b.len());
    let ta = phrases::slot_table(a, words, keep_word_order);
    let tb = phrases::slot_table(b, words, keep_word_order);
    if a.len() == 0 {
        assert(ta =~= tb);
    } else {
        assert(a.contains(a[0]));
        sequences::lemma_same_multiset_contains(a, b, a[0]);
        let i = choose|i: int| 0 <= i < b.len() && b[i] == a[0];
        sequences::lemma_multiset_of_removed(a, 0);
        sequences::lemma_multiset_of_removed(b, i);
        lemma_slot_table_multiset(a.remove(0), b.remove(i), words, keep_word_order);
        assert(ta.remove(0) =~= phrases::slot_table(a.remove(0), words, keep_word_order));
        assert(tb.remove(i) =~= phrases::slot_table(b.remove(i), words, keep_word_order));
        sequences::lemma_multiset_of_removed(ta, 0);
        sequences::lemma_multiset_of_removed(tb, i);
    }
}

/// One order is listed alike for tables whose slots have the same candidates.
proof fn lemma_order_listing_rows(
    a: Seq<Seq<Seq<Seq<u16>>>>,
    b: Seq<Seq<Seq<Seq<u16>>>>,
    order: Seq<usize>,
)
    requires
        a.len() == b.len(),
        sequences::is_order(order, a.len()),
        forall|s: int| 0 <= s < a.len() ==> (#[trigger] a[s]).to_multiset() == b[s].to_multiset(),
    ensures
        enumerate::order_listing(a, order).to_multiset() == enumerate::order_listing(
            b,
            order,
        ).to_multiset(),
{
    let ca = phrases::order_choices(a, order);
    let cb = phrases::order_choices(b, order);
    assert forall|j: int| 0 <= j < ca.len() implies (#[trigger] ca[j]).to_multiset()
        == cb[j].to_multiset() by {
        let s = order[j] as int;
        assert(a[s].to_multiset() == b[s].to_multiset());
        sequences::lemma_flatten_multiset(a[s], b[s]);
    }
    sequences::lemma_product_multiset(ca, cb);
    enumerate::lemma_joined_multiset(sequences::product(ca), sequences::product(cb));
    enumerate::lemma_order_listing(a, order);
    enumerate::lemma_order_listing(b, order);
}

proof fn lemma_listing_rows(
    a: Seq<Seq<Seq<Seq<u16>>>>,
    b: Seq<Seq<Seq<Seq<u16>>>>,
    orders: Seq<Seq<usize>>,
)
    requires
        a.len() == b.len(),
        forall|i: int|
            0 <= i < orders.len() ==> sequences::is_order(#[trigger] orders[i], a.len()),
        forall|s: int| 0 <= s < a.len() ==> (#[trigger] a[s]).to_multiset() == b[s].to_multiset(),
    ensures
        enumerate::listing(a, orders).to_multiset() == enumerate::listing(b, orders).to_multiset(),
    decreases orders.len(),
{
    if orders.len() > 0 {
        let rest = orders.drop_first();
        assert forall|i: int| 0 <= i < rest.len() implies sequences::is_order(
            #[trigger] rest[i],
            a.len(),
        ) by {
            assert(sequences::is_order(orders[i + 1], a.len()));
        }
        lemma_listing_rows(a, b, rest);
        assert(sequences::is_order(orders[0], a.len()));
        lemma_order_listing_rows(a, b, orders[0]);
        sequences::lemma_concat_multiset(
            enumerate::order_listing(a, orders[0]),
            enumerate::listing(a, rest),
        );
        sequences::lemma_concat_multiset(
            enumerate::order_listing(b, orders[0]),
            enumerate::listing(b, rest),
        );
    }
}

proof fn lemma_listing_removed(
    table: Seq<Seq<Seq<Seq<u16>>>>,
    orders: Seq<Seq<usize>>,
    i: int,
)
    requires
        0 <= i < orders.len(),
    ensures
        enumerate::listing(table, orders).to_multiset() == enumerate::order_listing(
            table,
            orders[i],
        ).to_multiset().add(enumerate::listing(table, orders.remove(i)).to_multiset()),
    decreases orders.len(),
{
    let first = enumerate::order_listing(table, orders[0]);
    let rest = orders.drop_first();
    sequences::lemma_concat_multiset(first, enumerate::listing(table, rest));
    if i == 0 {
        assert(orders.remove(0) =~= rest);
    } else {
        lemma_listing_removed(table, rest, i - 1);
        let less = orders.remove(i);
        assert(less.drop_first() =~= rest.remove(i - 1));
        assert(less[0] == orders[0]);
        sequences::lemma_concat_multiset(first, enumerate::listing(table, less.drop_first()));
        assert(enumerate::listing(table, orders).to_multiset() =~= enumerate::order_listing(
            table,
            orders[i],
        ).to_multiset().add(enumerate::listing(table, less).to_multiset()));
    }
}

/// A listing depends on which orders are tried, not on when.
proof fn lemma_listing_orders(
    table: Seq<Seq<Seq<Seq<u16>>>>,
    a: Seq<Seq<usize>>,
    b: Seq<Seq<usize>>,
)
    requires
        a.to_multiset() == b.to_multiset(),
    ensures
        enumerate::listing(table, a).to_multiset() == enumerate::listing(table, b).to_multiset(),
    decreases a.len(),
{
    broadcast use vstd::seq_lib::group_to_multiset_ensures;

    assert(a.to_multiset().len() == a.len() && b.to_multiset().len() == b.len());
    if a.len() == 0 {
        assert(a =~= b);
    } else {
        assert(a.contains(a[0]));
        sequences::lemma_same_multiset_contains(a, b, a[0]);
        let i = choose|i: int| 0 <= i < b.len() && b[i] == a[0];
        sequences::lemma_multiset_of_removed(a, 0);
        sequences::lemma_multiset_of_removed(b, i);
        lemma_listing_orders(table, a.remove(0), b.remove(i));
        lemma_listing_removed(table, a, 0);
        lemma_listing_removed(table, b, i);
    }
}

/// To list the slots of a reordered table in some orders is to list those of the table in the
/// orders that these come to.
proof fn lemma_listing_reordered(
    table: Seq<Seq<Seq<Seq<u16>>>>,
    order: Seq<usize>,
    orders: Seq<Seq<usize>>,
)
    requires
        sequences::is_order(order, table.len()),
        forall|i: int|
            0 <= i < orders.len() ==> sequences::is_order(#[trigger] orders[i], table.len()),
    ensures
        enumerate::listing(sequences::reordered(table, order), orders) == enumerate::listing(
            table,
            sequences::reordered_each(order, orders),
        ),
    decreases orders.len(),
{
    let other = sequences::reordered(table, order);
    let names = sequences::reordered_each(order, orders);
    if orders.len() > 0 {
        let rest = orders.drop_first();
        assert forall|i: int| 0 <= i < rest.len() implies sequences::is_order(
            #[trigger] rest[i],
            table.len(),
        ) by {
            assert(sequences::is_order(orders[i + 1], table.len()));
        }
        lemma_listing_reordered(table, order, rest);
        assert(names.drop_first() =~= sequences::reordered_each(order, rest));
        assert(sequences::is_order(orders[0], table.len()));
        assert(enumerate::alternative_choices(other, orders[0]) =~= enumerate::alternative_choices(
            table,
            names[0],
        ));
    }
}

/// Unless the order of the slots is to be kept, the phrases that are listed do not depend on the
/// order in which the slots are written, nor on that of the alternatives of a slot: each comes
/// equally often.
pub proof fn lemma_rewritten(
    slots: Seq<Seq<Seq<Option<Seq<char>>>>>,
    order: Seq<usize>,
    other: Seq<Seq<Seq<Option<Seq<char>>>>>,
    words: Seq<Seq<char>>,
    keep_word_order: bool,
)
    requires
        slots.len() <= usize::MAX,
        rewritten(slots, order, other),
    ensures
        enumerate::listing(
            phrases::table_of(other, words, keep_word_order),
            phrases::slot_orders(other.len(), false),
        ).to_multiset() == enumerate::listing(
            phrases::table_of(slots, words, keep_word_order),
            phrases::slot_orders(slots.len(), false),
        ).to_multiset(),
{
    let n = slots.len();
    let table = phrases::table_of(slots, words, keep_word_order);
    let written = phrases::table_of(other, words, keep_word_order);
    let moved = sequences::reordered(table, order);
    let orders = phrases::slot_orders(n, false);
    sequences::lemma_orders_in_range(n);
    assert forall|s: int| 0 <= s < written.len() implies (#[trigger] written[s]).to_multiset()
        == moved[s].to_multiset() by {
        assert(other[s].to_multiset() == slots[order[s] as int].to_multiset());
        lemma_slot_table_multiset(other[s], slots[order[s] as int], words, keep_word_order);
    }
    lemma_listing_rows(written, moved, orders);
    lemma_listing_reordered(table, order, orders);
    let names = sequences::reordered_each(order, orders);
    sequences::lemma_arrangements_by_position(order);
    assert(names == sequences::arrangements(order, n));
    let p = sequences::positions(n);
    assert(p.len() == n && p.no_duplicates());
    sequences::lemma_orders_contains(n, order);
    sequences::lemma_arrangements_contains(p, order);
    sequences::lemma_arrangements_no_duplicates(order, n);
    sequences::lemma_arrangements_no_duplicates(p, n);
    assert forall|o: Seq<usize>| names.contains(o) <==> orders.contains(o) by {
        sequences::lemma_arrangements_contains(order, o);
        sequences::lemma_arrangements_contains(p, o);
    }
    sequences::lemma_same_items_multiset(names, orders);
    lemma_listing_orders(table, names, orders);
}

/// Unless the order of the slots is to be kept, neither order changes which phrases of 12 words
/// come, nor how often.
pub proof fn lemma_rewritten_phrases(
    slots: Seq<Seq<Seq<Option<Seq<char>>>>>,
    order: Seq<usize>,
    other: Seq<Seq<Seq<Option<Seq<char>>>>>,
    words: Seq<Seq<char>>,
    keep_word_order: bool,
)
    requires
        slots.len() <= usize::MAX,
        rewritten(slots, order, other),
    ensures
        phrases::phrases_in_orders(
            phrases::table_of(other, words, keep_word_order),
            phrases::slot_orders(other.len(), false),
        ).to_multiset() == phrases::phrases_in_orders(
            phrases::table_of(slots, words, keep_word_order),
            phrases::slot_orders(slots.len(), false),
        ).to_multiset(),
{
    let orders = phrases::slot_orders(slots.len(), false);
    let a = phrases::table_of(other, words, keep_word_order);
    let b = phrases::table_of(slots, words, keep_word_order);
    lemma_rewritten(slots, order, other, words, keep_word_order);
    enumerate::lemma_full_multiset(
        enumerate::listing(a, orders),
        enumerate::listing(b, orders),
    );
    enumerate::lemma_same_phrases(a, orders);
    enumerate::lemma_same_phrases(b, orders);
}

} // verus!
