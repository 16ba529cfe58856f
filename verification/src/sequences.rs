//! Listings: the mathematical sequences that the enumerations of this library walk through.
//!
//! A listing is a sequence of sequences in a fixed order. Every enumeration of the library says
//! in its contract which listing it hands out; what a listing holds is stated and proved here.

use vstd::prelude::*;

verus! {

/// What one call of a `next` does: it takes the first sequence off those that are left, and gives
/// `None` when none is left.
pub open spec fn takes_first<T>(
    before: Seq<Seq<T>>,
    given: Option<Seq<T>>,
    after: Seq<Seq<T>>,
) -> bool {
    if before.len() == 0 {
        given is None && after == before
    } else {
        given == Some(before[0]) && after == before.drop_first()
    }
}

/// The content of a vector that may be absent.
pub open spec fn content<T>(given: Option<Vec<T>>) -> Option<Seq<T>> {
    match given {
        Some(v) => Some(v@),
        None => None,
    }
}

/// The contents of a list of vectors.
pub open spec fn contents<T>(list: Seq<Vec<T>>) -> Seq<Seq<T>> {
    Seq::new(list.len(), |i: int| list[i]@)
}

/// Machine numbers as mathematical ones.
pub open spec fn as_ints(v: Seq<usize>) -> Seq<int> {
    Seq::new(v.len(), |i: int| v[i] as int)
}

/// Every sequence of `tails` with `head` put in front of it.
pub open spec fn prefixed<T>(head: T, tails: Seq<Seq<T>>) -> Seq<Seq<T>> {
    Seq::new(tails.len(), |i: int| seq![head] + tails[i])
}

/// The listings `prefixed(h, tails)` for each `h` of `heads`, one after the other.
pub open spec fn branches<T>(heads: Seq<T>, tails: Seq<Seq<T>>) -> Seq<Seq<T>>
    decreases heads.len(),
{
    if heads.len() == 0 {
        seq![]
    } else {
        prefixed(heads[0], tails) + branches(heads.drop_first(), tails)
    }
}

/// The cartesian product of `choices` in lexicographic order: the last choice changes fastest.
pub open spec fn product<T>(choices: Seq<Seq<T>>) -> Seq<Seq<T>>
    decreases choices.len(),
{
    if choices.len() == 0 {
        seq![seq![]]
    } else {
        branches(choices[0], product(choices.drop_first()))
    }
}

/// `at` picks one item of each choice.
pub open spec fn points_into<T>(choices: Seq<Seq<T>>, at: Seq<int>) -> bool {
    &&& at.len() == choices.len()
    &&& forall|i: int| 0 <= i < at.len() ==> 0 <= #[trigger] at[i] < choices[i].len()
}

/// The items that `at` picks.
pub open spec fn picked<T>(choices: Seq<Seq<T>>, at: Seq<int>) -> Seq<T> {
    Seq::new(choices.len(), |i: int| choices[i][at[i]])
}

/// The part of `product(choices)` that starts with the sequence that `at` picks.
pub open spec fn product_from<T>(choices: Seq<Seq<T>>, at: Seq<int>) -> Seq<Seq<T>>
    decreases choices.len(),
{
    if choices.len() == 0 {
        seq![seq![]]
    } else {
        prefixed(choices[0][at[0]], product_from(choices.drop_first(), at.drop_first()))
            + branches(choices[0].skip(at[0] + 1), product(choices.drop_first()))
    }
}

/// The cursor after `at` when position `p` is the last that can still move on.
pub open spec fn stepped(at: Seq<int>, p: int) -> Seq<int> {
    Seq::new(
        at.len(),
        |i: int|
            if i < p {
                at[i]
            } else if i == p {
                at[i] + 1
            } else {
                0
            },
    )
}

/// `p` can move on and everything behind `p` stands on its last item.
pub open spec fn can_step<T>(choices: Seq<Seq<T>>, at: Seq<int>, p: int) -> bool {
    &&& 0 <= p < choices.len()
    &&& at[p] + 1 < choices[p].len()
    &&& forall|i: int| p < i < choices.len() ==> #[trigger] at[i] + 1 == choices[i].len()
}

/// From a cursor at zero on, the whole product is left.
pub proof fn lemma_product_from_start<T>(choices: Seq<Seq<T>>, at: Seq<int>)
    requires
        points_into(choices, at),
        forall|i: int| 0 <= i < at.len() ==> #[trigger] at[i] == 0,
    ensures
        product_from(choices, at) == product(choices),
    decreases choices.len(),
{
    if choices.len() > 0 {
        let c = choices.drop_first();
        let a = at.drop_first();
        assert forall|i: int| 0 <= i < a.len() implies 0 <= #[trigger] a[i] < c[i].len() && a[i]
            == 0 by {
            assert(at[i + 1] == 0);
        }
        lemma_product_from_start(c, a);
        assert(at[0] == 0);
        assert(choices[0].skip(1) == choices[0].drop_first());
    }
}

/// What is left from a cursor on starts with what the cursor picks.
pub proof fn lemma_product_from_first<T>(choices: Seq<Seq<T>>, at: Seq<int>)
    requires
        points_into(choices, at),
    ensures
        product_from(choices, at).len() > 0,
        product_from(choices, at)[0] == picked(choices, at),
    decreases choices.len(),
{
    if choices.len() > 0 {
        let c = choices.drop_first();
        let a = at.drop_first();
        assert forall|i: int| 0 <= i < a.len() implies 0 <= #[trigger] a[i] < c[i].len() by {
            assert(0 <= at[i + 1] < choices[i + 1].len());
        }
        lemma_product_from_first(c, a);
        assert(seq![choices[0][at[0]]] + picked(c, a) =~= picked(choices, at));
    } else {
        assert(picked(choices, at) =~= seq![]);
    }
}

/// From a cursor on the last item of every choice on, one sequence is left.
pub proof fn lemma_product_from_last<T>(choices: Seq<Seq<T>>, at: Seq<int>)
    requires
        points_into(choices, at),
        forall|i: int| 0 <= i < at.len() ==> #[trigger] at[i] + 1 == choices[i].len(),
    ensures
        product_from(choices, at).len() == 1,
    decreases choices.len(),
{
    if choices.len() > 0 {
        let c = choices.drop_first();
        let a = at.drop_first();
        assert forall|i: int| 0 <= i < a.len() implies 0 <= #[trigger] a[i] < c[i].len() && a[i] + 1
            == c[i].len() by {
            assert(at[i + 1] + 1 == choices[i + 1].len());
        }
        lemma_product_from_last(c, a);
        assert(at[0] + 1 == choices[0].len());
        assert(choices[0].skip(at[0] + 1).len() == 0);
    }
}

/// One step of the cursor takes the first sequence off what is left.
pub proof fn lemma_product_from_step<T>(choices: Seq<Seq<T>>, at: Seq<int>, p: int)
    requires
        points_into(choices, at),
        can_step(choices, at, p),
    ensures
        points_into(choices, stepped(at, p)),
        product_from(choices, stepped(at, p)) == product_from(choices, at).drop_first(),
    decreases choices.len(),
{
    let c = choices.drop_first();
    let a = at.drop_first();
    let next = stepped(at, p);
    assert forall|i: int| 0 <= i < next.len() implies 0 <= #[trigger] next[i] < choices[i].len() by {
        assert(0 <= at[i] < choices[i].len());
    }
    assert forall|i: int| 0 <= i < a.len() implies 0 <= #[trigger] a[i] < c[i].len() by {
        assert(0 <= at[i + 1] < choices[i + 1].len());
    }
    let x = prefixed(choices[0][at[0]], product_from(c, a));
    let y = branches(choices[0].skip(at[0] + 1), product(c));
    lemma_product_from_first(c, a);
    if p == 0 {
        assert forall|i: int| 0 <= i < a.len() implies #[trigger] a[i] + 1 == c[i].len() by {
            assert(at[i + 1] + 1 == choices[i + 1].len());
        }
        lemma_product_from_last(c, a);
        let z = next.drop_first();
        assert forall|i: int| 0 <= i < z.len() implies 0 <= #[trigger] z[i] < c[i].len() && z[i]
            == 0 by {
            assert(next[i + 1] == 0);
        }
        lemma_product_from_start(c, z);
        assert((x + y).drop_first() =~= y);
        let s = choices[0].skip(at[0] + 1);
        assert(s[0] == choices[0][at[0] + 1]);
        assert(s.drop_first() =~= choices[0].skip(at[0] + 2));
    } else {
        assert forall|i: int| p - 1 < i < c.len() implies #[trigger] a[i] + 1 == c[i].len() by {
            assert(at[i + 1] + 1 == choices[i + 1].len());
        }
        lemma_product_from_step(c, a, p - 1);
        assert(next.drop_first() =~= stepped(a, p - 1));
        assert(prefixed(choices[0][at[0]], product_from(c, a).drop_first()) =~= x.drop_first());
        assert((x + y).drop_first() =~= x.drop_first() + y);
    }
}

/// The listing of all `k`-sequences whose items stand at different positions of `pool`, in
/// lexicographic order of the positions. Equal items at two positions count as two.
pub open spec fn arrangements<T>(pool: Seq<T>, k: nat) -> Seq<Seq<T>>
    decreases k, pool.len() + 2,
{
    if k == 0 {
        seq![seq![]]
    } else {
        arrangements_from(pool, k, 0)
    }
}

/// The part of `arrangements(pool, k)` whose sequences start at position `i` or behind it.
pub open spec fn arrangements_from<T>(pool: Seq<T>, k: nat, i: nat) -> Seq<Seq<T>>
    decreases k, pool.len() - i + 1,
{
    if k == 0 || i >= pool.len() {
        seq![]
    } else {
        prefixed(pool[i as int], arrangements(pool.remove(i as int), (k - 1) as nat))
            + arrangements_from(pool, k, i + 1)
    }
}

/// The positions `0, 1, .., n - 1`.
pub open spec fn positions(n: nat) -> Seq<usize> {
    Seq::new(n, |i: int| i as usize)
}

/// The listing of all increasing `k`-sequences of numbers of `lo..n`, in lexicographic order.
pub open spec fn selections(lo: nat, n: nat, k: nat) -> Seq<Seq<usize>>
    decreases n - lo,
{
    if k == 0 {
        seq![seq![]]
    } else if lo >= n {
        seq![]
    } else {
        prefixed(lo as usize, selections(lo + 1, n, (k - 1) as nat)) + selections(lo + 1, n, k)
    }
}

/// `s` is increasing, and all its numbers lie in `lo..n`.
pub open spec fn increasing_within(s: Seq<usize>, lo: nat, n: nat) -> bool {
    &&& forall|i: int| 0 <= i < s.len() ==> lo <= #[trigger] s[i] < n
    &&& forall|i: int, j: int| 0 <= i < j < s.len() ==> #[trigger] s[i] < #[trigger] s[j]
}

/// `1 * 2 * .. * n`
pub open spec fn factorial(n: nat) -> nat
    decreases n,
{
    if n == 0 {
        1
    } else {
        n * factorial((n - 1) as nat)
    }
}

/// `n * n * .. * n`, with `k` factors.
pub open spec fn power(n: nat, k: nat) -> nat
    decreases k,
{
    if k == 0 {
        1
    } else {
        n * power(n, (k - 1) as nat)
    }
}

/// There is an order of any number of items.
pub proof fn lemma_factorial_positive(n: nat)
    ensures
        factorial(n) > 0,
    decreases n,
{
    if n > 0 {
        lemma_factorial_positive((n - 1) as nat);
        assert(n * factorial((n - 1) as nat) > 0) by (nonlinear_arith)
            requires
                n > 0,
                factorial((n - 1) as nat) > 0,
        ;
    }
}

/// Places can be filled where there are no places or there is something to fill them with.
pub proof fn lemma_power_positive(n: nat, k: nat)
    ensures
        power(n, k) > 0 <==> n > 0 || k == 0,
    decreases k,
{
    if k > 0 {
        lemma_power_positive(n, (k - 1) as nat);
        let p = power(n, (k - 1) as nat);
        if n > 0 {
            assert(n * p > 0) by (nonlinear_arith)
                requires
                    n > 0,
                    p > 0,
            ;
        } else {
            assert(n * p == 0) by (nonlinear_arith)
                requires
                    n == 0,
            ;
        }
    }
}

/// What is listed behind a head starts with it and goes on with one of the tails.
pub proof fn lemma_prefixed_contains<T>(head: T, tails: Seq<Seq<T>>, s: Seq<T>)
    ensures
        prefixed(head, tails).contains(s) <==> s.len() > 0 && s[0] == head && tails.contains(
            s.drop_first(),
        ),
{
    let all = prefixed(head, tails);
    if all.contains(s) {
        let i = choose|i: int| 0 <= i < all.len() && all[i] == s;
        assert(s.drop_first() =~= tails[i]);
    }
    if s.len() > 0 && s[0] == head && tails.contains(s.drop_first()) {
        let i = choose|i: int| 0 <= i < tails.len() && tails[i] == s.drop_first();
        assert(all[i] =~= s);
    }
}

/// Two sequences put together hold what the one or the other holds.
pub proof fn lemma_concat_contains<T>(a: Seq<T>, b: Seq<T>, x: T)
    ensures
        (a + b).contains(x) <==> a.contains(x) || b.contains(x),
{
    if a.contains(x) {
        let i = choose|i: int| 0 <= i < a.len() && a[i] == x;
        assert((a + b)[i] == x);
    }
    if b.contains(x) {
        let i = choose|i: int| 0 <= i < b.len() && b[i] == x;
        assert((a + b)[a.len() + i] == x);
    }
}

/// What is listed behind some heads starts with one of them and goes on with one of the tails.
pub proof fn lemma_branches_contains<T>(heads: Seq<T>, tails: Seq<Seq<T>>, s: Seq<T>)
    ensures
        branches(heads, tails).contains(s) <==> s.len() > 0 && heads.contains(s[0])
            && tails.contains(s.drop_first()),
    decreases heads.len(),
{
    if heads.len() > 0 {
        lemma_prefixed_contains(heads[0], tails, s);
        lemma_branches_contains(heads.drop_first(), tails, s);
        lemma_concat_contains(
            prefixed(heads[0], tails),
            branches(heads.drop_first(), tails),
            s,
        );
        if s.len() > 0 {
            assert(heads =~= seq![heads[0]] + heads.drop_first());
            lemma_concat_contains(seq![heads[0]], heads.drop_first(), s[0]);
            assert(seq![heads[0]].contains(s[0]) <==> s[0] == heads[0]) by {
                assert(seq![heads[0]][0] == heads[0]);
            }
        }
    }
}

/// The product holds exactly the sequences that take one item of each choice.
pub proof fn lemma_product_contains<T>(choices: Seq<Seq<T>>, s: Seq<T>)
    ensures
        product(choices).contains(s) <==> s.len() == choices.len() && (forall|i: int|
            0 <= i < choices.len() ==> (#[trigger] choices[i]).contains(s[i])),
    decreases choices.len(),
{
    if choices.len() == 0 {
        assert(product(choices)[0] =~= seq![]);
        if s.len() == 0 {
            assert(s =~= product(choices)[0]);
        }
    } else {
        let c = choices.drop_first();
        lemma_branches_contains(choices[0], product(c), s);
        if s.len() > 0 {
            let t = s.drop_first();
            lemma_product_contains(c, t);
            if product(choices).contains(s) {
                assert forall|i: int| 0 <= i < choices.len() implies (
                #[trigger] choices[i]).contains(s[i]) by {
                    if i > 0 {
                        assert(c[i - 1].contains(t[i - 1]));
                    }
                }
            }
            if s.len() == choices.len() && (forall|i: int|
                0 <= i < choices.len() ==> (#[trigger] choices[i]).contains(s[i])) {
                assert forall|i: int| 0 <= i < c.len() implies (#[trigger] c[i]).contains(t[i]) by {
                    assert(choices[i + 1].contains(s[i + 1]));
                }
            }
        }
    }
}

/// Every head is listed with every tail.
pub proof fn lemma_branches_len<T>(heads: Seq<T>, tails: Seq<Seq<T>>)
    ensures
        branches(heads, tails).len() == heads.len() * tails.len(),
    decreases heads.len(),
{
    if heads.len() > 0 {
        lemma_branches_len(heads.drop_first(), tails);
        assert(heads.len() * tails.len() == tails.len() + (heads.len() - 1) * tails.len())
            by (nonlinear_arith);
    }
}

/// The product of `k` choices of `n` items each has `n` to the power of `k` sequences.
pub proof fn lemma_product_len<T>(choices: Seq<Seq<T>>, n: nat)
    requires
        forall|i: int| 0 <= i < choices.len() ==> (#[trigger] choices[i]).len() == n,
    ensures
        product(choices).len() == power(n, choices.len()),
    decreases choices.len(),
{
    if choices.len() > 0 {
        let c = choices.drop_first();
        assert forall|i: int| 0 <= i < c.len() implies (#[trigger] c[i]).len() == n by {
            assert(choices[i + 1].len() == n);
        }
        lemma_product_len(c, n);
        lemma_branches_len(choices[0], product(c));
        assert(choices[0].len() == n);
    }
}

proof fn lemma_prefixed_no_duplicates<T>(head: T, tails: Seq<Seq<T>>)
    requires
        tails.no_duplicates(),
    ensures
        prefixed(head, tails).no_duplicates(),
{
    let all = prefixed(head, tails);
    assert forall|i: int, j: int| 0 <= i < all.len() && 0 <= j < all.len() && i != j implies all[i]
        != all[j] by {
        assert(all[i].drop_first() =~= tails[i]);
        assert(all[j].drop_first() =~= tails[j]);
        assert(tails[i] != tails[j]);
    }
}

/// Two sequences that share nothing hold nothing twice if neither does.
pub proof fn lemma_concat_no_duplicates<T>(a: Seq<T>, b: Seq<T>)
    requires
        a.no_duplicates(),
        b.no_duplicates(),
        forall|x: T| a.contains(x) ==> !b.contains(x),
    ensures
        (a + b).no_duplicates(),
{
    let all = a + b;
    assert forall|i: int, j: int| 0 <= i < all.len() && 0 <= j < all.len() && i != j implies all[i]
        != all[j] by {
        if i < a.len() && j >= a.len() {
            assert(a.contains(a[i]));
            assert(b.contains(b[j - a.len()]));
        }
        if j < a.len() && i >= a.len() {
            assert(a.contains(a[j]));
            assert(b.contains(b[i - a.len()]));
        }
    }
}

/// Where no head and no tail comes twice, nothing is listed twice behind the heads.
pub proof fn lemma_branches_no_duplicates<T>(heads: Seq<T>, tails: Seq<Seq<T>>)
    requires
        heads.no_duplicates(),
        tails.no_duplicates(),
    ensures
        branches(heads, tails).no_duplicates(),
    decreases heads.len(),
{
    if heads.len() > 0 {
        let a = prefixed(heads[0], tails);
        let b = branches(heads.drop_first(), tails);
        lemma_prefixed_no_duplicates(heads[0], tails);
        lemma_branches_no_duplicates(heads.drop_first(), tails);
        assert forall|x: Seq<T>| a.contains(x) implies !b.contains(x) by {
            lemma_prefixed_contains(heads[0], tails, x);
            lemma_branches_contains(heads.drop_first(), tails, x);
            if heads.drop_first().contains(x[0]) {
                let i = choose|i: int|
                    0 <= i < heads.drop_first().len() && heads.drop_first()[i] == x[0];
                assert(heads[i + 1] == heads[0]);
            }
        }
        lemma_concat_no_duplicates(a, b);
    }
}

/// Where no choice holds an item twice, the product holds no sequence twice.
pub proof fn lemma_product_no_duplicates<T>(choices: Seq<Seq<T>>)
    requires
        forall|i: int| 0 <= i < choices.len() ==> (#[trigger] choices[i]).no_duplicates(),
    ensures
        product(choices).no_duplicates(),
    decreases choices.len(),
{
    if choices.len() > 0 {
        let c = choices.drop_first();
        assert forall|i: int| 0 <= i < c.len() implies (#[trigger] c[i]).no_duplicates() by {
            assert(choices[i + 1].no_duplicates());
        }
        lemma_product_no_duplicates(c);
        assert(choices[0].no_duplicates());
        lemma_branches_no_duplicates(choices[0], product(c));
    }
}

proof fn lemma_arrangements_from_len<T>(pool: Seq<T>, i: nat)
    requires
        i <= pool.len(),
        pool.len() > 0,
    ensures
        arrangements_from(pool, pool.len(), i).len() == (pool.len() - i) * factorial(
            (pool.len() - 1) as nat,
        ),
    decreases pool.len(), pool.len() - i + 1,
{
    let f = factorial((pool.len() - 1) as nat);
    if i < pool.len() {
        lemma_arrangements_len(pool.remove(i as int));
        lemma_arrangements_from_len(pool, i + 1);
        assert((pool.len() - i) * f == f + (pool.len() - (i + 1)) * f) by (nonlinear_arith);
    } else {
        assert((pool.len() - i) * f == 0) by (nonlinear_arith)
            requires
                pool.len() == i,
        ;
    }
}

/// `n` items have `1 * 2 * .. * n` orders.
pub proof fn lemma_arrangements_len<T>(pool: Seq<T>)
    ensures
        arrangements(pool, pool.len()).len() == factorial(pool.len()),
    decreases pool.len(), pool.len() + 2,
{
    if pool.len() > 0 {
        lemma_arrangements_from_len(pool, 0);
    }
}

proof fn lemma_arrangements_from_contains<T>(pool: Seq<T>, k: nat, from: nat, s: Seq<T>)
    requires
        k > 0,
    ensures
        arrangements_from(pool, k, from).contains(s) <==> exists|i: int|
            from <= i < pool.len() && s.len() > 0 && s[0] == pool[i] && #[trigger] arrangements(
                pool.remove(i),
                (k - 1) as nat,
            ).contains(s.drop_first()),
    decreases pool.len() - from,
{
    if from < pool.len() {
        let tails = arrangements(pool.remove(from as int), (k - 1) as nat);
        lemma_prefixed_contains(pool[from as int], tails, s);
        lemma_concat_contains(
            prefixed(pool[from as int], tails),
            arrangements_from(pool, k, from + 1),
            s,
        );
        lemma_arrangements_from_contains(pool, k, from + 1, s);
    }
}

/// The arrangements of all items are exactly the sequences with the same items, each as often.
pub proof fn lemma_arrangements_contains<T>(pool: Seq<T>, s: Seq<T>)
    ensures
        arrangements(pool, pool.len()).contains(s) <==> s.to_multiset() == pool.to_multiset(),
    decreases pool.len(),
{
    broadcast use vstd::seq_lib::group_to_multiset_ensures;

    let all = arrangements(pool, pool.len());
    if pool.len() == 0 {
        assert(pool =~= seq![]);
        assert(all[0] =~= seq![]);
        if s.to_multiset() == pool.to_multiset() {
            assert(s.len() == 0);
            assert(all[0] =~= s);
        }
    } else {
        let k = (pool.len() - 1) as nat;
        lemma_arrangements_from_contains(pool, pool.len(), 0, s);
        if all.contains(s) {
            let i = choose|i: int|
                0 <= i < pool.len() && s.len() > 0 && s[0] == pool[i] && #[trigger] arrangements(
                    pool.remove(i),
                    k,
                ).contains(s.drop_first());
            lemma_arrangements_contains(pool.remove(i), s.drop_first());
            assert(s.remove(0) =~= s.drop_first());
            lemma_multiset_of_head(s);
            lemma_multiset_of_removed(pool, i);
        }
        if s.to_multiset() == pool.to_multiset() {
            assert(s.to_multiset().len() == s.len() && pool.to_multiset().len() == pool.len());
            assert(s.contains(s[0]));
            assert(pool.to_multiset().count(s[0]) > 0);
            assert(pool.contains(s[0]));
            let i = choose|i: int| 0 <= i < pool.len() && pool[i] == s[0];
            lemma_multiset_of_head(s);
            lemma_multiset_of_removed(pool, i);
            lemma_arrangements_contains(pool.remove(i), s.drop_first());
            assert(s.drop_first().to_multiset() =~= pool.remove(i).to_multiset());
        }
    }
}

/// The items of a sequence are its first and those behind it.
pub proof fn lemma_multiset_of_head<T>(s: Seq<T>)
    requires
        s.len() > 0,
    ensures
        s.to_multiset() == s.drop_first().to_multiset().insert(s[0]),
        s.drop_first().to_multiset() == s.to_multiset().remove(s[0]),
{
    lemma_multiset_of_removed(s, 0);
    assert(s.remove(0) =~= s.drop_first());
}

/// The items of a sequence are one of them and the others.
pub proof fn lemma_multiset_of_removed<T>(s: Seq<T>, i: int)
    requires
        0 <= i < s.len(),
    ensures
        s.to_multiset() == s.remove(i).to_multiset().insert(s[i]),
        s.remove(i).to_multiset() == s.to_multiset().remove(s[i]),
{
    broadcast use vstd::seq_lib::group_to_multiset_ensures;

    assert(s.contains(s[i]));
    assert(s.to_multiset().remove(s[i]).insert(s[i]) =~= s.to_multiset());
}

proof fn lemma_arrangements_from_no_duplicates<T>(pool: Seq<T>, k: nat, from: nat)
    requires
        pool.no_duplicates(),
        k > 0,
    ensures
        arrangements_from(pool, k, from).no_duplicates(),
    decreases k, pool.len() - from + 1,
{
    if from < pool.len() {
        let rest = pool.remove(from as int);
        assert(rest.no_duplicates());
        lemma_arrangements_no_duplicates(rest, (k - 1) as nat);
        let a = prefixed(pool[from as int], arrangements(rest, (k - 1) as nat));
        let b = arrangements_from(pool, k, from + 1);
        lemma_prefixed_no_duplicates(pool[from as int], arrangements(rest, (k - 1) as nat));
        lemma_arrangements_from_no_duplicates(pool, k, from + 1);
        assert forall|x: Seq<T>| a.contains(x) implies !b.contains(x) by {
            lemma_prefixed_contains(pool[from as int], arrangements(rest, (k - 1) as nat), x);
            lemma_arrangements_from_contains(pool, k, from + 1, x);
        }
        lemma_concat_no_duplicates(a, b);
    }
}

/// Where all items differ, no order comes twice.
pub proof fn lemma_arrangements_no_duplicates<T>(pool: Seq<T>, k: nat)
    requires
        pool.no_duplicates(),
    ensures
        arrangements(pool, k).no_duplicates(),
    decreases k, pool.len() + 2,
{
    if k > 0 {
        lemma_arrangements_from_no_duplicates(pool, k, 0);
    }
}

/// The items of `pool` at the positions of `order`.
pub open spec fn reordered<T>(pool: Seq<T>, order: Seq<usize>) -> Seq<T> {
    Seq::new(order.len(), |i: int| pool[order[i] as int])
}

/// `reordered` for each of `orders`.
pub open spec fn reordered_each<T>(pool: Seq<T>, orders: Seq<Seq<usize>>) -> Seq<Seq<T>> {
    Seq::new(orders.len(), |i: int| reordered(pool, orders[i]))
}

proof fn lemma_reordered_prefixed<T>(pool: Seq<T>, head: usize, tails: Seq<Seq<usize>>)
    ensures
        reordered_each(pool, prefixed(head, tails)) == prefixed(
            pool[head as int],
            reordered_each(pool, tails),
        ),
{
    let a = reordered_each(pool, prefixed(head, tails));
    let b = prefixed(pool[head as int], reordered_each(pool, tails));
    assert forall|i: int| 0 <= i < a.len() implies a[i] == b[i] by {
        assert(a[i] =~= b[i]);
    }
    assert(a =~= b);
}

proof fn lemma_arrangements_from_reordered<T>(pool: Seq<T>, order: Seq<usize>, k: nat, from: nat)
    requires
        k > 0,
    ensures
        arrangements_from(reordered(pool, order), k, from) == reordered_each(
            pool,
            arrangements_from(order, k, from),
        ),
    decreases k, order.len() - from + 1,
{
    let p = reordered(pool, order);
    if from < order.len() {
        let rest = order.remove(from as int);
        assert(p.remove(from as int) =~= reordered(pool, rest));
        lemma_arrangements_reordered(pool, rest, (k - 1) as nat);
        lemma_arrangements_from_reordered(pool, order, k, from + 1);
        let tails = arrangements(rest, (k - 1) as nat);
        lemma_reordered_prefixed(pool, order[from as int], tails);
        assert(reordered_each(
            pool,
            prefixed(order[from as int], tails) + arrangements_from(order, k, from + 1),
        ) =~= reordered_each(pool, prefixed(order[from as int], tails)) + reordered_each(
            pool,
            arrangements_from(order, k, from + 1),
        ));
    } else {
        assert(reordered_each(pool, arrangements_from(order, k, from)) =~= seq![]);
    }
}

/// To order reordered items is to order the positions that they were taken from.
pub proof fn lemma_arrangements_reordered<T>(pool: Seq<T>, order: Seq<usize>, k: nat)
    ensures
        arrangements(reordered(pool, order), k) == reordered_each(pool, arrangements(order, k)),
    decreases k, order.len() + 2,
{
    if k > 0 {
        lemma_arrangements_from_reordered(pool, order, k, 0);
    } else {
        assert(reordered_each(pool, arrangements(order, k))[0] =~= Seq::<T>::empty());
        assert(reordered_each(pool, arrangements(order, k)) =~= arrangements(
            reordered(pool, order),
            k,
        ));
    }
}

/// To order the items is to order their positions.
pub proof fn lemma_arrangements_by_position<T>(pool: Seq<T>)
    requires
        pool.len() <= usize::MAX,
    ensures
        arrangements(pool, pool.len()) == reordered_each(
            pool,
            arrangements(positions(pool.len()), pool.len()),
        ),
{
    assert(reordered(pool, positions(pool.len())) =~= pool);
    lemma_arrangements_reordered(pool, positions(pool.len()), pool.len());
}

/// The listing of selections holds exactly the increasing sequences.
pub proof fn lemma_selections_contains(lo: nat, n: nat, k: nat, s: Seq<usize>)
    requires
        n <= usize::MAX,
    ensures
        selections(lo, n, k).contains(s) <==> s.len() == k && increasing_within(s, lo, n),
    decreases n - lo,
{
    let all = selections(lo, n, k);
    if k == 0 {
        assert(all[0] =~= seq![]);
        if s.len() == 0 {
            assert(all[0] =~= s);
        }
    } else if lo >= n {
        if s.len() == k && increasing_within(s, lo, n) {
            assert(lo <= s[0] < n);
        }
    } else {
        let t = s.drop_first();
        let tails = selections(lo + 1, n, (k - 1) as nat);
        lemma_prefixed_contains(lo as usize, tails, s);
        lemma_concat_contains(prefixed(lo as usize, tails), selections(lo + 1, n, k), s);
        lemma_selections_contains(lo + 1, n, k, s);
        if s.len() > 0 {
            lemma_selections_contains(lo + 1, n, (k - 1) as nat, t);
            assert(s =~= seq![s[0]] + t);
            if prefixed(lo as usize, tails).contains(s) {
                assert forall|i: int, j: int| 0 <= i < j < s.len() implies #[trigger] s[i]
                    < #[trigger] s[j] by {
                    assert(s[j] == t[j - 1]);
                    if i > 0 {
                        assert(s[i] == t[i - 1]);
                    }
                }
                assert forall|i: int| 0 <= i < s.len() implies lo <= #[trigger] s[i] < n by {
                    if i > 0 {
                        assert(s[i] == t[i - 1]);
                    }
                }
            }
            if s.len() == k && increasing_within(s, lo, n) {
                assert(lo <= s[0]);
                if s[0] == lo {
                    assert forall|i: int| 0 <= i < t.len() implies lo + 1 <= #[trigger] t[i] < n by {
                        assert(t[i] == s[i + 1]);
                        assert(s[0] < s[i + 1]);
                    }
                    assert forall|i: int, j: int| 0 <= i < j < t.len() implies #[trigger] t[i]
                        < #[trigger] t[j] by {
                        assert(s[i + 1] < s[j + 1]);
                    }
                } else {
                    assert forall|i: int| 0 <= i < s.len() implies lo + 1 <= #[trigger] s[i] < n by {
                        if i > 0 {
                            assert(s[0] < s[i]);
                        }
                    }
                }
            }
        }
    }
}

/// No selection comes twice.
pub proof fn lemma_selections_no_duplicates(lo: nat, n: nat, k: nat)
    requires
        n <= usize::MAX,
    ensures
        selections(lo, n, k).no_duplicates(),
    decreases n - lo,
{
    if k > 0 && lo < n {
        let tails = selections(lo + 1, n, (k - 1) as nat);
        let a = prefixed(lo as usize, tails);
        let b = selections(lo + 1, n, k);
        lemma_selections_no_duplicates(lo + 1, n, (k - 1) as nat);
        lemma_selections_no_duplicates(lo + 1, n, k);
        lemma_prefixed_no_duplicates(lo as usize, tails);
        assert forall|x: Seq<usize>| a.contains(x) implies !b.contains(x) by {
            lemma_prefixed_contains(lo as usize, tails, x);
            lemma_selections_contains(lo + 1, n, k, x);
            if b.contains(x) {
                assert(lo + 1 <= x[0]);
            }
        }
        lemma_concat_no_duplicates(a, b);
    }
}

/// `s` holds each of the positions below `n` once.
pub open spec fn is_order(s: Seq<usize>, n: nat) -> bool {
    &&& s.len() == n
    &&& forall|i: int| 0 <= i < n ==> #[trigger] s[i] < n
    &&& s.no_duplicates()
}

/// Every listed order of `n` positions holds each of them once.
pub proof fn lemma_orders_in_range(n: nat)
    requires
        n <= usize::MAX,
    ensures
        forall|i: int|
            0 <= i < arrangements(positions(n), n).len() ==> is_order(
                #[trigger] arrangements(positions(n), n)[i],
                n,
            ),
{
    broadcast use vstd::seq_lib::group_to_multiset_ensures;

    let all = arrangements(positions(n), n);
    assert forall|i: int| 0 <= i < all.len() implies is_order(#[trigger] all[i], n) by {
        let s = all[i];
        assert(all.contains(s));
        assert(positions(n).len() == n);
        lemma_arrangements_contains(positions(n), s);
        assert(s.to_multiset().len() == s.len() && positions(n).to_multiset().len() == n);
        assert forall|j: int| 0 <= j < n implies #[trigger] s[j] < n by {
            assert(s.contains(s[j]));
            assert(s.to_multiset().count(s[j]) > 0);
            assert(positions(n).contains(s[j]));
        }
        assert(positions(n).no_duplicates());
        positions(n).lemma_multiset_has_no_duplicates();
        s.lemma_multiset_has_no_duplicates_conv();
    }
}

/// The positions below each of the counts.
pub open spec fn position_choices(counts: Seq<usize>) -> Seq<Seq<usize>> {
    Seq::new(counts.len(), |i: int| positions(counts[i] as nat))
}

/// `picked` for each of `list`.
pub open spec fn picked_each<T>(choices: Seq<Seq<T>>, list: Seq<Seq<usize>>) -> Seq<Seq<T>> {
    Seq::new(list.len(), |i: int| picked(choices, as_ints(list[i])))
}

proof fn lemma_picked_branches<T>(
    choices: Seq<Seq<T>>,
    heads: Seq<usize>,
    tails: Seq<Seq<usize>>,
)
    requires
        choices.len() > 0,
        forall|i: int| 0 <= i < tails.len() ==> (#[trigger] tails[i]).len() == choices.len() - 1,
    ensures
        picked_each(choices, branches(heads, tails)) == branches(
            reordered(choices[0], heads),
            picked_each(choices.drop_first(), tails),
        ),
    decreases heads.len(),
{
    let c = choices.drop_first();
    let picked_tails = picked_each(c, tails);
    if heads.len() == 0 {
        assert(picked_each(choices, branches(heads, tails)) =~= seq![]);
        assert(reordered(choices[0], heads) =~= seq![]);
    } else {
        lemma_picked_branches(choices, heads.drop_first(), tails);
        let names = reordered(choices[0], heads);
        assert(names.drop_first() =~= reordered(choices[0], heads.drop_first()));
        let a = prefixed(heads[0], tails);
        let b = branches(heads.drop_first(), tails);
        assert(picked_each(choices, a + b) =~= picked_each(choices, a) + picked_each(choices, b));
        let x = picked_each(choices, a);
        let y = prefixed(names[0], picked_tails);
        assert forall|i: int| 0 <= i < x.len() implies x[i] == y[i] by {
            assert(x[i].len() == choices.len());
            assert(y[i].len() == choices.len());
            assert forall|j: int| 0 <= j < choices.len() implies x[i][j] == y[i][j] by {
                if j > 0 {
                    assert(a[i][j] == tails[i][j - 1]);
                    assert(c[j - 1] == choices[j]);
                }
            }
            assert(x[i] =~= y[i]);
        }
        assert(x =~= y);
    }
}

/// To take one item of each choice is to take one position of each.
pub proof fn lemma_product_by_position<T>(choices: Seq<Seq<T>>, counts: Seq<usize>)
    requires
        counts.len() == choices.len(),
        forall|i: int| 0 <= i < counts.len() ==> #[trigger] counts[i] == choices[i].len(),
    ensures
        product(choices) == picked_each(choices, product(position_choices(counts))),
    decreases choices.len(),
{
    let p = position_choices(counts);
    if choices.len() == 0 {
        assert(picked_each(choices, product(p))[0] =~= Seq::<T>::empty());
        assert(picked_each(choices, product(p)) =~= product(choices));
    } else {
        let c = choices.drop_first();
        let n = counts.drop_first();
        assert forall|i: int| 0 <= i < n.len() implies #[trigger] n[i] == c[i].len() by {
            assert(counts[i + 1] == choices[i + 1].len());
        }
        lemma_product_by_position(c, n);
        assert(p.drop_first() =~= position_choices(n));
        let tails = product(position_choices(n));
        assert forall|i: int| 0 <= i < tails.len() implies (#[trigger] tails[i]).len()
            == choices.len() - 1 by {
            assert(tails.contains(tails[i]));
            lemma_product_contains(position_choices(n), tails[i]);
        }
        lemma_picked_branches(choices, p[0], tails);
        assert(counts[0] == choices[0].len());
        assert(reordered(choices[0], p[0]) =~= choices[0]);
    }
}

/// The positions that a product of positions takes are below the counts.
pub proof fn lemma_position_product(counts: Seq<usize>)
    ensures
        forall|i: int|
            #![trigger product(position_choices(counts))[i]]
            0 <= i < product(position_choices(counts)).len() ==> product(
                position_choices(counts),
            )[i].len() == counts.len() && forall|j: int|
                0 <= j < counts.len() ==> (#[trigger] product(position_choices(counts))[i][j])
                    < counts[j],
{
    let p = position_choices(counts);
    let all = product(p);
    assert forall|i: int| 0 <= i < all.len() implies (#[trigger] all[i]).len() == counts.len()
        && forall|j: int| 0 <= j < counts.len() ==> (#[trigger] all[i][j]) < counts[j] by {
        assert(all.contains(all[i]));
        lemma_product_contains(p, all[i]);
        assert forall|j: int| 0 <= j < counts.len() implies (#[trigger] all[i][j]) < counts[j] by {
            assert(p[j].contains(all[i][j]));
        }
    }
}

/// A flattened list holds what one of its sequences holds.
pub proof fn lemma_flatten_contains<T>(lists: Seq<Seq<T>>, x: T)
    ensures
        lists.flatten().contains(x) <==> exists|i: int|
            0 <= i < lists.len() && (#[trigger] lists[i]).contains(x),
    decreases lists.len(),
{
    if lists.len() > 0 {
        let rest = lists.drop_first();
        lemma_flatten_contains(rest, x);
        lemma_concat_contains(lists[0], rest.flatten(), x);
        assert(lists.flatten() =~= lists[0] + rest.flatten());
        if rest.flatten().contains(x) {
            let i = choose|i: int| 0 <= i < rest.len() && (#[trigger] rest[i]).contains(x);
            assert(lists[i + 1].contains(x));
        }
        if exists|i: int| 0 <= i < lists.len() && (#[trigger] lists[i]).contains(x) {
            let i = choose|i: int| 0 <= i < lists.len() && (#[trigger] lists[i]).contains(x);
            if i > 0 {
                assert(rest[i - 1].contains(x));
            }
        }
    }
}

/// Each of the positions below `n` once: these are the orders that are listed.
pub proof fn lemma_orders_contains(n: nat, s: Seq<usize>)
    requires
        n <= usize::MAX,
    ensures
        arrangements(positions(n), n).contains(s) <==> is_order(s, n),
{
    broadcast use vstd::seq_lib::group_to_multiset_ensures;

    let all = arrangements(positions(n), n);
    let p = positions(n);
    assert(p.len() == n);
    lemma_arrangements_contains(p, s);
    lemma_orders_in_range(n);
    if all.contains(s) {
        let i = choose|i: int| 0 <= i < all.len() && all[i] == s;
        assert(is_order(all[i], n));
    }
    if is_order(s, n) {
        assert(p.no_duplicates());
        s.unique_seq_to_set();
        p.unique_seq_to_set();
        assert(s.to_set().subset_of(p.to_set())) by {
            assert forall|x: usize| s.to_set().contains(x) implies p.to_set().contains(x) by {
                let i = choose|i: int| 0 <= i < s.len() && s[i] == x;
                assert(s[i] < n);
                assert(p[x as int] == x);
            }
        }
        vstd::set_lib::lemma_subset_equality(s.to_set(), p.to_set());
        s.lemma_multiset_has_no_duplicates();
        p.lemma_multiset_has_no_duplicates();
        assert forall|x: usize| s.to_multiset().count(x) == p.to_multiset().count(x) by {
            assert(s.to_set().contains(x) <==> p.to_set().contains(x));
            assert(s.contains(x) <==> s.to_multiset().count(x) > 0);
            assert(p.contains(x) <==> p.to_multiset().count(x) > 0);
            if s.contains(x) {
                assert(s.to_multiset().contains(x));
                assert(p.to_multiset().contains(x));
            }
        }
        assert(s.to_multiset() =~= p.to_multiset());
    }
}

/// An order of `n` positions holds each of them.
pub proof fn lemma_order_has(s: Seq<usize>, n: nat, x: usize)
    requires
        n <= usize::MAX,
        is_order(s, n),
        x < n,
    ensures
        s.contains(x),
{
    let p = positions(n);
    assert(p.len() == n);
    lemma_orders_contains(n, s);
    lemma_arrangements_contains(p, s);
    assert(p[x as int] == x);
    lemma_same_multiset_contains(p, s, x);
}

/// Listings that hold the same sequences equally often hold the same sequences.
pub proof fn lemma_same_multiset_contains<T>(a: Seq<T>, b: Seq<T>, x: T)
    requires
        a.to_multiset() == b.to_multiset(),
    ensures
        a.contains(x) <==> b.contains(x),
{
    broadcast use vstd::seq_lib::group_to_multiset_ensures;

    assert(a.contains(x) <==> a.to_multiset().count(x) > 0);
    assert(b.contains(x) <==> b.to_multiset().count(x) > 0);
}

/// The items of two sequences, put together.
pub proof fn lemma_concat_multiset<T>(a: Seq<T>, b: Seq<T>)
    ensures
        (a + b).to_multiset() == a.to_multiset().add(b.to_multiset()),
{
    vstd::seq_lib::lemma_multiset_commutative(a, b);
}

/// How often a sequence is listed behind a head is how often its tail is.
proof fn lemma_prefixed_count<T>(head: T, tails: Seq<Seq<T>>, s: Seq<T>)
    ensures
        prefixed(head, tails).to_multiset().count(s) == if s.len() > 0 && s[0] == head {
            tails.to_multiset().count(s.drop_first())
        } else {
            0nat
        },
    decreases tails.len(),
{
    broadcast use vstd::seq_lib::group_to_multiset_ensures;

    let all = prefixed(head, tails);
    if tails.len() == 0 {
        assert(!all.contains(s));
        assert(!tails.contains(s.drop_first()));
    } else {
        lemma_prefixed_count(head, tails.drop_first(), s);
        assert(all.drop_first() =~= prefixed(head, tails.drop_first()));
        lemma_multiset_of_head(all);
        lemma_multiset_of_head(tails);
        let first = seq![head] + tails[0];
        if s.len() > 0 && s[0] == head {
            assert(first == s <==> tails[0] == s.drop_first()) by {
                assert(first.drop_first() =~= tails[0]);
                if tails[0] == s.drop_first() {
                    assert(first =~= s);
                }
            }
        } else {
            assert(first.len() > 0 && first[0] == head);
        }
    }
}

/// What is listed behind a head depends on which tails there are, not on their order.
proof fn lemma_prefixed_multiset<T>(head: T, a: Seq<Seq<T>>, b: Seq<Seq<T>>)
    requires
        a.to_multiset() == b.to_multiset(),
    ensures
        prefixed(head, a).to_multiset() == prefixed(head, b).to_multiset(),
{
    assert forall|s: Seq<T>|
        prefixed(head, a).to_multiset().count(s) == prefixed(head, b).to_multiset().count(s) by {
        lemma_prefixed_count(head, a, s);
        lemma_prefixed_count(head, b, s);
    }
    assert(prefixed(head, a).to_multiset() =~= prefixed(head, b).to_multiset());
}

/// What is listed behind the heads depends on which tails there are, not on their order.
pub proof fn lemma_branches_multiset<T>(heads: Seq<T>, a: Seq<Seq<T>>, b: Seq<Seq<T>>)
    requires
        a.to_multiset() == b.to_multiset(),
    ensures
        branches(heads, a).to_multiset() == branches(heads, b).to_multiset(),
    decreases heads.len(),
{
    if heads.len() > 0 {
        lemma_prefixed_multiset(heads[0], a, b);
        lemma_branches_multiset(heads.drop_first(), a, b);
        lemma_concat_multiset(prefixed(heads[0], a), branches(heads.drop_first(), a));
        lemma_concat_multiset(prefixed(heads[0], b), branches(heads.drop_first(), b));
    }
}

/// The heads can be taken in two steps.
pub proof fn lemma_branches_concat<T>(a: Seq<T>, b: Seq<T>, tails: Seq<Seq<T>>)
    ensures
        branches(a + b, tails) == branches(a, tails) + branches(b, tails),
    decreases a.len(),
{
    if a.len() == 0 {
        assert(a + b =~= b);
        assert(branches(a, tails) + branches(b, tails) =~= branches(b, tails));
    } else {
        assert((a + b).drop_first() =~= a.drop_first() + b);
        lemma_branches_concat(a.drop_first(), b, tails);
        assert(branches(a + b, tails) =~= branches(a, tails) + branches(b, tails));
    }
}

/// The tails can be taken in two steps, if the order of the listing does not matter.
pub proof fn lemma_branches_of_concat<T>(heads: Seq<T>, a: Seq<Seq<T>>, b: Seq<Seq<T>>)
    ensures
        branches(heads, a + b).to_multiset() == branches(heads, a).to_multiset().add(
            branches(heads, b).to_multiset(),
        ),
    decreases heads.len(),
{
    if heads.len() == 0 {
        assert(Seq::<Seq<T>>::empty() + Seq::<Seq<T>>::empty() =~= Seq::<Seq<T>>::empty());
        lemma_concat_multiset(branches(heads, a), branches(heads, b));
    } else {
        let rest = heads.drop_first();
        let h = heads[0];
        lemma_branches_of_concat(rest, a, b);
        assert(prefixed(h, a + b) =~= prefixed(h, a) + prefixed(h, b));
        lemma_concat_multiset(prefixed(h, a), prefixed(h, b));
        lemma_concat_multiset(prefixed(h, a + b), branches(rest, a + b));
        lemma_concat_multiset(prefixed(h, a), branches(rest, a));
        lemma_concat_multiset(prefixed(h, b), branches(rest, b));
        assert(branches(heads, a + b).to_multiset() =~= branches(heads, a).to_multiset().add(
            branches(heads, b).to_multiset(),
        ));
    }
}

/// What is listed behind heads depends on which heads there are, not on their order.
pub proof fn lemma_branches_heads_multiset<T>(a: Seq<T>, b: Seq<T>, tails: Seq<Seq<T>>)
    requires
        a.to_multiset() == b.to_multiset(),
    ensures
        branches(a, tails).to_multiset() == branches(b, tails).to_multiset(),
    decreases a.len(),
{
    broadcast use vstd::seq_lib::group_to_multiset_ensures;

    assert(a.to_multiset().len() == a.len() && b.to_multiset().len() == b.len());
    if a.len() == 0 {
        assert(a =~= b);
    } else {
        assert(a.contains(a[0]));
        lemma_same_multiset_contains(a, b, a[0]);
        let i = choose|i: int| 0 <= i < b.len() && b[i] == a[0];
        lemma_multiset_of_removed(a, 0);
        lemma_multiset_of_removed(b, i);
        lemma_branches_heads_multiset(a.remove(0), b.remove(i), tails);
        assert(a.remove(0) =~= a.drop_first());
        lemma_concat_multiset(prefixed(a[0], tails), branches(a.drop_first(), tails));
        let x = b.take(i);
        let y = b.skip(i);
        assert(b =~= x + y);
        assert(b.remove(i) =~= x + y.drop_first());
        lemma_branches_concat(x, y, tails);
        lemma_branches_concat(x, y.drop_first(), tails);
        lemma_concat_multiset(branches(x, tails), branches(y, tails));
        lemma_concat_multiset(branches(x, tails), branches(y.drop_first(), tails));
        lemma_concat_multiset(prefixed(y[0], tails), branches(y.drop_first(), tails));
        assert(branches(a, tails).to_multiset() =~= branches(b, tails).to_multiset());
    }
}

/// A product depends on what each choice holds, not on the order in it.
pub proof fn lemma_product_multiset<T>(a: Seq<Seq<T>>, b: Seq<Seq<T>>)
    requires
        a.len() == b.len(),
        forall|i: int| 0 <= i < a.len() ==> (#[trigger] a[i]).to_multiset() == b[i].to_multiset(),
    ensures
        product(a).to_multiset() == product(b).to_multiset(),
    decreases a.len(),
{
    if a.len() > 0 {
        let x = a.drop_first();
        let y = b.drop_first();
        assert forall|i: int| 0 <= i < x.len() implies (#[trigger] x[i]).to_multiset()
            == y[i].to_multiset() by {
            assert(a[i + 1].to_multiset() == b[i + 1].to_multiset());
        }
        lemma_product_multiset(x, y);
        lemma_branches_multiset(a[0], product(x), product(y));
        assert(a[0].to_multiset() == b[0].to_multiset());
        lemma_branches_heads_multiset(a[0], b[0], product(y));
    }
}

/// A flattened list depends on which sequences it has, not on their order.
pub proof fn lemma_flatten_multiset<T>(a: Seq<Seq<T>>, b: Seq<Seq<T>>)
    requires
        a.to_multiset() == b.to_multiset(),
    ensures
        a.flatten().to_multiset() == b.flatten().to_multiset(),
    decreases a.len(),
{
    broadcast use vstd::seq_lib::group_to_multiset_ensures;

    assert(a.to_multiset().len() == a.len() && b.to_multiset().len() == b.len());
    if a.len() == 0 {
        assert(a =~= b);
    } else {
        assert(a.contains(a[0]));
        lemma_same_multiset_contains(a, b, a[0]);
        let i = choose|i: int| 0 <= i < b.len() && b[i] == a[0];
        lemma_multiset_of_removed(a, 0);
        lemma_multiset_of_removed(b, i);
        lemma_flatten_multiset(a.remove(0), b.remove(i));
        lemma_flatten_removed(a, 0);
        lemma_flatten_removed(b, i);
    }
}

proof fn lemma_flatten_removed<T>(a: Seq<Seq<T>>, i: int)
    requires
        0 <= i < a.len(),
    ensures
        a.flatten().to_multiset() == a[i].to_multiset().add(a.remove(i).flatten().to_multiset()),
{
    let x = a.take(i);
    let y = a.skip(i + 1);
    assert(a =~= x.push(a[i]) + y);
    assert(a.remove(i) =~= x + y);
    vstd::seq_lib::lemma_flatten_concat(x.push(a[i]), y);
    vstd::seq_lib::lemma_flatten_concat(x, y);
    x.lemma_flatten_push(a[i]);
    lemma_concat_multiset(x.flatten() + a[i], y.flatten());
    lemma_concat_multiset(x.flatten(), a[i]);
    lemma_concat_multiset(x.flatten(), y.flatten());
    assert(a.flatten().to_multiset() =~= a[i].to_multiset().add(
        a.remove(i).flatten().to_multiset(),
    ));
}

/// Sequences that hold the same items, each once, hold them equally often.
pub proof fn lemma_same_items_multiset<T>(a: Seq<T>, b: Seq<T>)
    requires
        a.no_duplicates(),
        b.no_duplicates(),
        forall|x: T| a.contains(x) <==> b.contains(x),
    ensures
        a.to_multiset() == b.to_multiset(),
{
    broadcast use vstd::seq_lib::group_to_multiset_ensures;

    a.lemma_multiset_has_no_duplicates();
    b.lemma_multiset_has_no_duplicates();
    assert forall|x: T| a.to_multiset().count(x) == b.to_multiset().count(x) by {
        assert(a.contains(x) <==> a.to_multiset().count(x) > 0);
        assert(b.contains(x) <==> b.to_multiset().count(x) > 0);
        if a.contains(x) {
            assert(a.to_multiset().contains(x));
            assert(b.to_multiset().contains(x));
        }
    }
    assert(a.to_multiset() =~= b.to_multiset());
}

/// A listing behind heads goes through all tails for one head before it takes the next.
pub proof fn lemma_branches_index<T>(heads: Seq<T>, tails: Seq<Seq<T>>, i: int, j: int)
    requires
        0 <= i < heads.len(),
        0 <= j < tails.len(),
    ensures
        0 <= i * tails.len() + j < branches(heads, tails).len(),
        branches(heads, tails)[i * tails.len() + j] == seq![heads[i]] + tails[j],
    decreases i,
{
    let rest = heads.drop_first();
    let n = tails.len() as int;
    lemma_branches_len(rest, tails);
    lemma_branches_len(heads, tails);
    if i == 0 {
        assert(0 * n == 0);
    } else {
        lemma_branches_index(rest, tails, i - 1, j);
        assert(i * n == n + (i - 1) * n) by (nonlinear_arith);
        assert((i - 1) * n >= 0) by (nonlinear_arith)
            requires
                i >= 1,
                n >= 0,
        ;
    }
}

/// `a` comes before `b` in lexicographic order: they are alike up to a place, and there `a` has the
/// smaller number.
pub open spec fn precedes(a: Seq<u16>, b: Seq<u16>) -> bool {
    exists|p: int|
        0 <= p < a.len() && p < b.len() && (#[trigger] a[p]) < b[p] && forall|q: int|
            0 <= q < p ==> (#[trigger] a[q]) == b[q]
}

/// What vectors hold is what each of them holds.
pub proof fn lemma_contents<T>(list: Seq<Vec<T>>, v: Vec<T>)
    ensures
        contents(list).len() == list.len(),
        forall|i: int| 0 <= i < list.len() ==> (#[trigger] contents(list)[i]) == list[i]@,
        content(Some(v)) == Some(v@),
        content(None::<Vec<T>>) is None,
{
}

} // verus!
