//! Permutations with replacement: every way to fill `k` places from one pool of items.

use vstd::prelude::*;

use crate::sequences;

verus! {

/// Hands out the `k`-sequences over a pool one at a time, in lexicographic order.
pub struct PermWithReplacement<T> {
    pool: Vec<T>,
    indices: Vec<usize>,
    k: usize,
    first: bool,
    done: bool,
}

/// The choices of `k` places that are all filled from `pool`.
pub open spec fn same_choices<T>(pool: Seq<T>, k: nat) -> Seq<Seq<T>> {
    Seq::new(k, |i: int| pool)
}

/// The listing of all `k`-sequences over `pool`, in lexicographic order.
pub open spec fn tuples<T>(pool: Seq<T>, k: nat) -> Seq<Seq<T>> {
    sequences::product(same_choices(pool, k))
}

impl<T> PermWithReplacement<T> {
    spec fn cursor(&self) -> Seq<int> {
        sequences::as_ints(self.indices@)
    }

    spec fn choices(&self) -> Seq<Seq<T>> {
        same_choices(self.pool@, self.k as nat)
    }

    /// The cursor points into the pool.
    pub closed spec fn wf(&self) -> bool {
        self.done || self.k == 0 || sequences::points_into(self.choices(), self.cursor())
    }

    /// The sequences that are still to be handed out.
    pub closed spec fn left(&self) -> Seq<Seq<T>> {
        if self.done {
            seq![]
        } else if self.k == 0 {
            seq![seq![]]
        } else if self.first {
            sequences::product_from(self.choices(), self.cursor())
        } else {
            sequences::product_from(self.choices(), self.cursor()).drop_first()
        }
    }
}

/// Starts with the first of all `k`-sequences over `pool`. There is one empty sequence, also over
/// an empty pool.
pub fn permutations_with_replacement<T: Copy>(
    pool: Vec<T>,
    k: usize,
) -> (it: PermWithReplacement<T>)
    ensures
        it.wf(),
        it.left() == tuples(pool@, k as nat),
{
    let n: usize = pool.len();
    if k == 0 || n == 0 {
        let it = PermWithReplacement { pool, indices: Vec::new(), k, first: true, done: k != 0 };
        proof {
            let choices = same_choices(pool@, k as nat);
            if k != 0 {
                assert(choices[0].len() == 0);
                assert(it.left() =~= sequences::product(choices));
            } else {
                assert(it.left() =~= sequences::product(choices));
            }
        }
        return it;
    }
    let mut indices: Vec<usize> = Vec::new();
    let mut i: usize = 0;
    while i < k
        invariant
            i <= k,
            indices@.len() == i,
            forall|j: int| 0 <= j < i ==> indices@[j] == 0,
        decreases k - i,
    {
        indices.push(0);
        i = i + 1;
    }
    let it = PermWithReplacement { pool, indices, k, first: true, done: false };
    proof {
        assert forall|j: int| 0 <= j < it.cursor().len() implies 0 <= #[trigger] it.cursor()[j]
            < it.choices()[j].len() && it.cursor()[j] == 0 by {}
        sequences::lemma_product_from_start(it.choices(), it.cursor());
    }
    it
}

impl<T: Copy> PermWithReplacement<T> {
    /// The items under the cursor.
    fn current(&self) -> (items: Vec<T>)
        requires
            sequences::points_into(self.choices(), self.cursor()),
        ensures
            items@ == sequences::picked(self.choices(), self.cursor()),
    {
        let mut items: Vec<T> = Vec::new();
        let mut i: usize = 0;
        while i < self.indices.len()
            invariant
                i <= self.indices.len(),
                items@.len() == i,
                sequences::points_into(self.choices(), self.cursor()),
                forall|j: int|
                    0 <= j < i ==> items@[j] == sequences::picked(
                        self.choices(),
                        self.cursor(),
                    )[j],
            decreases self.indices.len() - i,
        {
            assert(0 <= self.cursor()[i as int] < self.choices()[i as int].len());
            items.push(self.pool[self.indices[i]]);
            i = i + 1;
        }
        assert(items@ =~= sequences::picked(self.choices(), self.cursor()));
        items
    }

    /// Hands out the next sequence, or `None` when all have been handed out.
    pub fn next(&mut self) -> (given: Option<Vec<T>>)
        requires
            old(self).wf(),
        ensures
            final(self).wf(),
            sequences::takes_first(
                old(self).left(),
                sequences::content(given),
                final(self).left(),
            ),
    {
        if self.done {
            return None;
        }
        if self.k == 0 {
            self.done = true;
            assert(old(self).left().drop_first() =~= self.left());
            return Some(Vec::new());
        }
        proof {
            sequences::lemma_product_from_first(self.choices(), self.cursor());
        }
        if self.first {
            self.first = false;
            return Some(self.current());
        }
        let n: usize = self.pool.len();
        let ghost choices = self.choices();
        let ghost at = self.cursor();
        let mut pos: usize = self.k;
        assert(0 <= at[0] < choices[0].len());
        while pos > 0 && self.indices[pos - 1] == n - 1
            invariant
                pos <= self.k,
                self.k == old(self).k,
                self.pool == old(self).pool,
                self.first == old(self).first,
                self.done == old(self).done,
                n == self.pool@.len(),
                n > 0,
                at == old(self).cursor(),
                choices == old(self).choices(),
                sequences::points_into(choices, at),
                self.indices@.len() == self.k,
                forall|i: int| 0 <= i < pos ==> #[trigger] self.indices@[i] == at[i],
                forall|i: int| pos <= i < self.k ==> #[trigger] self.indices@[i] == 0,
                forall|i: int| pos <= i < self.k ==> #[trigger] at[i] + 1 == n,
            decreases pos,
        {
            self.indices[pos - 1] = 0;
            pos = pos - 1;
        }
        if pos == 0 {
            self.done = true;
            proof {
                sequences::lemma_product_from_last(choices, at);
                assert(old(self).left() =~= seq![]);
                assert(self.left() =~= seq![]);
            }
            return None;
        }
        let p: usize = pos - 1;
        assert(0 <= at[p as int] < choices[p as int].len());
        self.indices[p] = self.indices[p] + 1;
        proof {
            assert(sequences::can_step(choices, at, p as int));
            assert(self.choices() == choices);
            assert(self.cursor() =~= sequences::stepped(at, p as int));
            sequences::lemma_product_from_step(choices, at, p as int);
            sequences::lemma_product_from_first(choices, self.cursor());
        }
        Some(self.current())
    }
}

/// Over a pool there are exactly the sequences of the given length whose items are all of the pool.
pub proof fn lemma_tuples_contains<T>(pool: Seq<T>, k: nat, s: Seq<T>)
    ensures
        tuples(pool, k).contains(s) <==> s.len() == k && forall|i: int|
            0 <= i < s.len() ==> pool.contains(#[trigger] s[i]),
{
    let choices = same_choices(pool, k);
    sequences::lemma_product_contains(choices, s);
    if tuples(pool, k).contains(s) {
        assert forall|i: int| 0 <= i < s.len() implies pool.contains(#[trigger] s[i]) by {
            assert(choices[i].contains(s[i]));
        }
    }
}

/// There are as many of them as the pool has items, to the power of the length.
pub proof fn lemma_tuples_len<T>(pool: Seq<T>, k: nat)
    ensures
        tuples(pool, k).len() == sequences::power(pool.len(), k),
{
    sequences::lemma_product_len(same_choices(pool, k), pool.len());
}

/// If the pool holds nothing twice, none of them comes twice.
pub proof fn lemma_tuples_no_duplicates<T>(pool: Seq<T>, k: nat)
    requires
        pool.no_duplicates(),
    ensures
        tuples(pool, k).no_duplicates(),
{
    sequences::lemma_product_no_duplicates(same_choices(pool, k));
}

/// They come in the order of the pool, the last place changing fastest.
pub proof fn lemma_tuples_order<T>(pool: Seq<T>, k: nat, i: int, j: int)
    requires
        0 <= i < pool.len(),
        0 <= j < tuples(pool, k).len(),
    ensures
        tuples(pool, 0) == seq![Seq::<T>::empty()],
        0 <= i * tuples(pool, k).len() + j < tuples(pool, k + 1).len(),
        tuples(pool, k + 1)[i * tuples(pool, k).len() + j] == seq![pool[i]] + tuples(pool, k)[j],
{
    let choices = same_choices(pool, k + 1);
    assert(choices.drop_first() =~= same_choices(pool, k));
    sequences::lemma_branches_index(pool, tuples(pool, k), i, j);
    assert(tuples(pool, 0) =~= seq![Seq::<T>::empty()]);
}

/// Over the numbers from zero on they come in lexicographic order.
pub proof fn lemma_tuples_lexicographic(n: nat, k: nat, i: int, j: int)
    requires
        n <= 65536,
        0 <= i < j < tuples(Seq::new(n, |x: int| x as u16), k).len(),
    ensures
        sequences::precedes(
            tuples(Seq::new(n, |x: int| x as u16), k)[i],
            tuples(Seq::new(n, |x: int| x as u16), k)[j],
        ),
    decreases k,
{
    let pool = Seq::new(n, |x: int| x as u16);
    let all = tuples(pool, k);
    if k == 0 {
        assert(all.len() == 1);
    } else {
        let l = (k - 1) as nat;
        let tails = tuples(pool, l);
        let m = tails.len() as int;
        lemma_tuples_len(pool, k);
        lemma_tuples_len(pool, l);
        assert(all.len() == n * m);
        if m == 0 {
            assert(n * m == 0) by (nonlinear_arith)
                requires
                    m == 0,
            ;
        }
        let a = i / m;
        let c = i % m;
        let b = j / m;
        let d = j % m;
        vstd::arithmetic::div_mod::lemma_fundamental_div_mod(i, m);
        vstd::arithmetic::div_mod::lemma_fundamental_div_mod(j, m);
        assert(m * a == a * m && m * b == b * m) by (nonlinear_arith);
        assert(0 <= a <= b < n) by (nonlinear_arith)
            requires
                m > 0,
                0 <= i < j < n * m,
                a == i / m,
                b == j / m,
        ;
        lemma_tuples_order(pool, l, a, c);
        lemma_tuples_order(pool, l, b, d);
        assert(all[i] == seq![pool[a]] + tails[c]);
        assert(all[j] == seq![pool[b]] + tails[d]);
        if a < b {
            assert(all[i][0] < all[j][0]);
        } else {
            assert(c < d);
            lemma_tuples_lexicographic(n, l, c, d);
            let x = tails[c];
            let y = tails[d];
            let p = choose|p: int|
                0 <= p < x.len() && p < y.len() && (#[trigger] x[p]) < y[p] && forall|q: int|
                    0 <= q < p ==> (#[trigger] x[q]) == y[q];
            assert(all[i][p + 1] < all[j][p + 1]);
            assert forall|q: int| 0 <= q < p + 1 implies (#[trigger] all[i][q]) == all[j][q] by {
                if q > 0 {
                    assert(x[q - 1] == y[q - 1]);
                }
            }
        }
    }
}

} // verus!
