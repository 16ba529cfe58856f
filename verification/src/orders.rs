//! Orders, selections and products of positions, handed out one at a time by the `itertools` crate.

use itertools::Itertools;
use vstd::prelude::*;

use crate::sequences;

verus! {

#[verifier::external_type_specification]
#[verifier::external_body]
#[verifier::reject_recursive_types(I)]
pub struct ExPermutations<I: Iterator>(itertools::Permutations<I>);

#[verifier::external_type_specification]
#[verifier::external_body]
#[verifier::reject_recursive_types(I)]
pub struct ExCombinations<I: Iterator>(itertools::Combinations<I>);

#[verifier::external_type_specification]
#[verifier::external_body]
#[verifier::reject_recursive_types(I)]
pub struct ExMultiProduct<I>(itertools::MultiProduct<I>) where I: Iterator + Clone, I::Item: Clone;

/// The orders that `p` has still to hand out.
pub uninterp spec fn orders_left(p: itertools::Permutations<std::ops::Range<usize>>) -> Seq<
    Seq<usize>,
>;

/// The selections that `c` has still to hand out.
pub uninterp spec fn selections_left(c: itertools::Combinations<std::ops::Range<usize>>) -> Seq<
    Seq<usize>,
>;

/// The sequences that `p` has still to hand out.
pub uninterp spec fn products_left(p: itertools::MultiProduct<std::ops::Range<usize>>) -> Seq<
    Seq<usize>,
>;

/// `Itertools::permutations` on `0..n`: it hands out all `k`-permutations, in lexicographic order.
#[verifier::external_body]
pub(crate) fn permutations(n: usize, k: usize) -> (p: itertools::Permutations<
    std::ops::Range<usize>,
>)
    ensures
        orders_left(p) == sequences::arrangements(sequences::positions(n as nat), k as nat),
{
    (0..n).permutations(k)
}

/// `Iterator::next` of `itertools::Permutations`: it hands out the first order that is left, and
/// `None` again and again when none is left.
#[verifier::external_body]
pub(crate) fn next_permutation(
    p: &mut itertools::Permutations<std::ops::Range<usize>>,
) -> (order: Option<Vec<usize>>)
    ensures
        sequences::takes_first(
            orders_left(*old(p)),
            sequences::content(order),
            orders_left(*final(p)),
        ),
{
    p.next()
}

/// `Itertools::combinations` on `0..n`: it hands out all `k`-selections, in lexicographic order.
#[verifier::external_body]
pub(crate) fn combinations(n: usize, k: usize) -> (c: itertools::Combinations<
    std::ops::Range<usize>,
>)
    ensures
        selections_left(c) == sequences::selections(0, n as nat, k as nat),
{
    (0..n).combinations(k)
}

/// `Iterator::next` of `itertools::Combinations`: it hands out the first selection that is left,
/// and `None` again and again when none is left.
#[verifier::external_body]
pub(crate) fn next_combination(
    c: &mut itertools::Combinations<std::ops::Range<usize>>,
) -> (selection: Option<Vec<usize>>)
    ensures
        sequences::takes_first(
            selections_left(*old(c)),
            sequences::content(selection),
            selections_left(*final(c)),
        ),
{
    c.next()
}

/// `Itertools::multi_cartesian_product` of `0..n` for each count `n`: it hands out all sequences
/// that take one number of each, in lexicographic order, the last changing fastest. Of no counts
/// there is the one empty sequence.
#[verifier::external_body]
pub(crate) fn position_product(counts: &Vec<usize>) -> (p: itertools::MultiProduct<
    std::ops::Range<usize>,
>)
    ensures
        products_left(p) == sequences::product(sequences::position_choices(counts@)),
{
    counts.iter().map(|&n| 0..n).multi_cartesian_product()
}

/// `Iterator::next` of `itertools::MultiProduct`: it hands out the first sequence that is left,
/// and `None` again and again when none is left.
#[verifier::external_body]
pub(crate) fn next_product(
    p: &mut itertools::MultiProduct<std::ops::Range<usize>>,
) -> (at: Option<Vec<usize>>)
    ensures
        sequences::takes_first(
            products_left(*old(p)),
            sequences::content(at),
            products_left(*final(p)),
        ),
{
    p.next()
}

} // verus!
