//! Phrases one at a time: only the cursor and the candidates of the slots are held in memory.

use vstd::prelude::*;

use crate::candidates;
use crate::phrases;
use crate::sequences;
use crate::tokenlist;
use crate::tokenlist::Slot;

verus! {

/// Hands out all phrases of 12 words that the chosen slots can stand for, without collecting them.
pub struct LazyPhraseIter {
    // the candidates, by slot and alternative
    slot_alts: Vec<Vec<Vec<Vec<u16>>>>,
    // the cursor: an alternative and one of its candidates, by slot
    alt_idx: Vec<usize>,
    cand_idx: Vec<usize>,
    // the orders of the slots, and the one that is being tried
    slot_orders: Vec<Vec<usize>>,
    order_pos: usize,
    done: bool,
    first: bool,
}

/// The place of a candidate among all candidates of its slot.
spec fn flat(row: Seq<Seq<Seq<u16>>>, a: int, c: int) -> int {
    row.take(a).flatten().len() + c
}

proof fn lemma_flat(row: Seq<Seq<Seq<u16>>>, a: int, c: int)
    requires
        0 <= a < row.len(),
        0 <= c < row[a].len(),
    ensures
        0 <= flat(row, a, c) < row.flatten().len(),
        row.flatten()[flat(row, a, c)] == row[a][c],
{
    let rest = row.skip(a);
    assert(row =~= row.take(a) + rest);
    vstd::seq_lib::lemma_flatten_concat(row.take(a), rest);
    assert(rest.flatten() =~= rest[0] + rest.drop_first().flatten());
}

proof fn lemma_flat_next(row: Seq<Seq<Seq<u16>>>, a: int)
    requires
        0 <= a < row.len(),
    ensures
        flat(row, a, row[a].len() as int) == flat(row, a + 1, 0),
        a + 1 == row.len() ==> flat(row, a + 1, 0) == row.flatten().len(),
{
    assert(row.take(a + 1) =~= row.take(a).push(row[a]));
    row.take(a).lemma_flatten_push(row[a]);
    if a + 1 == row.len() {
        assert(row.take(a + 1) =~= row);
    }
}

impl LazyPhraseIter {
    spec fn table(&self) -> Seq<Seq<Seq<Seq<u16>>>> {
        phrases::table_view(self.slot_alts@)
    }

    spec fn orders(&self) -> Seq<Seq<usize>> {
        sequences::contents(self.slot_orders@)
    }

    /// The cursor, slot by slot in the given order.
    spec fn cursor(&self, order: Seq<usize>) -> Seq<int> {
        Seq::new(
            order.len(),
            |j: int|
                flat(
                    self.table()[order[j] as int],
                    self.alt_idx@[order[j] as int] as int,
                    self.cand_idx@[order[j] as int] as int,
                ),
        )
    }

    /// The cursor points at a candidate of each slot.
    spec fn points(&self) -> bool {
        &&& self.alt_idx@.len() == self.slot_alts@.len()
        &&& self.cand_idx@.len() == self.slot_alts@.len()
        &&& forall|s: int|
            0 <= s < self.slot_alts@.len() ==> (#[trigger] self.alt_idx@[s])
                < self.slot_alts@[s]@.len()
        &&& forall|s: int|
            0 <= s < self.slot_alts@.len() ==> (#[trigger] self.cand_idx@[s])
                < self.slot_alts@[s]@[self.alt_idx@[s] as int]@.len()
    }

    /// The cursor points at candidates, and every order holds each slot once.
    pub closed spec fn wf(&self) -> bool {
        self.done || {
            &&& self.points()
            &&& phrases::has_candidates(self.table())
            &&& self.order_pos <= self.slot_orders@.len()
            &&& forall|i: int|
                0 <= i < self.slot_orders@.len() ==> sequences::is_order(
                    #[trigger] self.slot_orders@[i]@,
                    self.slot_alts@.len(),
                )
        }
    }

    /// What is left for one order: everything from the cursor on.
    spec fn left_in_order(&self, order: Seq<usize>) -> Seq<Seq<Seq<u16>>> {
        let all = sequences::product_from(
            phrases::order_choices(self.table(), order),
            self.cursor(order),
        );
        if self.first {
            all
        } else {
            all.drop_first()
        }
    }

    /// The phrases that are still to be handed out.
    pub closed spec fn left(&self) -> Seq<Seq<u16>> {
        if self.done || self.order_pos >= self.slot_orders@.len() {
            seq![]
        } else {
            phrases::full_phrases(
                phrases::joined_each(self.left_in_order(self.orders()[self.order_pos as int])),
            ) + phrases::phrases_in_orders(self.table(), self.orders().skip(self.order_pos + 1))
        }
    }

    /// The cursor of an order points into the choices of that order.
    proof fn lemma_cursor(&self, order: Seq<usize>)
        requires
            self.points(),
            sequences::is_order(order, self.slot_alts@.len()),
        ensures
            sequences::points_into(
                phrases::order_choices(self.table(), order),
                self.cursor(order),
            ),
            forall|j: int|
                0 <= j < order.len() ==> sequences::picked(
                    phrases::order_choices(self.table(), order),
                    self.cursor(order),
                )[j] == #[trigger] self.part(order, j),
    {
        let choices = phrases::order_choices(self.table(), order);
        let at = self.cursor(order);
        assert forall|j: int| 0 <= j < order.len() implies 0 <= #[trigger] at[j] < choices[j].len()
            && choices[j][at[j]] == self.part(order, j) by {
            let s = order[j] as int;
            assert(self.alt_idx@[s] < self.slot_alts@[s]@.len());
            assert(self.cand_idx@[s] < self.slot_alts@[s]@[self.alt_idx@[s] as int]@.len());
            lemma_flat(self.table()[s], self.alt_idx@[s] as int, self.cand_idx@[s] as int);
        }
    }

    /// The candidate under the cursor of the slot at place `j` of the order.
    spec fn part(&self, order: Seq<usize>, j: int) -> Seq<u16> {
        let s = order[j] as int;
        self.slot_alts@[s]@[self.alt_idx@[s] as int]@[self.cand_idx@[s] as int]@
    }

    /// Starts with the first phrase.
    ///
    /// The word list is no longer than indices go. Every known word is in it, every slot has an
    /// alternative, and where a word is missing there are words to fill it with.
    pub fn new(
        chosen_slots: &[&Slot],
        keep_token_order: bool,
        keep_word_order: bool,
        wordlist: &Vec<String>,
    ) -> (it: Self)
        requires
            wordlist@.len() <= candidates::MAX_WORDS,
            phrases::all_known(
                phrases::chosen_view(chosen_slots@),
                tokenlist::texts(wordlist@),
            ),
            phrases::expandable(
                phrases::chosen_view(chosen_slots@),
                tokenlist::texts(wordlist@),
            ),
        ensures
            it.wf(),
            it.left() == phrases::phrases_in_orders(
                phrases::table_of(
                    phrases::chosen_view(chosen_slots@),
                    tokenlist::texts(wordlist@),
                    keep_word_order,
                ),
                phrases::slot_orders(chosen_slots@.len(), keep_token_order),
            ),
    {
        let n: usize = chosen_slots.len();
        let slot_alts = phrases::expand_slots(chosen_slots, keep_word_order, wordlist);
        let slot_orders = phrases::list_slot_orders(n, keep_token_order || n <= 1);
        proof {
            if n <= 1 {
                phrases::lemma_one_order(n as nat);
            }
            assert(phrases::table_view(slot_alts@).len() == n);
        }
        let mut alt_idx: Vec<usize> = Vec::new();
        let mut cand_idx: Vec<usize> = Vec::new();
        let mut i: usize = 0;
        while i < n
            invariant
                i <= n,
                alt_idx@.len() == i,
                cand_idx@.len() == i,
                forall|j: int| 0 <= j < i ==> #[trigger] alt_idx@[j] == 0,
                forall|j: int| 0 <= j < i ==> #[trigger] cand_idx@[j] == 0,
            decreases n - i,
        {
            alt_idx.push(0);
            cand_idx.push(0);
            i = i + 1;
        }
        let it = LazyPhraseIter {
            slot_alts,
            alt_idx,
            cand_idx,
            slot_orders,
            order_pos: 0,
            done: n == 0,
            first: true,
        };
        proof {
            let table = phrases::table_of(
                phrases::chosen_view(chosen_slots@),
                tokenlist::texts(wordlist@),
                keep_word_order,
            );
            assert(it.table() == table);
            phrases::lemma_expandable(
                phrases::chosen_view(chosen_slots@),
                tokenlist::texts(wordlist@),
                keep_word_order,
            );
            if n == 0 {
                lemma_no_slots(table, it.orders());
            } else {
                it.lemma_zero_points();
                it.lemma_start_of_order();
                assert(it.orders().skip(0) =~= it.orders());
            }
        }
        it
    }

    /// A cursor at zero points at the first candidate of each slot.
    proof fn lemma_zero_points(&self)
        requires
            phrases::has_candidates(self.table()),
            self.alt_idx@.len() == self.slot_alts@.len(),
            self.cand_idx@.len() == self.slot_alts@.len(),
            forall|s: int| 0 <= s < self.alt_idx@.len() ==> #[trigger] self.alt_idx@[s] == 0,
            forall|s: int| 0 <= s < self.cand_idx@.len() ==> #[trigger] self.cand_idx@[s] == 0,
        ensures
            self.points(),
    {
        assert forall|s: int| 0 <= s < self.slot_alts@.len() implies (#[trigger] self.alt_idx@[s])
            < self.slot_alts@[s]@.len() && self.cand_idx@[s]
            < self.slot_alts@[s]@[self.alt_idx@[s] as int]@.len() by {
            assert(self.table()[s].len() > 0);
            assert(self.table()[s][0].len() > 0);
            assert(self.cand_idx@[s] == 0);
        }
        assert forall|s: int| 0 <= s < self.slot_alts@.len() implies (#[trigger] self.cand_idx@[s])
            < self.slot_alts@[s]@[self.alt_idx@[s] as int]@.len() by {
            assert(self.alt_idx@[s] == 0);
        }
    }

    /// At the start of an order all its phrases, and those of the orders behind it, are left.
    proof fn lemma_start_of_order(&self)
        requires
            self.wf(),
            !self.done,
            self.first,
            forall|s: int| 0 <= s < self.alt_idx@.len() ==> #[trigger] self.alt_idx@[s] == 0,
            forall|s: int| 0 <= s < self.cand_idx@.len() ==> #[trigger] self.cand_idx@[s] == 0,
        ensures
            self.left() == phrases::phrases_in_orders(
                self.table(),
                self.orders().skip(self.order_pos as int),
            ),
    {
        if self.order_pos < self.slot_orders@.len() {
            let rest = self.orders().skip(self.order_pos as int);
            let order = rest[0];
            assert(order == self.slot_orders@[self.order_pos as int]@);
            assert(sequences::is_order(order, self.slot_alts@.len()));
            self.lemma_cursor(order);
            let at = self.cursor(order);
            assert forall|j: int| 0 <= j < at.len() implies #[trigger] at[j] == 0 by {
                let s = order[j] as int;
                assert(self.alt_idx@[s] == 0);
                assert(self.cand_idx@[s] == 0);
                assert(self.table()[s].take(0) =~= seq![]);
            }
            sequences::lemma_product_from_start(phrases::order_choices(self.table(), order), at);
            assert(rest.drop_first() =~= self.orders().skip(self.order_pos + 1));
        } else {
            assert(self.orders().skip(self.order_pos as int) =~= seq![]);
        }
    }

    /// Moves the cursor on for the given order of the slots.
    /// Returns true if it moved, and false, with the cursor back at the start, if the order is
    /// exhausted.
    fn advance_for_order(&mut self, order: &Vec<usize>) -> (moved: bool)
        requires
            old(self).points(),
            phrases::has_candidates(old(self).table()),
            sequences::is_order(order@, old(self).slot_alts@.len()),
        ensures
            final(self).slot_alts == old(self).slot_alts,
            final(self).slot_orders == old(self).slot_orders,
            final(self).order_pos == old(self).order_pos,
            final(self).done == old(self).done,
            final(self).first == old(self).first,
            final(self).points(),
            moved ==> sequences::product_from(
                phrases::order_choices(old(self).table(), order@),
                final(self).cursor(order@),
            ) == sequences::product_from(
                phrases::order_choices(old(self).table(), order@),
                old(self).cursor(order@),
            ).drop_first(),
            !moved ==> sequences::product_from(
                phrases::order_choices(old(self).table(), order@),
                old(self).cursor(order@),
            ).len() == 1,
            !moved ==> forall|s: int|
                0 <= s < final(self).alt_idx@.len() ==> #[trigger] final(self).alt_idx@[s] == 0,
            !moved ==> forall|s: int|
                0 <= s < final(self).cand_idx@.len() ==> #[trigger] final(self).cand_idx@[s] == 0,
    {
        let ghost choices = phrases::order_choices(self.table(), order@);
        let ghost at = self.cursor(order@);
        let ghost alt0 = self.alt_idx@;
        let ghost cand0 = self.cand_idx@;
        let ghost table = self.table();
        let n: usize = order.len();
        proof {
            self.lemma_cursor(order@);
        }
        let mut pos: usize = n;
        while pos > 0
            invariant
                pos <= n,
                n == order@.len(),
                sequences::is_order(order@, self.slot_alts@.len()),
                self.slot_alts == old(self).slot_alts,
                self.slot_orders == old(self).slot_orders,
                self.order_pos == old(self).order_pos,
                self.done == old(self).done,
                self.first == old(self).first,
                table == old(self).table(),
                table == self.table(),
                phrases::has_candidates(table),
                choices == phrases::order_choices(table, order@),
                alt0 == old(self).alt_idx@,
                cand0 == old(self).cand_idx@,
                at == old(self).cursor(order@),
                sequences::points_into(choices, at),
                old(self).points(),
                self.points(),
                forall|j: int|
                    0 <= j < pos ==> self.alt_idx@[#[trigger] order@[j] as int] == alt0[order@[j] as int],
                forall|j: int|
                    0 <= j < pos ==> self.cand_idx@[#[trigger] order@[j] as int] == cand0[order@[j] as int],
                forall|j: int| pos <= j < n ==> self.alt_idx@[#[trigger] order@[j] as int] == 0,
                forall|j: int| pos <= j < n ==> self.cand_idx@[#[trigger] order@[j] as int] == 0,
                forall|j: int| pos <= j < n ==> #[trigger] at[j] + 1 == choices[j].len(),
            decreases pos,
        {
            let ghost p = pos - 1;
            let si: usize = order[pos - 1];
            let ai: usize = self.alt_idx[si];
            let ci: usize = self.cand_idx[si];
            let ghost row = table[si as int];
            assert(at[p] == flat(row, ai as int, ci as int));
            assert(choices[p] == row.flatten());
            assert(row == phrases::row_view(self.slot_alts@[si as int]@));
            assert(row[ai as int] == sequences::contents(self.slot_alts@[si as int]@[ai as int]@));
            let ghost before = *self;
            assert(self.alt_idx@[si as int] < self.slot_alts@[si as int]@.len());
            assert(self.cand_idx@[si as int] < self.slot_alts@[si as int]@[ai as int]@.len());
            let alts: usize = self.slot_alts[si].len();
            let cands: usize = self.slot_alts[si][ai].len();
            if ci + 1 < cands {
                self.cand_idx[si] = ci + 1;
                proof {
                    lemma_flat(row, ai as int, ci + 1);
                    assert(self.points()) by {
                        assert forall|s: int| 0 <= s < self.slot_alts@.len() implies (
                        #[trigger] self.alt_idx@[s]) < self.slot_alts@[s]@.len() by {
                            assert(before.alt_idx@[s] < self.slot_alts@[s]@.len());
                        }
                        assert forall|s: int| 0 <= s < self.slot_alts@.len() implies (
                        #[trigger] self.cand_idx@[s])
                            < self.slot_alts@[s]@[self.alt_idx@[s] as int]@.len() by {
                            if s != si {
                                assert(before.cand_idx@[s]
                                    < self.slot_alts@[s]@[self.alt_idx@[s] as int]@.len());
                            }
                        }
                    }
                    self.lemma_moved(order@, alt0, cand0, choices, at, p);
                }
                return true;
            }
            self.cand_idx[si] = 0;
            proof {
                lemma_flat_next(row, ai as int);
            }
            if ai + 1 < alts {
                self.alt_idx[si] = ai + 1;
                proof {
                    assert(row[ai + 1].len() > 0);
                    lemma_flat(row, ai + 1, 0);
                    assert(self.points()) by {
                        assert forall|s: int| 0 <= s < self.slot_alts@.len() implies (
                        #[trigger] self.alt_idx@[s]) < self.slot_alts@[s]@.len() by {
                            if s != si {
                                assert(before.alt_idx@[s] < self.slot_alts@[s]@.len());
                            }
                        }
                        assert forall|s: int| 0 <= s < self.slot_alts@.len() implies (
                        #[trigger] self.cand_idx@[s])
                            < self.slot_alts@[s]@[self.alt_idx@[s] as int]@.len() by {
                            if s != si {
                                assert(before.cand_idx@[s]
                                    < self.slot_alts@[s]@[before.alt_idx@[s] as int]@.len());
                            }
                        }
                    }
                    self.lemma_moved(order@, alt0, cand0, choices, at, p);
                }
                return true;
            }
            self.alt_idx[si] = 0;
            proof {
                assert(row.len() > 0 && row[0].len() > 0);
                assert(self.points()) by {
                    assert forall|s: int| 0 <= s < self.slot_alts@.len() implies (
                    #[trigger] self.alt_idx@[s]) < self.slot_alts@[s]@.len() by {
                        if s != si {
                            assert(before.alt_idx@[s] < self.slot_alts@[s]@.len());
                        }
                    }
                    assert forall|s: int| 0 <= s < self.slot_alts@.len() implies (
                    #[trigger] self.cand_idx@[s])
                        < self.slot_alts@[s]@[self.alt_idx@[s] as int]@.len() by {
                        if s != si {
                            assert(before.cand_idx@[s]
                                < self.slot_alts@[s]@[before.alt_idx@[s] as int]@.len());
                        }
                    }
                }
            }
            pos = pos - 1;
        }
        proof {
            sequences::lemma_product_from_last(choices, at);
            assert forall|s: int| 0 <= s < n implies #[trigger] self.alt_idx@[s] == 0
                && self.cand_idx@[s] == 0 by {
                sequences::lemma_order_has(order@, n as nat, s as usize);
                let j = choose|j: int| 0 <= j < n && order@[j] == s as usize;
                assert(self.alt_idx@[order@[j] as int] == 0);
            }
            assert forall|s: int| 0 <= s < n implies #[trigger] self.cand_idx@[s] == 0 by {
                assert(self.alt_idx@[s] == 0);
            }
        }
        false
    }

    /// What a moved cursor leaves.
    proof fn lemma_moved(
        &self,
        order: Seq<usize>,
        alt0: Seq<usize>,
        cand0: Seq<usize>,
        choices: Seq<Seq<Seq<u16>>>,
        at: Seq<int>,
        p: int,
    )
        requires
            self.points(),
            sequences::is_order(order, self.slot_alts@.len()),
            choices == phrases::order_choices(self.table(), order),
            at == Seq::new(
                order.len(),
                |j: int|
                    flat(
                        self.table()[order[j] as int],
                        alt0[order[j] as int] as int,
                        cand0[order[j] as int] as int,
                    ),
            ),
            sequences::points_into(choices, at),
            0 <= p < order.len(),
            self.cursor(order)[p] == at[p] + 1,
            forall|j: int|
                0 <= j < p ==> self.alt_idx@[#[trigger] order[j] as int] == alt0[order[j] as int],
            forall|j: int|
                0 <= j < p ==> self.cand_idx@[#[trigger] order[j] as int] == cand0[order[j] as int],
            forall|j: int| p < j < order.len() ==> self.alt_idx@[#[trigger] order[j] as int] == 0,
            forall|j: int| p < j < order.len() ==> self.cand_idx@[#[trigger] order[j] as int] == 0,
            forall|j: int| p < j < order.len() ==> #[trigger] at[j] + 1 == choices[j].len(),
        ensures
            sequences::product_from(choices, self.cursor(order)) == sequences::product_from(
                choices,
                at,
            ).drop_first(),
    {
        let now = self.cursor(order);
        self.lemma_cursor(order);
        assert(0 <= now[p] < choices[p].len());
        assert(sequences::can_step(choices, at, p));
        assert forall|j: int| 0 <= j < now.len() implies now[j] == sequences::stepped(at, p)[j] by {
            let s = order[j] as int;
            if j < p {
                assert(self.alt_idx@[order[j] as int] == alt0[order[j] as int]);
            } else if j > p {
                assert(self.alt_idx@[order[j] as int] == 0);
                assert(self.table()[s].take(0) =~= seq![]);
            }
        }
        assert(now =~= sequences::stepped(at, p));
        sequences::lemma_product_from_step(choices, at, p);
    }
}

impl LazyPhraseIter {
    /// The parts under the cursor, slot by slot in the given order.
    spec fn parts(&self, order: Seq<usize>) -> Seq<Seq<u16>> {
        sequences::picked(phrases::order_choices(self.table(), order), self.cursor(order))
    }

    /// Builds the phrase under the cursor for the given order of the slots.
    /// Returns `None` if it has not 12 words.
    fn build_phrase(&self, order: &Vec<usize>) -> (phrase: Option<[u16; 12]>)
        requires
            self.points(),
            sequences::is_order(order@, self.slot_alts@.len()),
        ensures
            candidates::phrase_content(phrase) == (if self.parts(order@).flatten().len()
                == candidates::PHRASE_LEN {
                Some(self.parts(order@).flatten())
            } else {
                None
            }),
    {
        let ghost parts = self.parts(order@);
        let mut phrase: [u16; 12] = [0u16;12];
        let mut offset: usize = 0;
        let mut j: usize = 0;
        proof {
            self.lemma_cursor(order@);
            assert(parts.take(0) =~= seq![]);
            assert(phrase@.take(0) =~= parts.take(0).flatten());
        }
        while j < order.len()
            invariant
                j <= order@.len(),
                self.points(),
                sequences::is_order(order@, self.slot_alts@.len()),
                parts.len() == order@.len(),
                forall|i: int|
                    0 <= i < order@.len() ==> parts[i] == #[trigger] self.part(order@, i),
                offset <= 12,
                phrase@.take(offset as int) == parts.take(j as int).flatten(),
                parts == self.parts(order@),
            decreases order@.len() - j,
        {
            let si: usize = order[j];
            let ai: usize = self.alt_idx[si];
            let ci: usize = self.cand_idx[si];
            assert(self.alt_idx@[si as int] < self.slot_alts@[si as int]@.len());
            assert(self.cand_idx@[si as int] < self.slot_alts@[si as int]@[ai as int]@.len());
            let words: &Vec<u16> = &self.slot_alts[si][ai][ci];
            proof {
                assert(parts[j as int] == self.part(order@, j as int));
                assert(parts.take(j + 1) =~= parts.take(j as int).push(words@));
                parts.take(j as int).lemma_flatten_push(words@);
            }
            if words.len() > 12 - offset {
                proof {
                    assert(parts =~= parts.take(j + 1) + parts.skip(j + 1));
                    vstd::seq_lib::lemma_flatten_concat(parts.take(j + 1), parts.skip(j + 1));
                }
                return None;
            }
            let mut k: usize = 0;
            let ghost before = phrase@;
            while k < words.len()
                invariant
                    k <= words@.len(),
                    offset + words@.len() <= 12,
                    before.len() == 12,
                    forall|i: int| 0 <= i < offset ==> phrase@[i] == before[i],
                    forall|i: int| 0 <= i < k ==> phrase@[offset + i] == words@[i],
                decreases words@.len() - k,
            {
                phrase[offset + k] = words[k];
                k = k + 1;
            }
            assert(phrase@.take(offset + words@.len()) =~= before.take(offset as int) + words@);
            offset = offset + words.len();
            j = j + 1;
        }
        assert(parts.take(j as int) =~= parts);
        if offset == 12 {
            assert(phrase@.take(12) =~= phrase@);
            Some(phrase)
        } else {
            None
        }
    }

    /// Hands out the next phrase, or `None` when all have been handed out.
    pub fn next(&mut self) -> (given: Option<[u16; 12]>)
        requires
            old(self).wf(),
        ensures
            final(self).wf(),
            sequences::takes_first(
                old(self).left(),
                candidates::phrase_content(given),
                final(self).left(),
            ),
    {
        if self.done {
            return None;
        }
        let ghost whole = self.left();
        loop
            invariant
                self.wf(),
                !self.done,
                whole == old(self).left(),
                self.left() == whole,
            decreases
                    self.slot_orders@.len() - self.order_pos,
                    sequences::product_from(
                        phrases::order_choices(
                            self.table(),
                            self.orders()[self.order_pos as int],
                        ),
                        self.cursor(self.orders()[self.order_pos as int]),
                    ).len(),
        {
            if self.order_pos >= self.slot_orders.len() {
                self.done = true;
                return None;
            }
            let order: Vec<usize> = self.slot_orders[self.order_pos].clone();
            let ghost choices = phrases::order_choices(self.table(), order@);
            let ghost later = phrases::phrases_in_orders(
                self.table(),
                self.orders().skip(self.order_pos + 1),
            );
            proof {
                assert(order@ =~= self.orders()[self.order_pos as int]);
                assert(sequences::is_order(order@, self.slot_alts@.len()));
                self.lemma_cursor(order@);
                sequences::lemma_product_from_first(choices, self.cursor(order@));
            }
            let ghost all = sequences::product_from(choices, self.cursor(order@));
            proof {
                lemma_take_phrase(all, later);
            }
            if self.first {
                self.first = false;
                if let Some(p) = self.build_phrase(&order) {
                    return Some(p);
                }
            }
            if self.advance_for_order(&order) {
                proof {
                    self.lemma_cursor(order@);
                    sequences::lemma_product_from_first(choices, self.cursor(order@));
                    lemma_take_phrase(all.drop_first(), later);
                }
                if let Some(p) = self.build_phrase(&order) {
                    return Some(p);
                }
                continue ;
            }
            proof {
                assert(phrases::joined_each(all.drop_first()) =~= seq![]);
                assert(phrases::full_phrases(phrases::joined_each(all.drop_first())) =~= seq![]);
                assert(whole =~= later);
            }
            self.order_pos = self.order_pos + 1;
            self.first = true;
            let n: usize = self.alt_idx.len();
            let mut i: usize = 0;
            let ghost table = self.table();
            let ghost orders = self.orders();
            let ghost pos = self.order_pos;
            while i < n
                invariant
                    i <= n,
                    n == self.slot_alts@.len(),
                    self.alt_idx@.len() == n,
                    self.cand_idx@.len() == n,
                    self.table() == table,
                    self.orders() == orders,
                    self.order_pos == pos,
                    !self.done,
                    self.first,
                    forall|s: int| 0 <= s < i ==> #[trigger] self.alt_idx@[s] == 0,
                    forall|s: int| 0 <= s < i ==> #[trigger] self.cand_idx@[s] == 0,
                decreases n - i,
            {
                self.alt_idx[i] = 0;
                self.cand_idx[i] = 0;
                i = i + 1;
            }
            proof {
                self.lemma_zero_points();
                assert forall|i: int|
                    0 <= i < self.slot_orders@.len() implies sequences::is_order(
                    #[trigger] self.slot_orders@[i]@,
                    self.slot_alts@.len(),
                ) by {
                    assert(orders[i] == self.slot_orders@[i]@);
                }
                self.lemma_start_of_order();
            }
        }
    }
}

/// The first of what is left is a phrase and is handed out, or it is none and nothing changes.
proof fn lemma_take_phrase(all: Seq<Seq<Seq<u16>>>, later: Seq<Seq<u16>>)
    requires
        all.len() > 0,
    ensures
        all[0].flatten().len() == candidates::PHRASE_LEN ==> ({
            let with = phrases::full_phrases(phrases::joined_each(all)) + later;
            &&& with.len() > 0
            &&& with[0] == all[0].flatten()
            &&& with.drop_first() == phrases::full_phrases(
                phrases::joined_each(all.drop_first()),
            ) + later
        }),
        all[0].flatten().len() != candidates::PHRASE_LEN ==> phrases::full_phrases(
            phrases::joined_each(all),
        ) == phrases::full_phrases(phrases::joined_each(all.drop_first())),
{
    let listing = phrases::joined_each(all);
    assert(listing.drop_first() =~= phrases::joined_each(all.drop_first()));
    assert(listing[0] == all[0].flatten());
    let rest = phrases::full_phrases(listing.drop_first());
    assert((seq![listing[0]] + rest + later).drop_first() =~= rest + later);
}

/// Without slots there is no phrase.
proof fn lemma_no_slots(table: Seq<Seq<Seq<Seq<u16>>>>, orders: Seq<Seq<usize>>)
    requires
        forall|i: int| 0 <= i < orders.len() ==> (#[trigger] orders[i]).len() == 0,
    ensures
        phrases::phrases_in_orders(table, orders) == Seq::<Seq<u16>>::empty(),
    decreases orders.len(),
{
    if orders.len() > 0 {
        let choices = phrases::order_choices(table, orders[0]);
        assert(choices.len() == 0);
        let all = phrases::joined_each(sequences::product(choices));
        assert(all[0] =~= seq![]);
        assert(all.drop_first() =~= seq![]);
        assert(phrases::full_phrases(all.drop_first()) =~= seq![]);
        assert forall|i: int| 0 <= i < orders.drop_first().len() implies (
        #[trigger] orders.drop_first()[i]).len() == 0 by {
            assert(orders[i + 1].len() == 0);
        }
        lemma_no_slots(table, orders.drop_first());
    }
}

} // verus!
