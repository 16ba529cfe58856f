//! The search with a device that checks whole streams of phrases: what is streamed to it, and what
//! its answers mean.

use vstd::prelude::*;

use crate::candidates;
use crate::enumerate;
use crate::lazy::LazyPhraseIter;
use crate::phrases;
use crate::search;
use crate::search::{SearchOptions, Subsets};
use crate::sequences;
use crate::space;
use crate::tokenlist;
use crate::tokenlist::Slot;

verus! {

/// The phrases that are streamed for one selection of slots.
pub open spec fn streamed(
    slots: Seq<Seq<Seq<Option<Seq<char>>>>>,
    words: Seq<Seq<char>>,
    options: SearchOptions,
    chosen: Seq<usize>,
) -> Seq<Seq<u16>> {
    phrases::phrases_in_orders(
        phrases::table_of(sequences::reordered(slots, chosen), words, options.keep_word_order),
        phrases::slot_orders(chosen.len(), options.keep_token_order),
    )
}

/// A selection of slots, and the phrases to stream for it.
pub struct Round {
    /// The numbers of the slots.
    pub chosen: Vec<usize>,
    /// The phrases.
    pub phrases: LazyPhraseIter,
}

/// The phrase that the device reports.
#[derive(Debug)]
pub struct Hit {
    /// The indices of its words.
    pub indices: [u16; 12],
    /// Its number, from 0, in the stream.
    pub global_index: usize,
}

/// What the answer of the device means.
#[derive(Debug)]
pub enum Outcome {
    /// No phrase of the stream leads to the target. `checked` streams had been searched before.
    NoMatch { checked: usize },
    /// The phrase leads to the target. `index` is its number in the stream, and `global` that
    /// number added to the number of streams before.
    Match { phrase: String, index: usize, global: usize },
}

/// The course of a search: which selections of slots are left, and how many have been searched.
pub struct GpuSearch {
    selections: Subsets,
    slot_count: usize,
    checked: usize,
}

/// The numbers of a selection that is held in a vector that may be absent.
pub open spec fn chosen_content(round: Option<Round>) -> Option<Seq<usize>> {
    match round {
        Some(r) => Some(r.chosen@),
        None => None,
    }
}

impl GpuSearch {
    /// Every selection that is left is one of the slots.
    pub closed spec fn wf(&self) -> bool {
        &&& self.selections.wf()
        &&& forall|i: int|
            0 <= i < self.selections.left().len() ==> (#[trigger] self.selections.left()[i]).len()
                <= self.slot_count && sequences::increasing_within(
                self.selections.left()[i],
                0,
                self.slot_count as nat,
            )
    }

    /// The number of slots.
    pub closed spec fn slot_count(&self) -> usize {
        self.slot_count
    }

    /// The number of streams that have been searched.
    pub closed spec fn checked(&self) -> usize {
        self.checked
    }

    /// The selections that are still to be searched.
    pub closed spec fn left(&self) -> Seq<Seq<usize>> {
        self.selections.left()
    }

    /// Starts with the smallest selections.
    pub fn new(slot_count: usize, options: &SearchOptions) -> (course: Self)
        ensures
            course.wf(),
            course.slot_count() == slot_count,
            course.checked() == 0,
            course.left() == search::subsets(
                slot_count as nat,
                search::fewest(options.min_token, slot_count as nat),
            ),
    {
        let selections = Subsets::new(slot_count, options.min_token);
        proof {
            let n = slot_count as nat;
            let all = selections.left();
            assert forall|i: int| 0 <= i < all.len() implies (#[trigger] all[i]).len() <= n
                && sequences::increasing_within(all[i], 0, n) by {
                assert(all.contains(all[i]));
                search::lemma_subsets_contains(n, search::fewest(options.min_token, n), all[i]);
            }
        }
        GpuSearch { selections, slot_count, checked: 0 }
    }

    /// The next selection with its phrases, or `None` when all have been searched.
    ///
    /// The word list is no longer than indices go. Every known word is in it, every slot has an
    /// alternative, and where a word is missing there are words to fill it with.
    pub fn next_round(
        &mut self,
        slots: &[Slot],
        options: &SearchOptions,
        wordlist: &Vec<String>,
    ) -> (round: Option<Round>)
        requires
            wordlist@.len() <= candidates::MAX_WORDS,
            old(self).wf(),
            old(self).slot_count() == slots@.len(),
            phrases::all_known(tokenlist::slots_view(slots@), tokenlist::texts(wordlist@)),
            phrases::expandable(tokenlist::slots_view(slots@), tokenlist::texts(wordlist@)),
        ensures
            final(self).wf(),
            final(self).slot_count() == old(self).slot_count(),
            final(self).checked() == old(self).checked(),
            sequences::takes_first(old(self).left(), chosen_content(round), final(self).left()),
            round matches Some(r) ==> r.phrases.wf() && r.phrases.left() == streamed(
                tokenlist::slots_view(slots@),
                tokenlist::texts(wordlist@),
                *options,
                r.chosen@,
            ),
    {
        let ghost before = self.left();
        match self.selections.next() {
            None => None,
            Some(chosen) => {
                proof {
                    assert(before[0] == chosen@);
                    assert(sequences::increasing_within(before[0], 0, self.slot_count as nat));
                    search::lemma_chosen(
                        tokenlist::slots_view(slots@),
                        tokenlist::texts(wordlist@),
                        chosen@,
                    );
                    assert forall|i: int| 0 <= i < chosen@.len() implies (#[trigger] chosen@[i])
                        < slots@.len() by {
                        assert(0 <= chosen@[i] < self.slot_count);
                    }
                    assert forall|i: int| 0 <= i < self.left().len() implies (
                    #[trigger] self.left()[i]).len() <= self.slot_count
                        && sequences::increasing_within(
                        self.left()[i],
                        0,
                        self.slot_count as nat,
                    ) by {
                        assert(self.left()[i] == before[i + 1]);
                    }
                }
                let taken = search::choose_slots(slots, &chosen);
                assert(taken@.len() == phrases::chosen_view(taken@).len());
                let phrases = LazyPhraseIter::new(
                    taken.as_slice(),
                    options.keep_token_order,
                    options.keep_word_order,
                    wordlist,
                );
                Some(Round { chosen, phrases })
            },
        }
    }

    /// Takes the answer of the device for the stream of a round.
    ///
    /// The indices that the device reports are indices of words.
    pub fn report(&mut self, hit: Option<Hit>, wordlist: &Vec<String>) -> (outcome: Outcome)
        requires
            old(self).wf(),
            hit matches Some(h) ==> space::within(h.indices@, wordlist@.len()),
        ensures
            final(self).wf(),
            final(self).slot_count() == old(self).slot_count(),
            final(self).left() == old(self).left(),
            match hit {
                None => {
                    &&& outcome matches Outcome::NoMatch { checked } && checked
                        == old(self).checked()
                    &&& final(self).checked() == search::wrapped((old(self).checked() + 1) as nat)
                },
                Some(h) => {
                    &&& outcome matches Outcome::Match { phrase, index, global } && phrase@
                        == search::phrase_text_of(h.indices@, tokenlist::texts(wordlist@)) && index
                        == h.global_index && global == search::wrapped(
                        (old(self).checked() + h.global_index) as nat,
                    )
                    &&& final(self).checked() == old(self).checked()
                },
            },
    {
        let checked: usize = self.checked;
        match hit {
            None => {
                proof {
                    search::lemma_wrapped_sum(checked, 1);
                }
                self.checked = checked.wrapping_add(1);
                Outcome::NoMatch { checked }
            },
            Some(h) => {
                proof {
                    search::lemma_wrapped_sum(checked, h.global_index);
                }
                let phrase = search::phrase_text(h.indices.as_slice(), wordlist);
                Outcome::Match {
                    phrase,
                    index: h.global_index,
                    global: checked.wrapping_add(h.global_index),
                }
            },
        }
    }
}

/// For every selection the device is sent the same phrases that are listed for it on the CPU, each
/// equally often.
pub proof fn lemma_streamed_as_listed(
    slots: Seq<Seq<Seq<Option<Seq<char>>>>>,
    words: Seq<Seq<char>>,
    options: SearchOptions,
    chosen: Seq<usize>,
)
    ensures
        streamed(slots, words, options, chosen).to_multiset() == search::selection_phrases(
            slots,
            words,
            options,
            chosen,
        ).to_multiset(),
{
    enumerate::lemma_same_phrases(
        phrases::table_of(sequences::reordered(slots, chosen), words, options.keep_word_order),
        phrases::slot_orders(chosen.len(), options.keep_token_order),
    );
}

/// Over all selections together, exactly the phrases that are searched are streamed.
pub proof fn lemma_streamed(
    slots: Seq<Seq<Seq<Option<Seq<char>>>>>,
    words: Seq<Seq<char>>,
    options: SearchOptions,
    p: Seq<u16>,
)
    requires
        space::numbered(slots),
    ensures
        ({
            let list = search::subsets(
                slots.len(),
                search::fewest(options.min_token, slots.len()),
            );
            search::is_searched(slots, words, options, p) <==> exists|i: int|
                0 <= i < list.len() && streamed(
                    slots,
                    words,
                    options,
                    #[trigger] list[i],
                ).contains(p)
        }),
{
    let list = search::subsets(slots.len(), search::fewest(options.min_token, slots.len()));
    search::lemma_searched(slots, words, options, p);
    search::lemma_phrases_of_all_contains(slots, words, options, list, p);
    assert forall|i: int| 0 <= i < list.len() implies (streamed(
        slots,
        words,
        options,
        #[trigger] list[i],
    ).contains(p) <==> search::selection_phrases(slots, words, options, list[i]).contains(p)) by {
        lemma_streamed_as_listed(slots, words, options, list[i]);
        sequences::lemma_same_multiset_contains(
            streamed(slots, words, options, list[i]),
            search::selection_phrases(slots, words, options, list[i]),
            p,
        );
    }
    if search::is_searched(slots, words, options, p) {
        let i = choose|i: int|
            0 <= i < list.len() && search::selection_phrases(
                slots,
                words,
                options,
                #[trigger] list[i],
            ).contains(p);
        assert(streamed(slots, words, options, list[i]).contains(p));
    }
    if exists|i: int|
        0 <= i < list.len() && streamed(slots, words, options, #[trigger] list[i]).contains(p) {
        let i = choose|i: int|
            0 <= i < list.len() && streamed(slots, words, options, #[trigger] list[i]).contains(p);
        assert(search::selection_phrases(slots, words, options, list[i]).contains(p));
    }
}

/// Parsed slots can be streamed with any word list of BIP-39.
pub proof fn lemma_parsed_expandable(slots: Seq<Slot>, words: Seq<Seq<char>>)
    requires
        tokenlist::is_filled(slots),
        words.len() == crate::language::WORDLIST_LEN,
    ensures
        phrases::expandable(tokenlist::slots_view(slots), words),
{
    let view = tokenlist::slots_view(slots);
    assert forall|s: int| 0 <= s < view.len() implies (#[trigger] view[s]).len() > 0 by {
        assert(slots[s]@.len() > 0);
    }
}

} // verus!
