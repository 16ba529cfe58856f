//! The search: which slots are taken together, what is checked, and what is found.

use vstd::prelude::*;

use crate::candidates;
use crate::enumerate;
use crate::language;
use crate::language::{Language, UnknownLanguage};
use crate::orders;
use crate::phrases;
use crate::sequences;
use crate::space;
use crate::text;
use crate::tokenlist;
use crate::tokenlist::{Slot, TokenlistError};
use crate::validate;
use crate::wallet;
use crate::wallet::{Target, TargetError};

verus! {

/// How the slots of a tokenlist are put together.
#[derive(Debug, Clone, Copy)]
pub struct SearchOptions {
    /// Take the slots in the order in which they were written.
    pub keep_token_order: bool,
    /// Take the words of a slot in the order in which they were written.
    pub keep_word_order: bool,
    /// The fewest slots to take together; all of them if absent.
    pub min_token: Option<usize>,
}

/// The fewest of `n` slots that are taken together.
pub open spec fn fewest(min_token: Option<usize>, n: nat) -> nat {
    match min_token {
        Some(m) => if m < n {
            m as nat
        } else {
            n
        },
        None => n,
    }
}

/// The fewest of `n` slots that are taken together: all of them, unless fewer are asked for.
pub fn fewest_slots(min_token: Option<usize>, n: usize) -> (m: usize)
    ensures
        m == fewest(min_token, n as nat),
{
    match min_token {
        Some(m) => if m < n {
            m
        } else {
            n
        },
        None => n,
    }
}

/// The number of threads to use: as many as there are cores, unless a number is asked for.
pub fn thread_count(threads: usize, cores: usize) -> (n: usize)
    ensures
        n == if threads == 0 {
            cores
        } else {
            threads
        },
{
    if threads == 0 {
        cores
    } else {
        threads
    }
}

/// Progress is told each time that so many more candidates have been checked.
pub const PROGRESS_STEP: usize = 100000;

/// Whether progress is told when so many candidates have been checked.
pub fn tells_progress(checked: usize) -> (r: bool)
    ensures
        r == (checked > 0 && checked % PROGRESS_STEP == 0),
        r <==> checked > 0 && checked % 100000 == 0,
{
    checked % PROGRESS_STEP == 0 && checked > 0
}

/// The selections of `count` or more of `n` slots, the smaller ones first.
pub open spec fn subsets(n: nat, count: nat) -> Seq<Seq<usize>>
    decreases n + 1 - count,
{
    if count > n {
        seq![]
    } else {
        sequences::selections(0, n, count) + subsets(n, count + 1)
    }
}

/// The selections that are searched are exactly the increasing sequences of slot numbers with
/// `count` or more members.
pub proof fn lemma_subsets_contains(n: nat, count: nat, s: Seq<usize>)
    requires
        n <= usize::MAX,
    ensures
        subsets(n, count).contains(s) <==> count <= s.len() <= n && sequences::increasing_within(
            s,
            0,
            n,
        ),
    decreases n + 1 - count,
{
    if count <= n {
        sequences::lemma_selections_contains(0, n, count, s);
        lemma_subsets_contains(n, count + 1, s);
        sequences::lemma_concat_contains(
            sequences::selections(0, n, count),
            subsets(n, count + 1),
            s,
        );
    }
}

/// No selection is searched twice.
pub proof fn lemma_subsets_no_duplicates(n: nat, count: nat)
    requires
        n <= usize::MAX,
    ensures
        subsets(n, count).no_duplicates(),
    decreases n + 1 - count,
{
    if count <= n {
        let a = sequences::selections(0, n, count);
        let b = subsets(n, count + 1);
        sequences::lemma_selections_no_duplicates(0, n, count);
        lemma_subsets_no_duplicates(n, count + 1);
        assert forall|s: Seq<usize>| a.contains(s) implies !b.contains(s) by {
            sequences::lemma_selections_contains(0, n, count, s);
            lemma_subsets_contains(n, count + 1, s);
        }
        sequences::lemma_concat_no_duplicates(a, b);
    }
}

/// Hands out the selections of slots one at a time.
pub struct Subsets {
    n: usize,
    // the size of the selections that `current` hands out
    count: usize,
    current: itertools::Combinations<std::ops::Range<usize>>,
}

impl Subsets {
    /// The size of the selections does not exceed the number of slots.
    pub closed spec fn wf(&self) -> bool {
        self.count <= self.n
    }

    /// The selections that are still to be handed out.
    pub closed spec fn left(&self) -> Seq<Seq<usize>> {
        orders::selections_left(self.current) + subsets(self.n as nat, (self.count + 1) as nat)
    }

    /// Starts with the smallest selections of `n` slots.
    pub fn new(n: usize, min_token: Option<usize>) -> (it: Self)
        ensures
            it.wf(),
            it.left() == subsets(n as nat, fewest(min_token, n as nat)),
    {
        let count: usize = fewest_slots(min_token, n);
        Subsets { n, count, current: orders::combinations(n, count) }
    }

    /// Hands out the next selection, or `None` when all have been handed out.
    pub fn next(&mut self) -> (given: Option<Vec<usize>>)
        requires
            old(self).wf(),
        ensures
            final(self).wf(),
            sequences::takes_first(
                old(self).left(),
                sequences::content(given),
                final(self).left(),
            ),
    {
        let ghost whole = self.left();
        loop
            invariant
                self.wf(),
                self.left() == whole,
                whole == old(self).left(),
            decreases self.n - self.count,
        {
            let ghost before = orders::selections_left(self.current);
            match orders::next_combination(&mut self.current) {
                Some(chosen) => {
                    assert(self.left() =~= whole.drop_first());
                    return Some(chosen);
                },
                None => {
                    if self.count >= self.n {
                        assert(whole =~= seq![]);
                        assert(self.left() =~= seq![]);
                        return None;
                    }
                    self.count = self.count + 1;
                    self.current = orders::combinations(self.n, self.count);
                    assert(self.left() =~= whole);
                },
            }
        }
    }
}

/// The slots with the given numbers.
pub(crate) fn choose_slots<'a>(slots: &'a [Slot], chosen: &Vec<usize>) -> (r: Vec<&'a Slot>)
    requires
        forall|i: int| 0 <= i < chosen@.len() ==> (#[trigger] chosen@[i]) < slots@.len(),
    ensures
        phrases::chosen_view(r@) == sequences::reordered(
            tokenlist::slots_view(slots@),
            chosen@,
        ),
{
    let mut r: Vec<&'a Slot> = Vec::new();
    let mut i: usize = 0;
    while i < chosen.len()
        invariant
            i <= chosen@.len(),
            forall|i: int| 0 <= i < chosen@.len() ==> (#[trigger] chosen@[i]) < slots@.len(),
            r@.len() == i,
            forall|j: int| 0 <= j < i ==> *(#[trigger] r@[j]) == slots@[chosen@[j] as int],
        decreases chosen@.len() - i,
    {
        assert(chosen@[i as int] < slots@.len());
        r.push(&slots[chosen[i]]);
        i = i + 1;
    }
    assert(phrases::chosen_view(r@) =~= sequences::reordered(
        tokenlist::slots_view(slots@),
        chosen@,
    ));
    r
}

/// Slots and alternatives that are held in vectors can be numbered.
pub proof fn lemma_numbered(slots: Seq<Slot>)
    requires
        slots.len() <= usize::MAX,
    ensures
        space::numbered(tokenlist::slots_view(slots)),
{
    let view = tokenlist::slots_view(slots);
    assert forall|s: int, a: int| 0 <= s < view.len() && 0 <= a < view[s].len() implies (
    #[trigger] view[s][a]).len() <= usize::MAX by {
        assert(view[s][a].len() == slots[s]@[a].len());
    }
}

/// What holds of all slots holds of the chosen ones.
pub proof fn lemma_chosen(
    slots: Seq<Seq<Seq<Option<Seq<char>>>>>,
    words: Seq<Seq<char>>,
    chosen: Seq<usize>,
)
    requires
        sequences::increasing_within(chosen, 0, slots.len()),
        chosen.len() <= slots.len(),
    ensures
        phrases::all_known(slots, words) ==> phrases::all_known(
            sequences::reordered(slots, chosen),
            words,
        ),
        phrases::expandable(slots, words) ==> phrases::expandable(
            sequences::reordered(slots, chosen),
            words,
        ),
        space::numbered(slots) ==> space::numbered(sequences::reordered(slots, chosen)),
{
    let part = sequences::reordered(slots, chosen);
    if phrases::all_known(slots, words) {
        assert forall|s: int| 0 <= s < part.len() implies phrases::slot_known(
            #[trigger] part[s],
            words,
        ) by {
            assert(0 <= chosen[s] < slots.len());
            assert(phrases::slot_known(slots[chosen[s] as int], words));
        }
    }
    if phrases::expandable(slots, words) {
        assert forall|s: int| 0 <= s < part.len() implies (#[trigger] part[s]).len() > 0
            && forall|a: int|
            0 <= a < part[s].len() ==> crate::expand::missing_positions(
                #[trigger] part[s][a],
            ).len() == 0 || words.len() > 0 by {
            assert(0 <= chosen[s] < slots.len());
            assert(slots[chosen[s] as int].len() > 0);
            assert forall|a: int| 0 <= a < part[s].len() implies crate::expand::missing_positions(
                #[trigger] part[s][a],
            ).len() == 0 || words.len() > 0 by {
                assert(part[s][a] == slots[chosen[s] as int][a]);
            }
        }
    }
    if space::numbered(slots) {
        assert forall|s: int, a: int| 0 <= s < part.len() && 0 <= a < part[s].len() implies (
        #[trigger] part[s][a]).len() <= usize::MAX by {
            assert(0 <= chosen[s] < slots.len());
            assert(slots[chosen[s] as int][a].len() <= usize::MAX);
        }
    }
}

/// The phrases of one selection of slots.
pub open spec fn selection_phrases(
    slots: Seq<Seq<Seq<Option<Seq<char>>>>>,
    words: Seq<Seq<char>>,
    options: SearchOptions,
    chosen: Seq<usize>,
) -> Seq<Seq<u16>> {
    phrases::full_phrases(
        enumerate::listing(
            phrases::table_of(
                sequences::reordered(slots, chosen),
                words,
                options.keep_word_order,
            ),
            phrases::slot_orders(chosen.len(), options.keep_token_order),
        ),
    )
}

/// The phrases of each of the selections, one after the other.
pub open spec fn phrases_of_all(
    slots: Seq<Seq<Seq<Option<Seq<char>>>>>,
    words: Seq<Seq<char>>,
    options: SearchOptions,
    list: Seq<Seq<usize>>,
) -> Seq<Seq<u16>>
    decreases list.len(),
{
    if list.len() == 0 {
        seq![]
    } else {
        selection_phrases(slots, words, options, list[0]) + phrases_of_all(
            slots,
            words,
            options,
            list.drop_first(),
        )
    }
}

/// Everything that is searched, in the order in which it is searched.
pub open spec fn searched(
    slots: Seq<Seq<Seq<Option<Seq<char>>>>>,
    words: Seq<Seq<char>>,
    options: SearchOptions,
) -> Seq<Seq<u16>> {
    phrases_of_all(
        slots,
        words,
        options,
        subsets(slots.len(), fewest(options.min_token, slots.len())),
    )
}

/// Lists the phrases of one selection of slots.
///
/// The word list is no longer than indices go, and every known word is in it.
pub fn list_phrases(
    slots: &[Slot],
    chosen: &Vec<usize>,
    options: &SearchOptions,
    wordlist: &Vec<String>,
) -> (list: Vec<Vec<u16>>)
    requires
        wordlist@.len() <= candidates::MAX_WORDS,
        phrases::all_known(tokenlist::slots_view(slots@), tokenlist::texts(wordlist@)),
        chosen@.len() <= slots@.len(),
        sequences::increasing_within(chosen@, 0, slots@.len()),
    ensures
        sequences::contents(list@) == selection_phrases(
            tokenlist::slots_view(slots@),
            tokenlist::texts(wordlist@),
            *options,
            chosen@,
        ),
        forall|i: int|
            0 <= i < list@.len() ==> space::within(#[trigger] list@[i]@, wordlist@.len()),
{
    let ghost view = tokenlist::slots_view(slots@);
    let ghost words = tokenlist::texts(wordlist@);
    let ghost part = sequences::reordered(view, chosen@);
    let slot_count: usize = slots.len();
    let word_count: usize = wordlist.len();
    proof {
        lemma_chosen(view, words, chosen@);
    }
    assert forall|i: int| 0 <= i < chosen@.len() implies (#[trigger] chosen@[i])
        < slots@.len() by {
        assert(0 <= chosen@[i] < slots@.len());
    }
    let taken = choose_slots(slots, chosen);
    assert(taken@.len() == phrases::chosen_view(taken@).len());
    let all = enumerate::enumerate_phrases(
        taken.as_slice(),
        options.keep_token_order,
        options.keep_word_order,
        wordlist,
    );
    let ghost whole = sequences::contents(all@);
    let mut list: Vec<Vec<u16>> = Vec::new();
    let mut i: usize = 0;
    assert(whole.skip(0) =~= whole);
    assert(sequences::contents(list@) =~= seq![]);
    while i < all.len()
        invariant
            i <= all@.len(),
            whole == sequences::contents(all@),
            sequences::contents(list@) + phrases::full_phrases(whole.skip(i as int))
                == phrases::full_phrases(whole),
        decreases all@.len() - i,
    {
        let ghost before = sequences::contents(list@);
        let ghost rest = whole.skip(i as int);
        assert(rest.drop_first() =~= whole.skip(i + 1));
        assert(rest[0] == all@[i as int]@);
        if all[i].len() == candidates::PHRASE_LEN {
            let phrase: Vec<u16> = all[i].clone();
            assert(phrase@ =~= rest[0]);
            list.push(phrase);
            assert(sequences::contents(list@) =~= before.push(rest[0]));
            assert(before.push(rest[0]) + phrases::full_phrases(whole.skip(i + 1)) =~= before
                + phrases::full_phrases(rest));
        }
        i = i + 1;
    }
    proof {
        assert(whole.skip(i as int) =~= seq![]);
        assert(phrases::full_phrases(whole.skip(i as int)) =~= seq![]);
        assert(sequences::contents(list@) =~= phrases::full_phrases(whole));
        lemma_numbered(slots@);
        let found = sequences::contents(list@);
        assert forall|k: int| 0 <= k < list@.len() implies space::within(
            #[trigger] list@[k]@,
            wordlist@.len(),
        ) by {
            assert(found[k] == list@[k]@);
            assert(found.contains(found[k]));
            space::lemma_eager_phrases(
                part,
                words,
                options.keep_token_order,
                options.keep_word_order,
                found[k],
            );
            space::lemma_candidate_within(
                part,
                words,
                options.keep_token_order,
                options.keep_word_order,
                found[k],
            );
        }
    }
    list
}

/// The text of a phrase: its words, joined by single spaces.
pub open spec fn phrase_text_of(p: Seq<u16>, words: Seq<Seq<char>>) -> Seq<char> {
    text::joined(Seq::new(p.len(), |i: int| words[p[i] as int]))
}

/// Reads a phrase out: its words, joined by single spaces.
pub fn phrase_text(indices: &[u16], wordlist: &Vec<String>) -> (phrase: String)
    requires
        space::within(indices@, wordlist@.len()),
    ensures
        phrase@ == phrase_text_of(indices@, tokenlist::texts(wordlist@)),
{
    let ghost words = tokenlist::texts(wordlist@);
    let ghost all = Seq::new(indices@.len(), |i: int| words[indices@[i] as int]);
    let mut phrase: String = String::new();
    let mut i: usize = 0;
    assert(all.take(0) =~= seq![]);
    assert(phrase@ =~= text::joined(all.take(0)));
    while i < indices.len()
        invariant
            i <= indices@.len(),
            words == tokenlist::texts(wordlist@),
            all == Seq::new(indices@.len(), |i: int| words[indices@[i] as int]),
            space::within(indices@, wordlist@.len()),
            phrase@ == text::joined(all.take(i as int)),
        decreases indices@.len() - i,
    {
        assert(indices@[i as int] < wordlist@.len());
        let word: &String = &wordlist[indices[i] as usize];
        assert(all[i as int] == word@);
        assert(all.take(i + 1).drop_last() =~= all.take(i as int));
        assert(all.take(i + 1).last() == word@);
        if i > 0 {
            phrase.push(' ');
        }
        phrase.append(word.as_str());
        i = i + 1;
        assert(phrase@ =~= text::joined(all.take(i as int)));
    }
    assert(all.take(i as int) =~= all);
    phrase
}

/// The phrase leads to the address.
pub open spec fn opens(
    language: Language,
    words: Seq<Seq<char>>,
    address: Seq<char>,
    p: Seq<u16>,
) -> bool {
    wallet::derived_address(language, phrase_text_of(p, words)) == Some(address)
}

/// Checks one phrase: its text if it leads to the address, and else `None`.
pub fn check_phrase(
    language: Language,
    wordlist: &Vec<String>,
    address: &String,
    indices: &[u16],
) -> (r: Option<String>)
    requires
        space::within(indices@, wordlist@.len()),
    ensures
        wallet::text_of(r) == if opens(
            language,
            tokenlist::texts(wordlist@),
            address@,
            indices@,
        ) {
            Some(phrase_text_of(indices@, tokenlist::texts(wordlist@)))
        } else {
            None
        },
{
    let phrase = phrase_text(indices, wordlist);
    let derived = wallet::derive_address(language, &phrase);
    if wallet::is_target(&derived, address) {
        Some(phrase)
    } else {
        None
    }
}

/// What a search found.
#[derive(Debug)]
pub struct Found {
    /// The phrase that leads to the address.
    pub phrase: String,
    /// Its number, from 0, among the candidates, as far as a `usize` counts.
    pub index: usize,
}

/// A count as a `usize` keeps it: it starts again behind the largest number.
pub open spec fn wrapped(k: nat) -> nat {
    k % (usize::MAX as nat + 1)
}

proof fn lemma_wrapped_on(k: nat, n: nat)
    requires
        n <= usize::MAX,
    ensures
        wrapped(k) <= usize::MAX,
        wrapped(k + n) == if wrapped(k) + n <= usize::MAX {
            wrapped(k) + n as int
        } else {
            wrapped(k) + n - usize::MAX - 1
        },
{
    let m = usize::MAX as int + 1;
    let q = k as int / m;
    let r = k as int % m;
    let sum = k as int + n as int;
    vstd::arithmetic::div_mod::lemma_fundamental_div_mod(k as int, m);
    if r + n < m {
        vstd::arithmetic::div_mod::lemma_fundamental_div_mod_converse(sum, m, q, r + n);
    } else {
        assert(m * q + m == m * (q + 1)) by (nonlinear_arith);
        vstd::arithmetic::div_mod::lemma_fundamental_div_mod_converse(sum, m, q + 1, r + n - m);
    }
}

/// The sum of two counts, as a `usize` keeps it.
pub proof fn lemma_wrapped_sum(a: usize, b: usize)
    ensures
        wrapped((a + b) as nat) == if a + b <= usize::MAX {
            a + b
        } else {
            a + b - usize::MAX - 1
        },
{
    vstd::arithmetic::div_mod::lemma_small_mod(a as nat, (usize::MAX as nat + 1) as nat);
    lemma_wrapped_on(a as nat, b as nat);
}

/// Candidate `k` is the first that leads to the address.
pub open spec fn is_first_match(
    list: Seq<Seq<u16>>,
    language: Language,
    words: Seq<Seq<char>>,
    address: Seq<char>,
    k: int,
) -> bool {
    &&& 0 <= k < list.len()
    &&& opens(language, words, address, list[k])
    &&& forall|j: int| 0 <= j < k ==> !opens(language, words, address, #[trigger] list[j])
}

/// What a search through the list finds: the first candidate that leads to the address, and
/// nothing if and only if none does.
pub open spec fn finds(
    list: Seq<Seq<u16>>,
    language: Language,
    words: Seq<Seq<char>>,
    address: Seq<char>,
    r: Option<Found>,
) -> bool {
    match r {
        Some(found) => exists|k: int|
            {
                &&& #[trigger] is_first_match(list, language, words, address, k)
                &&& found.phrase@ == phrase_text_of(list[k], words)
                &&& found.index == wrapped(k as nat)
            },
        None => forall|k: int|
            0 <= k < list.len() ==> !opens(language, words, address, #[trigger] list[k]),
    }
}

/// The selections are searched one after the other.
pub proof fn lemma_phrases_of_all_concat(
    slots: Seq<Seq<Seq<Option<Seq<char>>>>>,
    words: Seq<Seq<char>>,
    options: SearchOptions,
    a: Seq<Seq<usize>>,
    b: Seq<Seq<usize>>,
)
    ensures
        phrases_of_all(slots, words, options, a + b) == phrases_of_all(slots, words, options, a)
            + phrases_of_all(slots, words, options, b),
    decreases a.len(),
{
    let all = phrases_of_all(slots, words, options, a + b);
    if a.len() == 0 {
        assert(a + b =~= b);
        assert(all =~= phrases_of_all(slots, words, options, a) + phrases_of_all(
            slots,
            words,
            options,
            b,
        ));
    } else {
        assert((a + b).drop_first() =~= a.drop_first() + b);
        lemma_phrases_of_all_concat(slots, words, options, a.drop_first(), b);
        assert(all =~= phrases_of_all(slots, words, options, a) + phrases_of_all(
            slots,
            words,
            options,
            b,
        ));
    }
}

/// Checks a list of phrases one after the other: the number of the first that leads to the
/// address, and its text.
fn first_match(
    language: Language,
    wordlist: &Vec<String>,
    address: &String,
    list: &Vec<Vec<u16>>,
) -> (r: Option<(usize, String)>)
    requires
        forall|i: int|
            0 <= i < list@.len() ==> space::within(#[trigger] list@[i]@, wordlist@.len()),
    ensures
        match r {
            Some((k, phrase)) => {
                &&& is_first_match(
                    sequences::contents(list@),
                    language,
                    tokenlist::texts(wordlist@),
                    address@,
                    k as int,
                )
                &&& phrase@ == phrase_text_of(list@[k as int]@, tokenlist::texts(wordlist@))
            },
            None => forall|k: int|
                0 <= k < list@.len() ==> !opens(
                    language,
                    tokenlist::texts(wordlist@),
                    address@,
                    #[trigger] sequences::contents(list@)[k],
                ),
        },
{
    let ghost all = sequences::contents(list@);
    let ghost words = tokenlist::texts(wordlist@);
    let mut i: usize = 0;
    while i < list.len()
        invariant
            i <= list@.len(),
            all == sequences::contents(list@),
            words == tokenlist::texts(wordlist@),
            forall|i: int|
                0 <= i < list@.len() ==> space::within(#[trigger] list@[i]@, wordlist@.len()),
            forall|j: int| 0 <= j < i ==> !opens(language, words, address@, #[trigger] all[j]),
        decreases list@.len() - i,
    {
        assert(space::within(list@[i as int]@, wordlist@.len()));
        assert(all[i as int] == list@[i as int]@);
        match check_phrase(language, wordlist, address, list[i].as_slice()) {
            Some(phrase) => {
                return Some((i, phrase));
            },
            None => {},
        }
        i = i + 1;
    }
    None
}

/// The count behind `n` more candidates.
fn count_on(index: usize, n: usize, Ghost(k): Ghost<nat>) -> (r: usize)
    requires
        index == wrapped(k),
    ensures
        r == wrapped(k + n as nat),
{
    proof {
        lemma_wrapped_on(k, n as nat);
    }
    index.wrapping_add(n)
}

/// Searches through all candidates, in order, for a phrase that leads to the address.
///
/// The word list is no longer than indices go, and every known word is in it.
pub fn search_all(
    options: &SearchOptions,
    slots: &[Slot],
    address: &String,
    language: Language,
    wordlist: &Vec<String>,
) -> (r: Option<Found>)
    requires
        wordlist@.len() <= candidates::MAX_WORDS,
        phrases::all_known(tokenlist::slots_view(slots@), tokenlist::texts(wordlist@)),
    ensures
        finds(
            searched(tokenlist::slots_view(slots@), tokenlist::texts(wordlist@), *options),
            language,
            tokenlist::texts(wordlist@),
            address@,
            r,
        ),
{
    let ghost view = tokenlist::slots_view(slots@);
    let ghost words = tokenlist::texts(wordlist@);
    let n: usize = slots.len();
    let ghost count = fewest(options.min_token, n as nat);
    let ghost list = subsets(n as nat, count);
    let ghost whole = searched(view, words, *options);
    let mut selections = Subsets::new(n, options.min_token);
    let mut index: usize = 0;
    let ghost mut done: int = 0;
    proof {
        assert(list.skip(0) =~= list);
        assert(list.take(0) =~= seq![]);
        assert(phrases_of_all(view, words, *options, list.take(0)) =~= seq![]);
        assert(wrapped(0) == 0) by {
            vstd::arithmetic::div_mod::lemma_small_mod(0, (usize::MAX as nat + 1) as nat);
        }
    }
    loop
        invariant
            n == slots@.len(),
            wordlist@.len() <= candidates::MAX_WORDS,
            view == tokenlist::slots_view(slots@),
            words == tokenlist::texts(wordlist@),
            count == fewest(options.min_token, n as nat),
            list == subsets(n as nat, count),
            whole == phrases_of_all(view, words, *options, list),
            phrases::all_known(view, words),
            selections.wf(),
            0 <= done <= list.len(),
            selections.left() == list.skip(done),
            index == wrapped(phrases_of_all(view, words, *options, list.take(done)).len()),
            forall|k: int|
                0 <= k < phrases_of_all(view, words, *options, list.take(done)).len() ==> !opens(
                    language,
                    words,
                    address@,
                    #[trigger] phrases_of_all(view, words, *options, list.take(done))[k],
                ),
        ensures
            done == list.len(),
        decreases list.len() - done,
    {
        match selections.next() {
            None => {
                break;
            },
            Some(chosen) => {
                let ghost before = phrases_of_all(view, words, *options, list.take(done));
                let ghost batch = selection_phrases(view, words, *options, chosen@);
                proof {
                    assert(list.skip(done).drop_first() =~= list.skip(done + 1));
                    assert(chosen@ == list[done]);
                    assert(list.contains(list[done]));
                    lemma_subsets_contains(n as nat, count, chosen@);
                    assert(list =~= list.take(done) + list.skip(done));
                    lemma_phrases_of_all_concat(
                        view,
                        words,
                        *options,
                        list.take(done),
                        list.skip(done),
                    );
                    assert(list.take(done + 1) =~= list.take(done) + seq![chosen@]);
                    lemma_phrases_of_all_concat(
                        view,
                        words,
                        *options,
                        list.take(done),
                        seq![chosen@],
                    );
                    assert(seq![chosen@].drop_first() =~= seq![]);
                    assert(phrases_of_all(view, words, *options, seq![chosen@].drop_first())
                        =~= seq![]);
                    assert(phrases_of_all(view, words, *options, seq![chosen@]) =~= batch);
                }
                let phrases = list_phrases(slots, &chosen, options, wordlist);
                match first_match(language, wordlist, address, &phrases) {
                    Some((k, phrase)) => {
                        let at: usize = count_on(index, k, Ghost(before.len()));
                        proof {
                            let place = before.len() as int + k;
                            assert(whole[place] == batch[k as int]);
                            assert forall|j: int| 0 <= j < place implies !opens(
                                language,
                                words,
                                address@,
                                #[trigger] whole[j],
                            ) by {
                                if j < before.len() {
                                    assert(whole[j] == before[j]);
                                } else {
                                    assert(whole[j] == batch[j - before.len()]);
                                }
                            }
                            assert(is_first_match(whole, language, words, address@, place));
                        }
                        return Some(Found { phrase, index: at });
                    },
                    None => {
                        index = count_on(index, phrases.len(), Ghost(before.len()));
                        proof {
                            let now = phrases_of_all(view, words, *options, list.take(done + 1));
                            assert(now == before + batch);
                            assert forall|k: int| 0 <= k < now.len() implies !opens(
                                language,
                                words,
                                address@,
                                #[trigger] now[k],
                            ) by {
                                if k < before.len() {
                                    assert(now[k] == before[k]);
                                } else {
                                    assert(now[k] == batch[k - before.len()]);
                                }
                            }
                            done = done + 1;
                        }
                    },
                }
            },
        }
    }
    assert(list.take(done) =~= list);
    None
}

/// Searches through all candidates on the CPU, in order, for a phrase that leads to the target.
///
/// Every known word is in the word list of the language.
pub fn run_search_cpu(
    options: &SearchOptions,
    slots: &[Slot],
    target: &Target,
    language: Language,
) -> (r: Option<Found>)
    requires
        phrases::all_known(tokenlist::slots_view(slots@), language::words_of(language)),
    ensures
        finds(
            searched(tokenlist::slots_view(slots@), language::words_of(language), *options),
            language,
            language::words_of(language),
            target.address@,
            r,
        ),
{
    let wordlist = language::wordlist(language);
    search_all(options, slots, &target.address, language, &wordlist)
}

/// Why a search cannot start.
#[derive(Debug)]
pub enum RecoverError {
    /// The address cannot be searched for.
    Target(TargetError),
    /// There is no such language.
    Language(UnknownLanguage),
    /// Something is wrong with the tokenlist.
    Tokenlist(TokenlistError),
}

/// What a recovery gives. The address is read first, then the name of the language, then the
/// tokenlist, and the first that is wrong is the error. If all are right, the candidates are
/// searched.
pub open spec fn recovers(
    address: Seq<char>,
    language_name: Seq<char>,
    content: Seq<char>,
    options: SearchOptions,
    r: Result<Option<Found>, RecoverError>,
) -> bool {
    let slots = tokenlist::slots_of(tokenlist::lines(content));
    match wallet::target_of(wallet::facts_about(address, wallet::Network::Bitcoin)) {
        Err(e) => r matches Err(RecoverError::Target(given)) && given == e,
        Ok((target, _)) => match language::named(language::lowercase(language_name)) {
            None => r matches Err(RecoverError::Language(e)) && e.name@ == language_name,
            Some(l) => if slots.len() == 0 {
                r matches Err(RecoverError::Tokenlist(TokenlistError::Empty { skipped })) && skipped@
                    == tokenlist::skipped_of(tokenlist::lines(content))
            } else if !phrases::all_known(slots, language::words_of(l)) {
                r matches Err(RecoverError::Tokenlist(e)) && validate::checks(
                    slots,
                    language::words_of(l),
                    Err(e),
                )
            } else {
                r matches Ok(found) && finds(
                    searched(slots, language::words_of(l), options),
                    l,
                    language::words_of(l),
                    target,
                    found,
                )
            },
        },
    }
}

/// Recovers a phrase from the text of a tokenlist.
pub fn recover(address: &str, language_name: &str, content: &str, options: &SearchOptions) -> (r:
    Result<Option<Found>, RecoverError>)
    ensures
        recovers(address@, language_name@, content@, *options, r),
{
    let target = match wallet::parse_target(address) {
        Ok(target) => target,
        Err(e) => return Err(RecoverError::Target(e)),
    };
    let language = match language::parse_language(language_name) {
        Ok(language) => language,
        Err(e) => return Err(RecoverError::Language(e)),
    };
    let list = match tokenlist::parse_tokenlist(content) {
        Ok(list) => list,
        Err(e) => return Err(RecoverError::Tokenlist(e)),
    };
    let slots: &[Slot] = list.slots.as_slice();
    match validate::validate_slots(slots, language) {
        Ok(_) => {},
        Err(e) => {
            proof {
                let view = tokenlist::slots_view(slots@);
                let words = language::words_of(language);
                let (s, a, t) = choose|s: int, a: int, t: int|
                    #[trigger] validate::is_first_unknown(view, words, s, a, t);
                validate::lemma_first_unknown(view, words, s, a, t);
            }
            return Err(RecoverError::Tokenlist(e));
        },
    }
    Ok(run_search_cpu(options, slots, &target, language))
}

/// The phrase is a candidate of some selection of slots that is large enough.
pub open spec fn is_searched(
    slots: Seq<Seq<Seq<Option<Seq<char>>>>>,
    words: Seq<Seq<char>>,
    options: SearchOptions,
    p: Seq<u16>,
) -> bool {
    exists|chosen: Seq<usize>|
        {
            &&& fewest(options.min_token, slots.len()) <= chosen.len() <= slots.len()
            &&& sequences::increasing_within(chosen, 0, slots.len())
            &&& space::is_candidate(
                #[trigger] sequences::reordered(slots, chosen),
                words,
                options.keep_token_order,
                options.keep_word_order,
                p,
            )
        }
}

/// What is searched in all selections is what is searched in one of them.
pub proof fn lemma_phrases_of_all_contains(
    slots: Seq<Seq<Seq<Option<Seq<char>>>>>,
    words: Seq<Seq<char>>,
    options: SearchOptions,
    list: Seq<Seq<usize>>,
    p: Seq<u16>,
)
    ensures
        phrases_of_all(slots, words, options, list).contains(p) <==> exists|i: int|
            0 <= i < list.len() && selection_phrases(
                slots,
                words,
                options,
                #[trigger] list[i],
            ).contains(p),
    decreases list.len(),
{
    if list.len() > 0 {
        let rest = list.drop_first();
        lemma_phrases_of_all_contains(slots, words, options, rest, p);
        sequences::lemma_concat_contains(
            selection_phrases(slots, words, options, list[0]),
            phrases_of_all(slots, words, options, rest),
            p,
        );
        if phrases_of_all(slots, words, options, rest).contains(p) {
            let i = choose|i: int|
                0 <= i < rest.len() && selection_phrases(
                    slots,
                    words,
                    options,
                    #[trigger] rest[i],
                ).contains(p);
            assert(selection_phrases(slots, words, options, list[i + 1]).contains(p));
        }
        if exists|i: int|
            0 <= i < list.len() && selection_phrases(
                slots,
                words,
                options,
                #[trigger] list[i],
            ).contains(p) {
            let i = choose|i: int|
                0 <= i < list.len() && selection_phrases(
                    slots,
                    words,
                    options,
                    #[trigger] list[i],
                ).contains(p);
            if i > 0 {
                assert(selection_phrases(slots, words, options, rest[i - 1]).contains(p));
            }
        }
    }
}

/// Everything that is searched is a candidate of a selection that is large enough, and every such
/// candidate is searched.
pub proof fn lemma_searched(
    slots: Seq<Seq<Seq<Option<Seq<char>>>>>,
    words: Seq<Seq<char>>,
    options: SearchOptions,
    p: Seq<u16>,
)
    requires
        space::numbered(slots),
    ensures
        searched(slots, words, options).contains(p) <==> is_searched(slots, words, options, p),
{
    let n = slots.len();
    let count = fewest(options.min_token, n);
    let list = subsets(n, count);
    lemma_phrases_of_all_contains(slots, words, options, list, p);
    if searched(slots, words, options).contains(p) {
        let i = choose|i: int|
            0 <= i < list.len() && selection_phrases(
                slots,
                words,
                options,
                #[trigger] list[i],
            ).contains(p);
        let chosen = list[i];
        assert(list.contains(chosen));
        lemma_subsets_contains(n, count, chosen);
        lemma_chosen(slots, words, chosen);
        let part = sequences::reordered(slots, chosen);
        space::lemma_eager_phrases(
            part,
            words,
            options.keep_token_order,
            options.keep_word_order,
            p,
        );
        assert(space::is_candidate(
            sequences::reordered(slots, chosen),
            words,
            options.keep_token_order,
            options.keep_word_order,
            p,
        ));
    }
    if is_searched(slots, words, options, p) {
        let chosen = choose|chosen: Seq<usize>|
            {
                &&& fewest(options.min_token, slots.len()) <= chosen.len() <= slots.len()
                &&& sequences::increasing_within(chosen, 0, slots.len())
                &&& space::is_candidate(
                    #[trigger] sequences::reordered(slots, chosen),
                    words,
                    options.keep_token_order,
                    options.keep_word_order,
                    p,
                )
            };
        lemma_subsets_contains(n, count, chosen);
        lemma_chosen(slots, words, chosen);
        let part = sequences::reordered(slots, chosen);
        space::lemma_eager_phrases(
            part,
            words,
            options.keep_token_order,
            options.keep_word_order,
            p,
        );
        let i = choose|i: int| 0 <= i < list.len() && list[i] == chosen;
        assert(selection_phrases(slots, words, options, list[i]).contains(p));
    }
}

/// A search finds something if and only if some candidate leads to the address, and what it finds
/// is the text of such a candidate.
pub proof fn lemma_search(
    slots: Seq<Seq<Seq<Option<Seq<char>>>>>,
    words: Seq<Seq<char>>,
    options: SearchOptions,
    language: Language,
    address: Seq<char>,
    r: Option<Found>,
)
    requires
        space::numbered(slots),
        finds(searched(slots, words, options), language, words, address, r),
    ensures
        r is Some <==> exists|p: Seq<u16>| #[trigger]
            is_searched(slots, words, options, p) && opens(language, words, address, p),
        r matches Some(found) ==> exists|p: Seq<u16>|
            {
                &&& #[trigger] is_searched(slots, words, options, p)
                &&& opens(language, words, address, p)
                &&& found.phrase@ == phrase_text_of(p, words)
            },
        r matches Some(found) ==> wallet::derived_address(language, found.phrase@) == Some(address),
{
    let list = searched(slots, words, options);
    match r {
        Some(found) => {
            let k = choose|k: int|
                {
                    &&& #[trigger] is_first_match(list, language, words, address, k)
                    &&& found.phrase@ == phrase_text_of(list[k], words)
                    &&& found.index == wrapped(k as nat)
                };
            assert(list.contains(list[k]));
            lemma_searched(slots, words, options, list[k]);
            assert(is_searched(slots, words, options, list[k]));
        },
        None => {
            assert forall|p: Seq<u16>| #[trigger] is_searched(slots, words, options, p) implies !opens(
                language,
                words,
                address,
                p,
            ) by {
                lemma_searched(slots, words, options, p);
                let k = choose|k: int| 0 <= k < list.len() && list[k] == p;
                assert(!opens(language, words, address, list[k]));
            }
        },
    }
}

/// A recovery from an address that can be searched for, with a language and a tokenlist that are
/// right, finds a phrase if and only if some candidate of the tokenlist leads to the address, and
/// the phrase that it finds leads to it.
pub proof fn lemma_recover(
    address: Seq<char>,
    language_name: Seq<char>,
    content: Seq<char>,
    options: SearchOptions,
    target: Seq<char>,
    hash: Seq<u8>,
    language: Language,
    r: Result<Option<Found>, RecoverError>,
)
    requires
        recovers(address, language_name, content, options, r),
        wallet::target_of(wallet::facts_about(address, wallet::Network::Bitcoin)) == Ok::<
            (Seq<char>, Seq<u8>),
            TargetError,
        >((target, hash)),
        language::named(language::lowercase(language_name)) == Some(language),
        tokenlist::slots_of(tokenlist::lines(content)).len() > 0,
        phrases::all_known(
            tokenlist::slots_of(tokenlist::lines(content)),
            language::words_of(language),
        ),
        space::numbered(tokenlist::slots_of(tokenlist::lines(content))),
    ensures
        r is Ok,
        r->Ok_0 is Some <==> exists|p: Seq<u16>|
            {
                &&& #[trigger] is_searched(
                    tokenlist::slots_of(tokenlist::lines(content)),
                    language::words_of(language),
                    options,
                    p,
                )
                &&& opens(language, language::words_of(language), target, p)
            },
        r->Ok_0 matches Some(found) ==> wallet::derived_address(language, found.phrase@) == Some(
            target,
        ),
{
    lemma_search(
        tokenlist::slots_of(tokenlist::lines(content)),
        language::words_of(language),
        options,
        language,
        target,
        r->Ok_0,
    );
}

/// With fewer slots to take together, nothing that was searched is left out.
pub proof fn lemma_fewer_slots(
    slots: Seq<Seq<Seq<Option<Seq<char>>>>>,
    words: Seq<Seq<char>>,
    options: SearchOptions,
    fewer: SearchOptions,
    p: Seq<u16>,
)
    requires
        fewer.keep_token_order == options.keep_token_order,
        fewer.keep_word_order == options.keep_word_order,
        fewest(fewer.min_token, slots.len()) <= fewest(options.min_token, slots.len()),
        is_searched(slots, words, options, p),
    ensures
        is_searched(slots, words, fewer, p),
{
    let chosen = choose|chosen: Seq<usize>|
        {
            &&& fewest(options.min_token, slots.len()) <= chosen.len() <= slots.len()
            &&& sequences::increasing_within(chosen, 0, slots.len())
            &&& space::is_candidate(
                #[trigger] sequences::reordered(slots, chosen),
                words,
                options.keep_token_order,
                options.keep_word_order,
                p,
            )
        };
    assert(space::is_candidate(
        sequences::reordered(slots, chosen),
        words,
        fewer.keep_token_order,
        fewer.keep_word_order,
        p,
    ));
}

/// A selection of the `n` slots is searched if and only if it takes slots in their order, each at
/// most once, and at least `m` of them, or all if there are not so many. Where no number is asked for,
/// it must take all slots.
pub proof fn lemma_selections_searched(n: nat, m: usize, s: Seq<usize>)
    requires
        n <= usize::MAX,
    ensures
        subsets(n, fewest(Some(m), n)).contains(s) <==> {
            &&& forall|i: int| 0 <= i < s.len() ==> (#[trigger] s[i]) < n
            &&& forall|i: int, j: int| 0 <= i < j < s.len() ==> #[trigger] s[i] < #[trigger] s[j]
            &&& s.len() >= m || s.len() >= n
        },
        subsets(n, fewest(None, n)).contains(s) <==> {
            &&& forall|i: int| 0 <= i < s.len() ==> (#[trigger] s[i]) < n
            &&& forall|i: int, j: int| 0 <= i < j < s.len() ==> #[trigger] s[i] < #[trigger] s[j]
            &&& s.len() >= n
        },
{
    lemma_subsets_contains(n, fewest(Some(m), n), s);
    lemma_subsets_contains(n, fewest(None, n), s);
    if (forall|i: int| 0 <= i < s.len() ==> (#[trigger] s[i]) < n) && (forall|i: int, j: int|
        0 <= i < j < s.len() ==> #[trigger] s[i] < #[trigger] s[j]) {
        lemma_increasing_len(s, n);
        assert(sequences::increasing_within(s, 0, n));
    }
}

proof fn lemma_increasing_len(s: Seq<usize>, n: nat)
    requires
        forall|i: int| 0 <= i < s.len() ==> (#[trigger] s[i]) < n,
        forall|i: int, j: int| 0 <= i < j < s.len() ==> #[trigger] s[i] < #[trigger] s[j],
    ensures
        s.len() <= n,
    decreases s.len(),
{
    if s.len() > 0 {
        let last = s[s.len() - 1];
        let before = s.drop_last();
        assert forall|i: int| 0 <= i < before.len() implies (#[trigger] before[i])
            < last as nat by {
            assert(s[i] < s[s.len() - 1]);
        }
        assert forall|i: int, j: int| 0 <= i < j < before.len() implies #[trigger] before[i]
            < #[trigger] before[j] by {
            assert(s[i] < s[j]);
        }
        lemma_increasing_len(before, last as nat);
    }
}

/// Selections with fewer slots are searched first.
pub proof fn lemma_small_selections_first(n: nat, count: nat, i: int, j: int)
    requires
        n <= usize::MAX,
        0 <= i <= j < subsets(n, count).len(),
    ensures
        subsets(n, count)[i].len() <= subsets(n, count)[j].len(),
    decreases n + 1 - count,
{
    let a = sequences::selections(0, n, count);
    let b = subsets(n, count + 1);
    let all = subsets(n, count);
    if i >= a.len() {
        lemma_small_selections_first(n, count + 1, i - a.len(), j - a.len());
    } else {
        assert(a.contains(a[i]));
        sequences::lemma_selections_contains(0, n, count, a[i]);
        assert(all.contains(all[j]));
        lemma_subsets_contains(n, count, all[j]);
    }
}

/// The text of a phrase is the words that its indices stand for: the first as it is, and each other
/// behind a single space.
pub proof fn lemma_phrase_text(p: Seq<u16>, i: u16, words: Seq<Seq<char>>)
    ensures
        phrase_text_of(Seq::empty(), words) == Seq::<char>::empty(),
        phrase_text_of(seq![i], words) == words[i as int],
        p.len() > 0 ==> phrase_text_of(p.push(i), words) == phrase_text_of(p, words) + seq![' ']
            + words[i as int],
{
    let one = Seq::new(1, |k: int| words[seq![i][k] as int]);
    assert(one[0] == words[i as int]);
    if p.len() > 0 {
        let more = p.push(i);
        let all = Seq::new(more.len(), |k: int| words[more[k] as int]);
        let before = Seq::new(p.len(), |k: int| words[p[k] as int]);
        assert(all.drop_last() =~= before);
        assert(all.last() == words[i as int]);
        assert(phrase_text_of(more, words) =~= phrase_text_of(p, words) + seq![' ']
            + words[i as int]);
    }
}

/// A phrase is searched if and only if some slots, taken in their order and each at most once, make
/// it, and they are as many as are asked for: at least `m`, or all slots.
pub proof fn lemma_searched_phrases(
    slots: Seq<Seq<Seq<Option<Seq<char>>>>>,
    words: Seq<Seq<char>>,
    options: SearchOptions,
    p: Seq<u16>,
)
    requires
        space::numbered(slots),
    ensures
        searched(slots, words, options).contains(p) <==> exists|chosen: Seq<usize>|
            {
                &&& forall|i: int| 0 <= i < chosen.len() ==> (#[trigger] chosen[i]) < slots.len()
                &&& forall|i: int, j: int|
                    0 <= i < j < chosen.len() ==> #[trigger] chosen[i] < #[trigger] chosen[j]
                &&& match options.min_token {
                    Some(m) => chosen.len() >= m || chosen.len() >= slots.len(),
                    None => chosen.len() >= slots.len(),
                }
                &&& space::is_candidate(
                    #[trigger] sequences::reordered(slots, chosen),
                    words,
                    options.keep_token_order,
                    options.keep_word_order,
                    p,
                )
            },
{
    let n = slots.len();
    lemma_searched(slots, words, options, p);
    if is_searched(slots, words, options, p) {
        let chosen = choose|chosen: Seq<usize>|
            {
                &&& fewest(options.min_token, slots.len()) <= chosen.len() <= slots.len()
                &&& sequences::increasing_within(chosen, 0, slots.len())
                &&& space::is_candidate(
                    #[trigger] sequences::reordered(slots, chosen),
                    words,
                    options.keep_token_order,
                    options.keep_word_order,
                    p,
                )
            };
        assert forall|i: int| 0 <= i < chosen.len() implies (#[trigger] chosen[i])
            < slots.len() by {
            assert(0 <= chosen[i] < slots.len());
        }
        let part = sequences::reordered(slots, chosen);
        assert(space::is_candidate(
            part,
            words,
            options.keep_token_order,
            options.keep_word_order,
            p,
        ));
    }
    if exists|chosen: Seq<usize>|
        {
            &&& forall|i: int| 0 <= i < chosen.len() ==> (#[trigger] chosen[i]) < slots.len()
            &&& forall|i: int, j: int|
                0 <= i < j < chosen.len() ==> #[trigger] chosen[i] < #[trigger] chosen[j]
            &&& match options.min_token {
                Some(m) => chosen.len() >= m || chosen.len() >= slots.len(),
                None => chosen.len() >= slots.len(),
            }
            &&& space::is_candidate(
                #[trigger] sequences::reordered(slots, chosen),
                words,
                options.keep_token_order,
                options.keep_word_order,
                p,
            )
        } {
        let chosen = choose|chosen: Seq<usize>|
            {
                &&& forall|i: int| 0 <= i < chosen.len() ==> (#[trigger] chosen[i]) < slots.len()
                &&& forall|i: int, j: int|
                    0 <= i < j < chosen.len() ==> #[trigger] chosen[i] < #[trigger] chosen[j]
                &&& match options.min_token {
                    Some(m) => chosen.len() >= m || chosen.len() >= slots.len(),
                    None => chosen.len() >= slots.len(),
                }
                &&& space::is_candidate(
                    #[trigger] sequences::reordered(slots, chosen),
                    words,
                    options.keep_token_order,
                    options.keep_word_order,
                    p,
                )
            };
        lemma_increasing_len(chosen, n);
        assert(sequences::increasing_within(chosen, 0, n));
        let part = sequences::reordered(slots, chosen);
        assert(is_searched(slots, words, options, p));
    }
}

/// A search finds the first of the phrases that are searched whose text leads to the address, with
/// its number as far as a `usize` counts, and finds nothing if and only if none leads to it.
pub proof fn lemma_first_found(
    list: Seq<Seq<u16>>,
    language: Language,
    words: Seq<Seq<char>>,
    address: Seq<char>,
    r: Option<Found>,
)
    requires
        finds(list, language, words, address, r),
    ensures
        r is None <==> forall|k: int|
            0 <= k < list.len() ==> wallet::derived_address(
                language,
                phrase_text_of(#[trigger] list[k], words),
            ) != Some(address),
        r matches Some(found) ==> exists|k: int|
            {
                &&& 0 <= k < list.len()
                &&& found.phrase@ == phrase_text_of(#[trigger] list[k], words)
                &&& wallet::derived_address(language, found.phrase@) == Some(address)
                &&& k <= usize::MAX ==> found.index == k
                &&& forall|j: int|
                    0 <= j < k ==> wallet::derived_address(
                        language,
                        phrase_text_of(#[trigger] list[j], words),
                    ) != Some(address)
            },
{
    match r {
        None => {
            assert forall|k: int| 0 <= k < list.len() implies wallet::derived_address(
                language,
                phrase_text_of(#[trigger] list[k], words),
            ) != Some(address) by {
                assert(!opens(language, words, address, list[k]));
            }
        },
        Some(found) => {
            let k = choose|k: int|
                {
                    &&& #[trigger] is_first_match(list, language, words, address, k)
                    &&& found.phrase@ == phrase_text_of(list[k], words)
                    &&& found.index == wrapped(k as nat)
                };
            if k <= usize::MAX {
                lemma_wrapped_sum(k as usize, 0);
            }
            assert(opens(language, words, address, list[k]));
            assert forall|j: int| 0 <= j < k implies wallet::derived_address(
                language,
                phrase_text_of(#[trigger] list[j], words),
            ) != Some(address) by {
                assert(!opens(language, words, address, list[j]));
            }
            assert(found.phrase@ == phrase_text_of(list[k], words));
        },
    }
}

/// A recovery fails for the first thing that is wrong: what is no address, an address that is not a
/// legacy one of the main network, a name that is that of no language, a tokenlist without slots, and
/// a word that is not one of the language. If nothing is wrong it does not fail.
pub proof fn lemma_recover_refuses(
    address: Seq<char>,
    language_name: Seq<char>,
    content: Seq<char>,
    options: SearchOptions,
    r: Result<Option<Found>, RecoverError>,
)
    requires
        recovers(address, language_name, content, options, r),
    ensures
        wallet::address_text_of(address) is None ==> (r matches Err(RecoverError::Target(e)) && e
            == TargetError::InvalidAddress),
        r matches Err(RecoverError::Target(e)) ==> wallet::target_of(
            wallet::facts_about(address, wallet::Network::Bitcoin),
        ) is Err,
        r matches Err(RecoverError::Language(e)) ==> {
            &&& e.name@ == language_name
            &&& wallet::target_of(wallet::facts_about(address, wallet::Network::Bitcoin)) is Ok
            &&& forall|l: Language| #[trigger]
                language::name_of(l) != language::lowercase(language_name)
        },
        r matches Err(RecoverError::Tokenlist(TokenlistError::Empty { skipped })) ==> {
            &&& tokenlist::slots_of(tokenlist::lines(content)).len() == 0
            &&& skipped@ == tokenlist::skipped_of(tokenlist::lines(content))
        },
        r matches Err(RecoverError::Tokenlist(TokenlistError::UnknownWord {
            slot,
            alternative,
            word,
        })) ==> exists|l: Language|
            {
                &&& #[trigger] language::name_of(l) == language::lowercase(language_name)
                &&& !language::words_of(l).contains(word@)
            },
        r is Ok ==> {
            &&& wallet::target_of(wallet::facts_about(address, wallet::Network::Bitcoin)) is Ok
            &&& tokenlist::slots_of(tokenlist::lines(content)).len() > 0
            &&& exists|l: Language|
                {
                    &&& #[trigger] language::name_of(l) == language::lowercase(language_name)
                    &&& phrases::all_known(
                        tokenlist::slots_of(tokenlist::lines(content)),
                        language::words_of(l),
                    )
                }
        },
{
    wallet::lemma_refused_target(address);
    let name = language::lowercase(language_name);
    let slots = tokenlist::slots_of(tokenlist::lines(content));
    match language::named(name) {
        None => {
            assert forall|l: Language| #[trigger] language::name_of(l) != name by {
                language::lemma_named(name, l);
            }
        },
        Some(l) => {
            language::lemma_named(name, l);
            assert(language::name_of(l) == name);
            match r {
                Err(RecoverError::Tokenlist(e)) => {
                    if e is UnknownWord {
                        validate::lemma_checks(slots, language::words_of(l), Err(e));
                    }
                },
                _ => {},
            }
        },
    }
}

/// With both orders kept and no word missing, the text of a candidate is the words of one alternative
/// of each slot, just as they were written, joined by single spaces.
pub proof fn lemma_text_as_written(
    slots: Seq<Seq<Seq<Option<Seq<char>>>>>,
    words: Seq<Seq<char>>,
    p: Seq<u16>,
)
    requires
        space::numbered(slots),
        words.len() <= 65536,
        phrases::all_known(slots, words),
        space::is_candidate(slots, words, true, true, p),
        forall|s: int, a: int, t: int|
            0 <= s < slots.len() && 0 <= a < slots[s].len() && 0 <= t < slots[s][a].len() ==> (
            #[trigger] slots[s][a][t]) is Some,
    ensures
        exists|alts: Seq<Seq<Option<Seq<char>>>>|
            {
                &&& alts.len() == slots.len()
                &&& forall|j: int| 0 <= j < slots.len() ==> slots[j].contains(#[trigger] alts[j])
                &&& phrase_text_of(p, words) == text::joined_with(
                    Seq::new(
                        (#[trigger] alts.flatten()).len(),
                        |i: int| alts.flatten()[i]->0,
                    ),
                    ' ',
                )
            },
{
    space::lemma_read_as_written(slots, words, p);
    let alts = choose|alts: Seq<Seq<Option<Seq<char>>>>|
        {
            &&& alts.len() == slots.len()
            &&& forall|j: int| 0 <= j < slots.len() ==> slots[j].contains(#[trigger] alts[j])
            &&& space::reads(#[trigger] alts.flatten(), words, p)
        };
    let whole = alts.flatten();
    assert forall|i: int| 0 <= i < whole.len() implies (#[trigger] whole[i]) is Some by {
        assert(whole.contains(whole[i]));
        sequences::lemma_flatten_contains(alts, whole[i]);
        let j = choose|j: int| 0 <= j < alts.len() && (#[trigger] alts[j]).contains(whole[i]);
        let t = choose|t: int| 0 <= t < alts[j].len() && alts[j][t] == whole[i];
        assert(slots[j].contains(alts[j]));
        let a = choose|a: int| 0 <= a < slots[j].len() && slots[j][a] == alts[j];
        assert(slots[j][a][t] is Some);
    }
    let read = Seq::new(p.len(), |i: int| words[p[i] as int]);
    let wanted = Seq::new(whole.len(), |i: int| whole[i]->0);
    assert forall|i: int| 0 <= i < read.len() implies read[i] == wanted[i] by {
        assert(whole[i] is Some);
        assert(p[i] < words.len());
    }
    assert(read =~= wanted);
    assert(phrase_text_of(p, words) == text::joined_with(wanted, ' '));
}

/// One selection is searched once, with the phrases that are listed for it.
pub proof fn lemma_one_selection(
    slots: Seq<Seq<Seq<Option<Seq<char>>>>>,
    words: Seq<Seq<char>>,
    options: SearchOptions,
    chosen: Seq<usize>,
)
    ensures
        phrases_of_all(slots, words, options, seq![chosen]) == selection_phrases(
            slots,
            words,
            options,
            chosen,
        ),
{
    let one = seq![chosen];
    assert(one.drop_first() =~= seq![]);
    assert(phrases_of_all(slots, words, options, one.drop_first()) =~= seq![]);
    assert(phrases_of_all(slots, words, options, one) =~= selection_phrases(
        slots,
        words,
        options,
        chosen,
    ));
}

} // verus!
