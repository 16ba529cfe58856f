//! Index-based candidate streaming.
//!
//! Hands out fixed `[u16; 12]` arrays of BIP-39 word indices.

use vstd::prelude::*;

use crate::orders;
use crate::replacement;
use crate::sequences;

verus! {

/// The number of words of a phrase.
pub const PHRASE_LEN: usize = 12;

/// The most words that a list can have: as many as there are `u16` indices.
pub const MAX_WORDS: usize = 65536;

/// The word indices of a list of `wordlist_len` words.
pub open spec fn word_indices(wordlist_len: nat) -> Seq<u16> {
    Seq::new(wordlist_len, |i: int| i as u16)
}

/// Every sequence of `tails` with the whole of `head` in front of it.
pub open spec fn extended(head: Seq<u16>, tails: Seq<Seq<u16>>) -> Seq<Seq<u16>> {
    Seq::new(tails.len(), |i: int| head + tails[i])
}

/// `head` with `remaining` word indices behind it, in every way, in lexicographic order.
pub open spec fn filled(head: Seq<u16>, remaining: nat, wordlist_len: nat) -> Seq<Seq<u16>> {
    extended(head, replacement::tuples(word_indices(wordlist_len), remaining))
}

/// `filled` for each of `heads`, one after the other.
pub open spec fn filled_each(
    heads: Seq<Seq<u16>>,
    remaining: nat,
    wordlist_len: nat,
) -> Seq<Seq<u16>>
    decreases heads.len(),
{
    if heads.len() == 0 {
        seq![]
    } else {
        filled(heads[0], remaining, wordlist_len) + filled_each(
            heads.drop_first(),
            remaining,
            wordlist_len,
        )
    }
}

/// The content of a phrase that may be absent.
pub open spec fn phrase_content(given: Option<[u16; 12]>) -> Option<Seq<u16>> {
    match given {
        Some(a) => Some(a@),
        None => None,
    }
}

/// The indices `0..wordlist_len`.
pub(crate) fn all_word_indices(wordlist_len: usize) -> (words: Vec<u16>)
    requires
        wordlist_len <= MAX_WORDS,
    ensures
        words@ == word_indices(wordlist_len as nat),
{
    let mut words: Vec<u16> = Vec::new();
    let mut i: usize = 0;
    while i < wordlist_len
        invariant
            i <= wordlist_len <= MAX_WORDS,
            words@.len() == i,
            forall|j: int| 0 <= j < i ==> words@[j] == j,
        decreases wordlist_len - i,
    {
        words.push(i as u16);
        i = i + 1;
    }
    assert(words@ =~= word_indices(wordlist_len as nat));
    words
}

/// Hands out a fixed beginning followed by fillers, one filling at a time.
pub struct Fillers {
    head: Vec<u16>,
    tails: replacement::PermWithReplacement<u16>,
}

/// Appends `remaining` filler indices (each from `0..wordlist_len`) to `seq`.
///
/// Where there is anything to fill, every index fits a `u16`.
pub fn fill_missing_at_end(seq: Vec<u16>, remaining: usize, wordlist_len: usize) -> (it: Fillers)
    requires
        remaining > 0 ==> wordlist_len <= MAX_WORDS,
    ensures
        it.wf(),
        it.left() == filled(seq@, remaining as nat, wordlist_len as nat),
{
    let words: Vec<u16> = if remaining > 0 {
        all_word_indices(wordlist_len)
    } else {
        Vec::new()
    };
    proof {
        if remaining == 0 {
            assert(replacement::same_choices(words@, 0) =~= replacement::same_choices(
                word_indices(wordlist_len as nat),
                0,
            ));
        }
    }
    let tails = replacement::permutations_with_replacement(words, remaining);
    Fillers { head: seq, tails }
}

impl Fillers {
    /// The cursor over the fillers is in order.
    pub closed spec fn wf(&self) -> bool {
        self.tails.wf()
    }

    /// The sequences that are still to be handed out.
    pub closed spec fn left(&self) -> Seq<Seq<u16>> {
        extended(self.head@, self.tails.left())
    }

    /// Hands out the next sequence, or `None` when all have been handed out.
    pub fn next(&mut self) -> (given: Option<Vec<u16>>)
        requires
            old(self).wf(),
        ensures
            final(self).wf(),
            sequences::takes_first(
                old(self).left(),
                sequences::content(given),
                final(self).left(),
            ),
    {
        let ghost before = self.tails.left();
        match self.tails.next() {
            None => {
                assert(self.left() =~= old(self).left());
                None
            },
            Some(tail) => {
                let mut whole: Vec<u16> = self.head.clone();
                let mut tail = tail;
                whole.append(&mut tail);
                proof {
                    assert(self.left() =~= old(self).left().drop_first());
                    assert(whole@ =~= old(self).left()[0]);
                }
                Some(whole)
            },
        }
    }

    /// Hands out all sequences that are left.
    pub fn collect(self) -> (all: Vec<Vec<u16>>)
        requires
            self.wf(),
        ensures
            sequences::contents(all@) == self.left(),
    {
        let mut it = self;
        let mut all: Vec<Vec<u16>> = Vec::new();
        let ghost whole = self.left();
        assert(sequences::contents(all@) + it.left() =~= whole);
        loop
            invariant
                it.wf(),
                sequences::contents(all@) + it.left() == whole,
            ensures
                sequences::contents(all@) == whole,
            decreases it.left().len(),
        {
            let ghost before = it.left();
            let ghost done = all@;
            match it.next() {
                None => {
                    assert(sequences::contents(all@) + it.left() =~= sequences::contents(all@));
                    break;
                },
                Some(s) => {
                    all.push(s);
                    assert(sequences::contents(all@) =~= sequences::contents(done).push(
                        before[0],
                    ));
                    assert(sequences::contents(all@) + it.left() =~= sequences::contents(done)
                        + before);
                },
            }
        }
        all
    }
}

/// Hands out every candidate made of the known indices, in any order, and fillers behind them.
pub struct Stream {
    known: Vec<u16>,
    missing: usize,
    wordlist_len: usize,
    orders: itertools::Permutations<std::ops::Range<usize>>,
    current: Option<Fillers>,
}

/// Streams every candidate as 12 word indices.
/// Permutes the `known` indices and fills `12 - known.len()` places from `0..wordlist_len`.
///
/// Where there is anything to fill, every index fits a `u16`.
pub fn stream(known: Vec<u16>, wordlist_len: usize) -> (it: Stream)
    requires
        known@.len() <= PHRASE_LEN,
        known@.len() < PHRASE_LEN ==> wordlist_len <= MAX_WORDS,
    ensures
        it.wf(),
        it.left() == filled_each(
            sequences::arrangements(known@, known@.len()),
            (PHRASE_LEN - known@.len()) as nat,
            wordlist_len as nat,
        ),
{
    let n: usize = known.len();
    let missing: usize = PHRASE_LEN - n;
    let orders = orders::permutations(n, n);
    proof {
        sequences::lemma_orders_in_range(n as nat);
        sequences::lemma_arrangements_by_position(known@);
    }
    let it = Stream { known, missing, wordlist_len, orders, current: None };
    assert(it.left() =~= it.later());
    it
}

/// Copies a vector of the length of a phrase into an array.
pub(crate) fn to_phrase(words: &Vec<u16>) -> (phrase: [u16; 12])
    requires
        words@.len() == PHRASE_LEN,
    ensures
        phrase@ == words@,
{
    let mut phrase: [u16; 12] = [0u16;12];
    let mut i: usize = 0;
    while i < 12
        invariant
            i <= 12,
            words@.len() == 12,
            forall|j: int| 0 <= j < i ==> phrase@[j] == words@[j],
        decreases 12 - i,
    {
        phrase[i] = words[i];
        i = i + 1;
    }
    assert(phrase@ =~= words@);
    phrase
}

impl Stream {
    /// What the orders that are still to come give.
    spec fn later(&self) -> Seq<Seq<u16>> {
        filled_each(
            sequences::reordered_each(self.known@, orders::orders_left(self.orders)),
            self.missing as nat,
            self.wordlist_len as nat,
        )
    }

    /// Everything that is still to be handed out has the length of a phrase, and every index that
    /// fills a place fits a `u16`.
    pub closed spec fn wf(&self) -> bool {
        &&& self.known@.len() + self.missing == PHRASE_LEN
        &&& self.missing > 0 ==> self.wordlist_len <= MAX_WORDS
        &&& forall|i: int|
            0 <= i < orders::orders_left(self.orders).len() ==> sequences::is_order(
                #[trigger] orders::orders_left(self.orders)[i],
                self.known@.len(),
            )
        &&& match self.current {
            Some(fillers) => fillers.wf() && forall|i: int|
                0 <= i < fillers.left().len() ==> (#[trigger] fillers.left()[i]).len()
                    == PHRASE_LEN,
            None => true,
        }
    }

    /// The candidates that are still to be handed out.
    pub closed spec fn left(&self) -> Seq<Seq<u16>> {
        match self.current {
            Some(fillers) => fillers.left() + self.later(),
            None => self.later(),
        }
    }

    /// The known indices in the given order.
    fn known_in_order(&self, order: &Vec<usize>) -> (base: Vec<u16>)
        requires
            sequences::is_order(order@, self.known@.len()),
        ensures
            base@ == sequences::reordered(self.known@, order@),
    {
        let mut base: Vec<u16> = Vec::new();
        let mut i: usize = 0;
        while i < order.len()
            invariant
                i <= order@.len(),
                sequences::is_order(order@, self.known@.len()),
                base@.len() == i,
                forall|j: int| 0 <= j < i ==> base@[j] == self.known@[order@[j] as int],
            decreases order@.len() - i,
        {
            base.push(self.known[order[i]]);
            i = i + 1;
        }
        assert(base@ =~= sequences::reordered(self.known@, order@));
        base
    }

    /// Hands out the next candidate, or `None` when all have been handed out.
    pub fn next(&mut self) -> (given: Option<[u16; 12]>)
        requires
            old(self).wf(),
        ensures
            final(self).wf(),
            sequences::takes_first(old(self).left(), phrase_content(given), final(self).left()),
    {
        let ghost whole = self.left();
        loop
            invariant
                self.wf(),
                self.left() == whole,
                whole == old(self).left(),
            decreases
                    orders::orders_left(self.orders).len(),
                    (if self.current is Some { 1nat } else { 0nat }),
        {
            let mut current: Option<Fillers> = None;
            std::mem::swap(&mut current, &mut self.current);
            match current {
                Some(fillers) => {
                    let mut fillers = fillers;
                    let ghost before = fillers.left();
                    match fillers.next() {
                        Some(words) => {
                            let phrase = to_phrase(&words);
                            self.current = Some(fillers);
                            assert(self.left() =~= whole.drop_first());
                            assert forall|i: int| 0 <= i < fillers.left().len() implies (
                            #[trigger] fillers.left()[i]).len() == PHRASE_LEN by {
                                assert(before[i + 1].len() == PHRASE_LEN);
                            }
                            return Some(phrase);
                        },
                        None => {
                            assert(self.left() =~= whole);
                        },
                    }
                },
                None => {
                    let ghost orders_before = orders::orders_left(self.orders);
                    match orders::next_permutation(&mut self.orders) {
                        Some(order) => {
                            assert(sequences::is_order(orders_before[0], self.known@.len()));
                            let base = self.known_in_order(&order);
                            let ghost heads = sequences::reordered_each(
                                self.known@,
                                orders_before,
                            );
                            let fillers = fill_missing_at_end(
                                base,
                                self.missing,
                                self.wordlist_len,
                            );
                            proof {
                                assert(heads.drop_first() =~= sequences::reordered_each(
                                    self.known@,
                                    orders::orders_left(self.orders),
                                ));
                                assert(heads[0] == base@);
                                lemma_filled_lengths(
                                    base@,
                                    self.missing as nat,
                                    self.wordlist_len as nat,
                                );
                            }
                            self.current = Some(fillers);
                            assert forall|i: int|
                                0 <= i < orders::orders_left(
                                    self.orders,
                                ).len() implies sequences::is_order(
                                #[trigger] orders::orders_left(self.orders)[i],
                                self.known@.len(),
                            ) by {
                                assert(sequences::is_order(
                                    orders_before[i + 1],
                                    self.known@.len(),
                                ));
                            }
                        },
                        None => {
                            assert(self.left() =~= whole);
                            assert(whole =~= seq![]);
                            return None;
                        },
                    }
                },
            }
        }
    }
}

/// Filling adds as many items as were asked for.
pub proof fn lemma_filled_lengths(head: Seq<u16>, remaining: nat, wordlist_len: nat)
    ensures
        forall|i: int|
            0 <= i < filled(head, remaining, wordlist_len).len() ==> (#[trigger] filled(
                head,
                remaining,
                wordlist_len,
            )[i]).len() == head.len() + remaining,
{
    let pool = word_indices(wordlist_len);
    let tails = replacement::tuples(pool, remaining);
    assert forall|i: int| 0 <= i < tails.len() implies (#[trigger] tails[i]).len() == remaining by {
        assert(tails.contains(tails[i]));
        sequences::lemma_product_contains(replacement::same_choices(pool, remaining), tails[i]);
    }
}

/// There are as many fillings as there are words, to the power of the places that are filled.
pub proof fn lemma_filled_len(head: Seq<u16>, remaining: nat, wordlist_len: nat)
    ensures
        filled(head, remaining, wordlist_len).len() == sequences::power(
            wordlist_len,
            remaining,
        ),
{
    let pool = word_indices(wordlist_len);
    sequences::lemma_product_len(replacement::same_choices(pool, remaining), pool.len());
}

/// The fillings are exactly the sequences that start with `head` and go on with as many indices of
/// words as there are places.
pub proof fn lemma_filled_contains(
    head: Seq<u16>,
    remaining: nat,
    wordlist_len: nat,
    s: Seq<u16>,
)
    ensures
        filled(head, remaining, wordlist_len).contains(s) <==> {
            &&& s.len() == head.len() + remaining
            &&& s.take(head.len() as int) == head
            &&& forall|i: int|
                head.len() <= i < s.len() ==> (#[trigger] s[i]) < wordlist_len
        },
{
    let pool = word_indices(wordlist_len);
    let choices = replacement::same_choices(pool, remaining);
    let tails = replacement::tuples(pool, remaining);
    let all = filled(head, remaining, wordlist_len);
    let n = head.len() as int;
    if all.contains(s) {
        let k = choose|k: int| 0 <= k < all.len() && all[k] == s;
        assert(tails.contains(tails[k]));
        sequences::lemma_product_contains(choices, tails[k]);
        assert(s.take(n) =~= head);
        assert forall|i: int| n <= i < s.len() implies (#[trigger] s[i]) < wordlist_len by {
            assert(choices[i - n].contains(tails[k][i - n]));
        }
    }
    if s.len() == head.len() + remaining && s.take(n) == head && (forall|i: int|
        n <= i < s.len() ==> (#[trigger] s[i]) < wordlist_len) {
        let tail = s.skip(n);
        assert forall|i: int| 0 <= i < choices.len() implies (#[trigger] choices[i]).contains(
            tail[i],
        ) by {
            assert(s[i + n] < wordlist_len);
            assert(pool[tail[i] as int] == tail[i]);
        }
        sequences::lemma_product_contains(choices, tail);
        let k = choose|k: int| 0 <= k < tails.len() && tails[k] == tail;
        assert(s.take(n) + s.skip(n) =~= s);
        assert(all[k] == s);
    }
}

/// No filling comes twice.
pub proof fn lemma_filled_no_duplicates(head: Seq<u16>, remaining: nat, wordlist_len: nat)
    requires
        wordlist_len <= MAX_WORDS,
    ensures
        filled(head, remaining, wordlist_len).no_duplicates(),
{
    let pool = word_indices(wordlist_len);
    let choices = replacement::same_choices(pool, remaining);
    let tails = replacement::tuples(pool, remaining);
    let all = filled(head, remaining, wordlist_len);
    assert forall|i: int| 0 <= i < choices.len() implies (#[trigger] choices[i]).no_duplicates() by {
        assert(pool.no_duplicates());
    }
    sequences::lemma_product_no_duplicates(choices);
    assert forall|i: int, j: int| 0 <= i < all.len() && 0 <= j < all.len() && i != j implies all[i]
        != all[j] by {
        assert(all[i].skip(head.len() as int) =~= tails[i]);
        assert(all[j].skip(head.len() as int) =~= tails[j]);
        assert(tails[i] != tails[j]);
    }
}

proof fn lemma_filled_each_len(heads: Seq<Seq<u16>>, remaining: nat, wordlist_len: nat)
    ensures
        filled_each(heads, remaining, wordlist_len).len() == heads.len() * sequences::power(
            wordlist_len,
            remaining,
        ),
    decreases heads.len(),
{
    let p = sequences::power(wordlist_len, remaining);
    if heads.len() > 0 {
        lemma_filled_len(heads[0], remaining, wordlist_len);
        lemma_filled_each_len(heads.drop_first(), remaining, wordlist_len);
        assert(heads.len() * p == p + (heads.len() - 1) * p) by (nonlinear_arith);
    }
}

/// A stream hands out as many candidates as there are orders of the known indices, times as many
/// as there are fillings of the other places.
pub proof fn lemma_stream_len(known: Seq<u16>, wordlist_len: nat)
    requires
        known.len() <= PHRASE_LEN,
    ensures
        filled_each(
            sequences::arrangements(known, known.len()),
            (PHRASE_LEN - known.len()) as nat,
            wordlist_len,
        ).len() == sequences::factorial(known.len()) * sequences::power(
            wordlist_len,
            (PHRASE_LEN - known.len()) as nat,
        ),
{
    sequences::lemma_arrangements_len(known);
    lemma_filled_each_len(
        sequences::arrangements(known, known.len()),
        (PHRASE_LEN - known.len()) as nat,
        wordlist_len,
    );
}

proof fn lemma_filled_each_contains(
    heads: Seq<Seq<u16>>,
    remaining: nat,
    wordlist_len: nat,
    s: Seq<u16>,
)
    ensures
        filled_each(heads, remaining, wordlist_len).contains(s) <==> exists|i: int|
            0 <= i < heads.len() && filled(
                #[trigger] heads[i],
                remaining,
                wordlist_len,
            ).contains(s),
    decreases heads.len(),
{
    if heads.len() > 0 {
        let rest = heads.drop_first();
        lemma_filled_each_contains(rest, remaining, wordlist_len, s);
        sequences::lemma_concat_contains(
            filled(heads[0], remaining, wordlist_len),
            filled_each(rest, remaining, wordlist_len),
            s,
        );
        if filled_each(rest, remaining, wordlist_len).contains(s) {
            let i = choose|i: int|
                0 <= i < rest.len() && filled(
                    #[trigger] rest[i],
                    remaining,
                    wordlist_len,
                ).contains(s);
            assert(filled(heads[i + 1], remaining, wordlist_len).contains(s));
        }
        if exists|i: int|
            0 <= i < heads.len() && filled(
                #[trigger] heads[i],
                remaining,
                wordlist_len,
            ).contains(s) {
            let i = choose|i: int|
                0 <= i < heads.len() && filled(
                    #[trigger] heads[i],
                    remaining,
                    wordlist_len,
                ).contains(s);
            if i > 0 {
                assert(filled(rest[i - 1], remaining, wordlist_len).contains(s));
            }
        }
    }
}

/// A stream hands out exactly the phrases that start with the known indices, in any order, and go
/// on with indices of words.
pub proof fn lemma_stream_contains(known: Seq<u16>, wordlist_len: nat, s: Seq<u16>)
    requires
        known.len() <= PHRASE_LEN,
    ensures
        filled_each(
            sequences::arrangements(known, known.len()),
            (PHRASE_LEN - known.len()) as nat,
            wordlist_len,
        ).contains(s) <==> {
            &&& s.len() == PHRASE_LEN
            &&& s.take(known.len() as int).to_multiset() == known.to_multiset()
            &&& forall|i: int|
                known.len() <= i < s.len() ==> (#[trigger] s[i]) < wordlist_len
        },
{
    broadcast use vstd::seq_lib::group_to_multiset_ensures;

    let heads = sequences::arrangements(known, known.len());
    let remaining = (PHRASE_LEN - known.len()) as nat;
    let n = known.len() as int;
    lemma_filled_each_contains(heads, remaining, wordlist_len, s);
    if filled_each(heads, remaining, wordlist_len).contains(s) {
        let i = choose|i: int|
            0 <= i < heads.len() && filled(#[trigger] heads[i], remaining, wordlist_len).contains(
                s,
            );
        assert(heads.contains(heads[i]));
        sequences::lemma_arrangements_contains(known, heads[i]);
        assert(heads[i].to_multiset().len() == heads[i].len() && known.to_multiset().len()
            == known.len());
        lemma_filled_contains(heads[i], remaining, wordlist_len, s);
    }
    if s.len() == PHRASE_LEN && s.take(n).to_multiset() == known.to_multiset() && (forall|i: int|
        n <= i < s.len() ==> (#[trigger] s[i]) < wordlist_len) {
        let head = s.take(n);
        sequences::lemma_arrangements_contains(known, head);
        let i = choose|i: int| 0 <= i < heads.len() && heads[i] == head;
        assert(s.take(head.len() as int) =~= head);
        lemma_filled_contains(head, remaining, wordlist_len, s);
        assert(filled(heads[i], remaining, wordlist_len).contains(s));
    }
}

/// To fill no place is to leave the beginning alone. To fill one place more is to put each index in
/// turn behind it, and to fill the other places behind that.
pub proof fn lemma_filled_step(head: Seq<u16>, remaining: nat, wordlist_len: nat, i: int, j: int)
    requires
        0 <= i < wordlist_len <= 65536,
        0 <= j < filled(head, remaining, wordlist_len).len(),
    ensures
        filled(head, 0, wordlist_len) == seq![head],
        ({
            let n = filled(head, remaining, wordlist_len).len();
            let more = filled(head, remaining + 1, wordlist_len);
            &&& 0 <= i * n + j < more.len()
            &&& more[i * n + j] == filled(head.push(i as u16), remaining, wordlist_len)[j]
        }),
{
    let pool = word_indices(wordlist_len);
    replacement::lemma_tuples_order(pool, remaining, i, j);
    let tails = replacement::tuples(pool, remaining);
    assert(filled(head, 0, wordlist_len)[0] =~= head);
    assert(filled(head, 0, wordlist_len) =~= seq![head]);
    assert(head + (seq![pool[i]] + tails[j]) =~= head.push(i as u16) + tails[j]);
}

/// The fillings come in lexicographic order.
pub proof fn lemma_filled_lexicographic(
    head: Seq<u16>,
    remaining: nat,
    wordlist_len: nat,
    i: int,
    j: int,
)
    requires
        wordlist_len <= 65536,
        0 <= i < j < filled(head, remaining, wordlist_len).len(),
    ensures
        sequences::precedes(
            filled(head, remaining, wordlist_len)[i],
            filled(head, remaining, wordlist_len)[j],
        ),
{
    let pool = word_indices(wordlist_len);
    assert(pool =~= Seq::new(wordlist_len, |x: int| x as u16));
    let tails = replacement::tuples(pool, remaining);
    replacement::lemma_tuples_lexicographic(wordlist_len, remaining, i, j);
    let x = tails[i];
    let y = tails[j];
    let p = choose|p: int|
        0 <= p < x.len() && p < y.len() && (#[trigger] x[p]) < y[p] && forall|q: int|
            0 <= q < p ==> (#[trigger] x[q]) == y[q];
    let a = head + x;
    let b = head + y;
    let n = head.len() as int;
    assert(a[n + p] < b[n + p]);
    assert forall|q: int| 0 <= q < n + p implies (#[trigger] a[q]) == b[q] by {
        if q >= n {
            assert(x[q - n] == y[q - n]);
        }
    }
}

/// A stream goes through all fillings behind one order of the known indices before it takes the next
/// order.
pub proof fn lemma_filled_each_concat(
    a: Seq<Seq<u16>>,
    b: Seq<Seq<u16>>,
    head: Seq<u16>,
    remaining: nat,
    wordlist_len: nat,
)
    ensures
        filled_each(a + b, remaining, wordlist_len) == filled_each(a, remaining, wordlist_len)
            + filled_each(b, remaining, wordlist_len),
        filled_each(seq![head], remaining, wordlist_len) == filled(head, remaining, wordlist_len),
    decreases a.len(),
{
    let one = seq![head];
    assert(one.drop_first() =~= seq![]);
    assert(filled_each(one.drop_first(), remaining, wordlist_len) =~= seq![]);
    assert(filled_each(one, remaining, wordlist_len) =~= filled(head, remaining, wordlist_len));
    if a.len() == 0 {
        assert(a + b =~= b);
        assert(filled_each(a, remaining, wordlist_len) + filled_each(b, remaining, wordlist_len)
            =~= filled_each(b, remaining, wordlist_len));
    } else {
        assert((a + b).drop_first() =~= a.drop_first() + b);
        lemma_filled_each_concat(a.drop_first(), b, head, remaining, wordlist_len);
        assert(filled_each(a + b, remaining, wordlist_len) =~= filled_each(
            a,
            remaining,
            wordlist_len,
        ) + filled_each(b, remaining, wordlist_len));
    }
}

} // verus!
