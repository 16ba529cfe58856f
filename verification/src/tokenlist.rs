//! The tokenlist: what is remembered of a phrase, as slots, alternatives and words.
//!
//! One line is one slot. Blank lines and lines that start with `#` are ignored. The alternatives
//! of a slot are separated by white space, and the words of an alternative by commas. A bare `?`
//! stands for a missing word.

use vstd::prelude::*;

use crate::sequences;
use crate::text;

verus! {

/// One place of an alternative.
#[derive(Debug, Clone)]
pub enum Token {
    /// A word that is known.
    Word(String),
    /// A word to be searched for.
    Missing,
}

/// Words that belong together, in the order in which they were written.
pub type Alternative = Vec<Token>;

/// The alternatives of one line.
pub type Slot = Vec<Alternative>;

impl View for Token {
    type V = Option<Seq<char>>;

    /// The word, or `None` for a missing one.
    open spec fn view(&self) -> Option<Seq<char>> {
        match self {
            Token::Word(word) => Some(word@),
            Token::Missing => None,
        }
    }
}

/// The content of an alternative.
pub open spec fn alternative_view(alternative: Seq<Token>) -> Seq<Option<Seq<char>>> {
    Seq::new(alternative.len(), |i: int| alternative[i]@)
}

/// The content of a slot.
pub open spec fn slot_view(slot: Seq<Alternative>) -> Seq<Seq<Option<Seq<char>>>> {
    Seq::new(slot.len(), |i: int| alternative_view(slot[i]@))
}

/// The content of a list of slots.
pub open spec fn slots_view(slots: Seq<Slot>) -> Seq<Seq<Seq<Option<Seq<char>>>>> {
    Seq::new(slots.len(), |i: int| slot_view(slots[i]@))
}

/// The contents of a list of texts.
pub open spec fn texts(list: Seq<String>) -> Seq<Seq<char>> {
    Seq::new(list.len(), |i: int| list[i]@)
}

/// What a word of the list stands for: a bare `?` is a missing word.
pub open spec fn token_of(word: Seq<char>) -> Option<Seq<char>> {
    if word == seq!['?'] {
        None
    } else {
        Some(word)
    }
}

/// The fields of a line: what stands between white space.
pub open spec fn fields(line: Seq<char>) -> Seq<Seq<char>> {
    text::nonempty(text::pieces(line, text::Separator::WhiteSpace))
}

/// The alternative that a field stands for: what stands between commas.
pub open spec fn alternative_of(field: Seq<char>) -> Seq<Option<Seq<char>>> {
    let words = text::nonempty(text::pieces(field, text::Separator::Comma));
    Seq::new(words.len(), |i: int| token_of(words[i]))
}

/// A blank line or a comment.
pub open spec fn is_ignored(line: Seq<char>) -> bool {
    fields(line).len() == 0 || fields(line)[0][0] == '#'
}

/// The alternatives of a line. A field of commas alone is no alternative.
pub open spec fn alternatives_of(line: Seq<char>) -> Seq<Seq<Option<Seq<char>>>> {
    text::nonempty(Seq::new(fields(line).len(), |i: int| alternative_of(fields(line)[i])))
}

/// The lines of a text.
pub open spec fn lines(content: Seq<char>) -> Seq<Seq<char>> {
    text::pieces(content, text::Separator::LineFeed)
}

/// The slots of the given lines: one for each line that is not ignored and has an alternative.
pub open spec fn slots_of(lines: Seq<Seq<char>>) -> Seq<Seq<Seq<Option<Seq<char>>>>>
    decreases lines.len(),
{
    if lines.len() == 0 {
        seq![]
    } else {
        let before = slots_of(lines.drop_last());
        let line = lines.last();
        if is_ignored(line) || alternatives_of(line).len() == 0 {
            before
        } else {
            before.push(alternatives_of(line))
        }
    }
}

/// The numbers, from 1, of the lines that are not ignored and yet have no alternative.
pub open spec fn skipped_of(lines: Seq<Seq<char>>) -> Seq<usize>
    decreases lines.len(),
{
    if lines.len() == 0 {
        seq![]
    } else {
        let before = skipped_of(lines.drop_last());
        let line = lines.last();
        if !is_ignored(line) && alternatives_of(line).len() == 0 {
            before.push(lines.len() as usize)
        } else {
            before
        }
    }
}

/// Every slot has an alternative, and every alternative has a token.
pub open spec fn is_filled(slots: Seq<Slot>) -> bool {
    forall|s: int|
        0 <= s < slots.len() ==> (#[trigger] slots[s])@.len() > 0 && forall|a: int|
            0 <= a < slots[s]@.len() ==> (#[trigger] slots[s]@[a])@.len() > 0
}

/// A parsed tokenlist.
#[derive(Debug)]
pub struct Tokenlist {
    /// The slots, in the order of the lines.
    pub slots: Vec<Slot>,
    /// The numbers, from 1, of the lines that were skipped because nothing was left of them.
    pub skipped: Vec<usize>,
}

/// What can be wrong with a tokenlist.
#[derive(Debug)]
pub enum TokenlistError {
    /// There is no slot. The numbers, from 1, are those of the lines that were skipped because
    /// nothing was left of them.
    Empty { skipped: Vec<usize> },
    /// A word is not in the word list. Slots and alternatives are numbered from 1.
    UnknownWord { slot: usize, alternative: usize, word: String },
}

fn parse_alternative(field: &Vec<char>) -> (alternative: Alternative)
    ensures
        alternative_view(alternative@) == alternative_of(field@),
{
    let words = text::split_nonempty(field, text::Separator::Comma);
    let ghost all = text::nonempty(text::pieces(field@, text::Separator::Comma));
    let mut alternative: Alternative = Vec::new();
    let mut i: usize = 0;
    while i < words.len()
        invariant
            i <= words@.len(),
            all == sequences::contents(words@),
            alternative@.len() == i,
            forall|j: int| 0 <= j < i ==> (#[trigger] alternative@[j])@ == token_of(all[j]),
        decreases words@.len() - i,
    {
        let word: &Vec<char> = &words[i];
        assert(all[i as int] == word@);
        if word.len() == 1 && word[0] == '?' {
            assert(word@ =~= seq!['?']);
            alternative.push(Token::Missing);
        } else {
            assert(word@ != seq!['?']);
            alternative.push(Token::Word(text::from_chars(word)));
        }
        i = i + 1;
    }
    assert(alternative_view(alternative@) =~= alternative_of(field@));
    alternative
}

fn parse_slot(line_fields: &Vec<Vec<char>>) -> (slot: Slot)
    ensures
        slot_view(slot@) == text::nonempty(
            Seq::new(line_fields@.len(), |i: int| alternative_of(line_fields@[i]@)),
        ),
{
    let ghost all = Seq::new(line_fields@.len(), |i: int| alternative_of(line_fields@[i]@));
    let mut slot: Slot = Vec::new();
    let mut i: usize = 0;
    assert(slot_view(slot@) =~= text::nonempty(all.take(0)));
    while i < line_fields.len()
        invariant
            i <= line_fields@.len(),
            all == Seq::new(line_fields@.len(), |i: int| alternative_of(line_fields@[i]@)),
            slot_view(slot@) == text::nonempty(all.take(i as int)),
        decreases line_fields@.len() - i,
    {
        let ghost before = slot_view(slot@);
        assert(all.take(i + 1).drop_last() =~= all.take(i as int));
        let alternative = parse_alternative(&line_fields[i]);
        assert(alternative_view(alternative@) == all[i as int]);
        if alternative.len() > 0 {
            slot.push(alternative);
            assert(slot_view(slot@) =~= before.push(all[i as int]));
        }
        i = i + 1;
    }
    assert(all.take(i as int) =~= all);
    slot
}

/// Reads a tokenlist. The error comes if and only if no line gives a slot.
pub fn parse_tokenlist(content: &str) -> (r: Result<Tokenlist, TokenlistError>)
    ensures
        match r {
            Ok(list) => {
                &&& slots_view(list.slots@) == slots_of(lines(content@))
                &&& list.slots@.len() > 0
                &&& list.skipped@ == skipped_of(lines(content@))
                &&& is_filled(list.slots@)
            },
            Err(e) => {
                &&& slots_of(lines(content@)).len() == 0
                &&& e matches TokenlistError::Empty { skipped } && skipped@ == skipped_of(
                    lines(content@),
                )
            },
        },
{
    let chars = text::to_chars(content);
    let rows = text::split(&chars, text::Separator::LineFeed);
    let ghost all = lines(content@);
    let mut slots: Vec<Slot> = Vec::new();
    let mut skipped: Vec<usize> = Vec::new();
    let mut i: usize = 0;
    assert(slots_view(slots@) =~= slots_of(all.take(0)));
    assert(skipped@ =~= skipped_of(all.take(0)));
    while i < rows.len()
        invariant
            i <= rows@.len(),
            all == sequences::contents(rows@),
            slots_view(slots@) == slots_of(all.take(i as int)),
            skipped@ == skipped_of(all.take(i as int)),
            is_filled(slots@),
        decreases rows@.len() - i,
    {
        let ghost before = slots_view(slots@);
        let ghost old_slots = slots@;
        assert(all.take(i + 1).drop_last() =~= all.take(i as int));
        assert(all.take(i + 1).last() == rows@[i as int]@);
        let line_fields = text::split_nonempty(&rows[i], text::Separator::WhiteSpace);
        let ghost line = rows@[i as int]@;
        i = i + 1;
        proof {
            assert(fields(line) == sequences::contents(line_fields@));
            text::lemma_nonempty(text::pieces(line, text::Separator::WhiteSpace));
        }
        if line_fields.len() == 0 {
            continue ;
        }
        assert(fields(line)[0] == line_fields@[0]@);
        if line_fields[0][0] == '#' {
            continue ;
        }
        let slot = parse_slot(&line_fields);
        assert(Seq::new(
            line_fields@.len(),
            |i: int| alternative_of(line_fields@[i]@),
        ) =~= Seq::new(fields(line).len(), |i: int| alternative_of(fields(line)[i])));
        if slot.len() == 0 {
            skipped.push(i);
        } else {
            proof {
                let view = slot_view(slot@);
                text::lemma_nonempty(
                    Seq::new(fields(line).len(), |i: int| alternative_of(fields(line)[i])),
                );
                assert forall|a: int| 0 <= a < slot@.len() implies (#[trigger] slot@[a])@.len()
                    > 0 by {
                    assert(view[a].len() > 0);
                }
            }
            slots.push(slot);
            assert(slots_view(slots@) =~= before.push(slot_view(slot@)));
            assert forall|s: int| 0 <= s < slots@.len() implies (#[trigger] slots@[s])@.len() > 0
                && forall|a: int|
                0 <= a < slots@[s]@.len() ==> (#[trigger] slots@[s]@[a])@.len() > 0 by {
                if s < old_slots.len() {
                    assert(slots@[s] == old_slots[s]);
                }
            }
        }
    }
    assert(all.take(i as int) =~= all);
    if slots.len() == 0 {
        assert(slots_of(all) =~= seq![]);
        Err(TokenlistError::Empty { skipped })
    } else {
        Ok(Tokenlist { slots, skipped })
    }
}

/// The slots of some lines and of others behind them are the slots of both.
pub proof fn lemma_slots_of_concat(a: Seq<Seq<char>>, b: Seq<Seq<char>>)
    ensures
        slots_of(a + b) == slots_of(a) + slots_of(b),
    decreases b.len(),
{
    if b.len() == 0 {
        assert(a + b =~= a);
        assert(slots_of(a) + slots_of(b) =~= slots_of(a));
    } else {
        lemma_slots_of_concat(a, b.drop_last());
        assert((a + b).drop_last() =~= a + b.drop_last());
        assert(slots_of(a + b) =~= slots_of(a) + slots_of(b));
    }
}

/// The lines of a text that goes on behind a line feed are those before and those behind it.
pub proof fn lemma_lines_between(a: Seq<char>, b: Seq<char>)
    ensures
        lines(a.push('\n') + b) == lines(a) + lines(b),
{
    text::lemma_pieces_between(a, '\n', b, text::Separator::LineFeed);
}

/// Blank lines and comments are ignored: with such a line between two others the slots are the
/// same as without it.
pub proof fn lemma_ignored_line(a: Seq<char>, line: Seq<char>, b: Seq<char>)
    requires
        text::is_whole(line, text::Separator::LineFeed),
        is_ignored(line),
    ensures
        slots_of(lines((a.push('\n') + line).push('\n') + b)) == slots_of(
            lines(a.push('\n') + b),
        ),
{
    lemma_lines_between(a.push('\n') + line, b);
    lemma_lines_between(a, line);
    lemma_lines_between(a, b);
    text::lemma_whole_piece(line, text::Separator::LineFeed);
    lemma_slots_of_concat(lines(a) + lines(line), lines(b));
    lemma_slots_of_concat(lines(a), lines(line));
    lemma_slots_of_concat(lines(a), lines(b));
    assert(seq![line].drop_last() =~= seq![]);
    assert(slots_of(seq![line].drop_last()) =~= seq![]);
    assert(slots_of(lines(line)) =~= seq![]);
    assert(slots_of(lines(a)) + slots_of(lines(line)) =~= slots_of(lines(a)));
}

/// The first character that is not white space.
pub open spec fn first_char(line: Seq<char>) -> Option<char>
    decreases line.len(),
{
    if line.len() == 0 {
        None
    } else {
        match first_char(line.drop_last()) {
            Some(c) => Some(c),
            None => if text::is_white_space(line.last()) {
                None
            } else {
                Some(line.last())
            },
        }
    }
}

proof fn lemma_first_field(line: Seq<char>)
    ensures
        match first_char(line) {
            Some(c) => fields(line).len() > 0 && fields(line)[0].len() > 0 && fields(line)[0][0]
                == c,
            None => fields(line).len() == 0 && text::pieces(
                line,
                text::Separator::WhiteSpace,
            ).last().len() == 0,
        },
    decreases line.len(),
{
    let sep = text::Separator::WhiteSpace;
    if line.len() == 0 {
        let all = text::pieces(line, sep);
        assert(all.drop_last() =~= seq![]);
        assert(text::nonempty(all.drop_last()) =~= seq![]);
    } else {
        let before = line.drop_last();
        let p = text::pieces(before, sep);
        let all = text::pieces(line, sep);
        lemma_first_field(before);
        text::lemma_some_piece(before, sep);
        if text::is_white_space(line.last()) {
            assert(all.drop_last() =~= p);
        } else {
            assert(all.drop_last() =~= p.drop_last());
            let known = text::nonempty(p.drop_last());
            assert(fields(line) == known.push(p.last().push(line.last())));
        }
    }
}

/// A line is ignored if and only if it is blank or its first character that is not white space is
/// `#`.
pub proof fn lemma_ignored(line: Seq<char>)
    ensures
        is_ignored(line) <==> first_char(line) is None || first_char(line) == Some('#'),
{
    lemma_first_field(line);
}

/// A word that can be written: it is not empty and holds neither white space nor a comma.
pub open spec fn is_writable(word: Seq<char>) -> bool {
    &&& word.len() > 0
    &&& forall|i: int|
        0 <= i < word.len() ==> (#[trigger] word[i]) != ',' && !text::is_white_space(word[i])
}

/// An alternative as it is written: its words with commas between them.
pub open spec fn written_alternative(words: Seq<Seq<char>>) -> Seq<char> {
    text::joined_with(words, ',')
}

/// A slot as it is written: its alternatives with spaces between them.
pub open spec fn written_slot(slot: Seq<Seq<Seq<char>>>) -> Seq<char> {
    text::joined_with(Seq::new(slot.len(), |a: int| written_alternative(slot[a])), ' ')
}

/// A tokenlist as it is written: one slot a line.
pub open spec fn written(slots: Seq<Seq<Seq<Seq<char>>>>) -> Seq<char> {
    text::joined_with(Seq::new(slots.len(), |s: int| written_slot(slots[s])), '\n')
}

/// The tokens of a slot as it is written.
pub open spec fn tokens_of(slot: Seq<Seq<Seq<char>>>) -> Seq<Seq<Option<Seq<char>>>> {
    Seq::new(
        slot.len(),
        |a: int| Seq::new(slot[a].len(), |t: int| token_of(slot[a][t])),
    )
}

/// A slot that can be written: every alternative has a word, every word can be written, and the
/// first does not start a comment.
pub open spec fn is_writable_slot(slot: Seq<Seq<Seq<char>>>) -> bool {
    &&& slot.len() > 0
    &&& forall|a: int| 0 <= a < slot.len() ==> (#[trigger] slot[a]).len() > 0
    &&& forall|a: int, t: int|
        0 <= a < slot.len() && 0 <= t < slot[a].len() ==> is_writable(#[trigger] slot[a][t])
    &&& slot[0][0][0] != '#'
}

proof fn lemma_written_alternative(words: Seq<Seq<char>>)
    requires
        words.len() > 0,
        forall|t: int| 0 <= t < words.len() ==> is_writable(#[trigger] words[t]),
    ensures
        alternative_of(written_alternative(words)) == Seq::new(
            words.len(),
            |t: int| token_of(words[t]),
        ),
        text::is_whole(written_alternative(words), text::Separator::WhiteSpace),
        written_alternative(words).len() > 0,
        written_alternative(words)[0] == words[0][0],
{
    let w = written_alternative(words);
    assert forall|t: int| 0 <= t < words.len() implies text::is_whole(
        #[trigger] words[t],
        text::Separator::Comma,
    ) by {
        assert(is_writable(words[t]));
    }
    assert forall|t: int| 0 <= t < words.len() implies (#[trigger] words[t]).len() > 0 by {
        assert(is_writable(words[t]));
    }
    text::lemma_pieces_joined(words, ',', text::Separator::Comma);
    text::lemma_nonempty_all(words);
    assert(is_writable(words[0]));
    text::lemma_joined_first(words, ',');
    assert forall|i: int| 0 <= i < w.len() implies !text::separates(
        text::Separator::WhiteSpace,
        #[trigger] w[i],
    ) by {
        text::lemma_joined_chars(words, ',', i);
        if w[i] != ',' {
            let k = choose|k: int| 0 <= k < words.len() && (#[trigger] words[k]).contains(w[i]);
            assert(is_writable(words[k]));
            let j = choose|j: int| 0 <= j < words[k].len() && words[k][j] == w[i];
            assert(!text::is_white_space(words[k][j]));
        }
    }
}

/// A line is read as the slot that was written: alternatives are separated by white space, words
/// by commas, and a bare `?` is a missing word.
pub proof fn lemma_written_slot(slot: Seq<Seq<Seq<char>>>)
    requires
        is_writable_slot(slot),
    ensures
        !is_ignored(written_slot(slot)),
        alternatives_of(written_slot(slot)) == tokens_of(slot),
        text::is_whole(written_slot(slot), text::Separator::LineFeed),
{
    let parts = Seq::new(slot.len(), |a: int| written_alternative(slot[a]));
    let line = written_slot(slot);
    assert forall|a: int| 0 <= a < slot.len() implies {
        &&& text::is_whole(#[trigger] parts[a], text::Separator::WhiteSpace)
        &&& parts[a].len() > 0
        &&& alternative_of(parts[a]) == tokens_of(slot)[a]
        &&& parts[a][0] == slot[a][0][0]
    } by {
        assert(slot[a].len() > 0);
        assert forall|t: int| 0 <= t < slot[a].len() implies is_writable(#[trigger] slot[a][t]) by {}
        lemma_written_alternative(slot[a]);
        assert(alternative_of(parts[a]) =~= tokens_of(slot)[a]);
    }
    text::lemma_pieces_joined(parts, ' ', text::Separator::WhiteSpace);
    text::lemma_nonempty_all(parts);
    assert(fields(line) == parts);
    assert(fields(line)[0][0] == slot[0][0][0]);
    let all = Seq::new(fields(line).len(), |i: int| alternative_of(fields(line)[i]));
    assert(all =~= tokens_of(slot));
    assert forall|a: int| 0 <= a < all.len() implies (#[trigger] all[a]).len() > 0 by {
        assert(slot[a].len() > 0);
    }
    text::lemma_nonempty_all(all);
    assert forall|i: int| 0 <= i < line.len() implies !text::separates(
        text::Separator::LineFeed,
        #[trigger] line[i],
    ) by {
        text::lemma_joined_chars(parts, ' ', i);
        if line[i] != ' ' {
            let k = choose|k: int| 0 <= k < parts.len() && (#[trigger] parts[k]).contains(line[i]);
            let j = choose|j: int| 0 <= j < parts[k].len() && parts[k][j] == line[i];
            assert(!text::separates(text::Separator::WhiteSpace, parts[k][j]));
        }
    }
}

/// A tokenlist is read as it was written: one slot for each line, in the order of the lines.
pub proof fn lemma_written(slots: Seq<Seq<Seq<Seq<char>>>>)
    requires
        slots.len() > 0,
        forall|s: int| 0 <= s < slots.len() ==> is_writable_slot(#[trigger] slots[s]),
    ensures
        slots_of(lines(written(slots))) == Seq::new(slots.len(), |s: int| tokens_of(slots[s])),
{
    let parts = Seq::new(slots.len(), |s: int| written_slot(slots[s]));
    assert forall|s: int| 0 <= s < slots.len() implies {
        &&& text::is_whole(#[trigger] parts[s], text::Separator::LineFeed)
        &&& !is_ignored(parts[s])
        &&& alternatives_of(parts[s]) == tokens_of(slots[s])
        &&& tokens_of(slots[s]).len() > 0
    } by {
        assert(is_writable_slot(slots[s]));
        lemma_written_slot(slots[s]);
    }
    text::lemma_pieces_joined(parts, '\n', text::Separator::LineFeed);
    lemma_slots_of_each(parts, Seq::new(slots.len(), |s: int| tokens_of(slots[s])));
}

proof fn lemma_slots_of_each(
    lines: Seq<Seq<char>>,
    slots: Seq<Seq<Seq<Option<Seq<char>>>>>,
)
    requires
        slots.len() == lines.len(),
        forall|s: int|
            0 <= s < lines.len() ==> {
                &&& !is_ignored(#[trigger] lines[s])
                &&& alternatives_of(lines[s]) == slots[s]
                &&& slots[s].len() > 0
            },
    ensures
        slots_of(lines) == slots,
    decreases lines.len(),
{
    if lines.len() == 0 {
        assert(slots =~= seq![]);
    } else {
        let before = lines.drop_last();
        assert forall|s: int| 0 <= s < before.len() implies {
            &&& !is_ignored(#[trigger] before[s])
            &&& alternatives_of(before[s]) == slots.drop_last()[s]
            &&& slots.drop_last()[s].len() > 0
        } by {
            assert(before[s] == lines[s]);
        }
        lemma_slots_of_each(before, slots.drop_last());
        assert(!is_ignored(lines[lines.len() - 1]));
        assert(slots.drop_last().push(slots.last()) =~= slots);
    }
}

/// Every token is read as it was written: a bare `?` as a missing word, and anything else as the
/// known word with just these characters.
pub proof fn lemma_written_tokens(slots: Seq<Seq<Seq<Seq<char>>>>)
    requires
        slots.len() > 0,
        forall|s: int| 0 <= s < slots.len() ==> is_writable_slot(#[trigger] slots[s]),
    ensures
        ({
            let read = slots_of(lines(written(slots)));
            &&& read.len() == slots.len()
            &&& forall|s: int|
                0 <= s < slots.len() ==> (#[trigger] read[s]).len() == slots[s].len()
            &&& forall|s: int, a: int|
                0 <= s < slots.len() && 0 <= a < slots[s].len() ==> (#[trigger] read[s][a]).len()
                    == slots[s][a].len()
            &&& forall|s: int, a: int, t: int|
                0 <= s < slots.len() && 0 <= a < slots[s].len() && 0 <= t < slots[s][a].len() ==> (
                slots[s][a][t] != seq!['?'] ==> (#[trigger] read[s][a][t]) == Some(slots[s][a][t]))
                    && (slots[s][a][t] == seq!['?'] ==> read[s][a][t] is None)
        }),
{
    lemma_written(slots);
}

/// A text without a comma is one token: missing if and only if it is a bare `?`, and else the word
/// with just these characters. An empty text is none.
pub proof fn lemma_one_token(word: Seq<char>)
    requires
        !word.contains(','),
    ensures
        word.len() == 0 ==> alternative_of(word).len() == 0,
        word.len() > 0 ==> alternative_of(word).len() == 1,
        word.len() > 0 && word != seq!['?'] ==> alternative_of(word)[0] == Some(word),
        word == seq!['?'] ==> alternative_of(word)[0] is None,
{
    let sep = text::Separator::Comma;
    assert forall|i: int| 0 <= i < word.len() implies !text::separates(sep, #[trigger] word[i]) by {
        assert(word.contains(word[i]));
    }
    text::lemma_whole_piece(word, sep);
    let one = seq![word];
    assert(one.drop_last() =~= seq![]);
    assert(text::nonempty(one.drop_last()) =~= seq![]);
}

/// A comma separates tokens: the alternative is what stands before it and what stands behind it.
pub proof fn lemma_tokens_between(a: Seq<char>, b: Seq<char>)
    ensures
        alternative_of(a.push(',') + b) == alternative_of(a) + alternative_of(b),
{
    let sep = text::Separator::Comma;
    text::lemma_pieces_between(a, ',', b, sep);
    text::lemma_nonempty_concat(text::pieces(a, sep), text::pieces(b, sep));
    assert(alternative_of(a.push(',') + b) =~= alternative_of(a) + alternative_of(b));
}

/// A text without white space is one field, unless it is empty.
pub proof fn lemma_one_field(word: Seq<char>)
    requires
        forall|i: int| 0 <= i < word.len() ==> !text::is_white_space(#[trigger] word[i]),
    ensures
        word.len() == 0 ==> fields(word).len() == 0,
        word.len() > 0 ==> fields(word) == seq![word],
{
    let sep = text::Separator::WhiteSpace;
    assert forall|i: int| 0 <= i < word.len() implies !text::separates(sep, #[trigger] word[i]) by {}
    text::lemma_whole_piece(word, sep);
    let one = seq![word];
    assert(one.drop_last() =~= seq![]);
    assert(text::nonempty(one.drop_last()) =~= seq![]);
    if word.len() > 0 {
        assert(fields(word) =~= one);
    }
}

/// White space separates fields, and how much of it there is does not matter.
pub proof fn lemma_fields_between(a: Seq<char>, c: char, b: Seq<char>)
    requires
        text::is_white_space(c),
    ensures
        fields(a.push(c) + b) == fields(a) + fields(b),
{
    let sep = text::Separator::WhiteSpace;
    text::lemma_pieces_between(a, c, b, sep);
    text::lemma_nonempty_concat(text::pieces(a, sep), text::pieces(b, sep));
}

/// A text without white space is one alternative, unless no token stands in it.
pub proof fn lemma_one_alternative(word: Seq<char>)
    requires
        forall|i: int| 0 <= i < word.len() ==> !text::is_white_space(#[trigger] word[i]),
    ensures
        alternative_of(word).len() == 0 ==> alternatives_of(word).len() == 0,
        alternative_of(word).len() > 0 ==> alternatives_of(word) == seq![alternative_of(word)],
{
    lemma_one_field(word);
    let all = Seq::new(fields(word).len(), |i: int| alternative_of(fields(word)[i]));
    if word.len() == 0 {
        lemma_one_token(word);
        assert(text::nonempty(all) =~= seq![]);
    } else {
        assert(all =~= seq![alternative_of(word)]);
        assert(all.drop_last() =~= seq![]);
        assert(text::nonempty(all.drop_last()) =~= seq![]);
        if alternative_of(word).len() > 0 {
            assert(alternatives_of(word) =~= seq![alternative_of(word)]);
        }
    }
}

/// White space separates alternatives: the slot has those before it and those behind it.
pub proof fn lemma_alternatives_between(a: Seq<char>, c: char, b: Seq<char>)
    requires
        text::is_white_space(c),
    ensures
        alternatives_of(a.push(c) + b) == alternatives_of(a) + alternatives_of(b),
{
    let all = a.push(c) + b;
    lemma_fields_between(a, c, b);
    let x = Seq::new(fields(a).len(), |i: int| alternative_of(fields(a)[i]));
    let y = Seq::new(fields(b).len(), |i: int| alternative_of(fields(b)[i]));
    let z = Seq::new(fields(all).len(), |i: int| alternative_of(fields(all)[i]));
    assert(z =~= x + y);
    text::lemma_nonempty_concat(x, y);
}

/// A line feed separates slots: the list has those before it and those behind it.
pub proof fn lemma_slots_between(a: Seq<char>, b: Seq<char>)
    ensures
        slots_of(lines(a.push('\n') + b)) == slots_of(lines(a)) + slots_of(lines(b)),
{
    lemma_lines_between(a, b);
    lemma_slots_of_concat(lines(a), lines(b));
}

/// A single line is one slot, with the alternatives that stand in it. It is none if it is blank, if
/// it starts with `#`, or if there is no alternative in it; in the last case it is skipped, as line
/// number 1.
pub proof fn lemma_one_line(line: Seq<char>)
    requires
        !line.contains('\n'),
    ensures
        first_char(line) is None || first_char(line) == Some('#') ==> slots_of(lines(line)).len()
            == 0 && skipped_of(lines(line)).len() == 0,
        first_char(line) is Some && first_char(line) != Some('#') ==> {
            &&& alternatives_of(line).len() == 0 ==> slots_of(lines(line)).len() == 0
                && skipped_of(lines(line)) == seq![1usize]
            &&& alternatives_of(line).len() > 0 ==> slots_of(lines(line)) == seq![
                alternatives_of(line),
            ] && skipped_of(lines(line)).len() == 0
        },
{
    let sep = text::Separator::LineFeed;
    assert forall|i: int| 0 <= i < line.len() implies !text::separates(sep, #[trigger] line[i]) by {
        assert(line.contains(line[i]));
    }
    text::lemma_whole_piece(line, sep);
    let one = seq![line];
    assert(one.drop_last() =~= seq![]);
    assert(slots_of(one.drop_last()) =~= seq![]);
    assert(skipped_of(one.drop_last()) =~= seq![]);
    lemma_ignored(line);
    if first_char(line) is Some && first_char(line) != Some('#') {
        if alternatives_of(line).len() == 0 {
            assert(skipped_of(one) =~= seq![1usize]);
        } else {
            assert(slots_of(one) =~= seq![alternatives_of(line)]);
        }
    }
}

proof fn lemma_skipped_of_concat(a: Seq<Seq<char>>, b: Seq<Seq<char>>)
    requires
        a.len() + b.len() <= usize::MAX,
    ensures
        skipped_of(b).len() + skipped_of(a).len() == skipped_of(a + b).len(),
        skipped_of(a + b).take(skipped_of(a).len() as int) == skipped_of(a),
        forall|i: int|
            0 <= i < skipped_of(b).len() ==> 1 <= (#[trigger] skipped_of(b)[i]) <= b.len()
                && skipped_of(a + b)[skipped_of(a).len() + i] == skipped_of(b)[i] + a.len(),
    decreases b.len(),
{
    let n = skipped_of(a).len() as int;
    if b.len() == 0 {
        assert(a + b =~= a);
        assert(skipped_of(a).take(n) =~= skipped_of(a));
    } else {
        let before = b.drop_last();
        lemma_skipped_of_concat(a, before);
        assert((a + b).drop_last() =~= a + before);
        assert(skipped_of(a + b).take(n) =~= skipped_of(a + before).take(n));
        assert forall|i: int| 0 <= i < skipped_of(b).len() implies 1 <= (#[trigger] skipped_of(
            b,
        )[i]) <= b.len() && skipped_of(a + b)[n + i] == skipped_of(b)[i] + a.len() by {
            if i < skipped_of(before).len() {
                assert(skipped_of(b)[i] == skipped_of(before)[i]);
                assert(skipped_of(a + b)[n + i] == skipped_of(a + before)[n + i]);
            }
        }
    }
}

/// The numbers of the skipped lines go on behind a line feed: those of the first text, and then
/// those of the second, counted on from the lines of the first.
pub proof fn lemma_skipped_between(a: Seq<char>, b: Seq<char>)
    requires
        lines(a).len() + lines(b).len() <= usize::MAX,
    ensures
        ({
            let all = skipped_of(lines(a.push('\n') + b));
            let first = skipped_of(lines(a));
            let second = skipped_of(lines(b));
            &&& all.len() == first.len() + second.len()
            &&& forall|i: int| 0 <= i < first.len() ==> (#[trigger] all[i]) == first[i]
            &&& forall|i: int|
                0 <= i < second.len() ==> all[first.len() + i] == (#[trigger] second[i]) + lines(
                    a,
                ).len()
        }),
{
    lemma_lines_between(a, b);
    lemma_skipped_of_concat(lines(a), lines(b));
    let all = skipped_of(lines(a.push('\n') + b));
    let first = skipped_of(lines(a));
    assert forall|i: int| 0 <= i < first.len() implies (#[trigger] all[i]) == first[i] by {
        assert(all.take(first.len() as int)[i] == first[i]);
    }
}

/// What is said of slots is said of their tokens: a word is its characters, and a missing word is
/// none.
pub proof fn lemma_views(slots: Seq<Slot>, list: Seq<String>)
    ensures
        slots_view(slots).len() == slots.len(),
        forall|s: int|
            0 <= s < slots.len() ==> (#[trigger] slots_view(slots)[s]).len() == slots[s]@.len(),
        forall|s: int, a: int|
            0 <= s < slots.len() && 0 <= a < slots[s]@.len() ==> (#[trigger] slots_view(
                slots,
            )[s][a]).len() == slots[s]@[a]@.len(),
        forall|s: int, a: int, t: int|
            0 <= s < slots.len() && 0 <= a < slots[s]@.len() && 0 <= t < slots[s]@[a]@.len()
                ==> match slots[s]@[a]@[t] {
                Token::Word(word) => (#[trigger] slots_view(slots)[s][a][t]) == Some(word@),
                Token::Missing => slots_view(slots)[s][a][t] is None,
            },
        texts(list).len() == list.len(),
        forall|i: int| 0 <= i < list.len() ==> (#[trigger] texts(list)[i]) == list[i]@,
{
}

} // verus!
