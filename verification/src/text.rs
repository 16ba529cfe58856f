//! Text as characters: cutting it up and putting it together.

use vstd::prelude::*;

verus! {

/// `String::push` appends the character.
pub assume_specification[ String::push ](s: &mut String, c: char)
    ensures
        final(s)@ == old(s)@.push(c),
;

/// What a text is cut at.
#[derive(Clone, Copy)]
pub enum Separator {
    LineFeed,
    WhiteSpace,
    Comma,
}

/// The characters with the Unicode property `White_Space`.
pub open spec fn is_white_space(c: char) -> bool {
    ||| 0x09 <= c as int <= 0x0d
    ||| c as int == 0x20
    ||| c as int == 0x85
    ||| c as int == 0xa0
    ||| c as int == 0x1680
    ||| 0x2000 <= c as int <= 0x200a
    ||| 0x2028 <= c as int <= 0x2029
    ||| c as int == 0x202f
    ||| c as int == 0x205f
    ||| c as int == 0x3000
}

/// `c` separates.
pub open spec fn separates(sep: Separator, c: char) -> bool {
    match sep {
        Separator::LineFeed => c == '\n',
        Separator::WhiteSpace => is_white_space(c),
        Separator::Comma => c == ',',
    }
}

/// The pieces of `s` between the separators: one more than there are separators.
pub open spec fn pieces(s: Seq<char>, sep: Separator) -> Seq<Seq<char>>
    decreases s.len(),
{
    if s.len() == 0 {
        seq![seq![]]
    } else {
        let before = pieces(s.drop_last(), sep);
        if separates(sep, s.last()) {
            before.push(seq![])
        } else {
            before.drop_last().push(before.last().push(s.last()))
        }
    }
}

/// The sequences of `list` that hold anything.
pub open spec fn nonempty<T>(list: Seq<Seq<T>>) -> Seq<Seq<T>>
    decreases list.len(),
{
    if list.len() == 0 {
        seq![]
    } else {
        let before = nonempty(list.drop_last());
        if list.last().len() > 0 {
            before.push(list.last())
        } else {
            before
        }
    }
}

/// The parts, with `c` between any two of them.
pub open spec fn joined_with(parts: Seq<Seq<char>>, c: char) -> Seq<char>
    decreases parts.len(),
{
    if parts.len() == 0 {
        seq![]
    } else if parts.len() == 1 {
        parts[0]
    } else {
        joined_with(parts.drop_last(), c).push(c) + parts.last()
    }
}

/// The words joined by single spaces.
pub open spec fn joined(words: Seq<Seq<char>>) -> Seq<char> {
    joined_with(words, ' ')
}

/// Tells whether `c` has the Unicode property `White_Space`.
pub fn is_whitespace(c: char) -> (r: bool)
    ensures
        r == is_white_space(c),
{
    let n: u32 = c as u32;
    (0x09 <= n && n <= 0x0d) || n == 0x20 || n == 0x85 || n == 0xa0 || n == 0x1680 || (0x2000 <= n
        && n <= 0x200a) || n == 0x2028 || n == 0x2029 || n == 0x202f || n == 0x205f || n == 0x3000
}

fn is_separator(sep: Separator, c: char) -> (r: bool)
    ensures
        r == separates(sep, c),
{
    match sep {
        Separator::LineFeed => c == '\n',
        Separator::WhiteSpace => is_whitespace(c),
        Separator::Comma => c == ',',
    }
}

/// The characters of a text.
pub fn to_chars(text: &str) -> (chars: Vec<char>)
    ensures
        chars@ == text@,
{
    let mut chars: Vec<char> = Vec::new();
    for c in it: text.chars()
        invariant
            it.seq() == text@,
            chars@ == it.seq().take(it.index() as int),
    {
        chars.push(c);
    }
    chars
}

/// The text made of the given characters.
pub fn from_chars(chars: &Vec<char>) -> (text: String)
    ensures
        text@ == chars@,
{
    let mut text: String = String::new();
    let mut i: usize = 0;
    while i < chars.len()
        invariant
            i <= chars@.len(),
            text@ == chars@.take(i as int),
        decreases chars@.len() - i,
    {
        text.push(chars[i]);
        i = i + 1;
        assert(chars@.take(i as int) =~= chars@.take(i - 1).push(chars@[i - 1]));
    }
    assert(chars@.take(i as int) =~= chars@);
    text
}

/// Cuts the text into the pieces between the separators.
pub fn split(chars: &Vec<char>, sep: Separator) -> (parts: Vec<Vec<char>>)
    ensures
        crate::sequences::contents(parts@) == pieces(chars@, sep),
{
    let mut parts: Vec<Vec<char>> = Vec::new();
    let mut part: Vec<char> = Vec::new();
    let mut i: usize = 0;
    assert(crate::sequences::contents(parts@).push(part@) =~= pieces(chars@.take(0), sep));
    while i < chars.len()
        invariant
            i <= chars@.len(),
            crate::sequences::contents(parts@).push(part@) == pieces(chars@.take(i as int), sep),
        decreases chars@.len() - i,
    {
        let c: char = chars[i];
        let ghost before = crate::sequences::contents(parts@);
        let ghost piece = part@;
        assert(chars@.take(i + 1).drop_last() =~= chars@.take(i as int));
        assert(before.push(piece).drop_last() =~= before);
        if is_separator(sep, c) {
            parts.push(part);
            part = Vec::new();
            assert(crate::sequences::contents(parts@) =~= before.push(piece));
        } else {
            part.push(c);
        }
        i = i + 1;
        assert(crate::sequences::contents(parts@).push(part@) =~= pieces(
            chars@.take(i as int),
            sep,
        ));
    }
    assert(chars@.take(i as int) =~= chars@);
    let ghost before = crate::sequences::contents(parts@);
    parts.push(part);
    assert(crate::sequences::contents(parts@) =~= before.push(part@));
    parts
}

/// Cuts the text into the pieces between the separators and leaves out the empty ones.
pub fn split_nonempty(chars: &Vec<char>, sep: Separator) -> (parts: Vec<Vec<char>>)
    ensures
        crate::sequences::contents(parts@) == nonempty(pieces(chars@, sep)),
{
    let all = split(chars, sep);
    let ghost whole = pieces(chars@, sep);
    let mut parts: Vec<Vec<char>> = Vec::new();
    let mut i: usize = 0;
    assert(crate::sequences::contents(parts@) =~= nonempty(whole.take(0)));
    while i < all.len()
        invariant
            i <= all@.len(),
            whole == crate::sequences::contents(all@),
            crate::sequences::contents(parts@) == nonempty(whole.take(i as int)),
        decreases all@.len() - i,
    {
        let ghost before = crate::sequences::contents(parts@);
        assert(whole.take(i + 1).drop_last() =~= whole.take(i as int));
        if all[i].len() > 0 {
            let part: Vec<char> = all[i].clone();
            assert(part@ =~= all@[i as int]@);
            parts.push(part);
            assert(crate::sequences::contents(parts@) =~= before.push(part@));
        }
        i = i + 1;
    }
    assert(whole.take(i as int) =~= whole);
    parts
}

/// What is left after the empty sequences went holds only sequences of `list`, none of them empty.
pub proof fn lemma_nonempty<T>(list: Seq<Seq<T>>)
    ensures
        forall|i: int|
            0 <= i < nonempty(list).len() ==> (#[trigger] nonempty(list)[i]).len() > 0
                && list.contains(nonempty(list)[i]),
    decreases list.len(),
{
    if list.len() > 0 {
        let before = list.drop_last();
        lemma_nonempty(before);
        assert forall|i: int| 0 <= i < nonempty(list).len() implies (
        #[trigger] nonempty(list)[i]).len() > 0 && list.contains(nonempty(list)[i]) by {
            if i < nonempty(before).len() {
                assert(before.contains(nonempty(before)[i]));
                let j = choose|j: int| 0 <= j < before.len() && before[j] == nonempty(before)[i];
                assert(list[j] == nonempty(list)[i]);
            } else {
                assert(list[list.len() - 1] == nonempty(list)[i]);
            }
        }
    }
}

/// No character of `s` separates.
pub open spec fn is_whole(s: Seq<char>, sep: Separator) -> bool {
    forall|i: int| 0 <= i < s.len() ==> !separates(sep, #[trigger] s[i])
}

/// A text without separators is one piece.
pub proof fn lemma_whole_piece(s: Seq<char>, sep: Separator)
    requires
        is_whole(s, sep),
    ensures
        pieces(s, sep) == seq![s],
    decreases s.len(),
{
    if s.len() == 0 {
        assert(s =~= seq![]);
    } else {
        let before = s.drop_last();
        assert forall|i: int| 0 <= i < before.len() implies !separates(sep, #[trigger] before[i]) by {
            assert(before[i] == s[i]);
        }
        lemma_whole_piece(before, sep);
        assert(s.last() == s[s.len() - 1]);
        assert(before.push(s.last()) =~= s);
        assert(pieces(s, sep) =~= seq![s]);
    }
}

/// There is always a piece.
pub proof fn lemma_some_piece(s: Seq<char>, sep: Separator)
    ensures
        pieces(s, sep).len() > 0,
    decreases s.len(),
{
    if s.len() > 0 {
        lemma_some_piece(s.drop_last(), sep);
    }
}

/// The pieces of two texts with a separator between them are those of the one and the other.
pub proof fn lemma_pieces_between(a: Seq<char>, c: char, b: Seq<char>, sep: Separator)
    requires
        separates(sep, c),
    ensures
        pieces(a.push(c) + b, sep) == pieces(a, sep) + pieces(b, sep),
    decreases b.len(),
{
    let all = a.push(c) + b;
    if b.len() == 0 {
        assert(all =~= a.push(c));
        assert(all.drop_last() =~= a);
        assert(pieces(all, sep) =~= pieces(a, sep) + pieces(b, sep));
    } else {
        lemma_pieces_between(a, c, b.drop_last(), sep);
        lemma_some_piece(b.drop_last(), sep);
        assert(all.drop_last() =~= a.push(c) + b.drop_last());
        let x = pieces(a, sep);
        let y = pieces(b.drop_last(), sep);
        assert((x + y).drop_last() =~= x + y.drop_last());
        assert(pieces(all, sep) =~= x + pieces(b, sep));
    }
}

/// What was joined is cut into the same parts.
pub proof fn lemma_pieces_joined(parts: Seq<Seq<char>>, c: char, sep: Separator)
    requires
        parts.len() > 0,
        separates(sep, c),
        forall|i: int| 0 <= i < parts.len() ==> is_whole(#[trigger] parts[i], sep),
    ensures
        pieces(joined_with(parts, c), sep) == parts,
    decreases parts.len(),
{
    let last = parts.last();
    assert(last == parts[parts.len() - 1]);
    lemma_whole_piece(last, sep);
    if parts.len() == 1 {
        assert(parts =~= seq![parts[0]]);
    } else {
        let before = parts.drop_last();
        assert forall|i: int| 0 <= i < before.len() implies is_whole(#[trigger] before[i], sep) by {
            assert(before[i] == parts[i]);
        }
        lemma_pieces_joined(before, c, sep);
        lemma_pieces_between(joined_with(before, c), c, last, sep);
        assert(before + seq![last] =~= parts);
    }
}

/// Where no sequence is empty none is left out.
pub proof fn lemma_nonempty_all<T>(list: Seq<Seq<T>>)
    requires
        forall|i: int| 0 <= i < list.len() ==> (#[trigger] list[i]).len() > 0,
    ensures
        nonempty(list) == list,
    decreases list.len(),
{
    if list.len() == 0 {
        assert(list =~= seq![]);
    } else {
        let before = list.drop_last();
        assert forall|i: int| 0 <= i < before.len() implies (#[trigger] before[i]).len() > 0 by {
            assert(list[i].len() > 0);
        }
        lemma_nonempty_all(before);
        assert(list[list.len() - 1].len() > 0);
        assert(before.push(list.last()) =~= list);
    }
}

/// A character of what was joined is one of a part or the one between the parts.
pub proof fn lemma_joined_chars(parts: Seq<Seq<char>>, c: char, i: int)
    requires
        0 <= i < joined_with(parts, c).len(),
    ensures
        joined_with(parts, c)[i] == c || exists|k: int|
            0 <= k < parts.len() && (#[trigger] parts[k]).contains(joined_with(parts, c)[i]),
    decreases parts.len(),
{
    let all = joined_with(parts, c);
    if parts.len() == 1 {
        assert(parts[0].contains(all[i]));
    } else if parts.len() > 1 {
        let before = joined_with(parts.drop_last(), c);
        if i < before.len() {
            lemma_joined_chars(parts.drop_last(), c, i);
            if all[i] != c {
                let k = choose|k: int|
                    0 <= k < parts.drop_last().len() && (
                    #[trigger] parts.drop_last()[k]).contains(before[i]);
                assert(parts[k].contains(all[i]));
            }
        } else if i > before.len() {
            assert(all[i] == parts.last()[i - before.len() - 1]);
            assert(parts[parts.len() - 1].contains(all[i]));
        }
    }
}

/// What was joined of a part that is not empty starts with that part.
pub proof fn lemma_joined_first(parts: Seq<Seq<char>>, c: char)
    requires
        parts.len() > 0,
        parts[0].len() > 0,
    ensures
        joined_with(parts, c).len() > 0,
        joined_with(parts, c)[0] == parts[0][0],
    decreases parts.len(),
{
    if parts.len() > 1 {
        lemma_joined_first(parts.drop_last(), c);
    }
}

/// Cutting at commas loses nothing: no piece holds a comma, and the pieces with commas between them
/// are the text again.
pub proof fn lemma_comma_pieces(s: Seq<char>)
    ensures
        joined_with(pieces(s, Separator::Comma), ',') == s,
        forall|i: int|
            0 <= i < pieces(s, Separator::Comma).len() ==> !(#[trigger] pieces(
                s,
                Separator::Comma,
            )[i]).contains(','),
{
    lemma_cut_at(s, ',', Separator::Comma);
}

/// Cutting at line feeds loses nothing: no piece holds a line feed, and the pieces with line feeds
/// between them are the text again.
pub proof fn lemma_line_pieces(s: Seq<char>)
    ensures
        joined_with(pieces(s, Separator::LineFeed), '\n') == s,
        forall|i: int|
            0 <= i < pieces(s, Separator::LineFeed).len() ==> !(#[trigger] pieces(
                s,
                Separator::LineFeed,
            )[i]).contains('\n'),
{
    lemma_cut_at(s, '\n', Separator::LineFeed);
}

proof fn lemma_cut_at(s: Seq<char>, c: char, sep: Separator)
    requires
        forall|x: char| separates(sep, x) <==> x == c,
    ensures
        joined_with(pieces(s, sep), c) == s,
        forall|i: int| 0 <= i < pieces(s, sep).len() ==> !(#[trigger] pieces(s, sep)[i]).contains(c),
    decreases s.len(),
{
    let all = pieces(s, sep);
    if s.len() == 0 {
        assert(s =~= seq![]);
        assert(!all[0].contains(c));
    } else {
        let before = pieces(s.drop_last(), sep);
        lemma_cut_at(s.drop_last(), c, sep);
        lemma_some_piece(s.drop_last(), sep);
        assert(s =~= s.drop_last().push(s.last()));
        if separates(sep, s.last()) {
            assert(all.drop_last() =~= before);
            assert(joined_with(all, c) =~= s);
            assert forall|i: int| 0 <= i < all.len() implies !(#[trigger] all[i]).contains(c) by {
                if i < before.len() {
                    assert(!before[i].contains(c));
                }
            }
        } else {
            let last = before.last().push(s.last());
            assert(all.drop_last() =~= before.drop_last());
            assert(before.last() == before[before.len() - 1]);
            assert(joined_with(all, c) =~= s);
            assert forall|i: int| 0 <= i < all.len() implies !(#[trigger] all[i]).contains(c) by {
                assert(!before[i].contains(c));
                if i == before.len() - 1 && all[i].contains(c) {
                    let j = choose|j: int| 0 <= j < last.len() && last[j] == c;
                    assert(before[i][j] == c);
                }
            }
        }
    }
}

/// Cutting at white space loses the white space alone: no piece holds any, and the pieces put
/// together are the other characters of the text.
pub proof fn lemma_white_space_pieces(s: Seq<char>)
    ensures
        pieces(s, Separator::WhiteSpace).flatten() == s.filter(|c: char| !is_white_space(c)),
        forall|i: int, j: int|
            0 <= i < pieces(s, Separator::WhiteSpace).len() && 0 <= j < pieces(
                s,
                Separator::WhiteSpace,
            )[i].len() ==> !is_white_space(#[trigger] pieces(s, Separator::WhiteSpace)[i][j]),
    decreases s.len(),
{
    reveal(Seq::filter);
    let sep = Separator::WhiteSpace;
    let all = pieces(s, sep);
    let keep = |c: char| !is_white_space(c);
    if s.len() == 0 {
        let nothing = Seq::<Seq<char>>::empty();
        assert(all =~= nothing.push(Seq::empty()));
        nothing.lemma_flatten_push(Seq::empty());
        assert(nothing.flatten() =~= seq![]);
        assert(all.flatten() =~= seq![]);
        assert(s.filter(keep) =~= seq![]);
    } else {
        let before = pieces(s.drop_last(), sep);
        lemma_white_space_pieces(s.drop_last());
        lemma_some_piece(s.drop_last(), sep);
        if separates(sep, s.last()) {
            before.lemma_flatten_push(Seq::<char>::empty());
            assert(all == before.push(seq![]));
            assert(all.flatten() =~= before.flatten());
        } else {
            let cut = before.drop_last();
            let last = before.last();
            assert(before =~= cut.push(last));
            cut.lemma_flatten_push(last);
            cut.lemma_flatten_push(last.push(s.last()));
            assert(all.flatten() =~= before.flatten().push(s.last()));
            assert forall|i: int, j: int| 0 <= i < all.len() && 0 <= j < all[i].len() implies !is_white_space(
                #[trigger] all[i][j],
            ) by {
                if i < cut.len() || j < last.len() {
                    assert(all[i][j] == before[i][j]);
                }
            }
        }
    }
}

/// Exactly the sequences that hold anything are kept, in their order.
pub proof fn lemma_nonempty_kept<T>(list: Seq<Seq<T>>)
    ensures
        nonempty(list) == list.filter(|x: Seq<T>| x.len() > 0),
    decreases list.len(),
{
    reveal(Seq::filter);
    if list.len() > 0 {
        lemma_nonempty_kept(list.drop_last());
    } else {
        assert(nonempty(list) =~= list.filter(|x: Seq<T>| x.len() > 0));
    }
}

/// What is kept of two lists is what is kept of each.
pub proof fn lemma_nonempty_concat<T>(a: Seq<Seq<T>>, b: Seq<Seq<T>>)
    ensures
        nonempty(a + b) == nonempty(a) + nonempty(b),
    decreases b.len(),
{
    if b.len() == 0 {
        assert(a + b =~= a);
        assert(nonempty(a) + nonempty(b) =~= nonempty(a));
    } else {
        lemma_nonempty_concat(a, b.drop_last());
        assert((a + b).drop_last() =~= a + b.drop_last());
        assert(nonempty(a + b) =~= nonempty(a) + nonempty(b));
    }
}

} // verus!
