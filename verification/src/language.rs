//! The languages of BIP-39 and their word lists.

use vstd::prelude::*;

use crate::tokenlist;

verus! {

/// A language that has a BIP-39 word list.
#[derive(Debug, Clone, Copy, PartialEq, Eq, Structural)]
pub enum Language {
    English,
    Portuguese,
    Spanish,
    French,
    Italian,
    Czech,
    Korean,
    Japanese,
    SimplifiedChinese,
    TraditionalChinese,
}

/// The name that was given is not that of a language with a word list.
#[derive(Debug)]
pub struct UnknownLanguage {
    pub name: String,
}

/// The number of words of every BIP-39 word list.
pub const WORDLIST_LEN: usize = 2048;

/// What `str::to_lowercase` returns.
pub uninterp spec fn lowercase(text: Seq<char>) -> Seq<char>;

/// The words that `bip39::Language::words_by_prefix` returns.
pub uninterp spec fn words_with_prefix(language: Language, prefix: Seq<char>) -> Seq<Seq<char>>;

/// An ASCII letter in lower case; any other character as it is.
pub open spec fn ascii_lowercase(c: char) -> char {
    if 'A' <= c <= 'Z' {
        (c as u8 + 32) as u8 as char
    } else {
        c
    }
}

/// `str::to_lowercase` maps the text to lower case as Unicode defines it, which is a function of
/// the text alone. Of ASCII text it is said that each letter is mapped by itself.
pub assume_specification[ str::to_lowercase ](s: &str) -> (lower: String)
    ensures
        lower@ == lowercase(s@),
        (forall|i: int| 0 <= i < s@.len() ==> (#[trigger] s@[i] as int) < 128) ==> lower@
            == Seq::new(s@.len(), |i: int| ascii_lowercase(s@[i])),
;

/// `bip39::Language::words_by_prefix` returns the words of the language's list that start with
/// the prefix, in the order of the list. A list has 2048 words, and all of them start with the
/// empty prefix.
#[verifier::external_body]
fn words_by_prefix(language: Language, prefix: &str) -> (words: Vec<String>)
    ensures
        tokenlist::texts(words@) == words_with_prefix(language, prefix@),
        prefix@.len() == 0 ==> words@.len() == WORDLIST_LEN,
{
    let list = match language {
        Language::English => bip39::Language::English,
        Language::Portuguese => bip39::Language::Portuguese,
        Language::Spanish => bip39::Language::Spanish,
        Language::French => bip39::Language::French,
        Language::Italian => bip39::Language::Italian,
        Language::Czech => bip39::Language::Czech,
        Language::Korean => bip39::Language::Korean,
        Language::Japanese => bip39::Language::Japanese,
        Language::SimplifiedChinese => bip39::Language::SimplifiedChinese,
        Language::TraditionalChinese => bip39::Language::TraditionalChinese,
    };
    list.words_by_prefix(prefix).iter().map(|word| word.to_string()).collect()
}

/// The word list of a language.
pub open spec fn words_of(language: Language) -> Seq<Seq<char>> {
    words_with_prefix(language, seq![])
}

/// The word list of a language.
pub fn wordlist(language: Language) -> (words: Vec<String>)
    ensures
        tokenlist::texts(words@) == words_of(language),
        words@.len() == WORDLIST_LEN,
{
    proof {
        reveal_strlit("");
        assert(""@ =~= seq![]);
    }
    words_by_prefix(language, "")
}

/// The language that has exactly this name.
pub open spec fn named(name: Seq<char>) -> Option<Language> {
    if name == "english"@ {
        Some(Language::English)
    } else if name == "portuguese"@ {
        Some(Language::Portuguese)
    } else if name == "spanish"@ {
        Some(Language::Spanish)
    } else if name == "french"@ {
        Some(Language::French)
    } else if name == "italian"@ {
        Some(Language::Italian)
    } else if name == "czech"@ {
        Some(Language::Czech)
    } else if name == "korean"@ {
        Some(Language::Korean)
    } else if name == "japanese"@ {
        Some(Language::Japanese)
    } else if name == "chinese-simplified"@ {
        Some(Language::SimplifiedChinese)
    } else if name == "chinese-traditional"@ {
        Some(Language::TraditionalChinese)
    } else {
        None
    }
}

/// The language that has exactly this name, in lower case.
pub fn language_named(name: &String) -> (language: Option<Language>)
    ensures
        language == named(name@),
{
    if *name == "english".to_owned() {
        Some(Language::English)
    } else if *name == "portuguese".to_owned() {
        Some(Language::Portuguese)
    } else if *name == "spanish".to_owned() {
        Some(Language::Spanish)
    } else if *name == "french".to_owned() {
        Some(Language::French)
    } else if *name == "italian".to_owned() {
        Some(Language::Italian)
    } else if *name == "czech".to_owned() {
        Some(Language::Czech)
    } else if *name == "korean".to_owned() {
        Some(Language::Korean)
    } else if *name == "japanese".to_owned() {
        Some(Language::Japanese)
    } else if *name == "chinese-simplified".to_owned() {
        Some(Language::SimplifiedChinese)
    } else if *name == "chinese-traditional".to_owned() {
        Some(Language::TraditionalChinese)
    } else {
        None
    }
}

/// The language of the given name, in upper or lower case.
pub fn parse_language(lang: &str) -> (r: Result<Language, UnknownLanguage>)
    ensures
        match r {
            Ok(language) => named(lowercase(lang@)) == Some(language),
            Err(e) => named(lowercase(lang@)) is None && e.name@ == lang@,
        },
        (forall|i: int| 0 <= i < lang@.len() ==> (#[trigger] lang@[i] as int) < 128)
            ==> lowercase(lang@) == Seq::new(lang@.len(), |i: int| ascii_lowercase(lang@[i])),
{
    let lower = lang.to_lowercase();
    match language_named(&lower) {
        Some(language) => Ok(language),
        None => Err(UnknownLanguage { name: lang.to_owned() }),
    }
}

/// The name of a language.
pub open spec fn name_of(language: Language) -> Seq<char> {
    match language {
        Language::English => "english"@,
        Language::Portuguese => "portuguese"@,
        Language::Spanish => "spanish"@,
        Language::French => "french"@,
        Language::Italian => "italian"@,
        Language::Czech => "czech"@,
        Language::Korean => "korean"@,
        Language::Japanese => "japanese"@,
        Language::SimplifiedChinese => "chinese-simplified"@,
        Language::TraditionalChinese => "chinese-traditional"@,
    }
}

/// A language is found by its own name and by no other.
pub proof fn lemma_named(name: Seq<char>, language: Language)
    ensures
        named(name) == Some(language) <==> name == name_of(language),
{
    reveal_strlit("english");
    reveal_strlit("portuguese");
    reveal_strlit("spanish");
    reveal_strlit("french");
    reveal_strlit("italian");
    reveal_strlit("czech");
    reveal_strlit("korean");
    reveal_strlit("japanese");
    reveal_strlit("chinese-simplified");
    reveal_strlit("chinese-traditional");
    assert("english"@[0] == 'e');
    assert("portuguese"@[0] == 'p');
    assert("spanish"@[0] == 's');
    assert("french"@[0] == 'f');
    assert("italian"@[0] == 'i');
    assert("czech"@[0] == 'c' && "czech"@.len() == 5);
    assert("korean"@[0] == 'k');
    assert("japanese"@[0] == 'j');
    assert("chinese-simplified"@[0] == 'c' && "chinese-simplified"@.len() == 18);
    assert("chinese-traditional"@[0] == 'c' && "chinese-traditional"@.len() == 19);
}

/// The word list of a language is all of its words: those that start with nothing in particular.
pub proof fn lemma_words_of(language: Language)
    ensures
        words_of(language) == words_with_prefix(language, Seq::empty()),
{
}

} // verus!
