# words_breaker

Recovers a partly known BIP-39 mnemonic by the legacy Bitcoin address that it leads to. What is
remembered is written down as a tokenlist: one slot a line, alternatives separated by white space,
words by commas, and `?` for a missing word. Every phrase of twelve words that the slots can stand
for is a candidate.

- `src/` is the library, written and proved in Verus. `sequences` holds the listings that the
  enumerations walk through, `space` says which phrases are candidates, and `search` says what a
  search finds.
- `app/` is the command line program.
- `tests/` runs the library.

The outside crates do their own work: `itertools` hands out orders, selections and products of
positions (`src/orders.rs`), `bip39` holds the word lists and makes seeds (`src/language.rs`,
`src/wallet.rs`), and `bitcoin` derives keys and reads addresses (`src/wallet.rs`). What is taken
of them without proof stands in the contracts of those three files; `src/text.rs` and
`src/language.rs` take `String::push` and `str::to_lowercase` of the standard library in the same
way.
