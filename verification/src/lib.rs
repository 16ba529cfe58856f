//! The recovery of a partly known BIP-39 mnemonic by the legacy address that it leads to.
//!
//! What is remembered is a tokenlist (`tokenlist`, `validate`). Its slots are expanded to word
//! indices (`expand`, `phrases`) and put together to phrases, one at a time (`lazy`) or all at once
//! (`enumerate`). `space` says which phrases are candidates, `lengths` whether there can be any, and
//! `reordering` that the order of writing does not matter; `search` and `gpu` go through them, and
//! `wallet` derives the addresses.

pub mod candidates;
pub mod enumerate;
pub mod expand;
pub mod format;
pub mod gpu;
pub mod language;
pub mod lazy;
pub mod lengths;
pub mod orders;
pub mod phrases;
pub mod probe;
pub mod reordering;
pub mod replacement;
pub mod search;
pub mod sequences;
pub mod space;
pub mod text;
pub mod tokenlist;
pub mod validate;
pub mod wallet;
