//! A dictionary-driven spelling corrector.
//!
//! A [`Dictionary`](dictionary::Dictionary) counts how often each word occurs in a
//! training text ([`training`]). [`correct`](correction::correct) then looks a word up
//! in it and, when the word is unknown, proposes the most frequent dictionary word among
//! the strings one edit away from it ([`edits`]), or else among those two edits away.
//!
//! Throughout the crate a *letter* is one of the 52 ASCII letters, and case folding maps
//! `A`-`Z` to `a`-`z` and leaves every other character alone. Every other character,
//! letters of other alphabets included, separates the words of a training text.

pub mod correction;
pub mod dictionary;
pub mod edits;
pub mod letters;
pub mod training;
