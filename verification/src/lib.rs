//! A flashcard study library.
//!
//! A [`card::CardSet`] holds two-sided flashcards and multiple-choice
//! cards together with a per-category recall policy and matching rules.
//! From a set and a [`question::Conditions`] filter, [`card::CardSet::questions`]
//! enumerates test questions with exact length and a fixed category order:
//! back-recall questions first, then front-recall, then multiple choice.
//! Each [`question::Question`] can render a prompt, grade an answer under
//! the set's matching rules, and build a multiple-choice answer list of one
//! correct entry amid distinct decoys, consuming an externally supplied
//! [`random::RandomSource`] at every randomized step.
//!
//! Sets are parsed from a line-oriented text format by
//! [`card::CardSet::parse_str`]: an `EFC3 format <version>` header line, an
//! optional `<n> terms` line, `@[card front]`, `@[card back]` and `@[mc]`
//! blocks whose `recall` and `check caps` properties set the policy, and
//! `[card]` and `[mc]` blocks whose `F:`/`B:` and `Q:`/`A:`/`D:` lines give
//! the card text, with backslash escapes for backslash, newline and space.
//! File and stream handling stays outside the library; callers hand in the
//! text.

pub mod card;
pub mod loading;
pub mod question;
pub mod random;
pub mod text;
