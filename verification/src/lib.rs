//! Cribbage hand scoring and the table of every scorable hand.
//!
//! A scorable hand is four held cards plus the cut card. This crate models
//! cards, builds the deck, puts hands into a canonical form, scores them and
//! enumerates every hand of the deck with its score.

pub mod card;
pub mod deck;
pub mod hand;
pub mod highest;
pub mod rules;
pub mod score;
pub mod strategy;
pub mod subsets;
pub mod table;
