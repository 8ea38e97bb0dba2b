//! Hand evaluation for the Rummy variant "Otvoreni Remi": two decks of
//! 52 cards plus four jokers, hands of up to fifteen cards.
//!
//! A hand is split into groups (singles, quasi-melds and melds) and the
//! resulting partition is scored against the cards that remain undrawn.
use vstd::prelude::*;

mod bounded;
pub mod card;
pub mod deck;
pub mod decomposition;
pub mod error;
pub mod flatten;
pub mod hand;
pub mod optimise;
pub mod partition;
mod random;
pub mod render;
pub mod scoring;
mod text;

pub use crate::card::{Card, Suit, Value};
pub use crate::deck::Deck;
pub use crate::decomposition::{naive_decomposition, partition_suit};
pub use crate::error::Error;
pub use crate::hand::{Hand, HandUtil};
pub use crate::optimise::{optimal_decomposition, optimise_partition, PartitionUtil};
pub use crate::partition::{partition_index, Group, GroupCharacteristics, Partition};
pub use crate::render::partition_eq;
pub use crate::scoring::{
    decomp_points, extension_score, remaining_suit, score_hand_points, SCORE_SCALE,
};

verus! {

/// Highest card value (King).
pub const MAX_CARD_VAL: u32 = 13;

/// Capacity of a hand.
pub const MAX_HAND_SIZE: usize = 15;

/// Number of distinct card identities, the joker included.
pub const UNIQUE_CARDS: usize = 53;

/// Copies of every non-joker card in the full deck.
pub const DUPLICATE_COUNT: u32 = 2;

/// Jokers in the full deck.
pub const JOKER_TOTAL: u32 = 4;

/// Capacity of a partition, in groups.
pub const MAX_DECOMP_COUNT: usize = 15;

} // verus!
