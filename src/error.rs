use vstd::prelude::*;

use crate::card::Card;

verus! {

/// Errors surfaced by the library.
#[derive(Debug, Clone, Copy, PartialEq, Eq, Structural)]
pub enum Error {
    /// No copy of the card is left in the deck.
    CardNotContained(Card),
    /// A card token or hand string is malformed.
    ParseError,
    /// The card could not be added: the hand is full.
    CapacityError(Card),
    /// A group was described by indices that do not fit the hand.
    GroupIndexError,
}

} // verus!
