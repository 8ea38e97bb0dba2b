//! The deck: how many copies of each card identity remain undrawn.
use vstd::prelude::*;

use crate::card::{card_of_index, lemma_card_round_trip, Card};
use crate::error::Error;
use crate::DUPLICATE_COUNT;
use crate::JOKER_TOTAL;
use crate::UNIQUE_CARDS;

verus! {

/// The count of each slot in a full deck: two of every ordinary card, four
/// jokers.
pub open spec fn initial_counts() -> Seq<u32> {
    Seq::new(UNIQUE_CARDS as nat, |i: int| if i == 52 { JOKER_TOTAL } else { DUPLICATE_COUNT })
}

/// The sum of the counts.
pub open spec fn total(counts: Seq<u32>) -> int
    decreases counts.len(),
{
    if counts.len() == 0 {
        0
    } else {
        total(counts.drop_last()) + counts.last()
    }
}

/// The remaining cards, one slot per card identity in canonical index
/// order; slot `i` holds the card `card_of_index(i)` and its count.
pub struct Deck {
    cards: [(Card, u32); UNIQUE_CARDS],
}

impl View for Deck {
    /// The remaining count of each card, by canonical index.
    type V = Seq<u32>;

    closed spec fn view(&self) -> Seq<u32> {
        self.cards@.map_values(|slot: (Card, u32)| slot.1)
    }
}

impl Deck {
    #[verifier::type_invariant]
    closed spec fn inv(self) -> bool {
        forall|i: int|
            0 <= i < UNIQUE_CARDS ==> (#[trigger] self.cards@[i]).0 == card_of_index(i)
                && self.cards@[i].1 <= initial_counts()[i]
    }

    /// The remaining count of a card.
    pub open spec fn count(self, c: Card) -> u32 {
        self@[c.index()]
    }

    /// A full deck: 108 cards, two copies of each ordinary card and four
    /// jokers.
    pub fn new() -> (r: Deck)
        ensures
            r@ == initial_counts(),
            total(r@) == 108,
    {
        let mut arr = [(Card::joker(), JOKER_TOTAL); UNIQUE_CARDS];
        let mut i: usize = 0;
        while i < UNIQUE_CARDS - 1
            invariant
                i <= UNIQUE_CARDS - 1,
                arr@.len() == UNIQUE_CARDS,
                forall|j: int| 0 <= j < i ==> (#[trigger] arr@[j]) == (card_of_index(j), DUPLICATE_COUNT),
                forall|j: int| i <= j < UNIQUE_CARDS ==> (#[trigger] arr@[j]) == (Card::joker_spec(), JOKER_TOTAL),
            decreases UNIQUE_CARDS - 1 - i,
        {
            arr[i] = (Card::from_index(i as u32), DUPLICATE_COUNT);
            i = i + 1;
        }
        let r = Deck { cards: arr };
        assert(r@ =~= initial_counts());
        proof {
            lemma_initial_total();
        }
        r
    }

    /// The remaining count of a card.
    pub fn count_of(&self, c: Card) -> (r: u32)
        requires
            c.wf(),
        ensures
            r == self.count(c),
            r <= initial_counts()[c.index()],
            self@.len() == UNIQUE_CARDS,
    {
        proof {
            use_type_invariant(self);
        }
        self.cards[c.to_index()].1
    }

    /// Removes one copy of `c`; fails with `CardNotContained` when none is
    /// left.
    pub fn remove(&mut self, c: Card) -> (r: Result<(), Error>)
        requires
            c.wf(),
        ensures
            old(self)@.len() == UNIQUE_CARDS,
            final(self)@.len() == UNIQUE_CARDS,
            old(self).count(c) == 0 ==> r == Err::<(), Error>(Error::CardNotContained(c))
                && final(self)@ == old(self)@,
            old(self).count(c) > 0 ==> r is Ok
                && final(self)@ == old(self)@.update(c.index(), (old(self).count(c) - 1) as u32)
                && final(self).count(c) == old(self).count(c) - 1,
            forall|c2: Card|
                c2.wf() && c2.index() != c.index() ==> #[trigger] final(self).count(c2) == old(self).count(c2),
    {
        proof {
            use_type_invariant(&*self);
        }
        let i = c.to_index();
        let num = self.cards[i].1;
        if num == 0 {
            Err(Error::CardNotContained(c))
        } else {
            let card = self.cards[i].0;
            self.cards[i] = (card, num - 1);
            assert(self@ =~= old(self)@.update(c.index(), (num - 1) as u32));
            assert forall|c2: Card| c2.wf() && c2.index() != c.index() implies #[trigger] self.count(c2)
                == old(self).count(c2) by {
                lemma_card_round_trip(c2);
            }
            Ok(())
        }
    }

    /// Draws a card identity uniformly among the 53 and removes one copy of
    /// it; fails with `CardNotContained` when none of that card is left.
    pub fn remove_random(&mut self) -> (r: Result<Card, Error>)
        ensures
            old(self)@.len() == UNIQUE_CARDS,
            final(self)@.len() == UNIQUE_CARDS,
            match r {
                Ok(c) => c.wf() && old(self).count(c) > 0
                    && final(self)@ == old(self)@.update(c.index(), (old(self).count(c) - 1) as u32)
                    && final(self).count(c) == old(self).count(c) - 1
                    && forall|c2: Card|
                        c2.wf() && c2.index() != c.index() ==> #[trigger] final(self).count(c2)
                            == old(self).count(c2),
                Err(e) => e matches Error::CardNotContained(c) && c.wf() && old(self).count(c) == 0
                    && final(self)@ == old(self)@,
            },
    {
        let c = Card::random();
        match self.remove(c) {
            Ok(()) => Ok(c),
            Err(e) => Err(e),
        }
    }
}

proof fn lemma_initial_prefix_total(k: int)
    requires
        0 <= k <= 52,
    ensures
        total(initial_counts().take(k)) == 2 * k,
    decreases k,
{
    if k > 0 {
        lemma_initial_prefix_total(k - 1);
        assert(initial_counts().take(k).drop_last() =~= initial_counts().take(k - 1));
    } else {
        assert(initial_counts().take(0) =~= Seq::<u32>::empty());
    }
}

impl Default for Deck {
    /// A full deck.
    fn default() -> (r: Deck)
        ensures
            r@ == initial_counts(),
    {
        Deck::new()
    }
}

/// A full deck holds 108 cards.
pub proof fn lemma_initial_total()
    ensures
        initial_counts().len() == 53,
        forall|i: int| 0 <= i < 52 ==> #[trigger] initial_counts()[i] == 2,
        initial_counts()[52] == 4,
        total(initial_counts()) == 108,
{
    let s = initial_counts();
    lemma_initial_prefix_total(52);
    assert(s.take(53).drop_last() =~= s.take(52));
    assert(s.take(53) =~= s);
}

} // verus!
