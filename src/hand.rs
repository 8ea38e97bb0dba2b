//! Hands: bounded, ordered sequences of cards.
use vstd::prelude::*;

use arrayvec::ArrayVec;

use crate::bounded::{
    cards_get, cards_len, cards_new, cards_of, cards_sort_by_index, cards_try_push,
};
use crate::card::{parse_card, Card};
use crate::error::Error;
use crate::text::char_range;
use crate::MAX_HAND_SIZE;

verus! {

broadcast use vstd::seq_lib::group_to_multiset_ensures;

/// Splits text at every single space, as `str::split(' ')` does: `n` spaces
/// give `n + 1` tokens, empty ones included.
pub open spec fn split_spaces(s: Seq<char>) -> Seq<Seq<char>>
    decreases s.len(),
{
    if s.len() == 0 {
        seq![Seq::<char>::empty()]
    } else {
        let prev = split_spaces(s.drop_last());
        if s.last() == ' ' {
            prev.push(Seq::<char>::empty())
        } else {
            prev.update(prev.len() - 1, prev.last().push(s.last()))
        }
    }
}

/// One token more read into a hand: a token that is no card is a
/// `ParseError`; a card that finds the hand full is a `CapacityError`.
pub open spec fn parse_step(acc: Result<Seq<Card>, Error>, tok: Seq<char>) -> Result<Seq<Card>, Error> {
    match acc {
        Err(e) => Err(e),
        Ok(cs) => match parse_card(tok) {
            None => Err(Error::ParseError),
            Some(c) => if cs.len() < MAX_HAND_SIZE {
                Ok(cs.push(c))
            } else {
                Err(Error::CapacityError(c))
            },
        },
    }
}

/// The tokens read into a hand from the first on; the first failure stands.
pub open spec fn parse_cards(toks: Seq<Seq<char>>) -> Result<Seq<Card>, Error>
    decreases toks.len(),
{
    if toks.len() == 0 {
        Ok(Seq::<Card>::empty())
    } else {
        parse_step(parse_cards(toks.drop_last()), toks.last())
    }
}

/// Every card is well formed.
pub open spec fn all_wf(cs: Seq<Card>) -> bool {
    forall|i: int| 0 <= i < cs.len() ==> (#[trigger] cs[i]).wf()
}

/// Ascending by canonical index.
pub open spec fn sorted_by_index(cs: Seq<Card>) -> bool {
    forall|i: int, j: int| 0 <= i < j < cs.len() ==> (#[trigger] cs[i]).index() <= (#[trigger] cs[j]).index()
}

/// A hand of at most `MAX_HAND_SIZE` well-formed cards, duplicates allowed.
pub struct Hand {
    cards: ArrayVec<Card, MAX_HAND_SIZE>,
}

impl View for Hand {
    type V = Seq<Card>;

    closed spec fn view(&self) -> Seq<Card> {
        cards_of(self.cards)
    }
}

impl Hand {
    #[verifier::type_invariant]
    closed spec fn inv(self) -> bool {
        &&& cards_of(self.cards).len() <= MAX_HAND_SIZE
        &&& all_wf(cards_of(self.cards))
    }

    /// An empty hand.
    pub fn new() -> (r: Hand)
        ensures
            r@ == Seq::<Card>::empty(),
    {
        Hand { cards: cards_new() }
    }

    /// The number of cards.
    pub fn len(&self) -> (r: usize)
        ensures
            r == self@.len(),
            r <= MAX_HAND_SIZE,
            all_wf(self@),
    {
        proof {
            use_type_invariant(self);
        }
        cards_len(&self.cards)
    }

    /// The card at position `i`.
    pub fn get(&self, i: usize) -> (r: Card)
        requires
            i < self@.len(),
        ensures
            r == self@[i as int],
            r.wf(),
    {
        proof {
            use_type_invariant(self);
        }
        cards_get(&self.cards, i)
    }

    /// The cards, in order.
    pub fn to_vec(&self) -> (r: Vec<Card>)
        ensures
            r@ == self@,
    {
        let n = self.len();
        let mut r: Vec<Card> = Vec::new();
        let mut i: usize = 0;
        while i < n
            invariant
                n == self@.len(),
                i <= n,
                r@ == self@.take(i as int),
            decreases n - i,
        {
            r.push(self.get(i));
            i = i + 1;
            assert(r@ =~= self@.take(i as int));
        }
        assert(r@ =~= self@);
        r
    }

    /// Appends a card; fails with `CapacityError` on a full hand.
    pub fn push(&mut self, c: Card) -> (r: Result<(), Error>)
        requires
            c.wf(),
        ensures
            old(self)@.len() < MAX_HAND_SIZE ==> r is Ok && final(self)@ == old(self)@.push(c),
            old(self)@.len() >= MAX_HAND_SIZE ==> r == Err::<(), Error>(Error::CapacityError(c))
                && final(self)@ == old(self)@,
    {
        proof {
            use_type_invariant(&*self);
        }
        if cards_try_push(&mut self.cards, c) {
            Ok(())
        } else {
            Err(Error::CapacityError(c))
        }
    }

    /// Sorts the cards by canonical index.
    pub fn sort(&mut self)
        ensures
            final(self)@.to_multiset() == old(self)@.to_multiset(),
            final(self)@.len() == old(self)@.len(),
            sorted_by_index(final(self)@),
    {
        proof {
            use_type_invariant(&*self);
        }
        let mut cards = cards_new();
        core::mem::swap(&mut self.cards, &mut cards);
        let ghost before = cards_of(cards);
        cards_sort_by_index(&mut cards);
        proof {
            let s = cards_of(cards);
            assert forall|i: int| 0 <= i < s.len() implies (#[trigger] s[i]).wf() by {
                assert(s.contains(s[i]));
                assert(s.to_multiset().count(s[i]) > 0);
                assert(before.to_multiset().count(s[i]) > 0);
                assert(before.contains(s[i]));
            }
        }
        self.cards = cards;
    }

    /// Reads one token into the hand, unless an earlier token failed.
    fn read_token(&mut self, failed: &mut Option<Error>, tok: &str)
        ensures
            parse_step(Hand::state(*old(self), *old(failed)), tok@) == Hand::state(*final(self), *final(failed)),
    {
        if failed.is_some() {
            return;
        }
        match Card::parse(tok) {
            Err(e) => {
                *failed = Some(e);
            },
            Ok(c) => {
                match self.push(c) {
                    Ok(()) => {},
                    Err(e) => {
                        *failed = Some(e);
                    },
                }
            },
        }
    }

    /// The cards read so far, or the first failure.
    spec fn state(h: Hand, failed: Option<Error>) -> Result<Seq<Card>, Error> {
        match failed {
            Some(e) => Err(e),
            None => Ok(h@),
        }
    }
}

/// Building hands.
pub trait HandUtil: Sized {
    /// The cards of the hand, in order.
    spec fn cards(&self) -> Seq<Card>;

    /// Appends `n` random cards.
    fn fill(&mut self, n: u32)
        requires
            old(self).cards().len() + n <= MAX_HAND_SIZE,
        ensures
            final(self).cards().len() == old(self).cards().len() + n,
            final(self).cards().take(old(self).cards().len() as int) == old(self).cards(),
            all_wf(final(self).cards()),
    ;

    /// Reads a hand from card tokens separated by single spaces; fails on
    /// the first token that is no card (`ParseError`) or that finds the hand
    /// full (`CapacityError`).
    fn parse(s: &str) -> (r: Result<Self, Error>)
        ensures
            match parse_cards(split_spaces(s@)) {
                Ok(cs) => r matches Ok(h) && h.cards() == cs,
                Err(e) => r matches Err(f) && f == e,
            },
    ;

    /// Reads a hand as `parse` does, then sorts it by canonical index.
    fn parse_sorted(s: &str) -> (r: Result<Self, Error>)
        ensures
            match parse_cards(split_spaces(s@)) {
                Ok(cs) => r matches Ok(h) && h.cards().to_multiset() == cs.to_multiset() && sorted_by_index(
                    h.cards(),
                ),
                Err(e) => r matches Err(f) && f == e,
            },
    ;
}

impl HandUtil for Hand {
    open spec fn cards(&self) -> Seq<Card> {
        self@
    }

    fn parse(s: &str) -> (r: Result<Hand, Error>) {
        let mut h = Hand::new();
        let mut failed: Option<Error> = None;
        let len = s.unicode_len();
        let mut start: usize = 0;
        let mut i: usize = 0;
        let ghost mut done: Seq<Seq<char>> = Seq::empty();
        assert(s@.take(0) =~= Seq::<char>::empty());
        assert(s@.subrange(0, 0) =~= Seq::<char>::empty());
        while i < len
            invariant
                len == s@.len(),
                start <= i <= len,
                split_spaces(s@.take(i as int)) == done.push(s@.subrange(start as int, i as int)),
                Hand::state(h, failed) == parse_cards(done),
            decreases len - i,
        {
            let c = s.get_char(i);
            assert(s@.take(i + 1).drop_last() =~= s@.take(i as int));
            assert(s@.take(i + 1).last() == c);
            if c == ' ' {
                let tok = char_range(s, start, i);
                assert(tok@ =~= s@.subrange(start as int, i as int));
                h.read_token(&mut failed, tok);
                proof {
                    let d2 = done.push(tok@);
                    assert(d2.drop_last() =~= done);
                    done = d2;
                }
                start = i + 1;
                assert(s@.subrange(start as int, start as int) =~= Seq::<char>::empty());
            } else {
                assert(s@.subrange(start as int, i + 1) =~= s@.subrange(start as int, i as int).push(c));
            }
            i = i + 1;
            proof {
                assert(split_spaces(s@.take(i as int)) =~= done.push(s@.subrange(start as int, i as int)));
            }
        }
        let tok = char_range(s, start, len);
        assert(tok@ =~= s@.subrange(start as int, len as int));
        assert(s@.take(len as int) =~= s@);
        h.read_token(&mut failed, tok);
        proof {
            let d2 = done.push(tok@);
            assert(d2.drop_last() =~= done);
        }
        match failed {
            Some(e) => Err(e),
            None => Ok(h),
        }
    }

    fn parse_sorted(s: &str) -> (r: Result<Hand, Error>) {
        let mut h = Hand::parse(s)?;
        h.sort();
        Ok(h)
    }

    fn fill(&mut self, n: u32) {
        let mut k: u32 = 0;
        let _ = self.len();
        while k < n
            invariant
                k <= n,
                self@.len() == old(self)@.len() + k,
                old(self)@.len() + n <= MAX_HAND_SIZE,
                self@.take(old(self)@.len() as int) == old(self)@,
            decreases n - k,
        {
            let c = Card::random();
            let ghost before = self@;
            let _ = self.push(c);
            assert(self@.take(old(self)@.len() as int) =~= before.take(old(self)@.len() as int));
            k = k + 1;
        }
        let _ = self.len();
    }
}

} // verus!
