//! Groups of cards, their classification, and partitions of a hand.
use vstd::prelude::*;

use arrayvec::ArrayVec;

use crate::bounded::{
    cards_get, cards_len, cards_new, cards_of, cards_remove, cards_try_push, groups_get,
    groups_get_mut, groups_insert, groups_len, groups_new, groups_of, groups_remove,
    groups_try_push,
};
use crate::card::Card;
use crate::error::Error;
use crate::hand::{all_wf, Hand};
use crate::MAX_DECOMP_COUNT;
use crate::MAX_HAND_SIZE;

verus! {

broadcast use vstd::seq_lib::group_to_multiset_ensures;

/// One card.
pub open spec fn is_single(g: Seq<Card>) -> bool {
    g.len() == 1
}

/// Two cards, the first the predecessor in value of the second.
pub open spec fn is_quasi_meld(g: Seq<Card>) -> bool {
    g.len() == 2 && g[0].precedes(g[1])
}

/// Three or more cards of one suit, each the predecessor of the next.
pub open spec fn is_run_meld(g: Seq<Card>) -> bool {
    &&& g.len() >= 3
    &&& forall|i: int| 0 <= i < g.len() ==> (#[trigger] g[i]).suit == g[0].suit
    &&& forall|i: int| 0 <= i < g.len() - 1 ==> (#[trigger] g[i]).precedes(g[i + 1])
}

/// Three or more cards of one value, with pairwise distinct suits.
pub open spec fn is_set_meld(g: Seq<Card>) -> bool {
    &&& g.len() >= 3
    &&& forall|i: int| 0 <= i < g.len() ==> (#[trigger] g[i]).n == g[0].n
    &&& forall|i: int, j: int| 0 <= i < j < g.len() ==> (#[trigger] g[i]).suit != (#[trigger] g[j]).suit
}

/// A run-meld or a set-meld.
pub open spec fn is_meld(g: Seq<Card>) -> bool {
    is_run_meld(g) || is_set_meld(g)
}

/// The cards of all groups, in order.
pub open spec fn cards_in(p: Seq<Seq<Card>>) -> Seq<Card> {
    p.flatten()
}

/// Whether two partitions hold the same groups, each group compared as a
/// multiset of cards and the groups in any order.
pub open spec fn same_groups(p: Seq<Seq<Card>>, q: Seq<Seq<Card>>) -> bool {
    p.map_values(|g: Seq<Card>| g.to_multiset()).to_multiset()
        == q.map_values(|g: Seq<Card>| g.to_multiset()).to_multiset()
}

/// At most `MAX_HAND_SIZE` positions, each below `n`.
pub open spec fn positions_fit(idx: Seq<usize>, n: nat) -> bool {
    idx.len() <= MAX_HAND_SIZE && forall|k: int| 0 <= k < idx.len() ==> #[trigger] idx[k] < n
}

/// A subset of the cards of a hand: at most `MAX_HAND_SIZE` well-formed
/// cards. A group holds copies of the hand's cards (a card is a small `Copy`
/// value), so it stays valid whatever later happens to the hand.
pub struct Group {
    cards: ArrayVec<Card, MAX_HAND_SIZE>,
}

impl View for Group {
    type V = Seq<Card>;

    closed spec fn view(&self) -> Seq<Card> {
        cards_of(self.cards)
    }
}

impl Group {
    #[verifier::type_invariant]
    closed spec fn inv(self) -> bool {
        &&& cards_of(self.cards).len() <= MAX_HAND_SIZE
        &&& all_wf(cards_of(self.cards))
    }

    /// An empty group.
    pub fn new() -> (r: Group)
        ensures
            r@ == Seq::<Card>::empty(),
    {
        Group { cards: cards_new() }
    }

    /// The number of cards.
    pub fn len(&self) -> (r: usize)
        ensures
            r == self@.len(),
            r <= MAX_HAND_SIZE,
            all_wf(self@),
    {
        proof {
            use_type_invariant(self);
        }
        cards_len(&self.cards)
    }

    /// The card at position `i`.
    pub fn get(&self, i: usize) -> (r: Card)
        requires
            i < self@.len(),
        ensures
            r == self@[i as int],
            r.wf(),
    {
        proof {
            use_type_invariant(self);
        }
        cards_get(&self.cards, i)
    }

    /// The cards, in order.
    pub fn to_vec(&self) -> (r: Vec<Card>)
        ensures
            r@ == self@,
    {
        let n = self.len();
        let mut r: Vec<Card> = Vec::new();
        let mut i: usize = 0;
        while i < n
            invariant
                n == self@.len(),
                i <= n,
                r@ == self@.take(i as int),
            decreases n - i,
        {
            r.push(self.get(i));
            i = i + 1;
            assert(r@ =~= self@.take(i as int));
        }
        assert(r@ =~= self@);
        r
    }

    /// Appends a card when the group has room; says whether it did.
    pub fn push(&mut self, c: Card) -> (r: bool)
        requires
            c.wf(),
        ensures
            r == (old(self)@.len() < MAX_HAND_SIZE),
            r ==> final(self)@ == old(self)@.push(c),
            !r ==> final(self)@ == old(self)@,
    {
        proof {
            use_type_invariant(&*self);
        }
        cards_try_push(&mut self.cards, c)
    }

    /// Takes out the card at position `i`, keeping the order of the rest.
    pub fn remove(&mut self, i: usize) -> (r: Card)
        requires
            i < old(self)@.len(),
        ensures
            r == old(self)@[i as int],
            final(self)@ == old(self)@.remove(i as int),
    {
        proof {
            use_type_invariant(&*self);
            let s = cards_of(self.cards);
            assert forall|k: int| 0 <= k < s.remove(i as int).len() implies (#[trigger] s.remove(i as int)[k]).wf() by {
                if k >= i {
                    assert(s.remove(i as int)[k] == s[k + 1]);
                }
            }
        }
        cards_remove(&mut self.cards, i)
    }

    /// The group of the hand's cards at the given positions, in the order
    /// given; `GroupIndexError` when a position is outside the hand or more
    /// than `MAX_HAND_SIZE` positions are given.
    pub fn from_hand(h: &Hand, idx: &[usize]) -> (r: Result<Group, Error>)
        ensures
            positions_fit(idx@, h@.len()) ==> (r matches Ok(g) && g@ == idx@.map_values(
                |i: usize| h@[i as int],
            )),
            !positions_fit(idx@, h@.len()) ==> r == Err::<Group, Error>(Error::GroupIndexError),
    {
        let n = h.len();
        if idx.len() > MAX_HAND_SIZE {
            return Err(Error::GroupIndexError);
        }
        let mut g = Group::new();
        let mut k: usize = 0;
        while k < idx.len()
            invariant
                n == h@.len(),
                idx@.len() <= MAX_HAND_SIZE,
                k <= idx@.len(),
                forall|j: int| 0 <= j < k ==> #[trigger] idx@[j] < h@.len(),
                g@ == idx@.take(k as int).map_values(|i: usize| h@[i as int]),
            decreases idx@.len() - k,
        {
            let i = idx[k];
            if i >= n {
                return Err(Error::GroupIndexError);
            }
            let c = h.get(i);
            let ok = g.push(c);
            assert(ok);
            k = k + 1;
            assert(g@ =~= idx@.take(k as int).map_values(|i: usize| h@[i as int]));
        }
        assert(idx@.take(k as int) =~= idx@);
        Ok(g)
    }
}

/// The questions a decomposition asks of a group.
pub trait GroupCharacteristics {
    /// The group has one card.
    spec fn single(&self) -> bool;

    /// The group is a meld.
    spec fn meld(&self) -> bool;

    /// The group is a quasi-meld.
    spec fn quasi_meld(&self) -> bool;

    /// Whether the group has exactly one card.
    fn is_single(&self) -> (r: bool)
        ensures
            r == self.single(),
    ;

    /// Whether the group is a meld: a run-meld or a set-meld.
    fn is_meld(&self) -> (r: bool)
        ensures
            r == self.meld(),
    ;

    /// Whether the group is a quasi-meld.
    fn is_quasi_meld(&self) -> (r: bool)
        ensures
            r == self.quasi_meld(),
    ;
}

impl Group {
    /// Whether the group is a run-meld.
    pub fn is_run_meld(&self) -> (r: bool)
        ensures
            r == is_run_meld(self@),
    {
        let n = self.len();
        if n < 3 {
            return false;
        }
        let first = self.get(0);
        let mut i: usize = 1;
        while i < n
            invariant
                n == self@.len(),
                n >= 3,
                1 <= i <= n,
                first == self@[0],
                forall|k: int| 0 <= k < i ==> (#[trigger] self@[k]).suit == first.suit,
                forall|k: int| 0 <= k < i - 1 ==> (#[trigger] self@[k]).precedes(self@[k + 1]),
            decreases n - i,
        {
            let prev = self.get(i - 1);
            let c = self.get(i);
            if c.suit != first.suit || !prev.is_predecessor(&c) {
                return false;
            }
            i = i + 1;
        }
        true
    }

    /// Whether the group is a set-meld.
    pub fn is_set_meld(&self) -> (r: bool)
        ensures
            r == is_set_meld(self@),
    {
        cards_form_set(&self.to_vec())
    }
}

/// Whether the cards form a set-meld.
pub fn cards_form_set(cs: &Vec<Card>) -> (r: bool)
    ensures
        r == is_set_meld(cs@),
{
    let n = cs.len();
    if n < 3 {
        return false;
    }
    let first = cs[0];
    let mut i: usize = 0;
    while i < n
        invariant
            n == cs@.len(),
            n >= 3,
            i <= n,
            first == cs@[0],
            forall|k: int| 0 <= k < i ==> (#[trigger] cs@[k]).n == first.n,
            forall|a: int, b: int| 0 <= a < b < i ==> (#[trigger] cs@[a]).suit != (#[trigger] cs@[b]).suit,
        decreases n - i,
    {
        let c = cs[i];
        if c.n != first.n {
            return false;
        }
        let mut j: usize = 0;
        while j < i
            invariant
                n == cs@.len(),
                j <= i < n,
                c == cs@[i as int],
                forall|a: int| 0 <= a < j ==> (#[trigger] cs@[a]).suit != c.suit,
            decreases i - j,
        {
            if cs[j].suit == c.suit {
                return false;
            }
            j = j + 1;
        }
        i = i + 1;
    }
    true
}

impl GroupCharacteristics for Group {
    open spec fn single(&self) -> bool {
        is_single(self@)
    }

    open spec fn meld(&self) -> bool {
        is_meld(self@)
    }

    open spec fn quasi_meld(&self) -> bool {
        is_quasi_meld(self@)
    }

    fn is_single(&self) -> (r: bool) {
        self.len() == 1
    }

    fn is_meld(&self) -> (r: bool) {
        self.is_run_meld() || self.is_set_meld()
    }

    fn is_quasi_meld(&self) -> (r: bool) {
        if self.len() != 2 {
            return false;
        }
        self.get(0).is_predecessor(&self.get(1))
    }
}

/// The cards of each group.
pub open spec fn group_views(gs: Seq<Group>) -> Seq<Seq<Card>> {
    gs.map_values(|g: Group| g@)
}

/// Disjoint groups of the cards of one hand, at most `MAX_DECOMP_COUNT` of
/// them.
pub struct Partition {
    groups: ArrayVec<Group, MAX_DECOMP_COUNT>,
}

impl View for Partition {
    type V = Seq<Seq<Card>>;

    closed spec fn view(&self) -> Seq<Seq<Card>> {
        group_views(groups_of(self.groups))
    }
}

impl Partition {
    /// A partition without groups.
    pub fn new() -> (r: Partition)
        ensures
            r@ == Seq::<Seq<Card>>::empty(),
    {
        let r = Partition { groups: groups_new() };
        assert(r@ =~= Seq::<Seq<Card>>::empty());
        r
    }

    /// The number of groups.
    pub fn len(&self) -> (r: usize)
        ensures
            r == self@.len(),
            r <= MAX_DECOMP_COUNT,
    {
        groups_len(&self.groups)
    }

    /// The group at position `i`.
    pub fn get(&self, i: usize) -> (r: &Group)
        requires
            i < self@.len(),
        ensures
            r@ == self@[i as int],
    {
        groups_get(&self.groups, i)
    }

    /// The group at position `i`, to be changed in place.
    pub(crate) fn get_mut(&mut self, i: usize) -> (r: &mut Group)
        requires
            i < old(self)@.len(),
        ensures
            r@ == old(self)@[i as int],
            final(self)@ == old(self)@.update(i as int, final(r)@),
    {
        proof {
            let gs = groups_of(self.groups);
            assert forall|g: Group| #[trigger] group_views(gs.update(i as int, g))
                == self@.update(i as int, g@) by {
                assert(group_views(gs.update(i as int, g)) =~= self@.update(i as int, g@));
            }
        }
        groups_get_mut(&mut self.groups, i)
    }

    /// Appends a group when the partition has room; says whether it did.
    pub fn push(&mut self, g: Group) -> (r: bool)
        ensures
            r == (old(self)@.len() < MAX_DECOMP_COUNT),
            r ==> final(self)@ == old(self)@.push(g@),
            !r ==> final(self)@ == old(self)@,
    {
        let r = groups_try_push(&mut self.groups, g);
        assert(r ==> self@ =~= old(self)@.push(g@));
        assert(!r ==> self@ =~= old(self)@);
        r
    }

    /// Puts a group at position `i`, shifting the later ones up.
    pub fn insert(&mut self, i: usize, g: Group)
        requires
            i <= old(self)@.len(),
            old(self)@.len() < MAX_DECOMP_COUNT,
        ensures
            final(self)@ == old(self)@.insert(i as int, g@),
    {
        groups_insert(&mut self.groups, i, g);
        assert(self@ =~= old(self)@.insert(i as int, g@));
    }

    /// Takes out the group at position `i`, keeping the order of the rest.
    pub fn remove(&mut self, i: usize) -> (r: Group)
        requires
            i < old(self)@.len(),
        ensures
            r@ == old(self)@[i as int],
            final(self)@ == old(self)@.remove(i as int),
    {
        let r = groups_remove(&mut self.groups, i);
        assert(self@ =~= old(self)@.remove(i as int));
        r
    }
}

/// The groups given by lists of hand positions.
pub open spec fn groups_at(h: Seq<Card>, lists: Seq<Seq<usize>>) -> Seq<Seq<Card>> {
    lists.map_values(|l: Seq<usize>| l.map_values(|i: usize| h[i as int]))
}

/// At most `MAX_DECOMP_COUNT` lists, each fitting the hand.
pub open spec fn lists_fit(lists: Seq<Seq<usize>>, n: nat) -> bool {
    lists.len() <= MAX_DECOMP_COUNT && forall|k: int| 0 <= k < lists.len() ==> positions_fit(#[trigger] lists[k], n)
}

/// The position lists of a slice of slices.
pub open spec fn lists_view(lists: Seq<&[usize]>) -> Seq<Seq<usize>> {
    lists.map_values(|l: &[usize]| l@)
}

/// The partition whose groups hold the hand's cards at the given lists of
/// positions; `GroupIndexError` when a position is outside the hand, a list
/// is longer than `MAX_HAND_SIZE`, or there are more than
/// `MAX_DECOMP_COUNT` lists.
pub fn partition_index(h: &Hand, lists: &[&[usize]]) -> (r: Result<Partition, Error>)
    ensures
        lists_fit(lists_view(lists@), h@.len()) ==> (r matches Ok(p) && p@ == groups_at(
            h@,
            lists_view(lists@),
        )),
        !lists_fit(lists_view(lists@), h@.len()) ==> r == Err::<Partition, Error>(Error::GroupIndexError),
{
    let ghost lv = lists_view(lists@);
    if lists.len() > MAX_DECOMP_COUNT {
        return Err(Error::GroupIndexError);
    }
    let mut p = Partition::new();
    let mut k: usize = 0;
    while k < lists.len()
        invariant
            lv == lists_view(lists@),
            lists@.len() <= MAX_DECOMP_COUNT,
            k <= lists@.len(),
            forall|j: int| 0 <= j < k ==> positions_fit(#[trigger] lv[j], h@.len()),
            p@ == groups_at(h@, lv.take(k as int)),
        decreases lists@.len() - k,
    {
        assert(lv[k as int] == lists@[k as int]@);
        let g = match Group::from_hand(h, lists[k]) {
            Ok(g) => g,
            Err(e) => {
                assert(!positions_fit(lv[k as int], h@.len()));
                assert(!lists_fit(lv, h@.len()));
                return Err(e);
            },
        };
        let ok = p.push(g);
        assert(ok);
        k = k + 1;
        assert(lv.take(k as int) =~= lv.take(k - 1).push(lv[k - 1]));
        assert(p@ =~= groups_at(h@, lv.take(k as int)));
    }
    assert(lv.take(k as int) =~= lv);
    Ok(p)
}

} // verus!
