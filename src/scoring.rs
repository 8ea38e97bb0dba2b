//! Scoring a decomposition against the cards that remain in the deck.
//!
//! Scores are exact integers in points: one unit of score is `SCORE_SCALE`
//! points. A card of a group that is no meld is worth 0.05 (26 points); a
//! card of a meld is worth 1 (520 points); drawing one possible extender of a
//! meld is worth its odds, `count / 104` (5 points per remaining copy).
use vstd::prelude::*;

use crate::card::{Card, Suit, Value};
use crate::deck::Deck;
use crate::hand::Hand;
use crate::optimise::optimal_decomposition;
use crate::partition::{
    is_meld, is_quasi_meld, is_run_meld, is_set_meld, is_single, Group, GroupCharacteristics, Partition,
};

verus! {

/// Points per unit of score.
pub const SCORE_SCALE: u64 = 520;

/// Points for each card of a group that is no meld.
pub const LOOSE_CARD_POINTS: u64 = 26;

/// Points for each card of a meld.
pub const MELD_CARD_POINTS: u64 = 520;

/// Points for each remaining copy of an extender.
pub const COPY_POINTS: u64 = 5;

/// Some card of `g` has suit `m`.
pub open spec fn suit_present(g: Seq<Card>, m: Suit) -> bool {
    exists|i: int| 0 <= i < g.len() && #[trigger] g[i].suit == m
}

/// The points of drawing a copy of `c`.
pub open spec fn draw_points(d: Seq<u32>, c: Card) -> int {
    COPY_POINTS * d[c.index()]
}

/// The extender of a set-meld in suit `m`, when `m` is missing from it.
pub open spec fn missing_suit_points(g: Seq<Card>, d: Seq<u32>, m: Suit) -> int {
    if suit_present(g, m) {
        0
    } else {
        draw_points(d, Card { n: g[0].n, suit: m })
    }
}

/// The expected gain of extending a meld by a future draw: for a run-meld,
/// the next card above its highest (below King) and below its lowest (above
/// Ace), in its suit; for a set-meld of fewer than four cards, its value in
/// each missing suit. Nothing for a four-card set-meld or for a group that
/// is no meld.
pub open spec fn extension_points(g: Seq<Card>, d: Seq<u32>) -> int {
    if is_run_meld(g) {
        let s = g[0].suit;
        let lo = g[0].n.0;
        let hi = g.last().n.0;
        (if hi < 13 {
            draw_points(d, Card { n: Value((hi + 1) as u32), suit: s })
        } else {
            0
        }) + (if lo > 1 {
            draw_points(d, Card { n: Value((lo - 1) as u32), suit: s })
        } else {
            0
        })
    } else if is_set_meld(g) {
        if g.len() >= 4 {
            0
        } else {
            missing_suit_points(g, d, Suit::Clubs) + missing_suit_points(g, d, Suit::Diamonds)
                + missing_suit_points(g, d, Suit::Hearts) + missing_suit_points(g, d, Suit::Spades)
        }
    } else {
        0
    }
}

/// The points of one group.
pub open spec fn group_points(g: Seq<Card>, d: Seq<u32>) -> int {
    if is_meld(g) {
        MELD_CARD_POINTS * g.len() + extension_points(g, d)
    } else {
        LOOSE_CARD_POINTS * g.len()
    }
}

/// The points of a partition: the sum over its groups.
pub open spec fn partition_points(p: Seq<Seq<Card>>, d: Seq<u32>) -> int
    decreases p.len(),
{
    if p.len() == 0 {
        0
    } else {
        partition_points(p.drop_last(), d) + group_points(p.last(), d)
    }
}

/// Along a chain, values rise by one per position.
pub proof fn lemma_run_values(g: Seq<Card>, k: int)
    requires
        forall|i: int| 0 <= i < g.len() - 1 ==> (#[trigger] g[i]).precedes(g[i + 1]),
        0 <= k < g.len(),
    ensures
        g[k].n.0 == g[0].n.0 + k,
    decreases k,
{
    if k > 0 {
        lemma_run_values(g, k - 1);
        assert(g[k - 1].precedes(g[k]));
    }
}

/// Whether some card of the group has suit `m`.
pub fn has_suit(g: &Group, m: Suit) -> (r: bool)
    ensures
        r == suit_present(g@, m),
{
    let n = g.len();
    let mut i: usize = 0;
    while i < n
        invariant
            n == g@.len(),
            i <= n,
            forall|k: int| 0 <= k < i ==> (#[trigger] g@[k]).suit != m,
        decreases n - i,
    {
        if g.get(i).suit == m {
            return true;
        }
        i = i + 1;
    }
    false
}

/// The one ordinary suit that the group lacks, when it lacks exactly one.
pub open spec fn remaining_suit_of(g: Seq<Card>) -> Option<Suit> {
    let c = suit_present(g, Suit::Clubs);
    let d = suit_present(g, Suit::Diamonds);
    let h = suit_present(g, Suit::Hearts);
    let s = suit_present(g, Suit::Spades);
    if !c && d && h && s {
        Some(Suit::Clubs)
    } else if c && !d && h && s {
        Some(Suit::Diamonds)
    } else if c && d && !h && s {
        Some(Suit::Hearts)
    } else if c && d && h && !s {
        Some(Suit::Spades)
    } else {
        None
    }
}

/// For a set-meld of three, the suit that would complete it: the one
/// ordinary suit the group lacks, when it lacks exactly one.
pub fn remaining_suit(g: &Group) -> (r: Option<Suit>)
    ensures
        r == remaining_suit_of(g@),
{
    let c = has_suit(g, Suit::Clubs);
    let d = has_suit(g, Suit::Diamonds);
    let h = has_suit(g, Suit::Hearts);
    let s = has_suit(g, Suit::Spades);
    if !c && d && h && s {
        Some(Suit::Clubs)
    } else if c && !d && h && s {
        Some(Suit::Diamonds)
    } else if c && d && !h && s {
        Some(Suit::Hearts)
    } else if c && d && h && !s {
        Some(Suit::Spades)
    } else {
        None
    }
}

/// The points of drawing a copy of `c`.
fn draw_points_of(d: &Deck, c: Card) -> (r: u64)
    requires
        c.wf(),
    ensures
        r == draw_points(d@, c),
        r <= 20,
{
    let k = d.count_of(c);
    assert(c.index() == 52 ==> k <= 4);
    assert(c.index() < 52 ==> k <= 2);
    COPY_POINTS * k as u64
}

/// The points of the extender of a set-meld in suit `m`.
fn missing_suit_points_of(g: &Group, d: &Deck, m: Suit) -> (r: u64)
    requires
        g@.len() > 0,
        g@[0].n.0 >= 1,
        m != Suit::Joker,
    ensures
        r == missing_suit_points(g@, d@, m),
        r <= 20,
{
    if has_suit(g, m) {
        0
    } else {
        let v = g.get(0).n;
        draw_points_of(d, Card { n: v, suit: m })
    }
}

/// The expected gain of extending a meld by a future draw, in points (see
/// `extension_points`).
pub fn extension_score(g: &Group, d: &Deck) -> (r: u64)
    ensures
        r == extension_points(g@, d@),
        r <= 80,
{
    let n = g.len();
    if g.is_run_meld() {
        let first = g.get(0);
        let last = g.get(n - 1);
        let s = first.suit;
        assert(s != Suit::Joker) by {
            if s == Suit::Joker {
                assert(g@[1].suit == s);
                assert(g@[0].precedes(g@[1]));
            }
        }
        assert(last.n.0 == first.n.0 + n - 1) by {
            lemma_run_values(g@, n - 1);
        }
        let up = if last.n.0 < 13 {
            draw_points_of(d, Card { n: Value(last.n.0 + 1), suit: s })
        } else {
            0
        };
        let down = if first.n.0 > 1 {
            draw_points_of(d, Card { n: Value(first.n.0 - 1), suit: s })
        } else {
            0
        };
        up + down
    } else if g.is_set_meld() {
        if n >= 4 {
            0
        } else {
            assert(g@[0].n.0 >= 1) by {
                if g@[0].n.0 == 0 {
                    assert(g@[0].suit == Suit::Joker);
                    assert(g@[1].n == g@[0].n);
                    assert(g@[1].suit == Suit::Joker);
                }
            }
            missing_suit_points_of(g, d, Suit::Clubs) + missing_suit_points_of(g, d, Suit::Diamonds)
                + missing_suit_points_of(g, d, Suit::Hearts) + missing_suit_points_of(g, d, Suit::Spades)
        }
    } else {
        0
    }
}

/// The points of one group against the deck.
fn group_score(g: &Group, d: &Deck) -> (r: u64)
    ensures
        r == group_points(g@, d@),
        r <= 8000,
{
    let n = g.len() as u64;
    if g.is_meld() {
        MELD_CARD_POINTS * n + extension_score(g, d)
    } else {
        LOOSE_CARD_POINTS * n
    }
}

/// The score of a decomposition against the deck, in points: the sum over
/// its groups of 26 points per card of a group that is no meld, and of 520
/// points per card of a meld plus its extension points.
pub fn decomp_points(p: &Partition, d: &Deck) -> (r: u64)
    ensures
        r == partition_points(p@, d@),
{
    let n = p.len();
    let mut total: u64 = 0;
    let mut i: usize = 0;
    assert(p@.take(0) =~= Seq::<Seq<Card>>::empty());
    while i < n
        invariant
            n == p@.len(),
            n <= 15,
            i <= n,
            total == partition_points(p@.take(i as int), d@),
            total <= 8000 * i,
        decreases n - i,
    {
        assert(p@.take(i + 1).drop_last() =~= p@.take(i as int));
        total = total + group_score(p.get(i), d);
        i = i + 1;
    }
    assert(p@.take(n as int) =~= p@);
    total
}

/// The score of a hand against the deck, in points: the score of its
/// optimised decomposition.
pub fn score_hand_points(h: &Hand, d: &Deck) -> (r: u64)
    ensures
        r == partition_points(crate::optimise::optimal_groups(h@), d@),
{
    let p = optimal_decomposition(h);
    decomp_points(&p, d)
}

/// The points of a partition are the sum of the points of its parts.
pub proof fn lemma_points_additive(a: Seq<Seq<Card>>, b: Seq<Seq<Card>>, d: Seq<u32>)
    ensures
        partition_points(a + b, d) == partition_points(a, d) + partition_points(b, d),
    decreases b.len(),
{
    if b.len() == 0 {
        assert(a + b =~= a);
    } else {
        lemma_points_additive(a, b.drop_last(), d);
        assert((a + b).drop_last() =~= a + b.drop_last());
        assert((a + b).last() == b.last());
    }
}

/// Extension credit is never negative; it is zero for a group that is no
/// meld, for a set-meld of four cards, and for a run-meld whose extenders
/// above and below (where they exist) have no copies left.
pub proof fn lemma_extension_credit(g: Seq<Card>, d: Seq<u32>)
    ensures
        extension_points(g, d) >= 0,
        !is_meld(g) ==> extension_points(g, d) == 0,
        is_set_meld(g) && g.len() == 4 ==> extension_points(g, d) == 0,
        is_run_meld(g) && (g.last().n.0 < 13 ==> d[Card { n: Value((g.last().n.0 + 1) as u32), suit: g[0].suit }.index()] == 0)
            && (g[0].n.0 > 1 ==> d[Card { n: Value((g[0].n.0 - 1) as u32), suit: g[0].suit }.index()] == 0)
            ==> extension_points(g, d) == 0,
{
}

/// Taking a group out of a partition takes its points out.
proof fn lemma_points_remove(b: Seq<Seq<Card>>, k: int, d: Seq<u32>)
    requires
        0 <= k < b.len(),
    ensures
        partition_points(b, d) == partition_points(b.remove(k), d) + group_points(b[k], d),
{
    let front = b.take(k);
    let back = b.skip(k + 1);
    assert(b =~= front + seq![b[k]] + back);
    assert(b.remove(k) =~= front + back);
    lemma_points_additive(front + seq![b[k]], back, d);
    lemma_points_additive(front, seq![b[k]], d);
    lemma_points_additive(front, back, d);
    assert(seq![b[k]].drop_last() =~= Seq::<Seq<Card>>::empty());
    assert(partition_points(Seq::<Seq<Card>>::empty(), d) == 0);
}

/// The points of a partition do not depend on the order of its groups.
pub proof fn lemma_points_any_order(a: Seq<Seq<Card>>, b: Seq<Seq<Card>>, d: Seq<u32>)
    requires
        a.to_multiset() == b.to_multiset(),
    ensures
        partition_points(a, d) == partition_points(b, d),
    decreases a.len(),
{
    broadcast use vstd::seq_lib::group_to_multiset_ensures;

    if a.len() == 0 {
        assert(b.len() == b.to_multiset().len());
        assert(b =~= Seq::<Seq<Card>>::empty());
    } else {
        let x = a.last();
        let rest = a.drop_last();
        assert(rest.push(x) =~= a);
        assert(a.to_multiset().count(x) > 0);
        assert(b.contains(x));
        let k = choose|k: int| 0 <= k < b.len() && b[k] == x;
        assert(b.remove(k).to_multiset() =~= rest.to_multiset());
        lemma_points_any_order(rest, b.remove(k), d);
        lemma_points_remove(b, k, d);
    }
}

/// Turning a quasi-meld and a single card into a run-meld of three raises
/// the score of a partition, whatever the deck holds: `p1` holds the other
/// groups `rest` with the quasi-meld `q` and the single `s`, and `p2` holds
/// the same `rest` with the run-meld `r` of the cards of `q` and `s`, each
/// in any order.
pub proof fn lemma_completed_run_scores_higher(
    p1: Seq<Seq<Card>>,
    p2: Seq<Seq<Card>>,
    rest: Seq<Seq<Card>>,
    q: Seq<Card>,
    s: Seq<Card>,
    r: Seq<Card>,
    d: Seq<u32>,
)
    requires
        is_quasi_meld(q),
        is_single(s),
        is_run_meld(r),
        r.len() == 3,
        r.to_multiset() == (q + s).to_multiset(),
        p1.to_multiset() == rest.push(q).push(s).to_multiset(),
        p2.to_multiset() == rest.push(r).to_multiset(),
    ensures
        partition_points(p1, d) < partition_points(p2, d),
{
    lemma_points_any_order(p1, rest.push(q).push(s), d);
    lemma_points_any_order(p2, rest.push(r), d);
    assert(rest.push(q).push(s).drop_last() == rest.push(q));
    assert(rest.push(q).drop_last() == rest);
    assert(rest.push(r).drop_last() == rest);
    assert(partition_points(rest.push(q).push(s), d) == partition_points(rest.push(q), d) + group_points(s, d));
    assert(partition_points(rest.push(q), d) == partition_points(rest, d) + group_points(q, d));
    assert(partition_points(rest.push(r), d) == partition_points(rest, d) + group_points(r, d));
    lemma_extension_credit(r, d);
    assert(!is_meld(q));
    assert(!is_meld(s));
    assert(group_points(q, d) == 52);
    assert(group_points(s, d) == 26);
    assert(group_points(r, d) >= 1560);
}

} // verus!
