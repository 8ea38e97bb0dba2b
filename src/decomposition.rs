//! Decompositions of a hand: one group per suit, and the naive
//! decomposition into runs of consecutive values.
use vstd::multiset::Multiset;
use vstd::prelude::*;

use crate::card::{all_suits, Card, Suit};
use crate::hand::Hand;
use crate::partition::{Group, Partition};

verus! {

broadcast use vstd::seq_lib::group_to_multiset_ensures, vstd::seq_lib::group_filter_ensures;

/// The cards of `cs` of suit `s`, in order.
pub open spec fn of_suit(cs: Seq<Card>, s: Suit) -> Seq<Card> {
    cs.filter(|c: Card| c.suit == s)
}

/// Whether a group holds at least one card.
pub open spec fn non_empty(g: Seq<Card>) -> bool {
    g.len() > 0
}

/// The groups of the first `k` suits, in suit order, empty ones left out.
pub open spec fn suit_groups_upto(cs: Seq<Card>, k: int) -> Seq<Seq<Card>> {
    all_suits().take(k).map_values(|s: Suit| of_suit(cs, s)).filter(|g: Seq<Card>| non_empty(g))
}

/// One group per suit that occurs in `cs`, in suit order (Clubs, Diamonds,
/// Hearts, Spades, Joker), each holding that suit's cards in hand order.
pub open spec fn suit_groups(cs: Seq<Card>) -> Seq<Seq<Card>> {
    suit_groups_upto(cs, 5)
}

/// Divides a hand into one group per suit present, in suit order.
pub fn partition_suit(h: &Hand) -> (r: Partition)
    ensures
        r@ == suit_groups(h@),
        r@.flatten().to_multiset() == h@.to_multiset(),
{
    let n = h.len();
    let suits = Suit::iter();
    let mut p = Partition::new();
    let mut k: usize = 0;
    assert(all_suits().take(0).map_values(|s: Suit| of_suit(h@, s)) =~= Seq::<Seq<Card>>::empty());
    while k < 5
        invariant
            n == h@.len(),
            n <= 15,
            suits@ == all_suits(),
            k <= 5,
            p@ == suit_groups_upto(h@, k as int),
            p@.len() <= k,
        decreases 5 - k,
    {
        let s = suits[k];
        let mut g = Group::new();
        let mut i: usize = 0;
        assert(h@.take(0) =~= Seq::<Card>::empty());
        while i < n
            invariant
                n == h@.len(),
                n <= 15,
                i <= n,
                g@ == of_suit(h@.take(i as int), s),
            decreases n - i,
        {
            let c = h.get(i);
            proof {
                assert(h@.take(i + 1) =~= h@.take(i as int).push(c));
                h@.take(i as int).lemma_filter_push(c, |c: Card| c.suit == s);
            }
            if c.suit == s {
                g.push(c);
            }
            i = i + 1;
        }
        assert(h@.take(n as int) =~= h@);
        proof {
            let f = |s: Suit| of_suit(h@, s);
            assert(all_suits().take(k + 1).map_values(f) =~= all_suits().take(k as int).map_values(f).push(f(s)));
            all_suits().take(k as int).map_values(f).lemma_filter_push(f(s), |g: Seq<Card>| non_empty(g));
        }
        if g.len() != 0 {
            p.push(g);
        }
        k = k + 1;
    }
    proof {
        lemma_suit_groups_cover(h@);
    }
    p
}

/// Leaving out empty groups keeps the cards.
pub proof fn lemma_non_empty_flatten(p: Seq<Seq<Card>>)
    ensures
        p.filter(|g: Seq<Card>| non_empty(g)).flatten() == p.flatten(),
    decreases p.len(),
{
    let f = |g: Seq<Card>| non_empty(g);
    if p.len() == 0 {
        assert(p.filter(f) =~= p) by {
            reveal(Seq::filter);
        }
    } else {
        let q = p.drop_last();
        lemma_non_empty_flatten(q);
        assert(q.push(p.last()) =~= p);
        q.lemma_filter_push(p.last(), f);
        q.lemma_flatten_push(p.last());
        q.filter(f).lemma_flatten_push(p.last());
        if p.last().len() == 0 {
            assert(q.flatten() + p.last() =~= q.flatten());
        }
    }
}

/// Every card lies in exactly one suit group.
proof fn lemma_suits_split(cs: Seq<Card>)
    ensures
        cs.to_multiset() == of_suit(cs, Suit::Clubs).to_multiset().add(
            of_suit(cs, Suit::Diamonds).to_multiset(),
        ).add(of_suit(cs, Suit::Hearts).to_multiset()).add(of_suit(cs, Suit::Spades).to_multiset()).add(
            of_suit(cs, Suit::Joker).to_multiset(),
        ),
    decreases cs.len(),
{
    if cs.len() == 0 {
        reveal(Seq::filter);
        assert(cs.to_multiset() =~= Multiset::empty());
        assert(of_suit(cs, Suit::Clubs) =~= cs);
        assert(of_suit(cs, Suit::Diamonds) =~= cs);
        assert(of_suit(cs, Suit::Hearts) =~= cs);
        assert(of_suit(cs, Suit::Spades) =~= cs);
        assert(of_suit(cs, Suit::Joker) =~= cs);
    } else {
        let q = cs.drop_last();
        let c = cs.last();
        lemma_suits_split(q);
        assert(q.push(c) =~= cs);
        q.lemma_filter_push(c, |c: Card| c.suit == Suit::Clubs);
        q.lemma_filter_push(c, |c: Card| c.suit == Suit::Diamonds);
        q.lemma_filter_push(c, |c: Card| c.suit == Suit::Hearts);
        q.lemma_filter_push(c, |c: Card| c.suit == Suit::Spades);
        q.lemma_filter_push(c, |c: Card| c.suit == Suit::Joker);
        assert(cs.to_multiset() =~= of_suit(cs, Suit::Clubs).to_multiset().add(
            of_suit(cs, Suit::Diamonds).to_multiset(),
        ).add(of_suit(cs, Suit::Hearts).to_multiset()).add(of_suit(cs, Suit::Spades).to_multiset()).add(
            of_suit(cs, Suit::Joker).to_multiset(),
        ));
    }
}

/// The suit groups hold exactly the cards of the hand.
pub proof fn lemma_suit_groups_cover(cs: Seq<Card>)
    ensures
        suit_groups(cs).flatten().to_multiset() == cs.to_multiset(),
{
    broadcast use vstd::seq_lib::lemma_multiset_commutative;

    let f = |s: Suit| of_suit(cs, s);
    let all = all_suits().take(5).map_values(f);
    lemma_non_empty_flatten(all);
    assert(all_suits().take(5) =~= all_suits());
    assert(all =~= seq![f(Suit::Clubs), f(Suit::Diamonds), f(Suit::Hearts), f(Suit::Spades), f(Suit::Joker)]);
    let a = seq![f(Suit::Clubs), f(Suit::Diamonds), f(Suit::Hearts), f(Suit::Spades)];
    assert(all =~= a.push(f(Suit::Joker)));
    a.lemma_flatten_push(f(Suit::Joker));
    let b = seq![f(Suit::Clubs), f(Suit::Diamonds), f(Suit::Hearts)];
    assert(a =~= b.push(f(Suit::Spades)));
    b.lemma_flatten_push(f(Suit::Spades));
    let c = seq![f(Suit::Clubs), f(Suit::Diamonds)];
    assert(b =~= c.push(f(Suit::Hearts)));
    c.lemma_flatten_push(f(Suit::Hearts));
    let d = seq![f(Suit::Clubs)];
    assert(c =~= d.push(f(Suit::Diamonds)));
    d.lemma_flatten_push(f(Suit::Diamonds));
    d.lemma_flatten_singleton();
    lemma_suits_split(cs);
}

/// Splits `g`, from left to right, into maximal runs in which each card is
/// the predecessor of the next.
pub open spec fn runs(g: Seq<Card>) -> Seq<Seq<Card>>
    decreases g.len(),
{
    if g.len() == 0 {
        Seq::empty()
    } else {
        let prev = runs(g.drop_last());
        let c = g.last();
        if prev.len() > 0 && prev.last().len() > 0 && prev.last().last().precedes(c) {
            prev.update(prev.len() - 1, prev.last().push(c))
        } else {
            prev.push(seq![c])
        }
    }
}

/// The runs of each group, in order.
pub open spec fn runs_of_groups(gs: Seq<Seq<Card>>) -> Seq<Seq<Card>> {
    gs.map_values(|g: Seq<Card>| runs(g)).flatten()
}

/// The naive decomposition of a hand: the runs of each suit group.
pub open spec fn naive_groups(cs: Seq<Card>) -> Seq<Seq<Card>> {
    runs_of_groups(suit_groups(cs))
}

/// Each card is the predecessor of the next.
pub open spec fn is_chain(g: Seq<Card>) -> bool {
    forall|i: int| 0 <= i < g.len() - 1 ==> (#[trigger] g[i]).precedes(g[i + 1])
}

/// All cards share the suit of the first.
pub open spec fn same_suit(g: Seq<Card>) -> bool {
    forall|i: int| 0 <= i < g.len() ==> (#[trigger] g[i]).suit == g[0].suit
}

/// A group as the naive decomposition makes it: not empty, of one suit,
/// each card the predecessor of the next.
pub open spec fn is_naive_run(g: Seq<Card>) -> bool {
    g.len() > 0 && same_suit(g) && is_chain(g)
}

/// The runs of `g` hold the cards of `g` in order; each is a chain and not
/// empty, and each holds only cards of suit `s` when `g` does.
pub proof fn lemma_runs(g: Seq<Card>, s: Suit)
    ensures
        runs(g).flatten() == g,
        runs(g).len() <= g.len(),
        forall|i: int| 0 <= i < runs(g).len() ==> (#[trigger] runs(g)[i]).len() > 0 && is_chain(runs(g)[i]),
        (forall|i: int| 0 <= i < g.len() ==> (#[trigger] g[i]).suit == s) ==> forall|i: int, j: int|
            0 <= i < runs(g).len() && 0 <= j < runs(g)[i].len() ==> (#[trigger] runs(g)[i][j]).suit == s,
    decreases g.len(),
{
    if g.len() == 0 {
        assert(runs(g).flatten() =~= g);
    } else {
        let q = g.drop_last();
        let c = g.last();
        let prev = runs(q);
        lemma_runs(q, s);
        assert(q.push(c) =~= g);
        let r = runs(g);
        if prev.len() > 0 && prev.last().len() > 0 && prev.last().last().precedes(c) {
            let l = prev.len() - 1;
            let front = prev.take(l);
            assert(front.push(prev.last()) =~= prev);
            assert(front.push(prev.last().push(c)) =~= r);
            front.lemma_flatten_push(prev.last());
            front.lemma_flatten_push(prev.last().push(c));
            assert(r.flatten() =~= g);
            assert forall|i: int| 0 <= i < r.len() implies (#[trigger] r[i]).len() > 0 && is_chain(r[i]) by {
                if i == l {
                    let x = prev.last().push(c);
                    assert forall|j: int| 0 <= j < x.len() - 1 implies (#[trigger] x[j]).precedes(x[j + 1]) by {
                        if j < x.len() - 2 {
                            assert(prev[l][j].precedes(prev[l][j + 1]));
                        }
                    }
                }
            }
            if forall|i: int| 0 <= i < g.len() ==> (#[trigger] g[i]).suit == s {
                assert forall|i: int| 0 <= i < q.len() implies (#[trigger] q[i]).suit == s by {
                    assert(q[i] == g[i]);
                }
                assert forall|i: int, j: int| 0 <= i < r.len() && 0 <= j < r[i].len() implies (#[trigger] r[i][j]).suit == s by {
                    if i == l && j < r[i].len() - 1 {
                        assert(r[i][j] == prev[i][j]);
                    }
                }
            }
        } else {
            prev.lemma_flatten_push(seq![c]);
            assert(r.flatten() =~= g);
            if forall|i: int| 0 <= i < g.len() ==> (#[trigger] g[i]).suit == s {
                assert forall|i: int| 0 <= i < q.len() implies (#[trigger] q[i]).suit == s by {
                    assert(q[i] == g[i]);
                }
            }
        }
    }
}

/// Each group of a partition holds cards of one suit only.
pub open spec fn groups_of_one_suit(gs: Seq<Seq<Card>>) -> bool {
    forall|k: int, j: int| 0 <= k < gs.len() && 0 <= j < gs[k].len() ==> (#[trigger] gs[k][j]).suit == gs[k][0].suit
}

/// The runs of a sequence of groups hold the cards of the groups in order,
/// no more runs than cards; runs of one-suit groups are naive runs.
pub proof fn lemma_runs_of_groups(gs: Seq<Seq<Card>>)
    ensures
        runs_of_groups(gs).flatten() == gs.flatten(),
        runs_of_groups(gs).len() <= gs.flatten().len(),
        groups_of_one_suit(gs) ==> forall|i: int|
            0 <= i < runs_of_groups(gs).len() ==> is_naive_run(#[trigger] runs_of_groups(gs)[i]),
    decreases gs.len(),
{
    let f = |g: Seq<Card>| runs(g);
    if gs.len() == 0 {
        assert(gs.map_values(f) =~= Seq::<Seq<Seq<Card>>>::empty());
        assert(runs_of_groups(gs) =~= Seq::<Seq<Card>>::empty());
    } else {
        let q = gs.drop_last();
        let g = gs.last();
        lemma_runs_of_groups(q);
        lemma_runs(g, g[0].suit);
        assert(q.push(g) =~= gs);
        assert(gs.map_values(f) =~= q.map_values(f).push(runs(g)));
        q.map_values(f).lemma_flatten_push(runs(g));
        q.lemma_flatten_push(g);
        vstd::seq_lib::lemma_flatten_concat(runs_of_groups(q), runs(g));
        let a = runs_of_groups(q);
        let r = runs_of_groups(gs);
        assert(r == a + runs(g));
        if groups_of_one_suit(gs) {
            assert(groups_of_one_suit(q)) by {
                assert forall|k: int, j: int| 0 <= k < q.len() && 0 <= j < q[k].len() implies (#[trigger] q[k][j]).suit == q[k][0].suit by {
                    assert(q[k] == gs[k]);
                }
            }
            assert forall|i: int| 0 <= i < g.len() implies (#[trigger] g[i]).suit == g[0].suit by {
                assert(g == gs[gs.len() - 1]);
            }
            assert forall|i: int| 0 <= i < r.len() implies is_naive_run(#[trigger] r[i]) by {
                if i >= a.len() {
                    let x = runs(g)[i - a.len()];
                    assert(r[i] == x);
                    assert forall|j: int| 0 <= j < x.len() implies (#[trigger] x[j]).suit == x[0].suit by {
                        assert(runs(g)[i - a.len()][j].suit == g[0].suit);
                        assert(runs(g)[i - a.len()][0].suit == g[0].suit);
                    }
                } else {
                    assert(r[i] == a[i]);
                }
            }
        }
    }
}

/// Each suit group holds cards of one suit.
pub proof fn lemma_suit_groups_one_suit(cs: Seq<Card>)
    ensures
        groups_of_one_suit(suit_groups(cs)),
{
    let f = |s: Suit| of_suit(cs, s);
    let all = all_suits().take(5).map_values(f);
    let sg = suit_groups(cs);
    assert forall|k: int, j: int| 0 <= k < sg.len() && 0 <= j < sg[k].len() implies (#[trigger] sg[k][j]).suit == sg[k][0].suit by {
        assert(sg == all.filter(|g: Seq<Card>| non_empty(g)));
        assert(sg.contains(sg[k]));
        all.lemma_filter_contains_rev(|g: Seq<Card>| non_empty(g), sg[k]);
        assert(all.contains(sg[k]));
        let t = choose|t: int| 0 <= t < all.len() && all[t] == sg[k];
        let st = all_suits().take(5)[t];
        assert(sg[k] == of_suit(cs, st));
        cs.lemma_filter_pred(|c: Card| c.suit == st, j);
        cs.lemma_filter_pred(|c: Card| c.suit == st, 0);
    }
}

/// The groups so far, with the run under construction when it has cards.
pub open spec fn with_pending(d: Seq<Seq<Card>>, cur: Seq<Card>) -> Seq<Seq<Card>> {
    if cur.len() > 0 {
        d.push(cur)
    } else {
        d
    }
}

/// A simple, suboptimal decomposition: each suit group of the hand split
/// into maximal runs of consecutive values. On a sorted hand the runs are
/// ascending.
pub fn naive_decomposition(h: &Hand) -> (r: Partition)
    ensures
        r@ == naive_groups(h@),
        r@.flatten().to_multiset() == h@.to_multiset(),
        forall|i: int| 0 <= i < r@.len() ==> is_naive_run(#[trigger] r@[i]),
{
    let _ = h.len();
    let p = partition_suit(h);
    let ghost sg = p@;
    let np = p.len();
    let mut decomp = Partition::new();
    let mut k: usize = 0;
    proof {
        lemma_suit_groups_cover(h@);
        lemma_suit_groups_one_suit(h@);
        assert(sg.flatten().to_multiset().len() == h@.to_multiset().len());
        assert(sg.take(0) =~= Seq::<Seq<Card>>::empty());
        lemma_runs_of_groups(sg.take(0));
    }
    while k < np
        invariant
            np == sg.len(),
            sg == p@,
            sg == suit_groups(h@),
            sg.flatten().len() == h@.len(),
            h@.len() <= 15,
            k <= np,
            decomp@ == runs_of_groups(sg.take(k as int)),
        decreases np - k,
    {
        let g = p.get(k);
        let m = g.len();
        let mut cur = Group::new();
        let mut j: usize = 0;
        let ghost base = decomp@;
        proof {
            lemma_runs_of_groups(sg.take(k as int));
            assert(sg.take(k + 1) + sg.skip(k + 1) =~= sg);
            vstd::seq_lib::lemma_flatten_concat(sg.take(k + 1), sg.skip(k + 1));
            assert(sg.take(k as int).push(g@) =~= sg.take(k + 1));
            sg.take(k as int).lemma_flatten_push(g@);
            assert(g@.take(0) =~= Seq::<Card>::empty());
        }
        while j < m
            invariant
                m == g@.len(),
                j <= m,
                base.len() + g@.len() <= 15,
                with_pending(decomp@, cur@) == base + runs(g@.take(j as int)),
                (j == 0) == (cur@.len() == 0),
                cur@.len() <= j,
                j > 0 ==> runs(g@.take(j as int)).last() == cur@,
                runs(g@.take(j as int)).len() <= j,
            decreases m - j,
        {
            let c = g.get(j);
            let ghost prev = runs(g@.take(j as int));
            proof {
                assert(g@.take(j + 1).drop_last() =~= g@.take(j as int));
                assert(g@.take(j + 1).last() == c);
            }
            let ghost old_cur = cur@;
            let ghost old_decomp = decomp@;
            if cur.len() == 0 {
                let ok = cur.push(c);
                assert(ok);
                assert(prev =~= Seq::<Seq<Card>>::empty()) by {
                    assert(g@.take(j as int) =~= Seq::<Card>::empty());
                }
                assert(base + prev =~= base);
                assert(runs(g@.take(j + 1)) =~= seq![seq![c]]);
                assert(cur@ =~= seq![c]);
                assert(with_pending(decomp@, cur@) =~= base + runs(g@.take(j + 1)));
            } else {
                let last = cur.get(cur.len() - 1);
                assert(prev.len() > 0);
                assert(prev.last() == old_cur);
                if last.is_predecessor(&c) {
                    let ok = cur.push(c);
                    assert(ok);
                    assert(runs(g@.take(j + 1)) == prev.update(prev.len() - 1, old_cur.push(c)));
                    assert(old_decomp.push(old_cur) == base + prev);
                    assert(base + prev.update(prev.len() - 1, old_cur.push(c)) =~= (base + prev).update(
                        base.len() + prev.len() - 1,
                        old_cur.push(c),
                    ));
                    assert(old_decomp.push(old_cur).update(old_decomp.len() as int, old_cur.push(c))
                        =~= old_decomp.push(old_cur.push(c)));
                    assert(with_pending(decomp@, cur@) =~= base + runs(g@.take(j + 1)));
                } else {
                    let done = cur;
                    assert(old_decomp.push(old_cur) == base + prev);
                    assert(old_decomp.push(old_cur).len() == base.len() + prev.len());
                    assert(old_decomp.len() < 15);
                    let ok1 = decomp.push(done);
                    assert(ok1);
                    cur = Group::new();
                    let ok2 = cur.push(c);
                    assert(ok2);
                    assert(runs(g@.take(j + 1)) == prev.push(seq![c]));
                    assert(cur@ =~= seq![c]);
                    assert(with_pending(decomp@, cur@) =~= base + runs(g@.take(j + 1)));
                }
            }
            j = j + 1;
        }
        if cur.len() > 0 {
            decomp.push(cur);
        }
        proof {
            assert(g@.take(m as int) =~= g@);
            let f = |x: Seq<Card>| runs(x);
            assert(sg.take(k + 1).map_values(f) =~= sg.take(k as int).map_values(f).push(runs(g@)));
            sg.take(k as int).map_values(f).lemma_flatten_push(runs(g@));
        }
        k = k + 1;
    }
    proof {
        assert(sg.take(np as int) =~= sg);
        lemma_runs_of_groups(sg);
    }
    decomp
}

} // verus!
