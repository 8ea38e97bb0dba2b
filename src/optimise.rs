//! The optimiser: refines the naive decomposition by completing set-melds.
use vstd::prelude::*;

use crate::card::Card;
use crate::decomposition::{naive_decomposition, naive_groups, non_empty};
use crate::flatten::{
    all_non_empty, lemma_flatten_insert, lemma_flatten_update, lemma_groups_around, lemma_two_groups,
};
use crate::hand::Hand;
use crate::MAX_HAND_SIZE;
use crate::partition::{cards_form_set, is_run_meld, is_set_meld, Group, Partition};

verus! {

broadcast use vstd::seq_lib::group_to_multiset_ensures, vstd::seq_lib::group_filter_ensures;

/// The cards of the single-card groups of value `v`, in order.
pub open spec fn singles_of_value(p: Seq<Seq<Card>>, v: u32) -> Seq<Card>
    decreases p.len(),
{
    if p.len() == 0 {
        Seq::empty()
    } else {
        let rest = singles_of_value(p.drop_last(), v);
        if p.last().len() == 1 && p.last()[0].n.0 == v {
            rest.push(p.last()[0])
        } else {
            rest
        }
    }
}

/// `c` together with the single cards of its value forms a set-meld.
pub open spec fn completes_set(p: Seq<Seq<Card>>, c: Card) -> bool {
    is_set_meld(singles_of_value(p, c.n.0).push(c))
}

/// A run-meld that keeps a meld when it gives up a card.
pub open spec fn is_long_run(g: Seq<Card>) -> bool {
    is_run_meld(g) && g.len() >= 4
}

/// From group `y` on, each run-meld of four or more cards whose last card
/// (or else whose first card) completes a set-meld with the single cards of
/// its value gives that card up; the card becomes a single group placed
/// right after the run.
pub open spec fn release_from(p: Seq<Seq<Card>>, y: int) -> Seq<Seq<Card>>
    decreases p.len() - y,
{
    if y < 0 || y >= p.len() {
        p
    } else if is_long_run(p[y]) && completes_set(p, p[y].last()) {
        release_from(p.update(y, p[y].drop_last()).insert(y + 1, seq![p[y].last()]), y + 2)
    } else if is_long_run(p[y]) && completes_set(p, p[y].first()) {
        release_from(p.update(y, p[y].drop_first()).insert(y + 1, seq![p[y].first()]), y + 2)
    } else {
        release_from(p, y + 1)
    }
}

/// Group `x` takes the card of every single-card group of its value from
/// position `y` on; those groups become empty.
pub open spec fn absorb(p: Seq<Seq<Card>>, x: int, y: int) -> Seq<Seq<Card>>
    decreases p.len() - y,
{
    if y < 0 || y >= p.len() || x < 0 || x >= p.len() || p[x].len() == 0 {
        p
    } else if p[y].len() == 1 && p[y][0].n == p[x][0].n {
        absorb(p.update(x, p[x].push(p[y][0])).update(y, Seq::empty()), x, y + 1)
    } else {
        absorb(p, x, y + 1)
    }
}

/// Scanning from group `x` up to `n`, each group that still holds a single
/// card absorbs every later single card of the same value.
pub open spec fn merge_from(p: Seq<Seq<Card>>, x: int, n: int) -> Seq<Seq<Card>>
    decreases n - x,
{
    if x < 0 || x >= n || x >= p.len() {
        p
    } else if p[x].len() == 1 {
        merge_from(absorb(p, x, x + 1), x + 1, n)
    } else {
        merge_from(p, x + 1, n)
    }
}

/// Same-value single cards gathered into the first of them.
pub open spec fn merge_singles(p: Seq<Seq<Card>>) -> Seq<Seq<Card>> {
    merge_from(p, 0, p.len() as int)
}

/// The groups that hold cards.
pub open spec fn without_empty(p: Seq<Seq<Card>>) -> Seq<Seq<Card>> {
    p.filter(|g: Seq<Card>| non_empty(g))
}

/// The merge step: same-value single cards merged, empty groups removed.
pub open spec fn merge_step(p: Seq<Seq<Card>>) -> Seq<Seq<Card>> {
    without_empty(merge_singles(p))
}

/// The optimiser: end cards of long runs released to complete set-melds,
/// then the merge step.
pub open spec fn optimise(p: Seq<Seq<Card>>) -> Seq<Seq<Card>> {
    merge_step(release_from(p, 0))
}

/// The decomposition that `optimal_decomposition` returns.
pub open spec fn optimal_groups(cs: Seq<Card>) -> Seq<Seq<Card>> {
    optimise(naive_groups(cs))
}

/// Whether `c` completes a set-meld with the single cards of its value.
fn completes_set_in(p: &Partition, c: Card) -> (r: bool)
    ensures
        r == completes_set(p@, c),
{
    let n = p.len();
    let mut cs: Vec<Card> = Vec::new();
    let mut i: usize = 0;
    assert(p@.take(0) =~= Seq::<Seq<Card>>::empty());
    while i < n
        invariant
            n == p@.len(),
            i <= n,
            cs@ == singles_of_value(p@.take(i as int), c.n.0),
        decreases n - i,
    {
        let g = p.get(i);
        assert(p@.take(i + 1).drop_last() =~= p@.take(i as int));
        if g.len() == 1 {
            let d = g.get(0);
            if d.n.0 == c.n.0 {
                cs.push(d);
            }
        }
        i = i + 1;
    }
    assert(p@.take(n as int) =~= p@);
    cs.push(c);
    cards_form_set(&cs)
}

/// Releases end cards of long runs that complete set-melds (see
/// `release_from`).
fn release_end_cards(p: &mut Partition)
    requires
        all_non_empty(old(p)@),
        old(p)@.flatten().len() <= 15,
    ensures
        final(p)@ == release_from(old(p)@, 0),
        final(p)@.flatten().to_multiset() == old(p)@.flatten().to_multiset(),
        all_non_empty(final(p)@),
{
    let mut y: usize = 0;
    while y < p.len()
        invariant
            release_from(p@, y as int) == release_from(old(p)@, 0),
            p@.flatten().to_multiset() == old(p)@.flatten().to_multiset(),
            p@.flatten().len() <= 15,
            all_non_empty(p@),
            y <= p@.len() + 1,
        decreases p@.len() + 1 - y,
    {
        let ghost q = p@;
        let g = p.get(y);
        let m = g.len();
        let long_run = m >= 4 && g.is_run_meld();
        let mut take_last = false;
        let mut take_first = false;
        if long_run {
            let last = g.get(m - 1);
            if completes_set_in(p, last) {
                take_last = true;
            } else {
                let first = g.get(0);
                take_first = completes_set_in(p, first);
            }
        }
        if take_last || take_first {
            let idx = if take_last {
                m - 1
            } else {
                0
            };
            proof {
                lemma_groups_around(q, y as int);
            }
            let c = p.get_mut(y).remove(idx);
            let ghost rest = q[y as int].remove(idx as int);
            assert(take_last ==> rest =~= q[y as int].drop_last());
            assert(!take_last ==> rest =~= q[y as int].drop_first());
            assert(p@ == q.update(y as int, rest));
            let mut single = Group::new();
            single.push(c);
            assert(single@ =~= seq![c]);
            proof {
                lemma_flatten_update(q, y as int, rest);
                lemma_flatten_insert(q.update(y as int, rest), y + 1, seq![c]);
                if take_last {
                    assert(rest.push(c) =~= q[y as int]);
                } else {
                    assert(seq![c] + rest =~= q[y as int]);
                    vstd::seq_lib::lemma_multiset_commutative(seq![c], rest);
                }
                assert(q[y as int].to_multiset() =~= rest.to_multiset().add(seq![c].to_multiset()));
            }
            p.insert(y + 1, single);
            proof {
                let r = p@;
                let qu = q.update(y as int, rest);
                assert(r == qu.insert(y + 1, seq![c]));
                assert forall|a: Card| #[trigger] r.flatten().to_multiset().count(a) == q.flatten().to_multiset().count(a) by {
                    assert(r.flatten().to_multiset().count(a) == qu.flatten().to_multiset().count(a) + seq![c].to_multiset().count(a));
                    assert(qu.flatten().to_multiset().add(q[y as int].to_multiset()).count(a)
                        == q.flatten().to_multiset().add(rest.to_multiset()).count(a));
                    assert(q[y as int].to_multiset().count(a) == rest.to_multiset().add(seq![c].to_multiset()).count(a));
                }
                assert(r.flatten().to_multiset() =~= q.flatten().to_multiset());
                assert forall|i: int| 0 <= i < r.len() implies (#[trigger] r[i]).len() > 0 by {
                    if i < y + 1 {
                        assert(r[i] == q.update(y as int, rest)[i]);
                    } else if i > y + 1 {
                        assert(r[i] == q.update(y as int, rest)[i - 1]);
                    }
                }
            }
            y = y + 2;
        } else {
            y = y + 1;
        }
    }
}

/// Merges together all single-card groups of the same value: scanning left
/// to right, each group that still holds one card takes the cards of all
/// later single-card groups of its value; the groups so emptied are then
/// removed.
///
/// So `{[5c], [5h], [5s]}` becomes `{[5c, 5h, 5s]}`.
fn merge_single_numbers(p: &mut Partition)
    requires
        old(p)@.flatten().len() <= 15,
    ensures
        final(p)@ == merge_step(old(p)@),
        final(p)@.flatten().to_multiset() == old(p)@.flatten().to_multiset(),
        all_non_empty(final(p)@),
{
    let n = p.len();
    let mut x: usize = 0;
    while x < n
        invariant
            n == p@.len(),
            x <= n,
            merge_from(p@, x as int, n as int) == merge_singles(old(p)@),
            p@.flatten().to_multiset() == old(p)@.flatten().to_multiset(),
            p@.flatten().len() <= 15,
        decreases n - x,
    {
        if p.get(x).len() == 1 {
            let ghost px = p@;
            let mut y: usize = x + 1;
            while y < n
                invariant
                    n == p@.len(),
                    x < y <= n,
                    p@[x as int].len() >= 1,
                    absorb(p@, x as int, y as int) == absorb(px, x as int, x + 1),
                    p@.flatten().to_multiset() == old(p)@.flatten().to_multiset(),
                    p@.flatten().len() <= 15,
                decreases n - y,
            {
                let ghost q = p@;
                let gy = p.get(y);
                if gy.len() == 1 && gy.get(0).n == p.get(x).get(0).n {
                    let c = gy.get(0);
                    proof {
                        lemma_two_groups(q, x as int, y as int);
                    }
                    let ok = p.get_mut(x).push(c);
                    assert(ok);
                    let ghost q1 = p@;
                    assert(q1 == q.update(x as int, q[x as int].push(c)));
                    let _ = p.get_mut(y).remove(0);
                    assert(q[y as int].remove(0) =~= Seq::<Card>::empty());
                    assert(p@ == q1.update(y as int, Seq::<Card>::empty()));
                    proof {
                        lemma_flatten_update(q, x as int, q[x as int].push(c));
                        lemma_flatten_update(q1, y as int, Seq::<Card>::empty());
                        assert(q[y as int] =~= seq![c]);
                        assert forall|a: Card| #[trigger] p@.flatten().to_multiset().count(a) == q.flatten().to_multiset().count(a) by {
                            assert(q1.flatten().to_multiset().add(q[x as int].to_multiset()).count(a)
                                == q.flatten().to_multiset().add(q[x as int].push(c).to_multiset()).count(a));
                            assert(p@.flatten().to_multiset().add(q1[y as int].to_multiset()).count(a)
                                == q1.flatten().to_multiset().add(Seq::<Card>::empty().to_multiset()).count(a));
                        }
                        assert(p@.flatten().to_multiset() =~= q.flatten().to_multiset());
                    }
                }
                y = y + 1;
            }
        }
        x = x + 1;
    }
    let ghost merged = p@;
    p.clean_empty();
    proof {
        crate::decomposition::lemma_non_empty_flatten(merged);
        assert forall|i: int| 0 <= i < p@.len() implies (#[trigger] p@[i]).len() > 0 by {
            merged.lemma_filter_pred(|g: Seq<Card>| non_empty(g), i);
        }
    }
}

/// Removing empty groups from a partition.
pub trait PartitionUtil {
    /// The groups, each as its cards.
    spec fn groups(&self) -> Seq<Seq<Card>>;

    /// Removes the empty groups, keeping the order of the others.
    fn clean_empty(&mut self)
        ensures
            final(self).groups() == without_empty(old(self).groups()),
    ;
}

impl PartitionUtil for Partition {
    open spec fn groups(&self) -> Seq<Seq<Card>> {
        self@
    }

    fn clean_empty(&mut self) {
        let ghost orig = self@;
        let ghost mut k: int = 0;
        let mut i: usize = 0;
        let ghost f = |g: Seq<Card>| non_empty(g);
        assert(orig.take(0) =~= Seq::<Seq<Card>>::empty());
        assert(orig.take(0).filter(f) =~= Seq::<Seq<Card>>::empty()) by {
            reveal(Seq::filter);
        }
        assert(self@ =~= orig.take(0).filter(f) + orig.skip(0));
        while i < self.len()
            invariant
                0 <= k <= orig.len(),
                self@ == orig.take(k).filter(f) + orig.skip(k),
                i == orig.take(k).filter(f).len(),
                f == (|g: Seq<Card>| non_empty(g)),
            decreases orig.len() - k,
        {
            let ghost g = orig[k];
            proof {
                assert(orig.take(k + 1) =~= orig.take(k).push(g));
                orig.take(k).lemma_filter_push(g, f);
                assert(self@[i as int] == g);
            }
            if self.get(i).len() == 0 {
                let _ = self.remove(i);
                assert(self@ =~= orig.take(k + 1).filter(f) + orig.skip(k + 1));
            } else {
                i = i + 1;
                assert(self@ =~= orig.take(k + 1).filter(f) + orig.skip(k + 1));
            }
            proof {
                k = k + 1;
            }
        }
        assert(k == orig.len()) by {
            if k < orig.len() {
                assert(self@.len() > i);
            }
        }
        assert(orig.take(k) =~= orig);
        assert(self@ =~= orig.filter(f));
    }
}

/// Runs the optimiser on a partition of a hand (non-empty groups, at most
/// `MAX_HAND_SIZE` cards in all): end cards of long runs released where they
/// complete a set-meld, same-value single cards merged, empty groups removed.
pub fn optimise_partition(p: &mut Partition)
    requires
        all_non_empty(old(p)@),
        old(p)@.flatten().len() <= MAX_HAND_SIZE,
    ensures
        final(p)@ == optimise(old(p)@),
        final(p)@.flatten().to_multiset() == old(p)@.flatten().to_multiset(),
        all_non_empty(final(p)@),
{
    release_end_cards(p);
    assert(p@.flatten().to_multiset().len() == old(p)@.flatten().to_multiset().len());
    merge_single_numbers(p);
}

/// The optimised decomposition of a hand: the naive decomposition, then
/// the optimiser (see `optimise_partition`).
pub fn optimal_decomposition(h: &Hand) -> (r: Partition)
    ensures
        r@ == optimal_groups(h@),
        r@.flatten().to_multiset() == h@.to_multiset(),
{
    let _ = h.len();
    let mut p = naive_decomposition(h);
    assert(all_non_empty(p@));
    assert(p@.flatten().to_multiset().len() == h@.to_multiset().len());
    optimise_partition(&mut p);
    p
}

/// No two single-card groups share a value.
pub open spec fn distinct_singles(p: Seq<Seq<Card>>) -> bool {
    forall|i: int, j: int|
        0 <= i < j < p.len() && (#[trigger] p[i]).len() == 1 && (#[trigger] p[j]).len() == 1 ==> p[i][0].n
            != p[j][0].n
}

/// Groups before `x` that hold one card share their value with no later
/// single-card group.
spec fn settled(p: Seq<Seq<Card>>, x: int) -> bool {
    forall|i: int, j: int|
        0 <= i < x && i < j < p.len() && (#[trigger] p[i]).len() == 1 && (#[trigger] p[j]).len() == 1 ==> p[i][0].n
            != p[j][0].n
}

/// What `absorb` changes: group `x` only grows and keeps its first card;
/// groups from `y` on are kept or emptied; the rest are kept. When `x` still
/// holds one card, no later single card shares its value.
proof fn lemma_absorb(p: Seq<Seq<Card>>, x: int, y: int)
    requires
        0 <= x < p.len(),
        p[x].len() >= 1,
        x < y <= p.len(),
    ensures
        absorb(p, x, y).len() == p.len(),
        forall|i: int| 0 <= i < y && i != x ==> #[trigger] absorb(p, x, y)[i] == p[i],
        forall|j: int| y <= j < p.len() ==> #[trigger] absorb(p, x, y)[j] == p[j] || absorb(p, x, y)[j].len() == 0,
        absorb(p, x, y)[x].len() >= p[x].len(),
        absorb(p, x, y)[x][0] == p[x][0],
        absorb(p, x, y)[x].len() == 1 ==> absorb(p, x, y)[x] == p[x],
        absorb(p, x, y)[x].len() == 1 ==> forall|j: int|
            y <= j < p.len() && (#[trigger] absorb(p, x, y)[j]).len() == 1 ==> absorb(p, x, y)[j][0].n
                != absorb(p, x, y)[x][0].n,
    decreases p.len() - y,
{
    if y < p.len() {
        if p[y].len() == 1 && p[y][0].n == p[x][0].n {
            let q = p.update(x, p[x].push(p[y][0])).update(y, Seq::empty());
            lemma_absorb(q, x, y + 1);
        } else {
            lemma_absorb(p, x, y + 1);
        }
    }
}

/// The merge leaves no two single-card groups of one value.
proof fn lemma_merge_from(p: Seq<Seq<Card>>, x: int, n: int)
    requires
        n == p.len(),
        0 <= x <= n,
        settled(p, x),
    ensures
        merge_from(p, x, n).len() == n,
        distinct_singles(merge_from(p, x, n)),
    decreases n - x,
{
    if x >= n {
        assert(distinct_singles(p)) by {
            assert forall|i: int, j: int|
                0 <= i < j < p.len() && (#[trigger] p[i]).len() == 1 && (#[trigger] p[j]).len() == 1 implies p[i][0].n
                    != p[j][0].n by {
                assert(i < x);
            }
        }
    } else if p[x].len() == 1 {
        let q = absorb(p, x, x + 1);
        lemma_absorb(p, x, x + 1);
        assert(settled(q, x + 1)) by {
            assert forall|i: int, j: int|
                0 <= i < x + 1 && i < j < q.len() && (#[trigger] q[i]).len() == 1 && (#[trigger] q[j]).len() == 1 implies q[i][0].n
                    != q[j][0].n by {
                if i < x {
                    assert(q[i] == p[i]);
                    if j == x {
                        assert(q[x] == p[x]);
                    } else {
                        assert(q[j] == p[j] || q[j].len() == 0);
                    }
                }
            }
        }
        lemma_merge_from(q, x + 1, n);
    } else {
        lemma_merge_from(p, x + 1, n);
    }
}

/// Removing empty groups keeps single-card values distinct.
proof fn lemma_without_empty(m: Seq<Seq<Card>>)
    requires
        distinct_singles(m),
    ensures
        distinct_singles(without_empty(m)),
        all_non_empty(without_empty(m)),
    decreases m.len(),
{
    let f = |g: Seq<Card>| non_empty(g);
    let w = without_empty(m);
    assert forall|i: int| 0 <= i < w.len() implies (#[trigger] w[i]).len() > 0 by {
        m.lemma_filter_pred(f, i);
    }
    if m.len() > 0 {
        let q = m.drop_last();
        let g = m.last();
        assert(q.push(g) =~= m);
        assert(distinct_singles(q)) by {
            assert forall|i: int, j: int|
                0 <= i < j < q.len() && (#[trigger] q[i]).len() == 1 && (#[trigger] q[j]).len() == 1 implies q[i][0].n
                    != q[j][0].n by {
                assert(q[i] == m[i] && q[j] == m[j]);
            }
        }
        lemma_without_empty(q);
        q.lemma_filter_push(g, f);
        let wq = without_empty(q);
        if g.len() > 0 {
            assert forall|i: int, j: int|
                0 <= i < j < w.len() && (#[trigger] w[i]).len() == 1 && (#[trigger] w[j]).len() == 1 implies w[i][0].n
                    != w[j][0].n by {
                if j == w.len() - 1 {
                    assert(wq.contains(w[i]));
                    q.lemma_filter_contains_rev(f, w[i]);
                    let k = choose|k: int| 0 <= k < q.len() && q[k] == w[i];
                    assert(m[k] == w[i]);
                    assert(m[m.len() - 1] == w[j]);
                } else {
                    assert(w[i] == wq[i] && w[j] == wq[j]);
                }
            }
        }
    } else {
        assert(w =~= m) by {
            reveal(Seq::filter);
        }
    }
}

/// Some single-card group of value `v` stands behind each such card.
proof fn lemma_singles_witness(q: Seq<Seq<Card>>, v: u32)
    ensures
        singles_of_value(q, v).len() > 0 ==> exists|k: int|
            0 <= k < q.len() && (#[trigger] q[k]).len() == 1 && q[k][0].n.0 == v,
    decreases q.len(),
{
    if q.len() > 0 {
        let dl = q.drop_last();
        lemma_singles_witness(dl, v);
        if singles_of_value(dl, v).len() > 0 {
            let k = choose|k: int| 0 <= k < dl.len() && (#[trigger] dl[k]).len() == 1 && dl[k][0].n.0 == v;
            assert(q[k] == dl[k]);
        } else if q.last().len() == 1 && q.last()[0].n.0 == v {
            assert(q[q.len() - 1] == q.last());
        }
    }
}

/// With distinct single-card values, at most one single card has value `v`.
proof fn lemma_singles_at_most_one(q: Seq<Seq<Card>>, v: u32)
    requires
        distinct_singles(q),
    ensures
        singles_of_value(q, v).len() <= 1,
    decreases q.len(),
{
    if q.len() > 0 {
        let dl = q.drop_last();
        assert(distinct_singles(dl)) by {
            assert forall|i: int, j: int|
                0 <= i < j < dl.len() && (#[trigger] dl[i]).len() == 1 && (#[trigger] dl[j]).len() == 1 implies dl[i][0].n
                    != dl[j][0].n by {
                assert(dl[i] == q[i] && dl[j] == q[j]);
            }
        }
        lemma_singles_at_most_one(dl, v);
        if q.last().len() == 1 && q.last()[0].n.0 == v {
            lemma_singles_witness(dl, v);
            if singles_of_value(dl, v).len() > 0 {
                let k = choose|k: int| 0 <= k < dl.len() && (#[trigger] dl[k]).len() == 1 && dl[k][0].n.0 == v;
                assert(q[k] == dl[k]);
                assert(q[q.len() - 1] == q.last());
            }
        }
    }
}

/// With distinct single-card values no card completes a set-meld, so
/// nothing is released.
proof fn lemma_release_none(q: Seq<Seq<Card>>, y: int)
    requires
        distinct_singles(q),
        0 <= y,
    ensures
        release_from(q, y) == q,
    decreases q.len() - y,
{
    if y < q.len() {
        lemma_singles_at_most_one(q, q[y].last().n.0);
        lemma_singles_at_most_one(q, q[y].first().n.0);
        lemma_release_none(q, y + 1);
    }
}

/// With distinct single-card values nothing is absorbed.
proof fn lemma_absorb_none(q: Seq<Seq<Card>>, x: int, y: int)
    requires
        distinct_singles(q),
        0 <= x < y,
        x < q.len(),
        q[x].len() == 1,
    ensures
        absorb(q, x, y) == q,
    decreases q.len() - y,
{
    if y < q.len() {
        lemma_absorb_none(q, x, y + 1);
    }
}

/// With distinct single-card values the merge changes nothing.
proof fn lemma_merge_none(q: Seq<Seq<Card>>, x: int)
    requires
        distinct_singles(q),
        0 <= x,
    ensures
        merge_from(q, x, q.len() as int) == q,
    decreases q.len() - x,
{
    if x < q.len() {
        if q[x].len() == 1 {
            lemma_absorb_none(q, x, x + 1);
        }
        lemma_merge_none(q, x + 1);
    }
}

/// Removing empty groups where there are none changes nothing.
proof fn lemma_without_empty_none(q: Seq<Seq<Card>>)
    requires
        all_non_empty(q),
    ensures
        without_empty(q) == q,
    decreases q.len(),
{
    let f = |g: Seq<Card>| non_empty(g);
    if q.len() == 0 {
        assert(without_empty(q) =~= q) by {
            reveal(Seq::filter);
        }
    } else {
        let dl = q.drop_last();
        assert(all_non_empty(dl)) by {
            assert forall|i: int| 0 <= i < dl.len() implies (#[trigger] dl[i]).len() > 0 by {
                assert(dl[i] == q[i]);
            }
        }
        lemma_without_empty_none(dl);
        assert(dl.push(q.last()) =~= q);
        dl.lemma_filter_push(q.last(), f);
    }
}

/// Running the optimiser twice gives what running it once gives.
pub proof fn lemma_optimise_idempotent(p: Seq<Seq<Card>>)
    ensures
        optimise(optimise(p)) == optimise(p),
{
    let r = release_from(p, 0);
    lemma_merge_from(r, 0, r.len() as int);
    let m = merge_singles(r);
    lemma_without_empty(m);
    let q = without_empty(m);
    lemma_release_none(q, 0);
    lemma_merge_none(q, 0);
    lemma_without_empty_none(q);
}

/// Running the merge step twice gives what running it once gives.
pub proof fn lemma_merge_step_idempotent(p: Seq<Seq<Card>>)
    ensures
        merge_step(merge_step(p)) == merge_step(p),
{
    let m = merge_singles(p);
    lemma_merge_from(p, 0, p.len() as int);
    lemma_without_empty(m);
    let q = without_empty(m);
    lemma_merge_none(q, 0);
    lemma_without_empty_none(q);
}

} // verus!
