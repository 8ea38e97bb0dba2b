//! Facts about the cards of a sequence of groups.
use vstd::prelude::*;

use crate::card::Card;

verus! {

broadcast use vstd::seq_lib::group_to_multiset_ensures;

/// The cards of a partition around the group at `i`.
pub proof fn lemma_flatten_split(p: Seq<Seq<Card>>, i: int)
    requires
        0 <= i < p.len(),
    ensures
        p.flatten() == p.take(i).flatten() + p[i] + p.skip(i + 1).flatten(),
{
    assert(p =~= p.take(i + 1) + p.skip(i + 1));
    vstd::seq_lib::lemma_flatten_concat(p.take(i + 1), p.skip(i + 1));
    assert(p.take(i + 1) =~= p.take(i).push(p[i]));
    p.take(i).lemma_flatten_push(p[i]);
}

/// Replacing the group at `i` by `g` exchanges its cards for those of `g`.
pub proof fn lemma_flatten_update(p: Seq<Seq<Card>>, i: int, g: Seq<Card>)
    requires
        0 <= i < p.len(),
    ensures
        p.update(i, g).flatten().to_multiset().add(p[i].to_multiset()) == p.flatten().to_multiset().add(
            g.to_multiset(),
        ),
        p.update(i, g).flatten().len() + p[i].len() == p.flatten().len() + g.len(),
{
    broadcast use vstd::seq_lib::lemma_multiset_commutative;

    let q = p.update(i, g);
    lemma_flatten_split(p, i);
    lemma_flatten_split(q, i);
    assert(q.take(i) =~= p.take(i));
    assert(q.skip(i + 1) =~= p.skip(i + 1));
    let a = p.take(i).flatten();
    let b = p.skip(i + 1).flatten();
    assert((a + g + b).to_multiset() =~= a.to_multiset().add(g.to_multiset()).add(b.to_multiset()));
    assert((a + p[i] + b).to_multiset() =~= a.to_multiset().add(p[i].to_multiset()).add(b.to_multiset()));
    assert(q.flatten().to_multiset().add(p[i].to_multiset()) =~= p.flatten().to_multiset().add(g.to_multiset()));
}

/// Inserting a group adds its cards.
pub proof fn lemma_flatten_insert(p: Seq<Seq<Card>>, i: int, g: Seq<Card>)
    requires
        0 <= i <= p.len(),
    ensures
        p.insert(i, g).flatten().to_multiset() == p.flatten().to_multiset().add(g.to_multiset()),
        p.insert(i, g).flatten().len() == p.flatten().len() + g.len(),
{
    broadcast use vstd::seq_lib::lemma_multiset_commutative;

    let q = p.insert(i, g);
    assert(q =~= p.take(i).push(g) + p.skip(i));
    vstd::seq_lib::lemma_flatten_concat(p.take(i).push(g), p.skip(i));
    p.take(i).lemma_flatten_push(g);
    assert(p =~= p.take(i) + p.skip(i));
    vstd::seq_lib::lemma_flatten_concat(p.take(i), p.skip(i));
    let a = p.take(i).flatten();
    let b = p.skip(i).flatten();
    assert((a + g + b).to_multiset() =~= a.to_multiset().add(g.to_multiset()).add(b.to_multiset()));
    assert((a + b).to_multiset() =~= a.to_multiset().add(b.to_multiset()));
    assert(q.flatten().to_multiset() =~= p.flatten().to_multiset().add(g.to_multiset()));
}

/// Every group is non-empty.
pub open spec fn all_non_empty(p: Seq<Seq<Card>>) -> bool {
    forall|i: int| 0 <= i < p.len() ==> (#[trigger] p[i]).len() > 0
}

/// Non-empty groups are no more than their cards.
pub proof fn lemma_groups_le_cards(p: Seq<Seq<Card>>)
    requires
        all_non_empty(p),
    ensures
        p.len() <= p.flatten().len(),
    decreases p.len(),
{
    if p.len() > 0 {
        let q = p.drop_last();
        assert(all_non_empty(q)) by {
            assert forall|i: int| 0 <= i < q.len() implies (#[trigger] q[i]).len() > 0 by {
                assert(q[i] == p[i]);
            }
        }
        lemma_groups_le_cards(q);
        assert(q.push(p.last()) =~= p);
        q.lemma_flatten_push(p.last());
    }
}

/// With non-empty groups, the group at `y` leaves room for the others only.
pub proof fn lemma_groups_around(p: Seq<Seq<Card>>, y: int)
    requires
        all_non_empty(p),
        0 <= y < p.len(),
    ensures
        p.len() + p[y].len() - 1 <= p.flatten().len(),
{
    lemma_flatten_split(p, y);
    let a = p.take(y);
    let b = p.skip(y + 1);
    assert(all_non_empty(a)) by {
        assert forall|i: int| 0 <= i < a.len() implies (#[trigger] a[i]).len() > 0 by {
            assert(a[i] == p[i]);
        }
    }
    assert(all_non_empty(b)) by {
        assert forall|i: int| 0 <= i < b.len() implies (#[trigger] b[i]).len() > 0 by {
            assert(b[i] == p[i + y + 1]);
        }
    }
    lemma_groups_le_cards(a);
    lemma_groups_le_cards(b);
}

/// Two distinct groups together hold no more than all cards.
pub proof fn lemma_two_groups(p: Seq<Seq<Card>>, x: int, y: int)
    requires
        0 <= x < p.len(),
        0 <= y < p.len(),
        x != y,
    ensures
        p[x].len() + p[y].len() <= p.flatten().len(),
{
    lemma_flatten_split(p, y);
    if x < y {
        assert(p.take(y)[x] == p[x]);
        p.take(y).lemma_flatten_length_ge_single_element_length(x);
        p.take(y).lemma_flatten_and_flatten_alt_are_equivalent();
    } else {
        assert(p.skip(y + 1)[x - y - 1] == p[x]);
        p.skip(y + 1).lemma_flatten_length_ge_single_element_length(x - y - 1);
        p.skip(y + 1).lemma_flatten_and_flatten_alt_are_equivalent();
    }
}

} // verus!
