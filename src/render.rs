//! The text form of cards, groups and partitions: `[Ac]`, `[[Ac], [2c]]`,
//! `[[[Ac], [2c]], [[X]]]`. Suits are written either with the letters of
//! the card-token alphabet or with the glyphs \u{2663} \u{2666} \u{2665}
//! \u{2660}; the joker has no suit mark.
use vstd::prelude::*;

use crate::card::{Card, Suit};
use crate::partition::{Group, Partition};

verus! {

/// The glyph of a value.
pub open spec fn value_text(v: u32) -> Seq<char> {
    match v {
        0 => seq!['X'],
        1 => seq!['A'],
        2 => seq!['2'],
        3 => seq!['3'],
        4 => seq!['4'],
        5 => seq!['5'],
        6 => seq!['6'],
        7 => seq!['7'],
        8 => seq!['8'],
        9 => seq!['9'],
        10 => seq!['1', '0'],
        11 => seq!['J'],
        12 => seq!['Q'],
        13 => seq!['K'],
        _ => seq!['?'],
    }
}

/// The mark of a suit: its letter, or with `glyphs` its glyph; none for the
/// joker.
pub open spec fn suit_text(s: Suit, glyphs: bool) -> Seq<char> {
    match s {
        Suit::Clubs => if glyphs { seq!['\u{2663}'] } else { seq!['c'] },
        Suit::Diamonds => if glyphs { seq!['\u{2666}'] } else { seq!['d'] },
        Suit::Hearts => if glyphs { seq!['\u{2665}'] } else { seq!['h'] },
        Suit::Spades => if glyphs { seq!['\u{2660}'] } else { seq!['s'] },
        Suit::Joker => Seq::empty(),
    }
}

/// A card in brackets: `[Ac]`, `[10d]`, `[X]`.
pub open spec fn card_text(c: Card, glyphs: bool) -> Seq<char> {
    seq!['['] + value_text(c.n.0) + suit_text(c.suit, glyphs) + seq![']']
}

/// The items separated by `", "`.
pub open spec fn joined(items: Seq<Seq<char>>) -> Seq<char>
    decreases items.len(),
{
    if items.len() == 0 {
        Seq::empty()
    } else if items.len() == 1 {
        items[0]
    } else {
        joined(items.drop_last()) + seq![',', ' '] + items.last()
    }
}

/// A group as a bracketed list of its cards.
pub open spec fn group_text(g: Seq<Card>, glyphs: bool) -> Seq<char> {
    seq!['['] + joined(g.map_values(|c: Card| card_text(c, glyphs))) + seq![']']
}

/// A partition as a bracketed list of its groups.
pub open spec fn partition_text(p: Seq<Seq<Card>>, glyphs: bool) -> Seq<char> {
    seq!['['] + joined(p.map_values(|g: Seq<Card>| group_text(g, glyphs))) + seq![']']
}

/// Appends the text of a card.
fn push_card_text(out: &mut Vec<char>, c: Card, glyphs: bool)
    ensures
        final(out)@ == old(out)@ + card_text(c, glyphs),
{
    out.push('[');
    match c.n.0 {
        0 => out.push('X'),
        1 => out.push('A'),
        2 => out.push('2'),
        3 => out.push('3'),
        4 => out.push('4'),
        5 => out.push('5'),
        6 => out.push('6'),
        7 => out.push('7'),
        8 => out.push('8'),
        9 => out.push('9'),
        10 => {
            out.push('1');
            out.push('0');
        },
        11 => out.push('J'),
        12 => out.push('Q'),
        13 => out.push('K'),
        _ => out.push('?'),
    }
    match c.suit {
        Suit::Clubs => out.push(if glyphs { '\u{2663}' } else { 'c' }),
        Suit::Diamonds => out.push(if glyphs { '\u{2666}' } else { 'd' }),
        Suit::Hearts => out.push(if glyphs { '\u{2665}' } else { 'h' }),
        Suit::Spades => out.push(if glyphs { '\u{2660}' } else { 's' }),
        Suit::Joker => {},
    }
    out.push(']');
    assert(out@ =~= old(out)@ + card_text(c, glyphs));
}

/// Appends the text of a group.
fn push_group_text(out: &mut Vec<char>, g: &Group, glyphs: bool)
    ensures
        final(out)@ == old(out)@ + group_text(g@, glyphs),
{
    let ghost f = |c: Card| card_text(c, glyphs);
    let n = g.len();
    out.push('[');
    let ghost start = out@;
    let mut i: usize = 0;
    assert(g@.take(0).map_values(f) =~= Seq::<Seq<char>>::empty());
    assert(out@ =~= start + joined(g@.take(0).map_values(f)));
    while i < n
        invariant
            n == g@.len(),
            i <= n,
            out@ == start + joined(g@.take(i as int).map_values(f)),
            start == old(out)@.push('['),
            f == (|c: Card| card_text(c, glyphs)),
        decreases n - i,
    {
        let ghost items = g@.take(i + 1).map_values(f);
        assert(items.drop_last() =~= g@.take(i as int).map_values(f));
        assert(items.last() == card_text(g@[i as int], glyphs));
        if i > 0 {
            out.push(',');
            out.push(' ');
        } else {
            assert(items =~= seq![card_text(g@[0], glyphs)]);
        }
        push_card_text(out, g.get(i), glyphs);
        assert(out@ =~= start + joined(items));
        i = i + 1;
    }
    out.push(']');
    assert(g@.take(n as int) =~= g@);
    assert(out@ =~= old(out)@ + group_text(g@, glyphs));
}

/// The text of a card, as characters.
pub fn card_chars(c: Card, glyphs: bool) -> (r: Vec<char>)
    ensures
        r@ == card_text(c, glyphs),
{
    let mut out: Vec<char> = Vec::new();
    push_card_text(&mut out, c, glyphs);
    assert(out@ =~= card_text(c, glyphs));
    out
}

/// The text of a partition, as characters.
pub fn partition_chars(p: &Partition, glyphs: bool) -> (r: Vec<char>)
    ensures
        r@ == partition_text(p@, glyphs),
{
    let ghost f = |g: Seq<Card>| group_text(g, glyphs);
    let n = p.len();
    let mut out: Vec<char> = Vec::new();
    out.push('[');
    let ghost start = out@;
    let mut i: usize = 0;
    assert(p@.take(0).map_values(f) =~= Seq::<Seq<char>>::empty());
    assert(out@ =~= start + joined(p@.take(0).map_values(f)));
    while i < n
        invariant
            n == p@.len(),
            i <= n,
            out@ == start + joined(p@.take(i as int).map_values(f)),
            start == seq!['['],
            f == (|g: Seq<Card>| group_text(g, glyphs)),
        decreases n - i,
    {
        let ghost items = p@.take(i + 1).map_values(f);
        assert(items.drop_last() =~= p@.take(i as int).map_values(f));
        assert(items.last() == group_text(p@[i as int], glyphs));
        if i > 0 {
            out.push(',');
            out.push(' ');
        } else {
            assert(items =~= seq![group_text(p@[0], glyphs)]);
        }
        push_group_text(&mut out, p.get(i), glyphs);
        assert(out@ =~= start + joined(items));
        i = i + 1;
    }
    out.push(']');
    assert(p@.take(n as int) =~= p@);
    assert(out@ =~= partition_text(p@, glyphs));
    out
}

/// Whether the partition reads as `format`, suits written as letters (see
/// `partition_text`).
pub fn partition_eq(p: &Partition, format: &str) -> (r: bool)
    ensures
        r == (partition_text(p@, false) == format@),
{
    let text = partition_chars(p, false);
    let n = format.unicode_len();
    if text.len() != n {
        return false;
    }
    let mut i: usize = 0;
    while i < n
        invariant
            n == format@.len(),
            n == text@.len(),
            text@ == partition_text(p@, false),
            i <= n,
            forall|k: int| 0 <= k < i ==> text@[k] == format@[k],
        decreases n - i,
    {
        let ch = format.get_char(i);
        if text[i] != ch {
            assert(text@[i as int] != format@[i as int]);
            assert(text@ != format@);
            return false;
        }
        i = i + 1;
    }
    assert(text@ =~= format@);
    true
}

} // verus!
