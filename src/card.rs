//! Cards, their values and suits, and the canonical card index.
use vstd::prelude::*;

use crate::error::Error;
use crate::random::random_below;
use crate::text::char_range;
use crate::MAX_CARD_VAL;
use crate::UNIQUE_CARDS;

verus! {

/// The canonical value of a card: 0 for the joker, 1 for the Ace, 2 to 10,
/// then 11, 12 and 13 for Jack, Queen and King.
#[derive(Debug, Clone, Copy, PartialEq, Eq, Structural)]
pub struct Value(pub u32);

/// The value that a single-character value glyph stands for.
pub open spec fn glyph_char_value(ch: char) -> Option<u32> {
    match ch {
        'X' => Some(0u32),
        'A' => Some(1u32),
        '2' => Some(2u32),
        '3' => Some(3u32),
        '4' => Some(4u32),
        '5' => Some(5u32),
        '6' => Some(6u32),
        '7' => Some(7u32),
        '8' => Some(8u32),
        '9' => Some(9u32),
        'J' => Some(11u32),
        'Q' => Some(12u32),
        'K' => Some(13u32),
        _ => None,
    }
}

/// The value that a value glyph stands for: `X`, `A`, `2` to `10`, `J`, `Q`
/// or `K`.
pub open spec fn glyph_value(g: Seq<char>) -> Option<u32> {
    if g.len() == 1 {
        glyph_char_value(g[0])
    } else if g.len() == 2 && g[0] == '1' && g[1] == '0' {
        Some(10u32)
    } else {
        None
    }
}

impl Value {
    /// A value in `0..=13`.
    pub fn new(n: u32) -> (r: Value)
        requires
            n <= MAX_CARD_VAL,
        ensures
            r.0 == n,
    {
        Value(n)
    }

    /// Reads a value glyph.
    pub fn from_str(c: &str) -> (r: Result<Value, Error>)
        ensures
            r == (match glyph_value(c@) {
                Some(v) => Ok::<Value, Error>(Value(v)),
                None => Err::<Value, Error>(Error::ParseError),
            }),
    {
        let len = c.unicode_len();
        if len == 1 {
            let v = match c.get_char(0) {
                'X' => Some(0u32),
                'A' => Some(1u32),
                '2' => Some(2u32),
                '3' => Some(3u32),
                '4' => Some(4u32),
                '5' => Some(5u32),
                '6' => Some(6u32),
                '7' => Some(7u32),
                '8' => Some(8u32),
                '9' => Some(9u32),
                'J' => Some(11u32),
                'Q' => Some(12u32),
                'K' => Some(13u32),
                _ => None,
            };
            match v {
                Some(n) => Ok(Value(n)),
                None => Err(Error::ParseError),
            }
        } else if len == 2 && c.get_char(0) == '1' && c.get_char(1) == '0' {
            Ok(Value(10))
        } else {
            Err(Error::ParseError)
        }
    }
}

/// The suit of a card; the joker has a suit of its own.
#[derive(Debug, Clone, Copy, PartialEq, Eq, Structural)]
pub enum Suit {
    Clubs,
    Diamonds,
    Hearts,
    Spades,
    Joker,
}

/// The suit with the given ordinal (ordinals past 4 give the joker suit).
pub open spec fn suit_of(n: int) -> Suit {
    if n == 0 {
        Suit::Clubs
    } else if n == 1 {
        Suit::Diamonds
    } else if n == 2 {
        Suit::Hearts
    } else if n == 3 {
        Suit::Spades
    } else {
        Suit::Joker
    }
}

/// The suit that a suit letter stands for.
pub open spec fn suit_letter(c: char) -> Option<Suit> {
    match c {
        'c' => Some(Suit::Clubs),
        'd' => Some(Suit::Diamonds),
        'h' => Some(Suit::Hearts),
        's' => Some(Suit::Spades),
        _ => None,
    }
}

/// All suits, in ordinal order.
pub open spec fn all_suits() -> Seq<Suit> {
    seq![Suit::Clubs, Suit::Diamonds, Suit::Hearts, Suit::Spades, Suit::Joker]
}

impl Suit {
    /// Clubs 0, Diamonds 1, Hearts 2, Spades 3, Joker 4.
    pub open spec fn ordinal(self) -> u32 {
        match self {
            Suit::Clubs => 0,
            Suit::Diamonds => 1,
            Suit::Hearts => 2,
            Suit::Spades => 3,
            Suit::Joker => 4,
        }
    }

    /// The suit with ordinal `n`, or `Err` past 4.
    pub fn from_int(n: u32) -> (r: Result<Suit, ()>)
        ensures
            n <= 4 ==> r == Ok::<Suit, ()>(suit_of(n as int)),
            n > 4 ==> r is Err,
    {
        match n {
            0 => Ok(Suit::Clubs),
            1 => Ok(Suit::Diamonds),
            2 => Ok(Suit::Hearts),
            3 => Ok(Suit::Spades),
            4 => Ok(Suit::Joker),
            _ => Err(()),
        }
    }

    /// The ordinal of the suit.
    pub fn to_int(self) -> (r: u32)
        ensures
            r == self.ordinal(),
    {
        match self {
            Suit::Clubs => 0,
            Suit::Diamonds => 1,
            Suit::Hearts => 2,
            Suit::Spades => 3,
            Suit::Joker => 4,
        }
    }

    /// Reads a suit letter: `c`, `d`, `h` or `s`.
    pub fn from_char(c: char) -> (r: Result<Suit, Error>)
        ensures
            r == (match suit_letter(c) {
                Some(s) => Ok::<Suit, Error>(s),
                None => Err::<Suit, Error>(Error::ParseError),
            }),
    {
        match c {
            'c' => Ok(Suit::Clubs),
            'd' => Ok(Suit::Diamonds),
            'h' => Ok(Suit::Hearts),
            's' => Ok(Suit::Spades),
            _ => Err(Error::ParseError),
        }
    }

    /// All suits, in ordinal order.
    pub fn iter() -> (r: Vec<Suit>)
        ensures
            r@ == all_suits(),
    {
        let r = vec![Suit::Clubs, Suit::Diamonds, Suit::Hearts, Suit::Spades, Suit::Joker];
        assert(r@ =~= all_suits());
        r
    }
}

/// A playing card.
#[derive(Debug, Clone, Copy, PartialEq, Eq, Structural)]
pub struct Card {
    pub n: Value,
    pub suit: Suit,
}

/// The joker.
pub open spec fn joker() -> Card {
    Card { n: Value(0), suit: Suit::Joker }
}

/// The card with canonical index `i`: `(value - 1) * 4 + suit ordinal` for
/// the 52 ordinary cards, 52 for the joker.
pub open spec fn card_of_index(i: int) -> Card {
    if i >= 52 {
        joker()
    } else {
        Card { n: Value((i / 4 + 1) as u32), suit: suit_of(i % 4) }
    }
}

/// What `Card::parse` reads from a token: `X`, or a value glyph other than
/// `X` followed by a suit letter.
pub open spec fn parse_card(s: Seq<char>) -> Option<Card> {
    if s.len() == 1 && s[0] == 'X' {
        Some(joker())
    } else if 2 <= s.len() <= 3 {
        match (glyph_value(s.subrange(0, s.len() - 1)), suit_letter(s[s.len() - 1])) {
            (Some(v), Some(suit)) => if v >= 1 {
                Some(Card { n: Value(v), suit })
            } else {
                None
            },
            _ => None,
        }
    } else {
        None
    }
}

impl Card {
    /// A well-formed card: value at most 13, and value 0 exactly for the
    /// joker suit.
    pub open spec fn wf(self) -> bool {
        &&& self.n.0 <= 13
        &&& (self.n.0 == 0 <==> self.suit == Suit::Joker)
    }

    /// The canonical index of a card.
    pub open spec fn index(self) -> int {
        if self.suit == Suit::Joker {
            52
        } else {
            (self.n.0 - 1) * 4 + self.suit.ordinal()
        }
    }

    /// `self` comes right before `c` in value (suits are not compared).
    pub open spec fn precedes(self, c: Card) -> bool {
        self.n.0 + 1 == c.n.0
    }

    /// The joker.
    pub open spec fn joker_spec() -> Card {
        joker()
    }

    pub fn joker() -> (r: Card)
        ensures
            r == joker(),
    {
        Card { n: Value(0), suit: Suit::Joker }
    }

    /// Whether the card is well formed (see `wf`).
    pub fn is_wf(&self) -> (r: bool)
        ensures
            r == self.wf(),
    {
        self.n.0 <= MAX_CARD_VAL && ((self.n.0 == 0) == (self.suit == Suit::Joker))
    }

    /// Whether the value of `self` is one below that of `c`.
    pub fn is_predecessor(&self, c: &Card) -> (r: bool)
        ensures
            r == self.precedes(*c),
    {
        c.n.0 >= 1 && self.n.0 == c.n.0 - 1
    }

    /// Converts a card to its index in the sorted list of unique cards:
    /// Ac = 0, Ad = 1, ..., Ks = 51, joker = 52.
    pub fn to_index(&self) -> (r: usize)
        requires
            self.wf(),
        ensures
            r == self.index(),
            r < UNIQUE_CARDS,
    {
        match self.suit {
            Suit::Joker => UNIQUE_CARDS - 1,
            _ => ((self.n.0 - 1) * 4 + self.suit.to_int()) as usize,
        }
    }

    /// The card with the given canonical index.
    pub fn from_index(i: u32) -> (r: Card)
        requires
            i < UNIQUE_CARDS,
        ensures
            r == card_of_index(i as int),
            r.wf(),
            r.index() == i,
    {
        if i == 52 {
            Card::joker()
        } else {
            let n = Value::new(i / 4 + 1);
            let suit = match Suit::from_int(i % 4) {
                Ok(s) => s,
                Err(_) => Suit::Joker,
            };
            Card { n, suit }
        }
    }

    /// Reads a card token: `X` for the joker, else a value glyph (`A`,
    /// `2`..`10`, `J`, `Q`, `K`) followed by a suit letter (`c`, `d`, `h`,
    /// `s`).
    pub fn parse(s: &str) -> (r: Result<Card, Error>)
        ensures
            r == (match parse_card(s@) {
                Some(c) => Ok::<Card, Error>(c),
                None => Err::<Card, Error>(Error::ParseError),
            }),
            r matches Ok(c) ==> c.wf(),
    {
        let len = s.unicode_len();
        if len == 1 && s.get_char(0) == 'X' {
            return Ok(Card::joker());
        }
        if len < 2 || len > 3 {
            return Err(Error::ParseError);
        }
        let glyph = char_range(s, 0, len - 1);
        let r_n = Value::from_str(glyph);
        let r_suit = Suit::from_char(s.get_char(len - 1));
        match (r_n, r_suit) {
            (Ok(n), Ok(suit)) => {
                if n.0 >= 1 {
                    Ok(Card { n, suit })
                } else {
                    Err(Error::ParseError)
                }
            },
            _ => Err(Error::ParseError),
        }
    }

    /// A card drawn uniformly among the 53 card identities.
    pub fn random() -> (r: Card)
        ensures
            r.wf(),
            r == card_of_index(r.index()),
    {
        Card::from_index(random_below(UNIQUE_CARDS as u32))
    }
}

/// The position of a card in the card order: for a well-formed card, its
/// canonical index plus 4; cards of the joker suit after all others.
pub open spec fn rank(c: Card) -> int {
    if c.suit == Suit::Joker {
        0x4_0000_0000 + c.n.0
    } else {
        4 * c.n.0 + c.suit.ordinal()
    }
}

impl Card {
    /// The position of the card in the card order (see `rank`).
    fn rank(&self) -> (r: u64)
        ensures
            r == rank(*self),
    {
        match self.suit {
            Suit::Joker => 0x4_0000_0000 + self.n.0 as u64,
            _ => 4 * self.n.0 as u64 + self.suit.to_int() as u64,
        }
    }
}

impl PartialOrd for Card {
    fn partial_cmp(&self, other: &Card) -> (r: Option<core::cmp::Ordering>) {
        let a = self.rank();
        let b = other.rank();
        if a < b {
            Some(core::cmp::Ordering::Less)
        } else if a > b {
            Some(core::cmp::Ordering::Greater)
        } else {
            Some(core::cmp::Ordering::Equal)
        }
    }
}

impl vstd::std_specs::cmp::PartialOrdSpecImpl for Card {
    open spec fn obeys_partial_cmp_spec() -> bool {
        true
    }

    open spec fn partial_cmp_spec(&self, other: &Card) -> Option<core::cmp::Ordering> {
        if rank(*self) < rank(*other) {
            Some(core::cmp::Ordering::Less)
        } else if rank(*self) > rank(*other) {
            Some(core::cmp::Ordering::Greater)
        } else {
            Some(core::cmp::Ordering::Equal)
        }
    }
}

/// Well-formed cards are ordered by canonical index, and equal in the order
/// only when equal.
pub proof fn lemma_order_by_index(a: Card, b: Card)
    requires
        a.wf(),
        b.wf(),
    ensures
        (rank(a) < rank(b)) == (a.index() < b.index()),
        (rank(a) == rank(b)) == (a == b),
{
    if a.suit != Suit::Joker && b.suit != Suit::Joker && a.index() == b.index() {
        lemma_card_round_trip(a);
        lemma_card_round_trip(b);
    }
}

/// The canonical index runs through `0..=52` and back.
pub proof fn lemma_index_round_trip(i: int)
    requires
        0 <= i <= 52,
    ensures
        card_of_index(i).index() == i,
        card_of_index(i).wf(),
{
}

/// A well-formed card is the card of its own index.
pub proof fn lemma_card_round_trip(c: Card)
    requires
        c.wf(),
    ensures
        0 <= c.index() <= 52,
        card_of_index(c.index()) == c,
{
}

/// A card read from a valid token is the card of its own index.
pub proof fn lemma_parsed_card_round_trip(s: Seq<char>)
    requires
        parse_card(s) is Some,
    ensures
        parse_card(s).unwrap().wf(),
        card_of_index(parse_card(s).unwrap().index()) == parse_card(s).unwrap(),
{
    lemma_card_round_trip(parse_card(s).unwrap());
}

} // verus!
