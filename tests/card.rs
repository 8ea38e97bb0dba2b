use remi_solver::{Card, Error, Suit, Value};

#[test]
fn index_round_trip_all() {
    for i in 0..53u32 {
        let c = Card::from_index(i);
        assert_eq!(c.to_index(), i as usize);
    }
}

#[test]
fn from_index_values() {
    assert_eq!(Card::from_index(0), Card { n: Value(1), suit: Suit::Clubs });
    assert_eq!(Card::from_index(7), Card { n: Value(2), suit: Suit::Spades });
    assert_eq!(Card::from_index(51), Card { n: Value(13), suit: Suit::Spades });
    assert_eq!(Card::from_index(52), Card { n: Value(0), suit: Suit::Joker });
}

#[test]
fn parsed_card_round_trip() {
    for tok in ["Ac", "2d", "10h", "Js", "Qc", "Kd", "X", "9s"] {
        let c = Card::parse(tok).unwrap();
        assert_eq!(Card::from_index(c.to_index() as u32), c);
    }
}

#[test]
fn parse_tokens() {
    assert_eq!(Card::parse("Ac").unwrap(), Card { n: Value(1), suit: Suit::Clubs });
    assert_eq!(Card::parse("10d").unwrap(), Card { n: Value(10), suit: Suit::Diamonds });
    assert_eq!(Card::parse("Kh").unwrap(), Card { n: Value(13), suit: Suit::Hearts });
    assert_eq!(Card::parse("X").unwrap(), Card { n: Value(0), suit: Suit::Joker });
    assert_eq!(Card::parse("Kh").unwrap().to_index(), 50);
}

#[test]
fn parse_rejects_malformed_tokens() {
    for tok in ["", "A", "Ax", "1c", "0c", "Xc", "11c", "14c", "10", "Acc", "10dd", "x", "Zd"] {
        assert_eq!(Card::parse(tok), Err(Error::ParseError), "{}", tok);
    }
}

#[test]
fn value_glyphs() {
    assert_eq!(Value::from_str("A").unwrap(), Value(1));
    assert_eq!(Value::from_str("7").unwrap(), Value(7));
    assert_eq!(Value::from_str("10").unwrap(), Value(10));
    assert_eq!(Value::from_str("Q").unwrap(), Value(12));
    assert_eq!(Value::from_str("X").unwrap(), Value(0));
    assert_eq!(Value::from_str("11"), Err(Error::ParseError));
    assert_eq!(Value::from_str("B"), Err(Error::ParseError));
    assert_eq!(Value::new(13), Value(13));
}

#[test]
fn suits() {
    assert_eq!(Suit::from_int(2), Ok(Suit::Hearts));
    assert_eq!(Suit::from_int(4), Ok(Suit::Joker));
    assert_eq!(Suit::from_int(5), Err(()));
    assert_eq!(Suit::Spades.to_int(), 3);
    assert_eq!(Suit::from_char('d'), Ok(Suit::Diamonds));
    assert_eq!(Suit::from_char('x'), Err(Error::ParseError));
    assert_eq!(
        Suit::iter(),
        vec![Suit::Clubs, Suit::Diamonds, Suit::Hearts, Suit::Spades, Suit::Joker]
    );
}

#[test]
fn predecessor_ignores_suit() {
    let a = Card::parse("4c").unwrap();
    let b = Card::parse("5h").unwrap();
    assert!(a.is_predecessor(&b));
    assert!(!b.is_predecessor(&a));
    let x = Card::parse("X").unwrap();
    assert!(!x.is_predecessor(&x));
}

#[test]
fn random_card_is_valid() {
    for _ in 0..100 {
        let c = Card::random();
        let i = c.to_index();
        assert!(i < 53);
        assert_eq!(Card::from_index(i as u32), c);
    }
}

#[test]
fn cards_order_by_index() {
    let ac = Card::parse("Ac").unwrap();
    let ad = Card::parse("Ad").unwrap();
    let two = Card::parse("2c").unwrap();
    let ks = Card::parse("Ks").unwrap();
    let x = Card::parse("X").unwrap();
    assert!(ac < ad);
    assert!(ad < two);
    assert!(ks < x);
    assert!(!(x < ks));
    assert_eq!(ac.partial_cmp(&ac), Some(std::cmp::Ordering::Equal));
    let mut v = vec![x, ks, two, ac, ad];
    v.sort_by(|a, b| a.partial_cmp(b).unwrap());
    assert_eq!(v, vec![ac, ad, two, ks, x]);
}

#[test]
fn validity_check() {
    assert!(Card::parse("Ac").unwrap().is_wf());
    assert!(Card::parse("X").unwrap().is_wf());
    assert!(!Card { n: Value(0), suit: Suit::Clubs }.is_wf());
    assert!(!Card { n: Value(14), suit: Suit::Hearts }.is_wf());
    assert!(!Card { n: Value(3), suit: Suit::Joker }.is_wf());
}
