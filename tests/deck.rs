use remi_solver::{Card, Deck, Error};

fn total(d: &Deck) -> u32 {
    (0..53u32).map(|i| d.count_of(Card::from_index(i))).sum()
}

#[test]
fn fresh_deck_holds_108_cards() {
    let d = Deck::new();
    assert_eq!(total(&d), 108);
    let twos = (0..52u32).filter(|&i| d.count_of(Card::from_index(i)) == 2).count();
    assert_eq!(twos, 52);
    assert_eq!(d.count_of(Card::parse("X").unwrap()), 4);
}

#[test]
fn remove_decrements_one_count() {
    let mut d = Deck::new();
    let c = Card::parse("7h").unwrap();
    assert_eq!(d.remove(c), Ok(()));
    assert_eq!(d.count_of(c), 1);
    assert_eq!(total(&d), 107);
    assert_eq!(d.count_of(Card::parse("7d").unwrap()), 2);
    assert_eq!(d.remove(c), Ok(()));
    assert_eq!(d.count_of(c), 0);
    assert_eq!(d.remove(c), Err(Error::CardNotContained(c)));
    assert_eq!(d.count_of(c), 0);
    assert_eq!(total(&d), 106);
}

#[test]
fn jokers_run_out_after_four() {
    let mut d = Deck::new();
    let x = Card::parse("X").unwrap();
    for _ in 0..4 {
        assert!(d.remove(x).is_ok());
    }
    assert_eq!(d.remove(x), Err(Error::CardNotContained(x)));
}

#[test]
fn remove_random_takes_one_card() {
    let mut d = Deck::new();
    let mut removed = 0;
    for _ in 0..300 {
        match d.remove_random() {
            Ok(_) => removed += 1,
            Err(Error::CardNotContained(c)) => assert_eq!(d.count_of(c), 0),
            Err(e) => panic!("unexpected {:?}", e),
        }
        assert_eq!(total(&d), 108 - removed);
    }
}

#[test]
fn default_deck_is_full() {
    let d = Deck::default();
    assert_eq!(total(&d), 108);
}

#[test]
fn remove_leaves_other_counts() {
    let mut d = Deck::new();
    let c = Card::parse("Qs").unwrap();
    d.remove(c).unwrap();
    for i in 0..53u32 {
        let o = Card::from_index(i);
        if o != c {
            assert_eq!(d.count_of(o), if i == 52 { 4 } else { 2 });
        }
    }
    assert_eq!(d.count_of(c), 1);
}
