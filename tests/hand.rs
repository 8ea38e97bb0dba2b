use remi_solver::{Card, Error, Hand, HandUtil};

#[test]
fn parse_keeps_order() {
    let h = Hand::parse("Kc 2d X 10h").unwrap();
    assert_eq!(h.len(), 4);
    assert_eq!(h.get(0), Card::parse("Kc").unwrap());
    assert_eq!(h.get(2), Card::parse("X").unwrap());
    assert_eq!(h.get(3), Card::parse("10h").unwrap());
}

#[test]
fn parse_rejects_bad_token() {
    assert!(matches!(Hand::parse("Ac 2c Zz"), Err(Error::ParseError)));
    assert!(matches!(Hand::parse("Ac  2c"), Err(Error::ParseError)));
    assert!(matches!(Hand::parse(""), Err(Error::ParseError)));
}

#[test]
fn parse_rejects_sixteenth_card() {
    let s = "Ac 2c 3c 4c 5c 6c 7c 8c 9c 10c Jc Qc Kc Ad 2d 3d";
    match Hand::parse(s) {
        Err(Error::CapacityError(c)) => assert_eq!(c, Card::parse("3d").unwrap()),
        _ => panic!("expected a capacity error"),
    }
    let full = Hand::parse("Ac 2c 3c 4c 5c 6c 7c 8c 9c 10c Jc Qc Kc Ad 2d").unwrap();
    assert_eq!(full.len(), 15);
}

#[test]
fn parse_sorted_orders_by_index() {
    let h = Hand::parse_sorted("X Kc 2d Ac 2c").unwrap();
    let v: Vec<usize> = h.to_vec().iter().map(|c| c.to_index()).collect();
    assert_eq!(v, vec![0, 4, 5, 48, 52]);
}

#[test]
fn push_and_fill() {
    let mut h = Hand::new();
    assert_eq!(h.push(Card::parse("Ac").unwrap()), Ok(()));
    h.fill(14);
    assert_eq!(h.len(), 15);
    assert_eq!(h.get(0), Card::parse("Ac").unwrap());
    let extra = Card::parse("2c").unwrap();
    assert_eq!(h.push(extra), Err(Error::CapacityError(extra)));
    for c in h.to_vec() {
        assert!(c.to_index() < 53);
    }
}

#[test]
fn sort_is_a_permutation() {
    let mut h = Hand::parse("5s 5h 5c 5s").unwrap();
    h.sort();
    let v: Vec<usize> = h.to_vec().iter().map(|c| c.to_index()).collect();
    assert_eq!(v, vec![16, 18, 19, 19]);
}
