use remi_solver::partition::{partition_index, Group, GroupCharacteristics};
use remi_solver::scoring::{decomp_points, extension_score, remaining_suit, score_hand_points, SCORE_SCALE};
use remi_solver::{Card, Deck, Error, Hand, HandUtil, Suit};

/// Returns the signed score difference of the two given decompositions
/// `f(d1) - f(d2)`.
fn cmp_decomp(h: &Hand, d1: &[&[usize]], d2: &[&[usize]], deck: &Deck) -> f64 {
    let p1 = partition_index(h, d1).unwrap();
    let p2 = partition_index(h, d2).unwrap();

    let score1 = decomp_points(&p1, deck) as f64 / SCORE_SCALE as f64;
    let score2 = decomp_points(&p2, deck) as f64 / SCORE_SCALE as f64;

    score1 - score2
}

#[test]
fn test_remaining_suit() {
    let h = Hand::parse_sorted("4c 4d 4h").unwrap();
    let g = Group::from_hand(&h, &[0, 1, 2]).unwrap();
    assert!(remaining_suit(&g).unwrap() == Suit::Spades);
}

#[test]
fn remaining_suit_needs_exactly_one_gap() {
    let h = Hand::parse_sorted("4c 4d 4h 4s").unwrap();
    assert_eq!(remaining_suit(&Group::from_hand(&h, &[0, 1, 2, 3]).unwrap()), None);
    assert_eq!(remaining_suit(&Group::from_hand(&h, &[0, 1]).unwrap()), None);
    assert_eq!(remaining_suit(&Group::from_hand(&h, &[1, 2, 3]).unwrap()), Some(Suit::Clubs));
}

#[test]
fn more_melds() {
    let diff = cmp_decomp(
        &Hand::parse_sorted("Ac 2c 3c 4c 4d 4h").unwrap(),
        &[&[0, 1, 2, 3], &[4, 5]], // worse
        &[&[0, 1, 2], &[3, 4, 5]], // better
        &Deck::new(),
    );
    assert!(diff < 0.0);
}

/// Here we check if the scoring function considers the ability or
/// inability of a meld to get extended past its numeric bounds.
#[test]
fn meld_extension_score_numeric() {
    let diff = cmp_decomp(
        &Hand::parse_sorted("Ac 2c 3c 4c 5c").unwrap(),
        &[&[0, 1, 2], &[3, 4]], // worse
        &[&[0, 1], &[2, 3, 4]], // better
        &Deck::new(),
    );
    assert!(diff < 0.0);
}

#[test]
fn set_meld_scores_its_missing_suit() {
    let h = Hand::parse_sorted("4c 4d 4h").unwrap();
    let p = partition_index(&h, &[&[0, 1, 2]]).unwrap();
    let d = Deck::new();
    // 3 + odds_to_draw(4s) = 3 + 2/104
    assert_eq!(decomp_points(&p, &d), 3 * 520 + 10);
    let score = decomp_points(&p, &d) as f64 / SCORE_SCALE as f64;
    assert!((score - (3.0 + 2.0 / 104.0)).abs() < 1e-12);
}

#[test]
fn loose_cards_score_five_hundredths_each() {
    let h = Hand::parse("Ac 2c 9h").unwrap();
    let p = partition_index(&h, &[&[0, 1], &[2]]).unwrap();
    assert_eq!(decomp_points(&p, &Deck::new()), 3 * 26);
}

#[test]
fn run_extension_counts_both_ends() {
    let d = Deck::new();
    let h = Hand::parse("3c 4c 5c Jd Qd Kd Ah 2h 3h").unwrap();
    let mid = Group::from_hand(&h, &[0, 1, 2]).unwrap();
    assert_eq!(extension_score(&mid, &d), 20);
    let top = Group::from_hand(&h, &[3, 4, 5]).unwrap();
    assert_eq!(extension_score(&top, &d), 10);
    let bottom = Group::from_hand(&h, &[6, 7, 8]).unwrap();
    assert_eq!(extension_score(&bottom, &d), 10);
}

#[test]
fn extension_credit_is_zero_where_nothing_extends() {
    let mut d = Deck::new();
    let h = Hand::parse("4c 4d 4h 4s 9s Ac 2c 3c").unwrap();
    let four = Group::from_hand(&h, &[0, 1, 2, 3]).unwrap();
    assert!(four.is_meld());
    assert_eq!(extension_score(&four, &d), 0);
    let loose = Group::from_hand(&h, &[3, 4]).unwrap();
    assert!(!loose.is_meld());
    assert_eq!(extension_score(&loose, &d), 0);
    let run = Group::from_hand(&h, &[5, 6, 7]).unwrap();
    assert_eq!(extension_score(&run, &d), 10);
    let four_c = Card::parse("4c").unwrap();
    d.remove(four_c).unwrap();
    d.remove(four_c).unwrap();
    assert_eq!(extension_score(&run, &d), 0);
}

#[test]
fn completing_a_run_raises_the_score() {
    let d = Deck::new();
    let h = Hand::parse("5h 6h 7h Ks").unwrap();
    let apart = partition_index(&h, &[&[0, 1], &[2], &[3]]).unwrap();
    let joined = partition_index(&h, &[&[0, 1, 2], &[3]]).unwrap();
    assert!(decomp_points(&joined, &d) > decomp_points(&apart, &d));
}

#[test]
fn classification() {
    let h = Hand::parse("4c 5c 6c 6d 6h 7s").unwrap();
    let run = Group::from_hand(&h, &[0, 1, 2]).unwrap();
    assert!(run.is_meld() && run.is_run_meld() && !run.is_set_meld());
    let set = Group::from_hand(&h, &[2, 3, 4]).unwrap();
    assert!(set.is_meld() && set.is_set_meld());
    let quasi = Group::from_hand(&h, &[0, 1]).unwrap();
    assert!(quasi.is_quasi_meld() && !quasi.is_meld());
    let single = Group::from_hand(&h, &[5]).unwrap();
    assert!(single.is_single());
    let mixed = Group::from_hand(&h, &[0, 1, 5]).unwrap();
    assert!(!mixed.is_meld());
}

#[test]
fn group_indices_must_fit_the_hand() {
    let h = Hand::parse("4c 5c").unwrap();
    assert!(matches!(Group::from_hand(&h, &[0, 2]), Err(Error::GroupIndexError)));
    assert!(matches!(partition_index(&h, &[&[0], &[5]]), Err(Error::GroupIndexError)));
}

#[test]
fn two_melds_beat_one_meld_and_a_pair() {
    let h = Hand::parse_sorted("Ac 2c 3c 4c 4d 4h").unwrap();
    let d = Deck::new();
    let worse = partition_index(&h, &[&[0, 1, 2, 3], &[4, 5]]).unwrap();
    let better = partition_index(&h, &[&[0, 1, 2], &[3, 4, 5]]).unwrap();
    assert!(decomp_points(&worse, &d) < decomp_points(&better, &d));
    assert_eq!(score_hand_points(&h, &d), decomp_points(&better, &d));
}
