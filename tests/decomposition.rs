use remi_solver::partition::Partition;
use remi_solver::decomposition::{naive_decomposition, partition_suit};
use remi_solver::optimise::optimal_decomposition;
use remi_solver::render::partition_eq;
use remi_solver::{partition_index, Card, Hand, HandUtil, PartitionUtil};

/// The groups as sorted index lists, sorted: equality as set of sets.
fn groups(p: &Partition) -> Vec<Vec<usize>> {
    let mut gs: Vec<Vec<usize>> = (0..p.len())
        .map(|i| {
            let mut g: Vec<usize> = p.get(i).to_vec().iter().map(|c| c.to_index()).collect();
            g.sort();
            g
        })
        .collect();
    gs.sort();
    gs
}

fn expect(groups_text: &[&str]) -> Vec<Vec<usize>> {
    let mut gs: Vec<Vec<usize>> = groups_text
        .iter()
        .map(|t| {
            let mut g: Vec<usize> = Hand::parse(t).unwrap().to_vec().iter().map(|c| c.to_index()).collect();
            g.sort();
            g
        })
        .collect();
    gs.sort();
    gs
}

fn all_cards(p: &Partition) -> Vec<usize> {
    let mut v: Vec<usize> = (0..p.len())
        .flat_map(|i| p.get(i).to_vec().into_iter().map(|c: Card| c.to_index()))
        .collect();
    v.sort();
    v
}

fn hand_cards(h: &Hand) -> Vec<usize> {
    let mut v: Vec<usize> = h.to_vec().iter().map(|c| c.to_index()).collect();
    v.sort();
    v
}

#[test]
fn test_partition_suit() {
    let h = Hand::parse("Ac 6s 9h 10d 5h 3c Kc 7s 9c 4d Jd X").unwrap();
    let p = partition_suit(&h);

    assert!(p.len() == 5);
    assert!(partition_eq(
        &p,
        "[[[Ac], [3c], [Kc], [9c]], [[10d], [4d], [Jd]], [[9h], [5h]], [[6s], [7s]], [[X]]]",
    ));
}

#[test]
fn decomp_naive() {
    let h = Hand::parse_sorted("2c Ac 3c 2h 4h 5h Qs Ks 8c 9c 10c Qc Kc").unwrap();
    let d = naive_decomposition(&h);

    assert!(d.len() == 6);
    assert!(partition_eq(
        &d,
        "[[[Ac], [2c], [3c]], [[8c], [9c], [10c]], [[Qc], [Kc]], [[2h]], [[4h], [5h]], [[Qs], [Ks]]]"
    ));
}

#[test]
fn decomp_optimize_simple() {
    let h = Hand::parse_sorted("5s 5h 5c").unwrap();
    let p: Partition = optimal_decomposition(&h);
    assert!(partition_eq(&p, "[[[5c], [5h], [5s]]]"));
}

#[test]
fn decomp_optimize_simple2() {
    let h = Hand::parse_sorted("Ac 2c 3c 5s 5h 5c").unwrap();
    let p: Partition = optimal_decomposition(&h);
    assert!(partition_eq(&p, "[[[Ac], [2c], [3c]], [[5c], [5h], [5s]]]"));
}

#[test]
fn decomp_optimize_double() {
    let h = Hand::parse_sorted("Ac 2c 3c 4c 4c").unwrap();
    let p: Partition = optimal_decomposition(&h);
    assert!(partition_eq(&p, "[[[Ac], [2c], [3c], [4c]], [[4c]]]"));
}

#[test]
fn decomp_optimize_split_simple() {
    let h = Hand::parse_sorted("Ac 2c 3c 4c 4d 4h").unwrap();
    let p: Partition = optimal_decomposition(&h);
    assert!(partition_eq(&p, "[[[Ac], [2c], [3c]], [[4c], [4d], [4h]]]"));
}

#[test]
fn naive_scenario_as_set_of_sets() {
    let h = Hand::parse_sorted("Ac 2c 3c 2h 4h 5h Qs Ks 8c 9c 10c Qc Kc").unwrap();
    let p = naive_decomposition(&h);
    assert_eq!(p.len(), 6);
    assert_eq!(
        groups(&p),
        expect(&["Ac 2c 3c", "8c 9c 10c", "Qc Kc", "2h", "4h 5h", "Qs Ks"])
    );
}

#[test]
fn optimal_scenarios_as_set_of_sets() {
    let h = Hand::parse_sorted("Ac 2c 3c 5s 5h 5c").unwrap();
    assert_eq!(groups(&optimal_decomposition(&h)), expect(&["Ac 2c 3c", "5c 5h 5s"]));
    let h = Hand::parse_sorted("Ac 2c 3c 4c 4d 4h").unwrap();
    assert_eq!(groups(&optimal_decomposition(&h)), expect(&["Ac 2c 3c", "4c 4d 4h"]));
}

#[test]
fn first_card_of_a_run_completes_a_set() {
    let h = Hand::parse_sorted("4c 4d 5d 6d 7d 4h").unwrap();
    let p = optimal_decomposition(&h);
    assert_eq!(groups(&p), expect(&["4c 4d 4h", "5d 6d 7d"]));
}

#[test]
fn decompositions_cover_the_hand() {
    for text in [
        "Ac 6s 9h 10d 5h 3c Kc 7s 9c 4d Jd X",
        "Ac 2c 3c 4c 4d 4h",
        "X X 5c 5c 5d 6d 7d 8d 9d Kh Qh Jh 2s 2s",
        "Ac",
    ] {
        let h = Hand::parse_sorted(text).unwrap();
        let cards = hand_cards(&h);
        assert_eq!(all_cards(&partition_suit(&h)), cards);
        assert_eq!(all_cards(&naive_decomposition(&h)), cards);
        assert_eq!(all_cards(&optimal_decomposition(&h)), cards);
    }
}

#[test]
fn naive_runs_are_ascending_and_of_one_suit() {
    let h = Hand::parse_sorted("X X 5c 5c 6c 7c 5d 6d 8d 9d Kh Qh Jh 2s 3s").unwrap();
    let p = naive_decomposition(&h);
    for i in 0..p.len() {
        let g = p.get(i).to_vec();
        assert!(!g.is_empty());
        for w in g.windows(2) {
            assert_eq!(w[0].suit, w[1].suit);
            assert!(w[0].is_predecessor(&w[1]));
        }
    }
}

#[test]
fn jokers_stay_single() {
    let h = Hand::parse_sorted("X X Ac").unwrap();
    let p = naive_decomposition(&h);
    assert!(partition_eq(&p, "[[[Ac]], [[X]], [[X]]]"));
}

#[test]
fn empty_hand_has_no_groups() {
    let h = Hand::new();
    assert_eq!(partition_suit(&h).len(), 0);
    assert_eq!(naive_decomposition(&h).len(), 0);
    assert_eq!(optimal_decomposition(&h).len(), 0);
}

#[test]
fn optimiser_twice_equals_once() {
    for text in [
        "Ac 2c 3c 4c 4d 4h",
        "Ac 2c 3c 5s 5h 5c",
        "3c 4c 5c 6c 7c 6d 6h 7d 7h",
        "5c 5c 5h 9d 9s Kc X",
    ] {
        let h = Hand::parse_sorted(text).unwrap();
        let once = optimal_decomposition(&h);
        let mut twice = optimal_decomposition(&h);
        remi_solver::optimise_partition(&mut twice);
        assert_eq!(groups(&once), groups(&twice));
        assert_eq!(
            remi_solver::render::partition_chars(&once, false),
            remi_solver::render::partition_chars(&twice, false)
        );
    }
}

#[test]
fn merging_ignores_suits() {
    let h = Hand::parse_sorted("5c 5c 5h").unwrap();
    let p = optimal_decomposition(&h);
    assert!(partition_eq(&p, "[[[5c], [5c], [5h]]]"));
}

#[test]
fn clean_empty_keeps_order() {
    let h = Hand::parse("Ac 2c 3c").unwrap();
    let mut p = partition_index(&h, &[&[0], &[], &[1, 2], &[]]).unwrap();
    p.clean_empty();
    assert!(partition_eq(&p, "[[[Ac]], [[2c], [3c]]]"));
}

#[test]
fn partition_text_with_suit_glyphs() {
    let h = Hand::parse("Ac 10d X").unwrap();
    let p = partition_suit(&h);
    let text: String = remi_solver::render::partition_chars(&p, true).into_iter().collect();
    assert_eq!(text, "[[[A\u{2663}]], [[10\u{2666}]], [[X]]]");
    let c: String = remi_solver::render::card_chars(Card::parse("Qh").unwrap(), true).into_iter().collect();
    assert_eq!(c, "[Q\u{2665}]");
    let c: String = remi_solver::render::card_chars(Card::parse("Ks").unwrap(), false).into_iter().collect();
    assert_eq!(c, "[Ks]");
}

#[test]
fn merge_step_removes_emptied_groups() {
    let h = Hand::parse("5c 5h").unwrap();
    let mut p = partition_index(&h, &[&[0], &[1]]).unwrap();
    remi_solver::optimise_partition(&mut p);
    assert!(partition_eq(&p, "[[[5c], [5h]]]"));
}
