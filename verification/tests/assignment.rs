//! Colors dealt out to slots.
use base16::assignment::{assign, nearest, Candidate};
use base16::color::Argb;
use base16::order::stable_order;

fn candidate(score: i64, label: &str) -> Candidate {
    Candidate { score, label: label.to_string(), color: Argb::new(255, 0, 0, 0) }
}

fn board(candidates: &[(i64, &str)]) -> Vec<Candidate> {
    candidates.iter().map(|&(score, label)| candidate(score, label)).collect()
}

#[test]
fn order_is_ascending_and_stable() {
    assert_eq!(stable_order(&vec![3, 1, 2, 1, 3]), vec![1, 3, 2, 0, 4]);
    assert_eq!(stable_order(&vec![]), Vec::<usize>::new());
    assert_eq!(stable_order(&vec![i64::MAX, i64::MIN]), vec![1, 0]);
}

#[test]
fn nearest_candidate_is_the_first_of_the_best() {
    let colors = board(&[(5, "a"), (2, "b"), (2, "c"), (9, "d")]);
    assert_eq!(nearest(&colors, &vec![]), Some(1));
    assert_eq!(nearest(&colors, &vec!["b".to_string()]), Some(2));
    let most = vec!["a".to_string(), "b".to_string(), "c".to_string()];
    assert_eq!(nearest(&colors, &most), Some(3));
    let all = vec!["a".to_string(), "b".to_string(), "c".to_string(), "d".to_string()];
    assert_eq!(nearest(&colors, &all), None);
    assert_eq!(nearest(&vec![], &vec![]), None);
}

#[test]
fn nearer_slots_choose_first() {
    let boards = vec![board(&[(20, "x"), (30, "y")]), board(&[(10, "x"), (40, "y")])];
    assert_eq!(assign(&boards), vec![Some(1), Some(0)]);
}

#[test]
fn equally_near_slots_choose_in_their_order() {
    let boards = vec![board(&[(10, "x"), (30, "y")]), board(&[(10, "x"), (40, "y")])];
    assert_eq!(assign(&boards), vec![Some(0), Some(1)]);
}

#[test]
fn a_label_is_dealt_once() {
    let boards = vec![
        board(&[(1, "same"), (2, "same")]),
        board(&[(3, "same"), (4, "same")]),
        board(&[(2, "same"), (9, "other")]),
    ];
    assert_eq!(assign(&boards), vec![Some(0), None, Some(1)]);
}

#[test]
fn slots_without_candidates_come_last_and_stay_empty() {
    let boards = vec![board(&[]), board(&[(7, "x")])];
    assert_eq!(assign(&boards), vec![None, Some(0)]);
}

#[test]
fn enough_labels_fill_every_slot() {
    let scores = [(5, "a"), (1, "b"), (4, "c"), (2, "d")];
    let boards: Vec<_> = (0..4).map(|_| board(&scores)).collect();
    assert_eq!(assign(&boards), vec![Some(1), Some(3), Some(2), Some(0)]);
}
