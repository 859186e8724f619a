use ledger::date::Date;
use ledger::pairing::{one_to_one, within_window, Pairing};

#[test]
fn only_a_unique_fit_both_ways_pairs() {
    let fits = |a: &i32, b: &i32| a == b;
    assert_eq!(
        one_to_one(&[1, 2], &[2, 3], fits),
        Pairing { pairs: vec![(1, 0)], ambiguous: vec![] }
    );
    // Two lines, one record: neither line may take it.
    assert_eq!(
        one_to_one(&[5, 5], &[5], fits),
        Pairing { pairs: vec![], ambiguous: vec![(0, vec![0]), (1, vec![0])] }
    );
    assert_eq!(one_to_one(&[5], &[5, 5], fits).ambiguous, [(0, vec![0, 1])]);
}

#[test]
fn the_window_is_a_week_either_way() {
    let day = |d: u32| Date::from_ymd_opt(2026, 6, d).unwrap();
    assert!(within_window(day(8), day(1)));
    assert!(within_window(day(1), day(8)));
    assert!(!within_window(day(9), day(1)));
}
