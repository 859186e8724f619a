use ledger::amount::Amount;
use ledger::date::Date;
use ledger::matcher::statement_line::{groups, Available, Match, Record, StatementLineMode};

fn dec(s: &str) -> Amount {
    Amount::parse(s).expect("an amount")
}

fn rec(ref_id: i64, date: &str, amount: &str, currency: &str) -> Record {
    Record {
        ref_id,
        date: Date::from_iso(date).unwrap(),
        amount: dec(amount),
        currency: currency.into(),
    }
}

fn pool(records: Vec<Record>) -> Vec<Available> {
    records.into_iter().map(|record| Available { remaining: record.amount, record }).collect()
}

/// The matches of every group, each line of which is assigned these candidates.
fn propose(targets: &Vec<Record>, pool: &Vec<Available>, assigned: &[Option<Vec<usize>>]) -> Vec<Match> {
    let assigned = vec![assigned.to_vec(); groups(targets, pool).len()];
    StatementLineMode.propose(targets, pool, &assigned).unwrap()
}

#[test]
fn matches_a_split_bank_line_to_two_records() {
    let targets = vec![rec(1, "2026-02-01", "-12000", "TWD")];
    let pool = pool(vec![
        rec(101, "2026-02-01", "-10000", "TWD"),
        rec(102, "2026-02-01", "-2000", "TWD"),
    ]);
    let matches = propose(&targets, &pool, &[Some(vec![0, 1])]);
    assert_eq!(matches.len(), 1);
    assert_eq!(matches[0].residual, dec("0"));
    let mut s = matches[0].sources();
    s.sort();
    assert_eq!(s, vec![101, 102]);
}

#[test]
fn does_not_cross_currencies_even_on_equal_amounts() {
    let targets = vec![rec(1, "2026-02-01", "-100", "USD")];
    let pool = pool(vec![rec(101, "2026-02-01", "-100", "TWD")]);
    assert!(groups(&targets, &pool).is_empty());
    assert_eq!(propose(&targets, &pool, &[]), vec![]);
}

#[test]
fn widens_the_date_window_across_passes() {
    let targets = vec![rec(1, "2026-02-03", "-5000", "TWD")];
    let pool = pool(vec![rec(101, "2026-02-01", "-5000", "TWD")]);
    let matches = propose(&targets, &pool, &[Some(vec![0])]);
    assert_eq!(matches.len(), 1);
    assert_eq!(matches[0].sources(), vec![101]);
}

#[test]
fn what_the_candidates_leave_is_the_residual() {
    let targets = vec![rec(1, "2026-02-03", "-5000", "TWD"), rec(2, "2026-02-03", "-1", "TWD")];
    let pool = pool(vec![rec(101, "2026-02-01", "-4000", "TWD")]);
    let matches = propose(&targets, &pool, &[Some(vec![0]), None]);
    assert_eq!(matches.len(), 1);
    assert_eq!((matches[0].target, matches[0].residual), (1, dec("-1000")));
    assert_eq!(StatementLineMode.name(), "statement-line");
}

/// Lines of two currencies draw on the candidates of their own.
#[test]
fn each_currency_has_its_own_candidates() {
    let targets = vec![rec(1, "2026-02-03", "-10", "USD"), rec(2, "2026-02-03", "-10", "TWD")];
    let pool = pool(vec![
        rec(101, "2026-02-03", "-10", "TWD"),
        rec(102, "2026-02-03", "-10", "USD"),
    ]);
    let matches = propose(&targets, &pool, &[Some(vec![0])]);
    let drawn: Vec<(i64, Vec<i64>)> = matches.iter().map(|m| (m.target, m.sources())).collect();
    assert_eq!(drawn, vec![(2, vec![101]), (1, vec![102])]);
}
