use ledger::amount::Amount;
use ledger::currency::Currency;
use ledger::manual::load;
use ledger::model::Source;

fn dec(s: &str) -> Amount {
    Amount::parse(s).expect("an amount")
}

#[test]
fn a_row_becomes_a_balanced_two_leg_transaction() {
    let file = "date,account,contra,amount,currency,payee,narration,tags\n2024-07-01,Assets:Cash,\
         Expenses:Food,-120,TWD,Store,lunch,food;treat\n";
    let txns = load(file.as_bytes(), "manual.csv").expect("loads");
    assert_eq!(txns.len(), 1);
    let t = &txns[0];
    assert_eq!(t.source, Source::Manual);
    assert_eq!(t.payee, "Store");
    assert_eq!(t.tags, vec!["food", "treat"]);
    assert_eq!(t.postings.len(), 2);
    assert_eq!(t.postings[0].amount, dec("-120"));
    assert_eq!(t.postings[1].account, "Expenses:Food");
    assert_eq!(t.postings[1].amount, dec("120"), "contra is the negation");
}

#[test]
fn currency_defaults_to_twd_and_columns_may_reorder() {
    let file = "amount,contra,account,date\n500,Income:Gift,Assets:Cash,2024-04-01\n";
    let txns = load(file.as_bytes(), "manual.csv").expect("loads");
    assert_eq!(txns[0].postings[0].currency, Currency::TWD);
    assert_eq!(txns[0].postings[0].amount, dec("500"));
}

#[test]
fn comment_lines_are_ignored() {
    let file = "date,account,contra,amount\n# a note about the entries \
         below\n2024-04-01,Assets:Cash,Income:Gift,500\n";
    assert_eq!(load(file.as_bytes(), "manual.csv").expect("loads").len(), 1);
}

#[test]
fn a_missing_required_column_fails_loudly() {
    let file = "date,account,amount\n2024-04-01,Assets:Cash,500\n";
    let err = load(file.as_bytes(), "manual.csv").expect_err("a missing contra column must fail");
    assert!(err.text().contains("contra"), "got: {}", err.text());
}

#[test]
fn an_empty_account_or_contra_fails_loudly() {
    let file = "date,account,contra,amount\n2024-04-01,Assets:Cash,,500\n";
    let err = load(file.as_bytes(), "manual.csv").expect_err("a blank contra must fail");
    assert!(err.text().contains("empty account or contra"), "got: {}", err.text());
}

#[test]
fn a_bad_date_or_amount_is_refused() {
    let head = "date,account,contra,amount\n";
    for row in ["2024-13-01,A,B,5\n", "2024-04-01,A,B,five\n"] {
        assert!(load(format!("{head}{row}").as_bytes(), "manual.csv").is_err(), "{row}");
    }
}
