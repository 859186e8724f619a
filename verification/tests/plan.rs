use ledger::accounts::{Chart, Fallback, Institution};
use ledger::amount::Amount;
use ledger::currency::Currency;
use ledger::date::Date;
use ledger::model::{LedgerPosting, Verification};
use ledger::import::bank::can_be_read;
use ledger::plan::{
    can_be_planned, plan, targets, Candidate, Deferred, Matching, Plan, Statement,
};
use ledger::statements::bank::{Bank, BankStatement, StatementLine};

fn dec(s: &str) -> Amount {
    Amount::parse(s).expect("an amount")
}

fn chart() -> Chart {
    Chart {
        institution: Institution {
            app_account: String::new(),
            primary: String::new(),
            settlement: String::new(),
            settlement_app_account: String::new(),
            clearing: "Assets:Bank:Clearing".into(),
            accounts: vec![
                ("111111111111".to_string(), "Assets:Bank:Savings".to_string()),
                ("222222222222".to_string(), "Assets:Bank:Other".to_string()),
            ],
        },
        fallback: Fallback {
            income: "Income:Uncategorized".into(),
            expense: "Expenses:Uncategorized".into(),
            descriptions: Vec::new(),
        },
        accounts: Vec::new(),
        counted: Vec::new(),
    }
}

fn day(d: u32) -> Date {
    Date::from_ymd_opt(2026, 6, d).expect("date")
}

fn statement(lines: &[(u32, &str, &str)]) -> BankStatement {
    BankStatement {
        bank: Bank::Cathay,
        account_no: "111111111111".into(),
        account_kind: "活存".into(),
        currency: Currency::TWD,
        period_end: None,
        periods: Vec::new(),
        lines: lines
            .iter()
            .map(|&(d, delta, balance)| {
                let delta = dec(delta);
                let out = delta.is_sign_negative();
                StatementLine {
                    book_date: day(d),
                    description: String::new(),
                    withdrawal: if out { delta.negated() } else { Amount::zero() },
                    deposit: if out { Amount::zero() } else { delta },
                    balance: dec(balance),
                    info: String::new(),
                    memo: String::new(),
                }
            })
            .collect(),
    }
}

fn held(d: u32, amount: &str, opening: bool) -> LedgerPosting {
    LedgerPosting {
        date: day(d),
        amount: dec(amount),
        refs: Vec::new(),
        other_accounts: Vec::new(),
        opening,
        transaction_id: i64::from(d),
        unverified: false,
    }
}

fn run(st: &BankStatement, existing: Vec<LedgerPosting>) -> Result<Plan, String> {
    let s = Statement {
        account: "Assets:Bank:Savings".into(),
        statement: st,
        files: vec![0; st.lines.len()],
        existing,
    };
    plan(&chart(), &vec![s], &Vec::new(), &Vec::new(), &Vec::new()).map_err(|e| e.text())
}

#[test]
fn a_new_account_gets_one_opening_before_its_first_line() -> Result<(), String> {
    let st = statement(&[(2, "-100", "400"), (3, "50", "450")]);
    let p = run(&st, vec![])?;
    assert_eq!(p.counts.openings, 1);
    assert_eq!(p.openings, vec![day(1)]);
    assert_eq!(p.transactions[0].1.postings[0].amount, dec("500"));
    assert_eq!(p.transactions.len(), 3);
    Ok(())
}

/// Lines up to the opening are in its amount; later ones chain from it.
#[test]
fn lines_through_the_opening_date_are_skipped() -> Result<(), String> {
    let st = statement(&[(1, "100", "100"), (3, "5", "105")]);
    let p = run(&st, vec![held(1, "100", true)])?;
    assert_eq!(p.counts.predate_opening, 1);
    assert_eq!(p.counts.new, 1);
    assert_eq!(p.counts.openings, 0);
    Ok(())
}

/// With no opening, records carry the account from its first posting; they
/// must reach the statement's balance.
#[test]
fn records_without_an_opening_chain_from_their_first_posting() -> Result<(), String> {
    let st = statement(&[(3, "5", "105")]);
    let p = run(&st, vec![held(1, "100", false)])?;
    let before_first_posting = day(1).pred_opt().expect("date");
    assert_eq!((p.openings, p.counts.new, p.counts.openings), (vec![before_first_posting], 1, 0));

    let err = run(&st, vec![held(1, "90", false)]).expect_err("records reach 90, not 100");
    assert!(err.contains("nothing was imported"), "{err}");
    Ok(())
}

#[test]
fn two_openings_are_refused() {
    let st = statement(&[(3, "5", "105")]);
    let err =
        run(&st, vec![held(1, "100", true), held(2, "0", true)]).expect_err("two openings");
    assert!(err.contains("more than one opening"), "{err}");
}

/// A posting the ledger holds that no statement line explains breaks the
/// chain, rather than being silently kept alongside the imported lines.
#[test]
fn a_ledger_that_disagrees_with_the_statement_is_refused() {
    let st = statement(&[(3, "5", "105")]);
    let err =
        run(&st, vec![held(1, "100", true), held(2, "-1", false)]).expect_err("off by one");
    assert!(err.contains("nothing was imported"), "{err}");
}

/// The account of the tests' second statement, which most of them leave out
/// of the import.
const OTHER: &str = "Assets:Bank:Other";

fn unverified(d: u32, amount: &str, id: i64) -> LedgerPosting {
    LedgerPosting { unverified: true, transaction_id: id, ..held(d, amount, false) }
}

fn with(st: &BankStatement, existing: Vec<LedgerPosting>) -> Result<Plan, String> {
    run(st, existing)
}

/// A line verifies the one unverified record of its amount near it: the
/// record keeps its row and takes the line's date and ref; nothing is
/// inserted for the line.
#[test]
fn a_line_verifies_its_one_unverified_record_in_place() -> Result<(), String> {
    let st = statement(&[(10, "-20", "80")]);
    let p = with(&st, vec![held(1, "100", true), unverified(9, "-20", 42)])?;
    assert_eq!(p.verified, vec![Verification {
        transaction_id: 42,
        date: Some(day(10)),
        statement_ref: st.dedup_refs()[0].clone(),
        unchecked: Vec::new(),
    }]);
    assert_eq!((p.counts.verified, p.transactions.len()), (1, 0));
    Ok(())
}

/// Two lunches of one price, two records of it: nothing picks which is
/// which, and the import stops with both records unverified.
#[test]
fn an_ambiguous_pairing_verifies_nothing() {
    let st = statement(&[(10, "-150", "-50"), (11, "-150", "-200")]);
    let existing =
        vec![held(1, "100", true), unverified(9, "-150", 1), unverified(10, "-150", 2)];
    let err = with(&st, existing).expect_err("two records, two lines");
    assert!(err.contains("ambiguously"), "{err}");

    // One line, two records: still no choice.
    let st = statement(&[(10, "-150", "-50")]);
    let existing =
        vec![held(1, "100", true), unverified(9, "-150", 1), unverified(11, "-150", 2)];
    assert!(with(&st, existing).is_err());
}

/// A record whose amount disagrees verifies nothing and breaks the chain.
#[test]
fn an_unverified_record_of_another_amount_breaks_the_chain() {
    let st = statement(&[(10, "-20", "80"), (20, "5", "85")]);
    let err = with(&st, vec![held(1, "100", true), unverified(9, "-19", 42)])
        .expect_err("19 is not 20");
    assert!(err.contains("nothing was imported"), "{err}");
}

/// A spend recorded in the statement's last days that the bank books after
/// it: the record waits, unverified, on the day after the statement.
#[test]
fn a_record_from_the_last_days_waits_for_the_next_statement() -> Result<(), String> {
    let st = statement(&[(3, "5", "105"), (10, "-20", "85")]);
    let p = with(&st, vec![held(1, "100", true), unverified(9, "-30", 42)])?;
    assert_eq!(p.deferred, vec![Deferred { transaction_id: 42, date: day(11) }]);
    assert_eq!((p.counts.deferred, p.counts.new, p.counts.verified), (1, 2, 0));
    Ok(())
}

/// One from earlier in the statement had its chance: the chain breaks.
#[test]
fn an_earlier_record_no_line_verifies_breaks_the_chain() {
    let st = statement(&[(3, "5", "105"), (10, "-20", "85")]);
    let err = with(&st, vec![held(1, "100", true), unverified(2, "-30", 42)])
        .expect_err("the statement never shows 30");
    assert!(err.contains("nothing was imported"), "{err}");
}

/// A transfer is one record with a leg on each account, and a line vouches
/// only for its own: the other bank's leg stays unverified until its own
/// statement shows it.
#[test]
fn a_line_leaves_the_other_banks_leg_of_a_transfer_unverified() -> Result<(), String> {
    let st = statement(&[(10, "-20", "80")]);
    let record = LedgerPosting {
        other_accounts: vec![OTHER.to_string(), "Expenses:Food".to_string()],
        ..unverified(9, "-20", 42)
    };
    let p = with(&st, vec![held(1, "100", true), record])?;
    assert_eq!(p.verified[0].unchecked, [OTHER]);
    Ok(())
}

/// Moving a record moves its every leg, so one the other bank's statement
/// will be checked against is not this import's to move.
#[test]
fn a_transfer_the_statement_does_not_show_is_refused_rather_than_moved() {
    let st = statement(&[(3, "5", "105"), (10, "-20", "85")]);
    let record =
        LedgerPosting { other_accounts: vec![OTHER.to_string()], ..unverified(9, "-30", 42) };
    let err = with(&st, vec![held(1, "100", true), record])
        .expect_err("the far leg is not ours to move");
    assert!(err.contains(OTHER), "{err}");
    assert!(err.contains("Nothing was imported"), "{err}");
}

/// A record another bank's line already verified keeps that bank's date: the
/// two may have booked it on different days, and moving it would move the leg
/// that bank's statement is checked against.
#[test]
fn a_record_another_bank_already_verified_keeps_its_date() -> Result<(), String> {
    let st = statement(&[(10, "-20", "80")]);
    let record = LedgerPosting {
        refs: vec!["tiantian:1".into(), "cathay-bank:20260609:1".into()],
        other_accounts: vec![OTHER.to_string()],
        ..unverified(9, "-20", 42)
    };
    let p = with(&st, vec![held(1, "100", true), record])?;
    assert_eq!(p.verified[0].date, None);
    assert_eq!(p.counts.verified, 1);
    Ok(())
}

/// Both banks booked the transfer on one day, and the other bank verified it
/// first: its ref is on the record, but this leg is still unverified, so the
/// line verifies it rather than taking it for a posting of its own.
#[test]
fn a_same_day_transfer_the_other_bank_verified_is_verified_here_too() -> Result<(), String> {
    let st = statement(&[(10, "-20", "80")]);
    let record = LedgerPosting {
        refs: vec!["tiantian:1".into(), "cathay-bank:20260610:1".into()],
        other_accounts: vec![OTHER.to_string()],
        ..unverified(10, "-20", 42)
    };
    let p = with(&st, vec![held(1, "100", true), record])?;
    assert_eq!((p.counts.verified, p.counts.covered, p.counts.new), (1, 0, 0));
    assert_eq!(p.verified[0].unchecked, [OTHER]);
    assert_eq!(p.verified[0].date, None);
    Ok(())
}

/// What a plan promises of its own lines: each transaction balances, and the
/// first repeat of an import is all known.
#[test]
fn planned_transactions_balance_and_are_not_planned_twice() {
    let st = statement(&[(2, "-100", "400"), (3, "50", "450")]);
    let p = run(&st, vec![]).expect("plans");
    for (_, t) in &p.transactions {
        let total = t.postings.iter().fold(Amount::zero(), |n, l| n.plus(&l.amount).unwrap());
        assert_eq!(total, dec("0"));
    }
    let known = st.dedup_refs();
    let s = Statement {
        account: "Assets:Bank:Savings".into(),
        statement: &st,
        files: vec![0; 2],
        existing: vec![held(1, "500", true), held(2, "-100", false), held(3, "50", false)],
    };
    let again = plan(&chart(), &vec![s], &known, &Vec::new(), &Vec::new()).expect("plans");
    assert_eq!((again.counts.known, again.transactions.len()), (2, 0));
}

/// A line the matcher places draws on its candidates, and what they leave goes
/// to the fallback.
#[test]
fn a_matched_line_draws_on_its_candidates() {
    let st = statement(&[(2, "-100", "400")]);
    let s = Statement {
        account: "Assets:Bank:Savings".into(),
        statement: &st,
        files: vec![0],
        existing: vec![held(1, "500", true)],
    };
    let statements = vec![s];
    assert_eq!(targets(&chart(), &statements, &Vec::new()).expect("targets"), [(0, 0)]);
    let candidates = vec![Candidate {
        date: day(2),
        amount: dec("-70"),
        currency: Currency::TWD,
        account: "Expenses:Food".into(),
    }];
    let matches = vec![Matching { target: 0, consumed: vec![(0, dec("-70"))] }];
    let p = plan(&chart(), &statements, &Vec::new(), &candidates, &matches).expect("plans");
    let legs: Vec<(&str, String)> = p.transactions[0]
        .1
        .postings
        .iter()
        .map(|l| (l.account.as_str(), l.amount.text()))
        .collect();
    assert_eq!(
        legs,
        [
            ("Assets:Bank:Savings", "-100".to_string()),
            ("Expenses:Food", "70".to_string()),
            ("Expenses:Uncategorized", "30".to_string()),
        ]
    );
    assert_eq!((p.counts.matched, p.counts.uncategorised), (1, 0));
}

/// Two of the institution's accounts in two currencies: the two lines that name
/// each other's account on one day are one exchange.
#[test]
fn an_exchange_posts_both_sides_against_conversions() {
    let mut twd = statement(&[(22, "-320", "80")]);
    twd.lines[0].info = "222222222222".into();
    let mut usd = statement(&[(22, "10", "10")]);
    usd.account_no = "222222222222".into();
    usd.currency = Currency::USD;
    usd.lines[0].info = "台幣存 111111111111TWD".into();
    let statements = vec![
        Statement {
            account: "Assets:Bank:Savings".into(),
            statement: &twd,
            files: vec![0],
            existing: vec![held(1, "400", true)],
        },
        Statement {
            account: "Assets:Bank:Other".into(),
            statement: &usd,
            files: vec![1],
            existing: vec![],
        },
    ];
    let p =
        plan(&chart(), &statements, &Vec::new(), &Vec::new(), &Vec::new()).expect("plans");
    let legs: Vec<(&str, String)> = p.transactions[1]
        .1
        .postings
        .iter()
        .map(|l| (l.account.as_str(), format!("{} {}", l.amount.text(), l.currency.text())))
        .collect();
    assert_eq!(
        legs,
        [
            ("Assets:Bank:Savings", "-320 TWD".to_string()),
            ("Assets:Bank:Other", "10 USD".to_string()),
            ("Equity:Conversions", "320 TWD".to_string()),
            ("Equity:Conversions", "-10 USD".to_string()),
        ]
    );
}

#[test]
fn a_statement_without_lines_or_files_is_not_planned() {
    let full = statement(&[(2, "100", "100")]);
    let empty = statement(&[]);
    let of = |st| Statement {
        account: "Assets:Bank:Savings".into(),
        statement: st,
        files: vec![0],
        existing: Vec::new(),
    };
    assert!(can_be_planned(&vec![of(&full)]));
    assert!(!can_be_planned(&vec![of(&full), of(&empty)]));
    let mut unfiled = of(&full);
    unfiled.files = Vec::new();
    assert!(!can_be_planned(&vec![unfiled]));
    let mut early = of(&full);
    early.existing = vec![held(1, "5", true)];
    assert!(can_be_planned(&vec![early]));
    assert!(can_be_read(&full));
    assert!(!can_be_read(&empty));
    let mut vast = statement(&[(2, "100", "100")]);
    vast.lines[0].balance = dec("-79228162514264337593543950335");
    assert!(!can_be_read(&vast));
    // The balance before the line is the least there is.
    vast.lines[0].balance = dec("-79228162514264337593543950235");
    assert!(can_be_read(&vast));
    assert_eq!(vast.opening_balance(), dec("-79228162514264337593543950335"));
}
