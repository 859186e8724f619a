use ledger::accounts::{Chart, Fallback, Institution};
use ledger::amount::Amount;
use ledger::currency::Currency;
use ledger::daily::Entry;
use ledger::date::Date;
use ledger::interim::{book, external_ref, Booked, Booking, Draft, StatementLeg};
use ledger::model::{Posting, Source};

fn dec(s: &str) -> Amount {
    Amount::parse(s).expect("an amount")
}

fn pairs(list: &[(&str, &str)]) -> Vec<(String, String)> {
    list.iter().map(|(a, b)| (a.to_string(), b.to_string())).collect()
}

fn chart() -> Chart {
    Chart {
        institution: Institution {
            app_account: "銀行".into(),
            primary: "Assets:Bank:Savings".into(),
            settlement: "Assets:Bank:Investment".into(),
            settlement_app_account: "證券".into(),
            clearing: "Assets:Bank:Clearing".into(),
            accounts: pairs(&[
                ("111", "Assets:Bank:Savings"),
                ("222", "Assets:Bank:Investment"),
                ("333", "Assets:Bank:Other"),
            ]),
        },
        fallback: Fallback {
            income: "Income:Uncategorized".into(),
            expense: "Expenses:Uncategorized".into(),
            descriptions: Vec::new(),
        },
        accounts: pairs(&[
            ("現金", "Assets:Cash"),
            ("別間", "Assets:Bank:Other"),
            ("證券", "Assets:Securities"),
            ("起鼓", "Equity:Opening-Balances"),
        ]),
        counted: Vec::new(),
    }
}

/// The app labels a statement stands behind.
fn labels() -> Vec<String> {
    vec!["銀行".to_string(), "別間".to_string()]
}

fn day() -> Date {
    Date::from_ymd_opt(2026, 10, 1).unwrap()
}

fn flow(account: &str, id: &str) -> Entry {
    Entry::Flow {
        date: day(),
        account: account.into(),
        amount: dec("-120"),
        currency: Currency::TWD,
        category: "飲食".into(),
        memo: "午餐".into(),
        id: id.into(),
    }
}

fn transfer(from: &str, to: &str, id: &str) -> Entry {
    Entry::Transfer {
        date: day(),
        from: from.into(),
        out: dec("500"),
        out_currency: Currency::TWD,
        to: to.into(),
        inn: dec("500"),
        in_currency: Currency::TWD,
        memo: String::new(),
        id: id.into(),
    }
}

/// What an entry is written as.
fn draft(legs: &[(&str, &str)]) -> Option<Draft> {
    Some(Draft {
        date: day(),
        payee: String::new(),
        narration: String::new(),
        tags: vec!["dining".to_string()],
        source: Source::Tiantian,
        external_ref: None,
        postings: legs.iter().map(|(a, n)| Posting::new(a, dec(n), Currency::TWD)).collect(),
    })
}

fn booked(entry: Entry, legs: &[(&str, &str)]) -> Vec<Booked> {
    book(&chart(), &labels(), &vec![entry], vec![draft(legs)]).expect("books")
}

#[test]
fn a_cash_record_books_as_written_under_its_ref() {
    let records =
        booked(flow("現金", "U1"), &[("Assets:Cash", "-120"), ("Expenses:Food", "120")]);
    let [Booked { booking: Booking::Standalone(t), .. }] = records.as_slice() else {
        panic!("not standalone: {:?}", records)
    };
    assert_eq!(t.external_ref.as_deref(), Some("tiantian:U1"));
    let accounts: Vec<&str> = t.postings.iter().map(|p| p.account.as_str()).collect();
    assert_eq!(accounts, ["Assets:Cash", "Expenses:Food"]);
    assert_eq!(t.tags, ["dining"]);
}

#[test]
fn a_bank_record_lands_on_the_primary_account_untagged() {
    let records =
        booked(flow("銀行", "U2"), &[("Assets:Bank:Savings", "-120"), ("Expenses:Food", "120")]);
    let [Booked { booking: Booking::OnStatement { leg, transaction }, .. }] = records.as_slice()
    else {
        panic!("not on a statement: {:?}", records)
    };
    assert_eq!(
        leg,
        &StatementLeg {
            account: "Assets:Bank:Savings".into(),
            amount: dec("-120"),
            currency: Currency::TWD,
        }
    );
    assert!(!transaction.tags.iter().any(|t| t == "unverified"));
    assert_eq!(transaction.external_ref.as_deref(), Some("tiantian:U2"));
}

#[test]
fn settlement_passes_through_the_settlement_account() {
    let records = booked(
        transfer("銀行", "證券", "U3"),
        &[("Assets:Bank:Investment", "-500"), ("Assets:Securities", "500")],
    );
    let [Booked { booking: Booking::OnStatement { leg, .. }, transfer: true, .. }] =
        records.as_slice()
    else {
        panic!("not on a statement: {:?}", records)
    };
    assert_eq!(leg.account, "Assets:Bank:Investment");
    assert_eq!(leg.amount, dec("-500"));
}

#[test]
fn a_transfer_between_statement_accounts_is_left_to_them() {
    let records = booked(transfer("銀行", "別間", "U4"), &[]);
    assert!(matches!(
        records.as_slice(),
        [Booked { booking: Booking::LeftToStatements, .. }]
    ));
}

#[test]
fn an_opening_or_a_record_without_uuid_is_refused() {
    let refused = |e: Entry| {
        book(&chart(), &labels(), &vec![e], vec![draft(&[])]).expect_err("refused").text()
    };
    assert_eq!(
        refused(transfer("起鼓", "現金", "U5")),
        "record U5 is an opening; openings belong to the frozen history"
    );
    assert_eq!(
        refused(flow("現金", "")),
        "a record on 2026-10-01 has no UUID, so it could not be told apart later"
    );
}

#[test]
fn refs_are_namespaced() {
    assert_eq!(external_ref("U1"), "tiantian:U1");
}

/// A record that is not written, or that moves nothing on its statement
/// account, books nothing.
#[test]
fn a_record_that_moves_nothing_is_left_out() {
    let none = book(&chart(), &labels(), &vec![flow("現金", "U6")], vec![None]).expect("books");
    assert!(none.is_empty());
    let still = Entry::Flow {
        date: day(),
        account: "銀行".into(),
        amount: dec("0"),
        currency: Currency::TWD,
        category: String::new(),
        memo: String::new(),
        id: "U7".into(),
    };
    assert!(booked(still, &[]).is_empty());
}
