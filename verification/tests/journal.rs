use ledger::amount::Amount;
use ledger::assertion::{AssertionSource, BalanceAssertion};
use ledger::currency::Currency;
use ledger::date::Date;
use ledger::journal::{assertions_path, read, Journal, Posting};
use ledger::model::Source;

fn dec(s: &str) -> Amount {
    Amount::parse(s).expect("an amount")
}

fn day(d: u32) -> Date {
    Date::from_ymd_opt(2024, 7, d).unwrap()
}

fn posting(account: &str, amount: &str, tags: Option<&str>) -> Posting {
    Posting {
        group: 0,
        source: Source::Manual,
        date: day(1),
        payee: Some("Store".into()),
        narration: "lunch".into(),
        external_ref: None,
        account: account.into(),
        amount: dec(amount),
        currency: Currency::TWD,
        tags: tags.map(|t| t.to_string()),
    }
}

#[test]
fn a_journal_round_trips_through_write_and_read() {
    let journal = Journal {
        postings: vec![
            posting("Expenses:Food", "120", Some("food")),
            posting("Assets:Cash", "-120", None),
        ],
    };
    let back = read(ledger::journal::write(&journal), "journal.csv").expect("reads back");
    assert_eq!(back.postings, journal.postings);
}

#[test]
fn a_journal_with_no_rows_is_rejected() {
    let err = read(ledger::journal::write(&Journal { postings: Vec::new() }), "journal.csv")
        .expect_err("an empty journal must not load");
    assert!(err.text().contains("contains no rows"), "got: {}", err.text());
}

#[test]
fn an_unknown_source_is_rejected_on_read() {
    assert!(Source::parse("imprt").is_none());
    assert_eq!(Source::parse("import"), Some(Source::Import));
}

#[test]
fn assertions_round_trip_with_and_without_an_opening() {
    let assertions = vec![
        BalanceAssertion {
            source: AssertionSource::Statement,
            account: "Assets:Bank".into(),
            currency: Currency::TWD,
            period_start: Some(day(1)),
            opening: Some(dec("10.50")),
            period_end: day(31),
            closing: dec("-3"),
        },
        BalanceAssertion {
            source: AssertionSource::Tiantian,
            account: "Assets:Cash".into(),
            currency: Currency::USD,
            period_start: None,
            opening: None,
            period_end: day(2),
            closing: dec("0"),
        },
    ];
    for a in &assertions {
        assert_eq!(AssertionSource::parse(&a.source.text()), Some(a.source));
        assert_eq!(Currency::parse(&a.currency.text()), Some(a.currency));
        assert_eq!(Date::from_iso(&a.period_end.text()), Some(a.period_end));
        assert_eq!(Amount::parse(&a.closing.text()), Some(a.closing));
        assert_eq!(a.copy(), *a);
    }
    assert_eq!(assertions_path("ledger/journal.csv"), "ledger/journal.assertions.csv");
}

#[test]
fn an_assertion_vouches_for_its_opening_the_day_before_it_starts() {
    let a = BalanceAssertion {
        source: AssertionSource::Statement,
        account: "Assets:Bank".into(),
        currency: Currency::TWD,
        period_start: Some(day(2)),
        opening: Some(dec("10.50")),
        period_end: day(31),
        closing: dec("-3"),
    };
    assert_eq!(a.points(), [(day(1), dec("10.50")), (day(31), dec("-3"))]);
}
