use ledger::accounts::{Chart, Fallback, Institution};
use ledger::amount::Amount;
use ledger::assertion::{AssertionSource, BalanceAssertion};
use ledger::bounds::{difference_in_range, remainder_in_range};
use ledger::currency::Currency;
use ledger::date::{Date, MIN_DAY};
use ledger::db::broker::BrokerRecord;
use ledger::db::check::{
    check, gate, gate_with_counts, is_dated, passed, with_counts, AccountRecord, CheckReport,
};
use ledger::db::holdings::{recorded, Commodity, HoldingAssertion};
use ledger::db::periods::{generate_periods, period_end_of, period_start_of, Grain};
use ledger::db::query::{
    account_balances, holdings_report, net_worth_over_time, AccountRow, HoldingPosition,
    LedgerData, PostingRow,
};
use ledger::db::rates::{convert_as_of, fx_pairs, rate, rate_as_of, PriceTable, Series};
use ledger::valuation::AtCost;

fn dec(s: &str) -> Amount {
    Amount::parse(s).expect("an amount")
}

fn day(s: &str) -> Date {
    Date::from_iso(s).expect("a date")
}

fn account(id: i64, path: &str, acct_type: &str) -> AccountRow {
    AccountRow {
        id,
        path: path.into(),
        label: path.into(),
        acct_type: acct_type.into(),
        closed: 0,
    }
}

fn posting(account_id: i64, date: &str, amount: &str, currency: &str) -> PostingRow {
    PostingRow {
        account_id,
        date: date.into(),
        currency: currency.into(),
        amount: amount.into(),
    }
}

fn accounts() -> Vec<AccountRow> {
    vec![
        account(1, "Assets:Bank", "asset"),
        account(2, "Assets:Cash", "asset"),
        account(3, "Expenses:Food", "expense"),
        account(4, "Income:Salary", "income"),
        account(5, "Liabilities:Card", "liability"),
        account(6, "Assets:Unlisted", "asset"),
    ]
}

fn data() -> LedgerData {
    LedgerData::load_from(
        accounts(),
        vec![
            posting(1, "2026-01-02", "1000", "TWD"),
            posting(4, "2026-01-02", "-1000", "TWD"),
            posting(1, "2026-01-20", "-200", "TWD"),
            posting(3, "2026-01-20", "200", "TWD"),
            posting(1, "2026-02-03", "10", "USD"),
            posting(5, "2026-02-03", "-10", "USD"),
            posting(6, "2026-02-04", "70", "TWD"),
            posting(1, "2026-02-04", "-70", "TWD"),
        ],
    )
    .expect("loads")
}

fn rates() -> PriceTable {
    PriceTable {
        series: vec![Series {
            from: Currency::USD,
            to: Currency::TWD,
            quotes: vec![
                (day("2026-01-15"), Some(dec("32"))),
                (day("2026-02-15"), Some(dec("40"))),
            ],
        }],
    }
}

#[test]
fn a_row_the_schema_does_not_allow_is_refused() {
    let bad_type = vec![account(1, "Assets:Bank", "asset?")];
    let err = LedgerData::load_from(bad_type, vec![]).expect_err("no such type");
    assert!(err.text().contains("asset?"), "{}", err.text());
    let bad_amount = vec![posting(1, "2026-01-02", "ten", "TWD")];
    assert!(LedgerData::load_from(accounts(), bad_amount).is_err());
    let orphan = vec![posting(99, "2026-01-02", "10", "TWD")];
    assert!(LedgerData::load_from(accounts(), orphan).is_err());
}

#[test]
fn balances_sum_the_postings_through_a_day() {
    let d = data();
    assert_eq!(d.balance(1, Currency::TWD, day("2026-01-31")), Some(dec("800")));
    assert_eq!(d.balance(1, Currency::TWD, day("2026-02-28")), Some(dec("730")));
    let balances = account_balances(&d, day("2026-01-31")).expect("in range");
    let listed: Vec<(&str, String)> =
        balances.iter().map(|b| (b.path.as_str(), b.amount.text())).collect();
    assert_eq!(
        listed,
        [
            ("Assets:Bank", "800".to_string()),
            ("Expenses:Food", "200".to_string()),
            ("Income:Salary", "-1000".to_string()),
        ]
    );
    assert_eq!(d.last_posting(1, Currency::TWD), Some(day("2026-02-04")));
    assert_eq!(d.last_posting(2, Currency::TWD), None);
    assert_eq!(d.currencies(), [Currency::TWD, Currency::USD]);
}

#[test]
fn a_rate_is_the_last_quote_on_or_before_a_day() {
    let p = rates();
    let usd = |d: &str| rate(Currency::USD, Currency::TWD, day(d), &p);
    assert_eq!(usd("2026-02-14"), Some(dec("32")));
    assert_eq!(usd("2026-02-15"), Some(dec("40")));
    // Before every quote, the earliest stands.
    assert_eq!(usd("2020-01-01"), Some(dec("32")));
    // The inverse stands in for a direction never quoted.
    assert_eq!(rate(Currency::TWD, Currency::USD, day("2026-02-15"), &p), Some(dec("0.025")));
    assert_eq!(rate(Currency::TWD, Currency::TWD, day("2026-02-15"), &p), Some(dec("1")));
    let err = rate_as_of(Currency::JPY, Currency::TWD, day("2026-02-15"), &p)
        .expect_err("never quoted");
    assert!(err.text().contains("no JPY→TWD exchange rate"), "{}", err.text());
    // Nothing needs no rate.
    assert_eq!(
        convert_as_of(dec("0"), Currency::JPY, Currency::TWD, day("2026-02-15"), &p).unwrap(),
        dec("0")
    );
    assert_eq!(
        convert_as_of(dec("2"), Currency::USD, Currency::TWD, day("2026-02-15"), &p).unwrap(),
        dec("80")
    );
}

#[test]
fn net_worth_leaves_out_what_is_carried_at_cost() {
    let d = data();
    let at_cost = AtCost::parse("[at_cost]\naccounts = [\"Assets:Unlisted\"]\n").unwrap();
    let point =
        d.net_worth_as_of(Currency::TWD, &at_cost, day("2026-02-28"), &rates()).expect("rated");
    // 730 TWD and 10 USD at 40 in the bank; 10 USD owed on the card.
    assert_eq!((point.assets, point.net), (dec("1130"), dec("730")));
    let all = d
        .net_worth_as_of(Currency::TWD, &AtCost::default(), day("2026-02-28"), &rates())
        .expect("rated");
    assert_eq!(all.assets, dec("1200"));
    let series = net_worth_over_time(
        &d,
        Currency::TWD,
        &at_cost,
        day("2026-01-15"),
        day("2026-02-28"),
        Grain::Month,
        &rates(),
    )
    .expect("rated");
    let nets: Vec<Amount> = series.points.iter().map(|p| p.net).collect();
    assert_eq!(nets, [dec("800"), dec("730")]);
}

#[test]
fn a_periodic_report_nets_income_and_expense() {
    let report = data()
        .periodic_report(Currency::TWD, day("2026-01-01"), day("2026-02-28"), Grain::Month, &rates())
        .expect("rated");
    let rows: Vec<(String, String, String)> = report
        .periods
        .iter()
        .map(|p| (p.income.text(), p.expense.text(), p.net.text()))
        .collect();
    assert_eq!(rows[0], ("1000".to_string(), "200".to_string(), "800".to_string()));
    assert_eq!(rows.len(), 2);
    assert_eq!(report.periods[1].net, dec("0"));
}

#[test]
fn periods_follow_one_another() {
    let d = day("2026-08-19");
    let spans: Vec<(String, String)> = [Grain::Day, Grain::Week, Grain::Month, Grain::Quarter, Grain::Year]
        .into_iter()
        .map(|g| {
            let start = period_start_of(d, g);
            (start.text(), period_end_of(start, g).text())
        })
        .collect();
    assert_eq!(
        spans,
        [
            ("2026-08-19".to_string(), "2026-08-19".to_string()),
            ("2026-08-17".to_string(), "2026-08-23".to_string()),
            ("2026-08-01".to_string(), "2026-08-31".to_string()),
            ("2026-07-01".to_string(), "2026-09-30".to_string()),
            ("2026-01-01".to_string(), "2026-12-31".to_string()),
        ]
    );
    let months = generate_periods(day("2026-01-31"), day("2026-03-01"), Grain::Month);
    assert_eq!(months.len(), 3);
    for w in months.windows(2) {
        assert_eq!(w[0].1.succ_opt(), Some(w[1].0));
    }
}

#[test]
fn holdings_are_totalled_in_the_reporting_currency() {
    let position = |symbol: &str, currency, cost: &str, value: &str| HoldingPosition {
        symbol: symbol.into(),
        description: String::new(),
        currency,
        quantity: dec("1"),
        total_cost: dec(cost),
        average_cost: dec(cost),
        market_price: dec(value),
        market_value: dec(value),
        unrealized_pnl_value: dec(value).minus(&dec(cost)).unwrap(),
        unrealized_pnl_percentage: dec("0"),
        realized_pnl_value: dec("0"),
    };
    let report = holdings_report(
        day("2026-02-15"),
        Currency::TWD,
        vec![
            position("ZZB", Currency::USD, "1", "2"),
            position("ZZA", Currency::TWD, "100", "90"),
        ],
        &vec![(Currency::USD, dec("3"))],
        &rates(),
    )
    .expect("rated");
    let symbols: Vec<&str> = report.positions.iter().map(|p| p.symbol.as_str()).collect();
    assert_eq!(symbols, ["ZZA", "ZZB"]);
    assert_eq!(report.total_cost, dec("140"));
    assert_eq!(report.total_market_value, dec("170"));
    assert_eq!(report.total_unrealized_pnl, dec("30"));
    assert_eq!((report.total_cash, report.total_value), (dec("120"), dec("290")));
}

fn closes(account: &str, end: &str, closing: &str, source: AssertionSource) -> BalanceAssertion {
    BalanceAssertion {
        source,
        account: account.into(),
        currency: Currency::TWD,
        period_start: None,
        opening: None,
        period_end: day(end),
        closing: dec(closing),
    }
}

fn checked(assertions: Vec<BalanceAssertion>) -> CheckReport {
    check(&data(), &assertions, &vec![], &vec![]).expect("in range")
}

#[test]
fn a_ledger_is_held_to_every_figure() {
    let right =
        checked(vec![closes("Assets:Bank", "2026-01-31", "800", AssertionSource::Statement)]);
    assert!(right.ok());
    assert_eq!(right.figures(), 1);
    assert!(passed(right).is_ok());

    let wrong =
        checked(vec![closes("Assets:Bank", "2026-01-31", "801", AssertionSource::Statement)]);
    assert!(!wrong.ok());
    assert_eq!(wrong.failures().len(), 1);
    let text = wrong.text();
    assert!(text.contains("MISMATCH"), "{text}");
    assert!(text.contains("expected 801"), "{text}");
    assert!(passed(wrong).is_err());

    // Nothing vouches for it: that is no pass either.
    assert!(!checked(vec![]).ok());
}

#[test]
fn an_opening_is_checked_the_day_before_its_period() {
    let a = BalanceAssertion {
        period_start: Some(day("2026-01-20")),
        opening: Some(dec("1000")),
        ..closes("Assets:Bank", "2026-01-31", "800", AssertionSource::Statement)
    };
    let report = checked(vec![a]);
    assert!(report.ok());
    assert_eq!(report.figures(), 2);
}

#[test]
fn what_no_figure_reaches_is_listed() {
    let report =
        checked(vec![closes("Assets:Bank", "2026-01-31", "800", AssertionSource::Statement)]);
    let bank = report
        .unchecked
        .iter()
        .find(|u| u.account == "Assets:Bank" && u.currency == Currency::TWD)
        .expect("posted after its statement");
    assert_eq!(bank.vouched_through, Some(day("2026-01-31")));
    assert_eq!(bank.posted_through, day("2026-02-04"));
}

fn chart() -> Chart {
    Chart {
        institution: Institution {
            app_account: String::new(),
            primary: String::new(),
            settlement: String::new(),
            settlement_app_account: String::new(),
            clearing: String::new(),
            accounts: vec![],
        },
        fallback: Fallback {
            income: String::new(),
            expense: String::new(),
            descriptions: vec![],
        },
        accounts: vec![],
        counted: vec!["Assets:Unlisted".to_string()],
    }
}

/// Until the first count an account is listed as never counted, but passes.
#[test]
fn an_account_never_counted_is_listed() {
    let statement = closes("Assets:Bank", "2026-01-31", "800", AssertionSource::Statement);
    let report = with_counts(&data(), &vec![statement.copy()], &vec![], &vec![], &chart())
        .expect("in range");
    assert!(report.ok());
    assert_eq!(report.uncounted, [("Assets:Unlisted".to_string(), Currency::TWD)]);
    let count = closes("Assets:Unlisted", "2026-02-04", "70", AssertionSource::Counted);
    let counted = with_counts(&data(), &vec![statement, count], &vec![], &vec![], &chart())
        .expect("in range");
    assert!(counted.uncounted.is_empty());
}

fn bought(symbol: &str, quantity: &str, amount: &str) -> BrokerRecord {
    BrokerRecord {
        kind: "buy".into(),
        trade_date: Some(day("2025-03-03")),
        settle_date: day("2025-03-05"),
        executed_at: None,
        symbol: Some(symbol.into()),
        quantity: dec(quantity),
        price: dec("40"),
        amount: dec(amount),
        commission: dec("-1"),
        currency: Currency::USD,
        description: String::new(),
        key: "1".into(),
    }
}

fn holds(commodity: Commodity, quantity: &str) -> HoldingAssertion {
    HoldingAssertion {
        source: AssertionSource::Statement,
        account: "Assets:Broker:IB".into(),
        as_of: day("2025-06-30"),
        commodity,
        quantity: dec(quantity),
    }
}

#[test]
fn holdings_are_held_to_the_broker_records() {
    let records =
        vec![AccountRecord { account: "Assets:Broker:IB".into(), record: bought("ZZA", "2", "-80") }];
    let right = check(
        &data(),
        &vec![],
        &records,
        &vec![
            holds(Commodity::Security("ZZA".into()), "2"),
            holds(Commodity::Cash(Currency::USD), "-81"),
        ],
    )
    .expect("in range");
    assert!(right.ok(), "{}", right.text());
    let wrong =
        check(&data(), &vec![], &records, &vec![holds(Commodity::Security("ZZA".into()), "3")])
            .expect("in range");
    let text = wrong.text();
    assert!(
        text.contains("MISMATCH Assets:Broker:IB ZZA (statement as of 2025-06-30)"),
        "{text}"
    );
    assert!(text.contains("broker records sum to 2"), "{text}");
}

#[test]
fn a_contradicting_holding_is_refused() {
    let stored = holds(Commodity::Security("ZZA".into()), "2");
    assert_eq!(recorded(&stored, &stored, true).expect("the same"), true);
    assert_eq!(recorded(&stored, &stored, false).expect("the same"), false);
    let other = holds(Commodity::Security("ZZA".into()), "3");
    let err = recorded(&other, &stored, false).expect_err("contradicts");
    assert!(err.text().contains("states 3, but 2 was recorded"), "{}", err.text());
}

#[test]
fn a_trade_date_is_filled_in_but_never_overwritten() {
    let mut r = BrokerRecord { trade_date: None, ..bought("ZZA", "2", "-80") };
    assert!(r.fill_trade_date(day("2025-03-03")));
    assert_eq!(r.trade_date, Some(day("2025-03-03")));
    assert!(!r.fill_trade_date(day("2025-03-04")));
    assert_eq!(r.trade_date, Some(day("2025-03-03")));
}

#[test]
fn both_directions_of_each_pair_are_fetched() {
    let held = vec![Currency::JPY, Currency::TWD, Currency::USD];
    assert_eq!(
        fx_pairs(&held, Currency::TWD),
        [
            (Currency::JPY, Currency::TWD),
            (Currency::TWD, Currency::JPY),
            (Currency::USD, Currency::TWD),
            (Currency::TWD, Currency::USD),
        ]
    );
    assert!(fx_pairs(&vec![Currency::TWD], Currency::TWD).is_empty());
}

#[test]
fn a_write_is_let_through_only_if_the_ledger_agrees() {
    let right = vec![closes("Assets:Bank", "2026-01-31", "800", AssertionSource::Statement)];
    let report = gate(&data(), &right, &vec![], &vec![]).expect("agrees");
    assert_eq!(report.figures(), 1);
    let wrong = vec![closes("Assets:Bank", "2026-01-31", "801", AssertionSource::Statement)];
    let err = gate(&data(), &wrong, &vec![], &vec![]).expect_err("disagrees");
    assert!(err.text().starts_with("balance check failed:\ncheck: 1 balance figures"));
    assert!(err.text().contains("expected 801, postings sum to 800 (off by -1)"));
    let err = gate(&data(), &vec![], &vec![], &vec![]).expect_err("nothing vouches for it");
    assert!(err.text().contains("nothing vouches for this ledger"));
    let report = gate_with_counts(&data(), &right, &vec![], &vec![], &chart()).expect("agrees");
    assert!(report.is_printable());
    assert!(gate_with_counts(&data(), &wrong, &vec![], &vec![], &chart()).is_err());
}

#[test]
fn an_opening_on_the_first_day_has_no_day_before() {
    let mut a = closes("Assets:Bank", "2026-01-31", "800", AssertionSource::Statement);
    a.period_start = Date::from_number(MIN_DAY);
    assert!(is_dated(&vec![a.clone()]));
    a.opening = Some(dec("0"));
    assert!(!is_dated(&vec![a.clone()]));
    a.period_start = Date::from_number(MIN_DAY + 1);
    assert!(is_dated(&vec![a]));
}

#[test]
fn a_range_is_judged_without_rounding() {
    let most = dec("79228162514264337593543950335");
    assert!(difference_in_range(&most, &dec("0")));
    assert!(difference_in_range(&most, &dec("79228162514264337593543950335")));
    assert!(!difference_in_range(&most, &dec("-0.0000000000000000000000000001")));
    assert!(!difference_in_range(&most, &dec("-1")));
    assert!(difference_in_range(&dec("79228162514264337593543950334"), &dec("-1")));
    assert!(difference_in_range(&most.negated(), &dec("0")));
    assert!(!difference_in_range(&most.negated(), &dec("0.5")));
    assert!(difference_in_range(&dec("0.5"), &dec("-0.5")));
    assert!(remainder_in_range(&most, &dec("1"), &dec("0")));
    assert!(remainder_in_range(&most, &dec("0"), &dec("0")));
    assert!(remainder_in_range(&most, &dec("1"), &dec("0.1")));
    assert!(!remainder_in_range(&most, &dec("0"), &dec("0.1")));
    // Where the difference is rounded, one is kept to spare.
    assert!(!remainder_in_range(&dec("0"), &most, &dec("0.5")));
    assert!(remainder_in_range(&dec("1"), &most, &dec("0.5")));
    assert!(remainder_in_range(&dec("100"), &dec("30"), &dec("0")));
}
