use ledger::accounts::{Chart, Fallback, Institution};
use ledger::amount::Amount;
use ledger::assertion::{AssertionSource, BalanceAssertion};
use ledger::corrected::Frozen;
use ledger::currency::Currency;
use ledger::daily::Entry;
use ledger::date::Date;
use ledger::db::broker::BrokerRecord;
use ledger::db::check::CheckReport;
use ledger::db::holdings::Commodity;
use ledger::db::import_batch::{HeldPosting, HeldTransaction};
use ledger::import::bank;
use ledger::import::broker::{self, BrokerStatement, Holdings, State};
use ledger::import::counted;
use ledger::import::fates::places_of;
use ledger::import::tiantian::{self, Action, Files};
use ledger::interim::{book, Booked, Draft};
use ledger::model::{Posting, Source};
use ledger::plan::Counts;
use ledger::statements::bank::{Bank, BankStatement, Merged, Period, StatementLine};

fn dec(s: &str) -> Amount {
    Amount::parse(s).expect("an amount")
}

fn day(s: &str) -> Date {
    Date::from_iso(s).expect("a date")
}

fn pairs(list: &[(&str, &str)]) -> Vec<(String, String)> {
    list.iter().map(|(a, b)| (a.to_string(), b.to_string())).collect()
}

fn chart() -> Chart {
    Chart {
        institution: Institution {
            app_account: "國泰".into(),
            primary: "Assets:Cathay:Savings".into(),
            settlement: "Assets:Cathay:Investment".into(),
            settlement_app_account: "券商".into(),
            clearing: "Assets:Cathay:Clearing".into(),
            accounts: pairs(&[
                ("111111111111", "Assets:Cathay:Savings"),
                ("222222222222", "Assets:Cathay:FX"),
                ("U0000000", "Assets:Broker:IB"),
            ]),
        },
        fallback: Fallback {
            income: "Income:Uncategorized".into(),
            expense: "Expenses:Uncategorized".into(),
            descriptions: Vec::new(),
        },
        accounts: pairs(&[
            ("現金", "Assets:Cash:TWD"),
            ("外幣帳戶", "Assets:Cathay:FX"),
            ("券商", "Assets:Broker"),
        ]),
        counted: vec!["Assets:Cash".to_string()],
    }
}

fn flow(date: &str, amount: &str, account: &str, id: &str, memo: &str) -> Entry {
    Entry::Flow {
        date: day(date),
        account: account.into(),
        amount: dec(amount),
        currency: Currency::TWD,
        category: "飲食".into(),
        memo: memo.into(),
        id: id.into(),
    }
}

fn draft(date: &str, legs: &[(&str, &str)]) -> Option<Draft> {
    Some(Draft {
        date: day(date),
        payee: String::new(),
        narration: String::new(),
        tags: Vec::new(),
        source: Source::Tiantian,
        external_ref: None,
        postings: legs.iter().map(|(a, n)| Posting::new(a, dec(n), Currency::TWD)).collect(),
    })
}

/// A cash record, and one on the bank account.
fn records() -> Vec<Booked> {
    let labels = vec!["國泰".to_string(), "外幣帳戶".to_string()];
    book(
        &chart(),
        &labels,
        &vec![
            flow("2026-01-08", "-20", "現金", "U5", ""),
            flow("2026-01-20", "-200", "國泰", "U6", "咖啡"),
        ],
        vec![
            draft("2026-01-08", &[("Assets:Cash:TWD", "-20"), ("Expenses:Food", "20")]),
            draft("2026-01-20", &[("Assets:Cathay:Savings", "-200"), ("Expenses:Food", "200")]),
        ],
    )
    .expect("books")
}

fn vouched(end: &str) -> Vec<BalanceAssertion> {
    vec![BalanceAssertion {
        source: AssertionSource::Statement,
        account: "Assets:Cathay:Savings".into(),
        currency: Currency::TWD,
        period_start: None,
        opening: None,
        period_end: day(end),
        closing: dec("900"),
    }]
}

/// An uncategorised line of the statement.
fn line(id: i64, date: &str, amount: &str) -> HeldTransaction {
    HeldTransaction {
        id,
        date: day(date),
        external_ref: Some("cathay-bank:111111111111:1".into()),
        postings: vec![
            HeldPosting {
                id: 10 * id,
                account: "Assets:Cathay:Savings".into(),
                amount: dec(amount),
                currency: Currency::TWD,
            },
            HeldPosting {
                id: 10 * id + 1,
                account: "Expenses:Uncategorized".into(),
                amount: dec(amount).negated(),
                currency: Currency::TWD,
            },
        ],
    }
}

#[test]
fn records_are_told_apart_by_what_the_ledger_holds() {
    let frozen = Frozen {
        through: Some(day("2026-01-06")),
        ids: vec!["U1".into(), "U2".into(), "U3".into()],
    };
    let entries = vec![
        flow("2026-01-02", "-1", "國泰", "U1", ""),
        flow("2026-01-05", "-30", "現金", "U4", ""),
        flow("2026-01-08", "-20", "現金", "U5", ""),
        flow("2026-01-20", "-200", "國泰", "U6", ""),
        flow("2026-01-21", "-200", "國泰", "U7", ""),
    ];
    let known = vec!["tiantian:U5".to_string(), "U7".to_string()];
    let apart = tiantian::sort_records(&entries, &frozen, &known);
    assert_eq!(apart.frozen, 1);
    assert_eq!(apart.late, [("U4".to_string(), day("2026-01-05"))]);
    assert_eq!((apart.known, apart.fresh), (2, vec![3]));
}

/// Recorded before its bank line: the record waits on the account, tagged.
#[test]
fn a_record_the_statements_do_not_reach_waits() {
    let places = places_of(&records());
    assert_eq!(places.len(), 1);
    assert_eq!(places[0].account, "Assets:Cathay:Savings");
    let done = tiantian::import(&chart(), records(), &vec![vec![]], &vouched("2026-01-10"))
        .expect("imports");
    assert_eq!((done.standalone, done.unverified, done.paired), (1, 1, 0));
    assert_eq!(done.span, Some((day("2026-01-08"), day("2026-01-20"))));
    let Action::Insert { transfer: false, transaction } = &done.actions[1] else {
        panic!("not inserted: {:?}", done.actions)
    };
    assert_eq!(transaction.external_ref.as_deref(), Some("tiantian:U6"));
    assert_eq!(transaction.date, day("2026-01-20"));
    assert!(transaction.postings.iter().all(|p| p.tags.as_deref() == Some("unverified")));
    let Action::Insert { transaction, .. } = &done.actions[0] else {
        panic!("not inserted: {:?}", done.actions)
    };
    assert!(transaction.postings.iter().all(|p| p.tags.is_none()));
    assert_eq!((transaction.payee.as_deref(), transaction.narration.as_deref()), (None, None));
}

/// In the statements' last days it may be booked on the next one: it waits on
/// the day after.
#[test]
fn a_record_of_the_last_days_waits_on_the_day_after() {
    let done = tiantian::import(&chart(), records(), &vec![vec![]], &vouched("2026-01-22"))
        .expect("imports");
    let Action::Insert { transaction, .. } = &done.actions[1] else {
        panic!("not inserted: {:?}", done.actions)
    };
    assert_eq!(transaction.date, day("2026-01-23"));
}

/// Recorded after its bank line was imported: the record relabels the line's
/// fallback leg, and adds nothing to the bank account.
#[test]
fn a_record_relabels_the_line_already_imported() {
    let held = vec![vec![line(7, "2026-01-21", "-200"), line(8, "2026-01-21", "-300")]];
    let done =
        tiantian::import(&chart(), records(), &held, &vouched("2026-01-31")).expect("imports");
    assert_eq!((done.standalone, done.unverified, done.paired), (1, 0, 1));
    let Action::Relabel { transaction_id, fallback_posting, external_ref, memo, origin, legs } =
        &done.actions[1]
    else {
        panic!("not relabelled: {:?}", done.actions)
    };
    assert_eq!(origin, "tiantian");
    assert_eq!((*transaction_id, *fallback_posting), (7, 71));
    assert_eq!((external_ref.as_str(), memo.as_str()), ("tiantian:U6", "咖啡"));
    let far: Vec<(&str, Amount)> = legs.iter().map(|l| (l.account.as_str(), l.amount)).collect();
    assert_eq!(far, [("Expenses:Food", dec("200"))]);
}

#[test]
fn a_record_that_fits_two_lines_stops_the_import() {
    let held = vec![vec![line(7, "2026-01-21", "-200"), line(8, "2026-01-22", "-200")]];
    let err = tiantian::import(&chart(), records(), &held, &vouched("2026-01-31"))
        .expect_err("two lines");
    assert_eq!(
        err.text(),
        "records on statement accounts need review; fix them in 天天記帳 and export again. \
         Nothing was imported.\n  U6 2026-01-20 -200 matches 2 bank lines within 7 days \
         (2026-01-21, 2026-01-22)"
    );
}

#[test]
fn a_record_the_statements_contradict_stops_the_import() {
    let err = tiantian::import(&chart(), records(), &vec![vec![]], &vouched("2026-01-31"))
        .expect_err("no line");
    assert!(
        err.text().ends_with(
            "U6 2026-01-20 -200 on Assets:Cathay:Savings: the statements through 2026-01-31 show \
             no line for it"
        ),
        "{}",
        err.text()
    );
}

fn clean() -> CheckReport {
    CheckReport {
        accounts: Vec::new(),
        mismatches: Vec::new(),
        unchecked: Vec::new(),
        uncounted: Vec::new(),
    }
}

#[test]
fn a_report_names_the_late_records() {
    let report = tiantian::Report {
        counts: tiantian::Counts {
            records: 6,
            frozen: 3,
            late: 1,
            known: 0,
            empty: 0,
            standalone: 1,
            unverified: 2,
            paired: 0,
            left_to_statements: 1,
        },
        late: vec![("U4".into(), day("2026-01-05"))],
        frozen_through: Some(day("2026-01-06")),
        span: Some((day("2026-01-08"), day("2026-01-21"))),
        unmapped: vec!["郵局".into()],
        check: clean(),
    };
    let text = report.text();
    assert!(
        text.starts_with(
            "imported 天天記帳 records: 6 in the exports\n  3 frozen, 1 late (dated through \
             2026-01-06), not imported\n    U4 2026-01-05\n  0 already held, 0 moving nothing\n  \
             3 inserted: 1 as written, 2 unverified on statement accounts\n"
        ),
        "{text}"
    );
    assert!(text.contains("  dated 2026-01-08..=2026-01-21\n"), "{text}");
    assert!(text.contains("  unmapped labels, booked to a fallback: 郵局\n"), "{text}");
    let files = Files { income_expense: "收支.csv", transfers: "轉帳.csv" };
    assert_eq!((files.of(false), files.of(true)), ("收支.csv", "轉帳.csv"));
}

fn statement(bank: Bank, no: &str, lines: usize, opening: &str) -> BankStatement {
    BankStatement {
        bank,
        account_no: no.into(),
        account_kind: "活存".into(),
        currency: Currency::TWD,
        period_end: Some(day("2026-03-31")),
        periods: vec![Period {
            start: day("2026-03-01"),
            end: day("2026-03-31"),
            opening: dec(opening),
            closing: dec(opening),
        }],
        lines: (0..lines)
            .map(|_| StatementLine {
                book_date: day("2026-03-02"),
                description: String::new(),
                withdrawal: dec("0"),
                deposit: dec("0"),
                balance: dec(opening),
                info: String::new(),
                memo: String::new(),
            })
            .collect(),
    }
}

fn merged(s: BankStatement, spans: Vec<usize>) -> Merged {
    let paths = (0..spans.len()).map(|i| format!("{i}.pdf")).collect();
    Merged { statement: s, paths, spans }
}

#[test]
fn a_statement_of_another_bank_is_refused() {
    let all = vec![merged(statement(Bank::LineBank, "111111111111", 1, "5"), vec![1])];
    assert!(bank::of_one_bank(Bank::LineBank, &all).is_ok());
    let err = bank::of_one_bank(Bank::Cathay, &all).expect_err("LINE's");
    assert_eq!(err.text(), "0.pdf is a LINE Bank statement, not Cathay bank");
}

#[test]
fn each_line_lands_with_the_file_it_came_from() {
    let all = vec![
        merged(statement(Bank::LineBank, "111111111111", 3, "5"), vec![2, 0, 1]),
        merged(statement(Bank::LineBank, "222222222222", 0, "5"), vec![0]),
        merged(statement(Bank::LineBank, "222222222222", 1, "5"), vec![1]),
    ];
    let landed = bank::land(&chart(), &all).expect("mapped");
    assert_eq!(landed.len(), 2);
    assert_eq!((landed[0].at, landed[0].files.clone()), (0, vec![0, 0, 2]));
    assert_eq!((landed[1].at, landed[1].files.clone()), (2, vec![3]));
    assert_eq!(landed[1].account, "Assets:Cathay:FX");
    let unknown = vec![merged(statement(Bank::LineBank, "999", 1, "5"), vec![1])];
    assert!(bank::land(&chart(), &unknown).expect_err("unmapped").text().contains("999"));
}

/// A statement with no rows on an account the ledger does not hold yet: the
/// balance it carries in opens the account.
#[test]
fn an_idle_account_opens_on_its_balance_once() {
    let s = statement(Bank::LineBank, "111111111111", 0, "250");
    let t = bank::open_idle("Assets:Line", &s, 0).expect("an opening");
    assert_eq!(t.date, day("2026-02-28"));
    assert_eq!(t.external_ref.as_deref(), Some("line-bank:opening:Assets:Line:TWD"));
    assert_eq!((t.postings[0].amount, t.postings[1].amount), (dec("250"), dec("-250")));
    assert!(bank::open_idle("Assets:Line", &s, 1).is_none());
    let nothing = statement(Bank::LineBank, "111111111111", 0, "0");
    assert!(bank::open_idle("Assets:Line", &nothing, 0).is_none());
}

#[test]
fn a_figure_already_recorded_stands() {
    let all = vec![merged(statement(Bank::LineBank, "111111111111", 0, "250"), vec![0])];
    let landed = bank::land(&chart(), &all).expect("mapped");
    let figures = bank::figures_of(&chart(), &all, &landed, &vec![]).expect("mapped");
    assert_eq!(figures.len(), 1);
    assert_eq!(figures[0].closing, dec("250"));
    assert_eq!(bank::new_figures(&vec![], &figures).expect("new"), [0]);
    assert!(bank::new_figures(&figures, &figures).expect("recorded").is_empty());
    let stale = vec![BalanceAssertion { closing: dec("249"), ..figures[0].copy() }];
    let err = bank::new_figures(&stale, &figures).expect_err("contradicts");
    assert!(
        err.text().starts_with("this download closes 250 on 2026-03-31, but "),
        "{}",
        err.text()
    );
    assert!(err.text().contains("was recorded as closing 249"), "{}", err.text());
}

#[test]
fn a_bank_report_counts_the_lines() {
    let report = bank::Report {
        bank: Bank::Cathay,
        counts: Counts {
            predate_opening: 1,
            known: 2,
            covered: 3,
            new: 4,
            verified: 0,
            deferred: 0,
            openings: 5,
            matched: 6,
            uncategorised: 7,
        },
        inserted: 8,
        batches: 9,
        check: clean(),
    };
    assert!(
        report.text().starts_with(
            "imported Cathay bank statements:\n  8 transactions inserted from 9 files\n  5 \
             openings created\n  4 lines new (6 matched, 7 uncategorised)\n  2 lines already \
             held, 3 booked with their partner\n  1 lines on or before the account's opening\n"
        ),
        "{}",
        report.text()
    );
}

fn record(key: &str, symbol: Option<&str>, quantity: &str) -> BrokerRecord {
    BrokerRecord {
        kind: if symbol.is_some() { "buy" } else { "deposit" }.into(),
        trade_date: None,
        settle_date: day("2025-03-03"),
        executed_at: None,
        symbol: symbol.map(|s| s.to_string()),
        quantity: dec(quantity),
        price: dec("40"),
        amount: dec("-80"),
        commission: dec("0"),
        currency: Currency::USD,
        description: String::new(),
        key: key.into(),
    }
}

fn half_year(generated: i64, records: Vec<BrokerRecord>) -> BrokerStatement {
    BrokerStatement {
        account: "U0000000".into(),
        period_start: day("2025-01-01"),
        period_end: day("2025-06-30"),
        generated: Some(generated),
        opening: Some(Holdings { cash: vec![], positions: vec![] }),
        opening_date: day("2024-12-31"),
        opening_records: vec![],
        closing: Some(Holdings {
            cash: vec![(Currency::USD, dec("19"))],
            positions: vec![("ZZA".into(), dec("2"))],
        }),
        records,
    }
}

fn empty() -> State {
    State { known: Vec::new(), held: Vec::new() }
}

#[test]
fn of_several_downloads_of_one_period_the_newest_is_kept() {
    let later = BrokerStatement {
        period_start: day("2025-07-01"),
        period_end: day("2025-12-31"),
        ..half_year(1, vec![])
    };
    let all = vec![later, half_year(2, vec![]), half_year(3, vec![]), half_year(3, vec![])];
    let (kept, superseded) = broker::keep_newest(&all);
    assert_eq!(kept, [2, 0]);
    assert_eq!(superseded, [1, 3]);
}

#[test]
fn each_broker_line_is_stored_once() {
    let first = half_year(1, vec![record("a", None, "0"), record("b", Some("ZZA"), "2")]);
    let second = half_year(2, vec![record("b", Some("ZZA"), "2"), record("c", None, "0")]);
    let paths = vec!["1.csv".to_string(), "2.csv".to_string()];
    let imports = broker::import(
        &chart(),
        broker::Source::Ib,
        &paths,
        &vec![first, second],
        &None,
        empty(),
    )
    .expect("imports");
    let refs: Vec<&str> = imports[0].fresh.iter().map(|f| f.external_ref.as_str()).collect();
    assert_eq!(refs, ["ib:U0000000:a", "ib:U0000000:b"]);
    assert_eq!((imports[0].known, imports[0].undated_trades), (0, 1));
    assert_eq!((imports[1].fresh.len(), imports[1].known), (1, 1));
    assert_eq!(imports[1].account, "Assets:Broker:IB");
    assert_eq!(broker::Source::CathaySecurities.batch_source(), "cathay-securities");
}

#[test]
fn a_statement_without_a_number_or_an_opening_is_refused() {
    let import = |s: BrokerStatement| {
        broker::import(
            &chart(),
            broker::Source::Ib,
            &vec!["1.csv".to_string()],
            &vec![s],
            &None,
            empty(),
        )
        .expect_err("refused")
        .text()
    };
    assert_eq!(
        import(BrokerStatement { account: String::new(), ..half_year(1, vec![]) }),
        "1.csv states no account number; pass --account"
    );
    assert_eq!(
        import(BrokerStatement { opening: None, ..half_year(1, vec![]) }),
        "1.csv opens holding securities it doesn't list; import the statement before it first"
    );
}

/// A security the account touched and the statement does not list is held at
/// zero.
#[test]
fn a_security_no_longer_listed_is_vouched_for_at_zero() {
    let records = vec![record("a", Some("ZZB"), "5"), record("b", Some("ZZA"), "2")];
    let stated = Holdings {
        cash: vec![(Currency::USD, dec("19"))],
        positions: vec![("ZZA".into(), dec("2"))],
    };
    assert_eq!(
        broker::figures(&stated, &records, day("2025-06-30")),
        [
            (Commodity::Cash(Currency::USD), dec("19")),
            (Commodity::Security("ZZA".into()), dec("2")),
            (Commodity::Security("ZZB".into()), dec("0")),
        ]
    );
    // Not yet touched then.
    assert_eq!(broker::figures(&stated, &records, day("2025-01-01")).len(), 2);
}

#[test]
fn a_broker_report_names_what_it_skipped() {
    let report = broker::Report {
        statements: 1,
        superseded: vec!["older.csv".into()],
        inserted: 2,
        known: 0,
        openings: 0,
        assertions: 2,
        undated_trades: 1,
        check: clean(),
    };
    assert!(
        report.text().starts_with(
            "imported 1 broker statements:\n  skipped older.csv (a newer download covers the same \
             period)\n  2 records inserted, 0 already held\n  0 opening records\n  2 holding \
             figures recorded\n  1 trades carry only a settlement date\n"
        ),
        "{}",
        report.text()
    );
}

#[test]
fn a_count_names_its_account_and_currency() {
    let c = chart();
    assert_eq!(counted::account(&c, "現金"), "Assets:Cash:TWD");
    assert_eq!(counted::account(&c, "Assets:Cash:USD"), "Assets:Cash:USD");
    let on = day("2026-01-06");
    let a = counted::record(&c, "Assets:Cash:TWD", on, dec("450"), None, &vec![Currency::TWD])
        .expect("one currency");
    assert_eq!((a.source, a.currency, a.closing), (AssertionSource::Counted, Currency::TWD, dec("450")));
    let refused = |account: &str, held: Vec<Currency>| {
        counted::record(&c, account, on, dec("1"), None, &held).expect_err("refused").text()
    };
    assert_eq!(
        refused("Assets:Cathay:Savings", vec![Currency::TWD]),
        "Assets:Cathay:Savings is not under a [counted] root in mapping.toml"
    );
    assert_eq!(
        refused("Assets:Cash:TWD", vec![]),
        "Assets:Cash:TWD holds nothing yet; name the --currency"
    );
    assert_eq!(
        refused("Assets:Cash:TWD", vec![Currency::TWD, Currency::USD]),
        "Assets:Cash:TWD holds [TWD, USD]; name the --currency"
    );
    let report = counted::Report { assertion: a, check: clean() };
    assert!(report.text().starts_with("recorded "), "{}", report.text());
}
