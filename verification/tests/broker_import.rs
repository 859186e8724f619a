//! Broker statements into the broker sub-ledger, on invented statements:
//! overlapping and repeated downloads, openings, and the holding check.

use std::collections::BTreeMap;

use ledger::accounts::{Chart, Fallback, Institution};
use ledger::amount::Amount;
use ledger::currency::Currency;
use ledger::date::Date;
use ledger::db::broker::BrokerRecord;
use ledger::db::check::{gate, AccountRecord, CheckReport};
use ledger::db::holdings::{recorded, HoldingAssertion};
use ledger::db::query::LedgerData;
use ledger::import::broker::{
    import, keep_newest, BrokerStatement, Holdings, Records, Report, Source, State,
};
use ledger::sort::Key;

const IB: &str = "Assets:Broker:IB";

fn dec(s: &str) -> Amount {
    Amount::parse(s).expect("an amount")
}

fn day(s: &str) -> Date {
    Date::from_iso(s).expect("a date")
}

fn chart() -> Chart {
    Chart {
        institution: Institution {
            app_account: "銀行".into(),
            primary: "Assets:Bank:Savings".into(),
            settlement: "Assets:Bank:Savings".into(),
            settlement_app_account: "證券".into(),
            clearing: "Assets:Bank:Clearing".into(),
            accounts: vec![("U0000000".to_string(), IB.to_string())],
        },
        fallback: Fallback {
            income: "Income:Uncategorized".into(),
            expense: "Expenses:Uncategorized".into(),
            descriptions: Vec::new(),
        },
        accounts: Vec::new(),
        counted: Vec::new(),
    }
}

fn record(key: &str, date: &str, kind: &str, amount: &str) -> BrokerRecord {
    BrokerRecord {
        kind: kind.into(),
        trade_date: Some(day(date)),
        settle_date: day(date),
        executed_at: None,
        symbol: None,
        quantity: dec("0"),
        price: dec("0"),
        amount: dec(amount),
        commission: dec("0"),
        currency: Currency::USD,
        description: String::new(),
        key: key.into(),
    }
}

fn deposit() -> BrokerRecord {
    record("2025-01-10:deposit", "2025-01-10", "deposit", "100")
}

fn buy() -> BrokerRecord {
    BrokerRecord {
        symbol: Some("ZZA".into()),
        quantity: dec("2"),
        price: dec("40"),
        commission: dec("-1"),
        ..record("2025-03-03:buy", "2025-03-03", "buy", "-80")
    }
}

/// A charge, its refund and the charge again: three lines, the repeat numbered.
fn taxes() -> Vec<BrokerRecord> {
    vec![
        record("2025-08-01:tax:-0.5", "2025-08-01", "tax", "-0.5"),
        record("2025-08-01:tax:0.5", "2025-08-01", "tax", "0.5"),
        record("2025-08-01:tax:-0.5:2", "2025-08-01", "tax", "-0.5"),
    ]
}

fn held(cash: &str, shares: &[(&str, &str)]) -> Holdings {
    Holdings {
        cash: vec![(Currency::USD, dec(cash))],
        positions: shares.iter().map(|(s, q)| (s.to_string(), dec(q))).collect(),
    }
}

fn ib(period: (&str, &str), generated: i64, records: Vec<BrokerRecord>, end: Holdings) -> BrokerStatement {
    let start = day(period.0);
    BrokerStatement {
        account: "U0000000".into(),
        period_start: start,
        period_end: day(period.1),
        generated: Some(generated),
        opening: Some(held("0", &[])),
        opening_date: start.pred_opt().expect("a day before"),
        opening_records: Vec::new(),
        closing: Some(end),
        records,
    }
}

fn half_year(generated: i64) -> BrokerStatement {
    ib(("2025-01-01", "2025-06-30"), generated, vec![deposit(), buy()], held("19", &[("ZZA", "2")]))
}

fn full_year() -> BrokerStatement {
    let mut records = vec![deposit(), buy()];
    records.extend(taxes());
    ib(("2025-01-01", "2025-12-31"), 9, records, held("18.5", &[("ZZA", "2")]))
}

/// A sub-ledger in memory.
#[derive(Clone, Default)]
struct Books {
    /// Each record with its account; its key is the stored ref.
    records: Vec<(String, BrokerRecord)>,
    holdings: Vec<HoldingAssertion>,
    batches: usize,
}

impl Books {
    fn gate(&self) -> Result<CheckReport, String> {
        let data = LedgerData::load_from(vec![], vec![]).expect("an empty ledger");
        let records: Vec<AccountRecord> = self
            .records
            .iter()
            .map(|(account, r)| AccountRecord { account: account.clone(), record: r.copy() })
            .collect();
        gate(&data, &vec![], &records, &self.holdings).map_err(|e| e.text())
    }

    fn insert_holding(&mut self, a: &HoldingAssertion) -> Result<bool, String> {
        let same = |h: &&HoldingAssertion| {
            h.account == a.account && h.as_of == a.as_of && h.commodity.same(&a.commodity)
        };
        let stored = self.holdings.iter().find(same).map(|h| h.copy());
        let inserted = stored.is_none();
        let stored = stored.unwrap_or_else(|| a.copy());
        let new = recorded(a, &stored, inserted).map_err(|e| e.text())?;
        if new {
            self.holdings.push(stored);
        }
        Ok(new)
    }

    /// Imports statements, all of it or nothing.
    fn import(
        &mut self,
        source: Source,
        given: Vec<(&str, BrokerStatement)>,
        account: Option<&str>,
    ) -> Result<Report, String> {
        let mut books = self.clone();
        let (paths, statements): (Vec<&str>, Vec<BrokerStatement>) = given.into_iter().unzip();
        let (kept, aside) = keep_newest(&statements);
        let superseded = aside.iter().map(|&i| paths[i].to_string()).collect();
        let mut left: Vec<Option<BrokerStatement>> = statements.into_iter().map(Some).collect();
        let paths: Vec<String> = kept.iter().map(|&i| paths[i].to_string()).collect();
        let statements: Vec<BrokerStatement> =
            kept.iter().map(|&i| left[i].take().expect("kept once")).collect();

        let mut stored: BTreeMap<String, Vec<BrokerRecord>> = BTreeMap::new();
        for (path, r) in &books.records {
            stored.entry(path.clone()).or_default().push(r.copy());
        }
        let state = State {
            known: books.records.iter().map(|(_, r)| r.key.clone()).collect(),
            held: stored
                .into_iter()
                .map(|(path, list)| (Key::of_text(&path), Records { list }))
                .collect(),
        };
        let account = account.map(String::from);
        let imports = import(&chart(), source, &paths, &statements, &account, state)
            .map_err(|e| e.text())?;
        let (mut inserted, mut known, mut openings, mut figures, mut undated) = (0, 0, 0, 0, 0);
        for one in imports {
            if !one.fresh.is_empty() {
                books.batches += 1;
            }
            inserted += one.fresh.len();
            for fresh in one.fresh {
                let mut r = fresh.record;
                r.key = fresh.external_ref;
                books.records.push((one.account.clone(), r));
            }
            for a in &one.figures {
                if books.insert_holding(a)? {
                    figures += 1;
                }
            }
            known += one.known;
            openings += one.openings;
            undated += one.undated_trades;
        }
        let check = books.gate()?;
        *self = books;
        Ok(Report {
            statements: statements.len(),
            superseded,
            inserted,
            known,
            openings,
            assertions: figures,
            undated_trades: undated,
            check,
        })
    }
}

#[test]
fn overlapping_downloads_store_each_line_once() {
    let mut books = Books::default();
    let first = books.import(Source::Ib, vec![("half.csv", half_year(1))], None).expect("imports");
    assert_eq!(first.inserted, 2);
    let both = vec![("half.csv", half_year(1)), ("full.csv", full_year())];
    let second = books.import(Source::Ib, both, None).expect("imports");
    assert_eq!((second.inserted, second.known), (3, 4), "only the second half-year is new");
    assert_eq!(books.records.len(), 5);
    assert!(second.check.ok());

    let batches = books.batches;
    let again = books.import(Source::Ib, vec![("full.csv", full_year())], None).expect("imports");
    assert_eq!((again.inserted, again.openings), (0, 0));
    assert_eq!(again.known, full_year().records.len());
    assert_eq!(books.records.len(), 5);
    assert_eq!(books.batches, batches, "no empty batch");
}

#[test]
fn of_two_downloads_of_one_period_the_newer_is_read() {
    let mut books = Books::default();
    let both = vec![("newer.csv", half_year(2)), ("older.csv", half_year(1))];
    let report = books.import(Source::Ib, both, None).expect("imports");
    assert_eq!(report.superseded, ["older.csv"]);
    assert_eq!(report.statements, 1);
    assert_eq!(report.inserted, 2);
}

#[test]
fn a_statement_the_records_dont_reach_fails_the_gate() {
    let mut books = Books::default();
    // States three shares; the one trade bought two.
    let wrong = ib(
        ("2025-01-01", "2025-06-30"),
        1,
        vec![deposit(), buy()],
        held("19", &[("ZZA", "3")]),
    );
    let err = books.import(Source::Ib, vec![("wrong.csv", wrong)], None).expect_err("off by one");
    assert!(err.contains(&format!("MISMATCH {IB} ZZA (statement as of 2025-06-30)")), "{err}");
    assert!(err.contains("broker records sum to 2"), "{err}");
    assert!(books.records.is_empty(), "nothing committed");
}

#[test]
fn a_position_sold_off_is_asserted_at_zero() {
    let mut books = Books::default();
    books.import(Source::Ib, vec![("half.csv", half_year(1))], None).expect("imports");
    // Lists no positions, though ZZA was bought and never sold.
    let second_half = |shares: &str| BrokerStatement {
        opening: Some(held("19", &[("ZZA", shares)])),
        ..ib(("2025-07-01", "2025-12-31"), 2, vec![], held("19", &[]))
    };
    let err = books
        .import(Source::Ib, vec![("empty.csv", second_half("2"))], None)
        .expect_err("two are held");
    assert!(err.contains("expected 0, broker records sum to 2"), "{err}");

    // An opening that contradicts the recorded closing is refused outright.
    let err = books
        .import(Source::Ib, vec![("contradicting.csv", second_half("3"))], None)
        .expect_err("two were recorded");
    assert!(err.contains("states 3, but 2 was recorded"), "{err}");
}

#[test]
fn overlapping_cathay_exports_store_each_trade_once() {
    let mut books = Books::default();
    // Something must vouch for the ledger before the check passes an import
    // that states no balances of its own.
    books.import(Source::Ib, vec![("full.csv", full_year())], None).expect("imports");

    let trade = |date: &str, quantity: &str, amount: &str| BrokerRecord {
        symbol: Some("ZZ01.TW".into()),
        quantity: dec(quantity),
        currency: Currency::TWD,
        ..record(&format!("{date}:A0001"), date, "buy", amount)
    };
    let a = trade("2022-12-26", "10", "-1001");
    let b = trade("2023-01-05", "-4", "398");
    let export = |end: &str, records: Vec<BrokerRecord>| BrokerStatement {
        account: String::new(),
        generated: None,
        opening: None,
        closing: None,
        ..ib(("2022-12-26", end), 0, records, held("0", &[]))
    };
    let both = vec![
        ("2022.csv", export("2022-12-26", vec![a.copy()])),
        ("2022-2023.csv", export("2023-01-05", vec![b, a])),
    ];
    // The same order number on two days is two trades.
    let report = books
        .import(Source::CathaySecurities, both, Some("Assets:Broker:Cathay"))
        .expect("imports");
    assert_eq!((report.inserted, report.known, report.assertions), (2, 1, 0));
}
