//! Whole imports on invented statements, carried out on a ledger in memory.

use std::collections::{BTreeMap, BTreeSet};

use ledger::accounts::{levels_of, Chart, Fallback, Institution};
use ledger::amount::Amount;
use ledger::assertion::{AssertionSource, BalanceAssertion};
use ledger::corrected::{frozen, Frozen};
use ledger::currency::Currency;
use ledger::daily::Entry;
use ledger::date::Date;
use ledger::db::assertions::{columns, insert};
use ledger::db::check::{gate, gate_with_counts, is_dated, with_counts, CheckReport};
use ledger::db::import_batch::{
    append_narration, verify, HeldPosting, HeldTransaction, Record, TaggedLeg,
};
use ledger::db::load::schema_type;
use ledger::db::query::{AccountRow, LedgerData, PostingRow};
use ledger::import::bank;
use ledger::import::counted;
use ledger::import::fates::places_of;
use ledger::import::tiantian;
use ledger::interim::{book, Draft};
use ledger::model::{
    LedgerPosting, Posting, Source, Transaction, OPENING_EQUITY, UNVERIFIED_TAG,
};
use ledger::plan::{can_be_planned, targets, Candidate, Matching, Statement};
use ledger::statements::bank::{Bank, Merged};
use ledger::statements::{cathay, line_bank};

fn dec(s: &str) -> Amount {
    Amount::parse(s).expect("an amount")
}

fn day(s: &str) -> Date {
    Date::from_iso(s).expect("a date")
}

fn pairs(list: &[(&str, &str)]) -> Vec<(String, String)> {
    list.iter().map(|(a, b)| (a.to_string(), b.to_string())).collect()
}

/// A transaction the ledger holds.
#[derive(Clone)]
struct Held {
    transaction: Transaction,
    /// The ids of its legs.
    legs: Vec<i64>,
    /// Further refs it stands for.
    aliases: Vec<String>,
    /// Where the legs with these ids came from.
    origins: Vec<(i64, String)>,
}

impl Held {
    fn record(&self) -> Record {
        Record {
            date: self.transaction.date,
            refs: self.aliases.clone(),
            legs: self
                .transaction
                .postings
                .iter()
                .zip(&self.legs)
                .map(|(p, id)| TaggedLeg {
                    id: *id,
                    account: p.account.clone(),
                    tags: p.tags.clone(),
                })
                .collect(),
        }
    }
}

/// A ledger in memory.
#[derive(Clone, Default)]
struct Books {
    transactions: Vec<Held>,
    assertions: Vec<BalanceAssertion>,
    batches: Vec<String>,
    legs: i64,
}

impl Books {
    fn insert(&mut self, transaction: Transaction) {
        if let Some(r) = &transaction.external_ref {
            assert!(!self.refs("").contains(r), "{r} is already held");
        }
        let legs = (0..transaction.postings.len() as i64).map(|i| self.legs + i).collect();
        self.legs += transaction.postings.len() as i64;
        self.transactions.push(Held {
            transaction,
            legs,
            aliases: Vec::new(),
            origins: Vec::new(),
        });
    }

    fn batch(&mut self, file: &str) -> i64 {
        match self.batches.iter().position(|b| b == file) {
            Some(i) => i as i64,
            None => {
                self.batches.push(file.to_string());
                self.batches.len() as i64 - 1
            }
        }
    }

    /// The transactions by date, each with its id.
    fn by_date(&self) -> Vec<(i64, &Held)> {
        let mut all: Vec<(i64, &Held)> =
            self.transactions.iter().enumerate().map(|(i, h)| (i as i64, h)).collect();
        all.sort_by_key(|(id, h)| (h.transaction.date, *id));
        all
    }

    fn postings(&self, account: &str, currency: Currency) -> Vec<LedgerPosting> {
        let mut out = Vec::new();
        for (id, h) in self.by_date() {
            let t = &h.transaction;
            for p in t.postings.iter().filter(|p| p.account == account && p.currency == currency) {
                let others = t.postings.iter().filter(|q| q.account != account);
                let tags = p.tags.clone().unwrap_or_default();
                out.push(LedgerPosting {
                    date: t.date,
                    amount: p.amount,
                    refs: t.external_ref.iter().chain(&h.aliases).cloned().collect(),
                    other_accounts: others.map(|q| q.account.clone()).collect(),
                    opening: t.postings.iter().any(|q| q.account == OPENING_EQUITY),
                    transaction_id: id,
                    unverified: tags.split(',').any(|x| x == UNVERIFIED_TAG),
                });
            }
        }
        out
    }

    fn refs(&self, prefix: &str) -> Vec<String> {
        self.transactions
            .iter()
            .flat_map(|h| h.transaction.external_ref.iter().chain(&h.aliases))
            .filter(|r| r.starts_with(prefix))
            .cloned()
            .collect()
    }

    fn transactions_on(&self, account: &str, currency: Currency) -> Vec<HeldTransaction> {
        let on = |p: &Posting| p.account == account && p.currency == currency;
        self.by_date()
            .into_iter()
            .filter(|(_, h)| h.transaction.postings.iter().any(on))
            .map(|(id, h)| HeldTransaction {
                id,
                date: h.transaction.date,
                external_ref: h.transaction.external_ref.clone(),
                postings: h
                    .transaction
                    .postings
                    .iter()
                    .zip(&h.legs)
                    .map(|(p, id)| HeldPosting {
                        id: *id,
                        account: p.account.clone(),
                        amount: p.amount,
                        currency: p.currency,
                    })
                    .collect(),
            })
            .collect()
    }

    fn record(&mut self, a: &BalanceAssertion) -> Result<(), String> {
        if insert(&self.assertions, a).map_err(|e| e.text())? {
            // What is stored is what is read back.
            let stored = columns(a).read().map_err(|e| e.text())?;
            assert!(!insert(&vec![stored.clone()], a).map_err(|e| e.text())?);
            self.assertions.push(stored);
        }
        Ok(())
    }

    fn data(&self) -> LedgerData {
        let mut paths: BTreeSet<String> = BTreeSet::new();
        for h in &self.transactions {
            for p in &h.transaction.postings {
                paths.extend(levels_of(&p.account));
            }
        }
        let ids: BTreeMap<&String, i64> = paths.iter().zip(1..).collect();
        let accounts = ids
            .iter()
            .map(|(path, id)| AccountRow {
                id: *id,
                path: path.to_string(),
                label: path.to_string(),
                acct_type: schema_type(path).expect("an account").text(),
                closed: 0,
            })
            .collect();
        let mut postings = Vec::new();
        for h in &self.transactions {
            for p in &h.transaction.postings {
                postings.push(PostingRow {
                    account_id: ids[&p.account],
                    date: h.transaction.date.text(),
                    currency: p.currency.text(),
                    amount: p.amount.text(),
                });
            }
        }
        LedgerData::load_from(accounts, postings).expect("loads")
    }

    fn gate(&self, chart: Option<&Chart>) -> Result<CheckReport, String> {
        let (data, none) = (self.data(), (vec![], vec![]));
        assert!(is_dated(&self.assertions));
        match chart {
            None => gate(&data, &self.assertions, &none.0, &none.1),
            Some(chart) => gate_with_counts(&data, &self.assertions, &none.0, &none.1, chart),
        }
        .map_err(|e| e.text())
    }

    fn balance(&self, account: &str, currency: Currency) -> Amount {
        let mut sum = Amount::zero();
        for h in &self.transactions {
            for p in &h.transaction.postings {
                if p.account == account && p.currency == currency {
                    sum = sum.plus(&p.amount).expect("in range");
                }
            }
        }
        sum
    }

    /// Every balance, by account and currency.
    fn balances(&self) -> BTreeMap<(String, String), String> {
        let mut out = BTreeMap::new();
        for h in &self.transactions {
            for p in &h.transaction.postings {
                let key = (p.account.clone(), p.currency.text());
                out.insert(key, self.balance(&p.account, p.currency).normalized().text());
            }
        }
        out
    }

    /// The legs booked on a day, by account, openings aside.
    fn legs_on(&self, date: &str) -> Vec<(String, String)> {
        let mut out = Vec::new();
        for h in &self.transactions {
            let t = &h.transaction;
            if t.date == day(date) && t.payee.as_deref() != Some("Opening balance") {
                out.extend(t.postings.iter().map(|p| (p.account.clone(), p.amount.text())));
            }
        }
        out.sort_by(|a, b| a.0.cmp(&b.0));
        out
    }

    /// Carries out an import of a bank's statements, all of it or nothing.
    fn import(
        &mut self,
        chart: &Chart,
        bank: Bank,
        merged: &Vec<Merged>,
        candidates: &Vec<Candidate>,
    ) -> Result<bank::Report, String> {
        let mut books = self.clone();
        let report = books.import_bank(chart, bank, merged, candidates)?;
        *self = books;
        Ok(report)
    }

    fn import_bank(
        &mut self,
        chart: &Chart,
        bank: Bank,
        merged: &Vec<Merged>,
        candidates: &Vec<Candidate>,
    ) -> Result<bank::Report, String> {
        bank::of_one_bank(bank, merged).map_err(|e| e.text())?;
        assert!(merged.iter().all(|m| bank::can_be_read(&m.statement)));
        let landed = bank::land(chart, merged).map_err(|e| e.text())?;
        let mut files: Vec<String> = Vec::new();
        let mut statements = Vec::new();
        for l in &landed {
            let m = &merged[l.at];
            files.extend(m.paths.iter().cloned());
            statements.push(Statement {
                account: l.account.clone(),
                statement: &m.statement,
                files: l.files.clone(),
                existing: self.postings(&l.account, m.statement.currency),
            });
        }
        assert!(can_be_planned(&statements));
        let known = self.refs(bank.ref_prefix());
        let left = targets(chart, &statements, &known).map_err(|e| e.text())?;
        // A candidate of the same day and amount as a line left explains it.
        let mut matches = Vec::new();
        for (n, &(s, i)) in left.iter().enumerate() {
            let line = &statements[s].statement.lines[i];
            let fits = |c: &Candidate| c.date == line.book_date && c.amount == line.delta();
            if let Some(c) = candidates.iter().position(fits) {
                matches.push(Matching { target: n, consumed: vec![(c, line.delta())] });
            }
        }
        let mut held = Vec::new();
        for m in merged {
            let account = bank::landing_account(chart, &m.statement).map_err(|e| e.text())?;
            held.push(self.postings(&account, m.statement.currency).len());
        }
        let writes = bank::import(
            chart,
            merged,
            &landed,
            &statements,
            &held,
            &known,
            candidates,
            &matches,
            &self.assertions,
        )
        .map_err(|e| e.text())?;
        let mut counts = writes.plan.counts;
        counts.openings += writes.idle.len();
        let inserted = writes.plan.transactions.len() + writes.idle.len();
        let mut batches = BTreeSet::new();
        for (file, mut t) in writes.plan.transactions {
            t.import_batch_id = Some(self.batch(&files[file]));
            batches.insert(file);
            self.insert(t);
        }
        for v in &writes.plan.verified {
            let h = &mut self.transactions[v.transaction_id as usize];
            let checked = verify(h.record(), v);
            h.transaction.date = checked.date;
            h.aliases = checked.refs;
            for (p, leg) in h.transaction.postings.iter_mut().zip(checked.legs) {
                p.tags = leg.tags;
            }
        }
        for d in &writes.plan.deferred {
            self.transactions[d.transaction_id as usize].transaction.date = d.date;
        }
        for (at, mut t) in writes.idle {
            t.import_batch_id = Some(self.batch(&merged[at].paths[0]));
            self.insert(t);
        }
        for figure in &writes.figures {
            self.record(figure)?;
        }
        let check = self.gate(None)?;
        Ok(bank::Report { bank, counts, inserted, batches: batches.len(), check })
    }
}

/// A line as (date, 說明, 提出, 存入, 餘額, 交易資訊, 備註), oldest first.
type Line<'a> = (&'a str, &'a str, &'a str, &'a str, &'a str, &'a str, &'a str);

/// A TWD export as the bank writes it: BOM, CRLF, the lone-quote spacer
/// record, newest line first.
fn twd(account: &str, lines: &[Line]) -> String {
    period(account, None, lines)
}

/// The same, with the `(自 … 至 …)` header the bank puts on a dated download.
fn period(account: &str, period_end: Option<&str>, lines: &[Line]) -> String {
    let header = period_end
        .map(|end| format!("\"筆數\",\"(自 2020/01/01 至 {end})\"\r\n"))
        .unwrap_or_default();
    let columns = ["交易日期", "帳務日期", "說明", "提出", "存入", "餘額", "交易資訊", "備註"]
        .map(|c| format!("\"{c}\""))
        .join(",");
    let mut out =
        format!("\u{feff}\"{account} 活存\"\r\n{header}\"幣別：TWD\"\r\n\"\r\n\"\r\n{columns}\r\n");
    for (date, desc, out_, in_, bal, info, memo) in lines.iter().rev() {
        out.push_str(&format!(
            "\"{date}\",\"{date}\",\"{desc}\",\"{out_}\",\"{in_}\",\"{bal}\",\"{info}\",\"{memo}\"\
             \r\n"
        ));
    }
    out
}

const SAVINGS_2022: &[Line] = &[("2022/12/01", "存入", "", "1000", "1000", "", "")];
const SAVINGS_2023: &[Line] = &[
    ("2023/02/01", "消費", "100", "", "900", "", ""),
    ("2023/02/03", "轉帳", "300", "", "600", "(013)0000333333333333", ""),
    // Out, back, out: the first and third share date, amount and balance.
    ("2023/02/05", "網銀轉帳", "500", "", "100", "(822)0000000000000001", ""),
    ("2023/02/05", "網銀轉帳", "", "500", "600", "(822)0000000000000001", ""),
    ("2023/02/05", "自行提款", "500", "", "100", "", ""),
    ("2023/02/07", "電子轉出", "50", "", "50", "(807)0000000000000002", ""),
    ("2023/02/07", "錯誤更正", "-50", "", "100", "(807)0000000000000002", ""),
    ("2023/02/10", "網銀外存", "64", "", "36", "", "222222222222"),
];
const SAVINGS_2024: &[Line] = &[("2024/03/01", "存款息", "", "1", "37", "", "")];
const INVESTMENT_2023: &[Line] =
    &[("2023/02/03", "轉入", "", "300", "300", "(013)0000111***111111", "")];

const FX_2023_USD: &str = "\
\"222222222222 活存外幣\"
\"幣別：USD\"
\"
\"
\"交易日期\",\"帳務日期\",\"提出\",\"存入\",\"餘額\",\"成交匯率\",\"交易資訊\"
\"2023/02/10\",\"2023/02/10\",\"−\",\"USD 2.00\",\"USD 2.00\",\"32\",\"台幣存 111111111111TWD\"
";

fn cathay_chart() -> Chart {
    Chart {
        institution: Institution {
            app_account: "國泰".into(),
            primary: "Assets:Cathay:Savings".into(),
            settlement: "Assets:Cathay:Investment".into(),
            settlement_app_account: "券商".into(),
            clearing: "Assets:Cathay:Clearing".into(),
            accounts: pairs(&[
                ("111111111111", "Assets:Cathay:Savings"),
                ("333333333333", "Assets:Cathay:Investment"),
                ("222222222222", "Assets:Cathay:FX"),
            ]),
        },
        fallback: Fallback {
            income: "Income:Uncategorized".into(),
            expense: "Expenses:Uncategorized".into(),
            descriptions: pairs(&[("存款息", "Income:Interest")]),
        },
        accounts: pairs(&[
            ("國泰", "Assets:Cathay"),
            ("外幣帳戶", "Assets:Cathay:FX"),
            ("現金", "Assets:Cash"),
            ("券商", "Assets:Broker"),
            ("起鼓", "Equity:Opening-Balances"),
        ]),
        counted: Vec::new(),
    }
}

/// Every download, one file per account per year.
fn downloads() -> Vec<(String, String)> {
    vec![
        ("savings-2022.csv".into(), twd("111111111111", SAVINGS_2022)),
        ("savings-2023.csv".into(), twd("111111111111", SAVINGS_2023)),
        ("savings-2024.csv".into(), twd("111111111111", SAVINGS_2024)),
        ("investment-2023.csv".into(), twd("333333333333", INVESTMENT_2023)),
        ("fx-2023-USD.csv".into(), FX_2023_USD.to_string()),
    ]
}

fn file(name: &str, contents: String) -> (String, String) {
    (name.to_string(), contents)
}

fn cathay_merged(files: &[(String, String)]) -> Vec<Merged> {
    let files: Vec<(Vec<u8>, String)> =
        files.iter().map(|(path, text)| (text.as_bytes().to_vec(), path.clone())).collect();
    let merged = cathay::load_merged(&files).expect("merges");
    merged.into_iter().map(|m| m.shared()).collect()
}

fn import_files(books: &mut Books, files: &[(String, String)]) -> Result<bank::Report, String> {
    books.import(&cathay_chart(), Bank::Cathay, &cathay_merged(files), &Vec::new())
}

/// Into an empty ledger every account and currency closes on its statement,
/// with one opening each however many yearly files.
#[test]
fn cathay_import_an_empty_ledger_closes_on_every_statement() {
    let mut books = Books::default();
    let report = import_files(&mut books, &downloads()).expect("imports");
    assert!(report.check.ok());
    assert_eq!(report.counts.openings, 3);

    assert_eq!(books.balance("Assets:Cathay:Savings", Currency::TWD), dec("37"));
    assert_eq!(books.balance("Assets:Cathay:Investment", Currency::TWD), dec("300"));
    assert_eq!(books.balance("Assets:Cathay:FX", Currency::USD), dec("2.00"));
    // Both halves of each transfer were paired, so nothing is in transit.
    assert_eq!(books.balance("Assets:Cathay:Clearing", Currency::TWD), dec("0"));
    // The reversal and its debit are one transaction netting to nothing.
    assert_eq!(books.balance("Expenses:Uncategorized", Currency::TWD), dec("1100"));
    assert_eq!(books.balance("Income:Interest", Currency::TWD), dec("-1"));

    // 12 lines, less the far halves of two transfers and one reversal, plus
    // three openings.
    assert_eq!(books.transactions.len(), 12);
    assert!(books.transactions.iter().all(|h| h.transaction.import_batch_id.is_some()));
    assert_eq!(books.batches.len(), 5);
    let of_the_bank = |h: &Held| {
        h.transaction.external_ref.as_deref().is_some_and(|r| r.starts_with("cathay-bank:"))
    };
    assert!(books.transactions.iter().all(of_the_bank));

    // Importing the same downloads again writes nothing.
    let again = import_files(&mut books, &downloads()).expect("imports");
    assert_eq!((again.inserted, again.counts.new, again.counts.openings), (0, 0, 0));
    assert!(again.check.ok());
    assert_eq!(books.transactions.len(), 12);
    assert_eq!(books.batches.len(), 5);
}

/// Files imported one at a time land exactly as all at once; a transfer whose
/// receiving side arrives first goes through the clearing account.
#[test]
fn importing_file_by_file_matches_importing_together() {
    let all = downloads();
    let mut books = Books::default();
    for i in [3, 0, 1, 2, 4] {
        import_files(&mut books, &all[i..=i]).expect("imports");
    }
    assert_eq!(books.balance("Assets:Cathay:Savings", Currency::TWD), dec("37"));
    assert_eq!(books.balance("Assets:Cathay:Investment", Currency::TWD), dec("300"));
    assert_eq!(books.balance("Assets:Cathay:FX", Currency::USD), dec("2.00"));
    // Investment's receipt came before savings' send, so both halves passed
    // through clearing and cancel there.
    assert_eq!(books.balance("Assets:Cathay:Clearing", Currency::TWD), dec("0"));

    let again = import_files(&mut books, &all).expect("imports");
    assert_eq!(again.inserted, 0);
}

/// A download that starts mid-day numbers its repeats from the wrong line;
/// the balance chain refuses it and nothing is written.
#[test]
fn a_download_starting_mid_day_fails_loudly() {
    let mut books = Books::default();
    // Held so far: the day up to the money coming back.
    let head = file("head.csv", twd("111111111111", &SAVINGS_2023[..4]));
    import_files(&mut books, &[head]).expect("imports");
    let before = books.transactions.len();

    // The next download starts at the second withdrawal: its key has no `:2`,
    // so it looks like the first one, already held.
    let tail = file("tail.csv", twd("111111111111", &SAVINGS_2023[4..]));
    let err = import_files(&mut books, &[tail]).expect_err("must not chain");
    assert!(err.contains("starts mid-day"), "{err}");
    assert_eq!(books.transactions.len(), before);
}

/// A download made during 2/05, which stops on a balance the full day
/// doesn't end on. Its half day must not be asserted as the day's close, or
/// the download that completes the day is refused.
fn partial() -> (String, String) {
    file("partial.csv", period("111111111111", Some("2023/02/05"), &SAVINGS_2023[..4]))
}

/// The download that re-covers the partial one's days in full.
fn full() -> (String, String) {
    file("full.csv", twd("111111111111", SAVINGS_2023))
}

#[test]
fn a_download_ending_mid_day_is_completed_by_the_next() {
    let mut books = Books::default();
    import_files(&mut books, &[partial()]).expect("imports");
    let report = import_files(&mut books, &[full()]).expect("imports");
    assert_eq!(report.counts.known, 4);
    assert!(report.check.ok());
    assert_eq!(books.balance("Assets:Cathay:Savings", Currency::TWD), dec("36"));

    // The stale partial download, imported again, is a no-op.
    let again = import_files(&mut books, &[partial()]).expect("imports");
    assert_eq!(again.inserted, 0);
}

/// `raw/` keeps both downloads, so importing it whole gives them together.
#[test]
fn a_partial_download_and_its_replacement_import_together() {
    let mut together = Books::default();
    import_files(&mut together, &[partial(), full()]).expect("imports");
    let mut alone = Books::default();
    import_files(&mut alone, &[full()]).expect("imports");
    assert_eq!(together.balances(), alone.balances());
    assert_eq!(together.transactions.len(), alone.transactions.len());
}

/// Downloaded at noon on 2/06 with nothing posted yet that day, then again
/// that evening after something did. The noon download must not have closed
/// 2/06.
#[test]
fn a_download_made_before_anything_posted_that_day_is_completed_later() {
    let mut books = Books::default();
    let noon =
        file("noon.csv", period("111111111111", Some("2023/02/06"), &SAVINGS_2023[..5]));
    import_files(&mut books, &[noon]).expect("imports");

    let afternoon = ("2023/02/06", "消費", "20", "", "80", "", "");
    let evening = [&SAVINGS_2023[..5], &[afternoon][..]].concat();
    let evening = file("evening.csv", period("111111111111", Some("2023/02/06"), &evening));
    let report = import_files(&mut books, &[evening]).expect("imports");
    assert_eq!(report.inserted, 1);
    assert!(report.check.ok());
}

/// A 外幣 export states no range, and its last balance is taken as current.
/// Downloaded between a morning conversion and an afternoon one, it recorded
/// a half day: the later download contradicts it, and the import stops rather
/// than record a second closing for that day.
#[test]
fn a_second_foreign_download_the_same_day_is_refused_loudly() {
    let mut books = Books::default();
    import_files(&mut books, &[file("morning.csv", FX_2023_USD.to_string())]).expect("imports");
    let before = books.transactions.len();

    let afternoon = FX_2023_USD.replace(
        "\"交易資訊\"\n",
        "\"交易資訊\"\n\"2023/02/10\",\"2023/02/10\",\"USD 0.50\",\"−\",\"USD \
         1.50\",\"−\",\"網銀轉\"\n",
    );
    let err = import_files(&mut books, &[file("later.csv", afternoon)])
        .expect_err("contradicts the recorded closing");
    assert!(err.contains("stale"), "{err}");
    assert_eq!(books.transactions.len(), before);
}

#[test]
fn a_missing_download_fails_loudly() {
    let all = downloads();
    let mut books = Books::default();
    import_files(&mut books, &all[..1]).expect("imports");
    let err = import_files(&mut books, &all[2..3]).expect_err("2023 is missing");
    assert!(err.contains("one is missing"), "{err}");
}

/// A matched 天天記帳 record names the line's other side; the mapping's
/// description rules come next, then 未分類.
#[test]
fn labels_come_from_the_matched_record_then_the_rules() {
    let mut books = Books::default();
    let lunch = Candidate {
        date: day("2023-02-01"),
        amount: dec("-100"),
        currency: Currency::TWD,
        account: "Expenses:Food".into(),
    };
    let merged = cathay_merged(&downloads());
    let report = books
        .import(&cathay_chart(), Bank::Cathay, &merged, &vec![lunch])
        .expect("imports");
    assert_eq!(report.counts.matched, 1);
    assert_eq!(books.balance("Expenses:Food", Currency::TWD), dec("100"));
    assert_eq!(books.balance("Income:Interest", Currency::TWD), dec("-1"));
    assert_eq!(books.balance("Expenses:Uncategorized", Currency::TWD), dec("1000"));
}

/// Two downloads whose header period ends on the same day but which disagree
/// about the closing balance: one of them is stale, and the import says so
/// rather than recording a second figure for that day.
#[test]
fn a_closing_figure_that_contradicts_a_recorded_one_is_refused() {
    let mut books = Books::default();
    let short =
        file("short.csv", period("111111111111", Some("2023/12/31"), &SAVINGS_2023[..3]));
    import_files(&mut books, &[short]).expect("imports");

    let full = file("full.csv", period("111111111111", Some("2023/12/31"), SAVINGS_2023));
    let err = import_files(&mut books, &[full]).expect_err("stale assertion");
    assert!(err.contains("is stale"), "{err}");
}

/// A page's rows end on a line of control characters, as the PDF's
/// decorative layer renders; the slash-dated rows are that layer's samples.
const SEPARATOR: &str = "\u{1}\u{2} \u{3}\u{4}";

fn line_statement(period: &str, closing: &str, rows: &str) -> String {
    with_usd(period, closing, rows, "0.00")
}

fn with_usd(period: &str, closing: &str, rows: &str, usd: &str) -> String {
    format!(
        "LINE Bank 連線商業銀行 對帳單\n對帳單期間:{period}\n1 / \
         2台幣存款總餘額\n{closing}\n台幣存款交易明細\n主帳戶 *******44444 {closing}\n日期 \
         交易說明 交易金額 餘額 備註\n{rows}{SEPARATOR}\n2019/10/09 ATM -40,000 $199,960,000 \
         0130017T\n $837,992\n範例頁尾 02-0000-0000\n2 / \
         2外幣存款總餘額\n$0\n外幣存款交易明細\n美元 *******00099 {usd} \
         USD\n本月無交易紀錄\n簽帳金融卡交易明細\n本月無交易紀錄\n"
    )
}

/// January: the transfer from 國泰, a friend's transfer called back and sent
/// again, and a purchase. Opens on 100 the records carried in.
fn january() -> String {
    line_statement(
        "20260101-20260131",
        "$250",
        "2026.01.05 轉帳 $500 $600\n範例銀行 ***********\n11111\n2026.01.10 LINE好友轉帳 -$300 \
         $300 阿明\n2026.01.10 取消轉帳 $300 $600 取消.阿明\n2026.01.10 LINE好友轉帳 -$300 $300 \
         阿明\n2026.01.12 消費 -$50 $250 範例店\n",
    )
}

/// February: interest on a row that prints no balance.
fn february() -> String {
    line_statement("20260201-20260228", "$255", "2026.02.03 存款利息 $5 利息\n")
}

fn line_chart() -> Chart {
    Chart {
        institution: Institution {
            accounts: pairs(&[
                ("111111111111", "Assets:Cathay:Savings"),
                ("444444444444", "Assets:LineBank"),
            ]),
            ..cathay_chart().institution
        },
        fallback: Fallback { descriptions: Vec::new(), ..cathay_chart().fallback },
        accounts: pairs(&[
            ("國泰", "Assets:Cathay"),
            ("LINE", "Assets:LineBank"),
            ("現金", "Assets:Cash"),
            ("券商", "Assets:Broker"),
            ("起鼓", "Equity:Opening-Balances"),
        ]),
        counted: Vec::new(),
    }
}

fn import_line(books: &mut Books, documents: &[(&str, String)]) -> Result<bank::Report, String> {
    let sources: Vec<line_bank::Source> = documents
        .iter()
        .map(|(path, text)| line_bank::Source {
            text: text.clone(),
            folder: Some("活存-444444444444".to_string()),
            path: path.to_string(),
        })
        .collect();
    let merged = line_bank::load_merged(&sources).expect("merges");
    books.import(&line_chart(), Bank::LineBank, &merged, &Vec::new())
}

fn two_months() -> Vec<(&'static str, String)> {
    vec![("2026-02.pdf", february()), ("2026-01.pdf", january())]
}

/// Into an empty ledger every statement closes, and the idle USD account is
/// asserted at zero with no postings.
#[test]
fn line_bank_import_an_empty_ledger_closes_on_every_statement() {
    let mut books = Books::default();
    let report = import_line(&mut books, &two_months()).expect("imports");
    assert!(report.check.ok());
    assert_eq!(report.counts.openings, 1);
    assert_eq!(report.check.figures(), 8);

    assert_eq!(books.balance("Assets:LineBank", Currency::TWD), dec("255"));
    assert!(books.postings("Assets:LineBank", Currency::USD).is_empty());
    // Named 國泰, whose statement is not in this import: in transit.
    assert_eq!(books.balance("Assets:Cathay:Clearing", Currency::TWD), dec("-500"));
    let opening = books
        .transactions
        .iter()
        .find(|h| {
            h.transaction.external_ref.as_deref()
                == Some("line-bank:opening:Assets:LineBank:TWD")
        })
        .expect("an opening");
    assert_eq!(opening.transaction.date, day("2025-12-31"));

    let again = import_line(&mut books, &two_months()).expect("imports");
    assert_eq!(again.inserted, 0);
}

/// An idle account holding money opens on it, and every month's check holds.
#[test]
fn an_idle_account_with_a_balance_opens_on_it() {
    let text = with_usd("20260101-20260131", "$50", "2026.01.12 轉帳 $50 $50 範例店\n", "100.00");
    let mut books = Books::default();
    let report = import_line(&mut books, &[("2026-01.pdf", text.clone())]).expect("imports");
    assert!(report.check.ok());
    assert_eq!(books.balance("Assets:LineBank", Currency::USD), dec("100.00"));
    let again = import_line(&mut books, &[("2026-01.pdf", text)]).expect("imports");
    assert_eq!(again.inserted, 0);
}

fn posting(account: &str, amount: &str, tags: Option<&str>) -> Posting {
    Posting {
        account: account.into(),
        amount: dec(amount),
        currency: Currency::TWD,
        tags: tags.map(String::from),
    }
}

fn booked(date: &str, external_ref: Option<&str>, postings: Vec<Posting>) -> Transaction {
    Transaction {
        date: day(date),
        payee: None,
        narration: None,
        source: Source::Tiantian,
        external_ref: external_ref.map(String::from),
        import_batch_id: None,
        postings,
    }
}

/// The statement that arrives after an unverified record verifies it in
/// place: it takes the bank's date, and no second copy is left over. A
/// re-import then holds the line by its ref.
#[test]
fn the_next_statement_verifies_a_waiting_record() {
    let mut books = Books::default();
    import_line(&mut books, &two_months()).expect("imports");
    let tag = Some(UNVERIFIED_TAG);
    books.insert(booked(
        "2026-03-05",
        Some("tiantian:U6"),
        vec![posting("Expenses:Food", "20", tag), posting("Assets:LineBank", "-20", tag)],
    ));

    // The record says 03-05; the bank booked it 03-06. 03-10 has no record.
    let march = line_statement(
        "20260301-20260331",
        "$250",
        "2026.03.06 消費 -$20 $235 範例店\n2026.03.10 轉帳 $15 $250 範例銀行\n",
    );
    let report = import_line(&mut books, &[("2026-03.pdf", march.clone())]).expect("imports");
    assert!(report.check.ok());
    assert_eq!((report.inserted, report.counts.verified, report.counts.new), (1, 1, 1));
    assert_eq!(books.balance("Assets:LineBank", Currency::TWD), dec("250"));
    assert_eq!(books.balance("Expenses:Food", Currency::TWD), dec("20"));
    let food = books.legs_on("2026-03-06");
    assert_eq!(food.len(), 2);
    let tagged = |p: &Posting| p.tags.as_deref().is_some_and(|t| t.contains(UNVERIFIED_TAG));
    assert!(!books.transactions.iter().any(|h| h.transaction.postings.iter().any(tagged)));

    let again = import_line(&mut books, &[("2026-03.pdf", march)]).expect("imports");
    assert_eq!(again.inserted, 0);
}

fn daily_chart() -> Chart {
    Chart {
        institution: Institution {
            accounts: pairs(&[
                ("111111111111", "Assets:Cathay:Savings"),
                ("222222222222", "Assets:Cathay:FX"),
            ]),
            ..cathay_chart().institution
        },
        fallback: Fallback { descriptions: Vec::new(), ..cathay_chart().fallback },
        accounts: pairs(&[
            ("國泰", "Assets:Cathay"),
            ("現金", "Assets:Cash:TWD"),
            ("外幣帳戶", "Assets:Cathay:FX"),
            ("券商", "Assets:Broker"),
            ("起鼓", "Equity:Opening-Balances"),
        ]),
        counted: vec!["Assets:Cash".to_string()],
    }
}

const THROUGH_JANUARY_10: &[Line] = &[
    ("2026/01/02", "存入", "", "1000", "1000", "", ""),
    ("2026/01/05", "消費", "100", "", "900", "", ""),
];
const THROUGH_JANUARY: &[Line] = &[
    ("2026/01/02", "存入", "", "1000", "1000", "", ""),
    ("2026/01/05", "消費", "100", "", "900", "", ""),
    ("2026/01/20", "消費", "200", "", "700", "", ""),
    ("2026/01/21", "自行提款", "300", "", "400", "", "無卡提款"),
    ("2026/01/22", "網銀外存", "320", "", "80", "", "222222222222"),
];

/// The 外幣 account's own statement, holding the far half of that transfer.
const FX_JANUARY: &str = "\
\"222222222222 活存外幣\"
\"幣別：USD\"
\"
\"
\"交易日期\",\"帳務日期\",\"提出\",\"存入\",\"餘額\",\"成交匯率\",\"交易資訊\"
\"2026/01/22\",\"2026/01/22\",\"−\",\"USD 10.00\",\"USD 10.00\",\"32\",\"台幣存 111111111111TWD\"
";

/// A ledger whose history is the records through 2026-01-06 and the statement
/// through January 10.
fn history() -> Books {
    let statement = period("111111111111", Some("2026/01/11"), THROUGH_JANUARY_10);
    let refs = cathay::load(statement.as_bytes(), "2026-01-11.csv").expect("loads").dedup_refs();
    let mut books = Books::default();
    let mut opening = booked(
        "2025-12-31",
        None,
        vec![posting("Assets:Cash:TWD", "500", None), posting(OPENING_EQUITY, "-500", None)],
    );
    opening.payee = Some("Opening balance".into());
    books.insert(opening);
    let savings = "Assets:Cathay:Savings";
    books.insert(booked(
        "2026-01-02",
        Some(refs[0].as_str()),
        vec![posting(savings, "1000", None), posting("Income:Salary", "-1000", None)],
    ));
    books.insert(booked(
        "2026-01-05",
        Some(refs[1].as_str()),
        vec![posting(savings, "-100", None), posting("Expenses:Food", "100", None)],
    ));
    books.insert(booked(
        "2026-01-06",
        Some("U3"),
        vec![posting("Assets:Cash:TWD", "-50", None), posting("Expenses:Food", "50", None)],
    ));
    books.assertions.push(BalanceAssertion {
        source: AssertionSource::Statement,
        account: savings.into(),
        currency: Currency::TWD,
        period_start: None,
        opening: None,
        period_end: day("2026-01-10"),
        closing: dec("900"),
    });
    books.gate(None).expect("agrees");
    books
}

fn taken() -> Frozen {
    let rows = [("2025-12-31", ""), ("2026-01-02", "U1"), ("2026-01-05", "U2"), ("2026-01-06", "U3")];
    frozen(&rows.iter().map(|(d, id)| (day(d), id.to_string())).collect())
}

fn flow(date: &str, amount: &str, account: &str, id: &str, memo: &str) -> Entry {
    Entry::Flow {
        date: day(date),
        account: account.into(),
        amount: dec(amount),
        currency: Currency::TWD,
        category: "飲食".into(),
        memo: memo.into(),
        id: id.into(),
    }
}

fn transfer(date: &str, to: &str, out: &str, inn: (&str, Currency), id: &str, memo: &str) -> Entry {
    Entry::Transfer {
        date: day(date),
        from: "國泰".into(),
        out: dec(out),
        out_currency: Currency::TWD,
        to: to.into(),
        inn: dec(inn.0),
        in_currency: inn.1,
        memo: memo.into(),
        id: id.into(),
    }
}

/// A later export: the frozen records, one entered late (U4), and three new:
/// cash (U5), and two on the bank account, a purchase and a withdrawal; and a
/// transfer between two statement accounts.
fn export() -> Vec<Entry> {
    vec![
        flow("2026-01-02", "1000", "國泰", "U1", ""),
        flow("2026-01-05", "-100", "國泰", "U2", ""),
        flow("2026-01-06", "-50", "現金", "U3", ""),
        flow("2026-01-05", "-30", "現金", "U4", ""),
        flow("2026-01-08", "-20", "現金", "U5", ""),
        flow("2026-01-20", "-200", "國泰", "U6", "咖啡"),
        transfer("2026-01-21", "現金", "300", ("300", Currency::TWD), "U7", "領現"),
        transfer("2026-01-22", "外幣帳戶", "320", ("10", Currency::USD), "U8", ""),
    ]
}

/// The transaction a record of the export books as.
fn draft(e: &Entry) -> Option<Draft> {
    let savings = "Assets:Cathay:Savings";
    let legs = match e.id().as_str() {
        "U5" => [("Assets:Cash:TWD", "-20"), ("Expenses:Food", "20")],
        "U6" => [(savings, "-200"), ("Expenses:Food", "200")],
        "U7" => [(savings, "-300"), ("Assets:Cash:TWD", "300")],
        "U9" => [(savings, "-999"), ("Expenses:Food", "999")],
        _ => return None,
    };
    Some(Draft {
        date: e.date(),
        payee: String::new(),
        narration: String::new(),
        tags: Vec::new(),
        source: Source::Tiantian,
        external_ref: None,
        postings: legs.iter().map(|(a, n)| Posting::new(a, dec(n), Currency::TWD)).collect(),
    })
}

impl Books {
    fn import_january(&mut self) -> bank::Report {
        let merged = cathay_merged(&[
            file("2026-02-01.csv", period("111111111111", Some("2026/02/01"), THROUGH_JANUARY)),
            file("2026-02-01-USD.csv", FX_JANUARY.to_string()),
        ]);
        self.import(&daily_chart(), Bank::Cathay, &merged, &Vec::new()).expect("imports")
    }

    /// Carries out an import of 天天記帳 records, all of it or nothing.
    fn import_tiantian(&mut self, entries: Vec<Entry>) -> Result<tiantian::Report, String> {
        let mut books = self.clone();
        let report = books.import_records(entries)?;
        *self = books;
        Ok(report)
    }

    fn import_records(&mut self, entries: Vec<Entry>) -> Result<tiantian::Report, String> {
        let chart = daily_chart();
        let labels = vec!["國泰".to_string(), "外幣帳戶".to_string()];
        let apart = tiantian::sort_records(&entries, &taken(), &self.refs(""));
        let fresh: Vec<Entry> = apart.fresh.iter().map(|&i| entries[i].clone()).collect();
        let drafts = fresh.iter().map(draft).collect();
        let booked = book(&chart, &labels, &fresh, drafts).map_err(|e| e.text())?;
        let empty = fresh.len() - booked.len();
        let held: Vec<Vec<HeldTransaction>> = places_of(&booked)
            .iter()
            .map(|p| self.transactions_on(&p.account, p.currency))
            .collect();
        let done = tiantian::import(&chart, booked, &held, &self.assertions.clone())
            .map_err(|e| e.text())?;
        for action in done.actions {
            match action {
                tiantian::Action::Insert { transfer, mut transaction } => {
                    let name = if transfer { "轉帳.csv" } else { "收支.csv" };
                    transaction.import_batch_id = Some(self.batch(name));
                    self.insert(transaction);
                }
                tiantian::Action::Relabel {
                    transaction_id,
                    fallback_posting,
                    external_ref,
                    memo,
                    origin,
                    legs,
                } => {
                    let first = self.legs;
                    self.legs += legs.len() as i64;
                    let h = &mut self.transactions[transaction_id as usize];
                    let at = h.legs.iter().position(|l| *l == fallback_posting).expect("a leg");
                    h.legs.remove(at);
                    h.transaction.postings.remove(at);
                    let new = (0..legs.len() as i64).map(|i| first + i);
                    h.origins.extend(new.clone().map(|id| (id, origin.clone())));
                    h.legs.extend(new);
                    h.transaction.postings.extend(legs);
                    h.aliases.push(external_ref);
                    if let Some(whole) = append_narration(&h.transaction.narration, &memo) {
                        h.transaction.narration = Some(whole);
                    }
                }
            }
        }
        let check = self.gate(Some(&chart))?;
        Ok(tiantian::Report {
            counts: tiantian::Counts {
                records: entries.len(),
                frozen: apart.frozen,
                late: apart.late.len(),
                known: apart.known,
                empty,
                standalone: done.standalone,
                unverified: done.unverified,
                paired: done.paired,
                left_to_statements: done.left_to_statements,
            },
            late: apart.late,
            frozen_through: taken().through,
            span: done.span,
            unmapped: Vec::new(),
            check,
        })
    }

    /// Where the leg on `account` of the day's transactions came from.
    fn origin(&self, date: &str, account: &str) -> Option<String> {
        let on = |h: &&Held| h.transaction.date == day(date);
        for h in self.transactions.iter().filter(on) {
            for (p, id) in h.transaction.postings.iter().zip(&h.legs) {
                if p.account == account {
                    return h.origins.iter().find(|(leg, _)| leg == id).map(|(_, o)| o.clone());
                }
            }
        }
        panic!("no leg on {account}");
    }

    fn narration(&self, date: &str) -> Option<String> {
        let on: Vec<&Held> = self
            .transactions
            .iter()
            .filter(|h| h.transaction.date == day(date))
            .filter(|h| h.transaction.payee.as_deref() != Some("Opening balance"))
            .collect();
        assert_eq!(on.len(), 1);
        on[0].transaction.narration.clone()
    }
}

/// Only what the frozen history lacks goes in, and only once: a second import
/// of an overlapping export inserts nothing.
#[test]
fn an_overlapping_export_inserts_only_the_new_records_once() {
    let mut books = history();
    let before = books.transactions.len();

    let report = books.import_tiantian(export()).expect("imports");
    assert_eq!(report.counts.frozen, 3);
    // The late record is named, so the user knows what to add to corrected/.
    assert_eq!(report.late, [("U4".to_string(), day("2026-01-05"))]);
    assert_eq!(report.counts.left_to_statements, 1);
    assert_eq!((report.counts.standalone, report.counts.unverified), (1, 2));
    assert!(report.check.ok());
    assert_eq!(books.transactions.len(), before + 3);
    assert_eq!(report.span, Some((day("2026-01-08"), day("2026-01-21"))));
    assert_eq!(books.refs("tiantian:").len(), 3);

    let again = books.import_tiantian(export()).expect("imports");
    assert_eq!(again.counts.known, 3);
    assert_eq!(again.counts.standalone + again.counts.unverified + again.counts.paired, 0);
    assert_eq!(books.transactions.len(), before + 3);
    assert_eq!(books.balance("Assets:Cash:TWD", Currency::TWD), dec("730"));
}

/// Recorded before its bank line: the record waits on the account, and the
/// statement then verifies it in place instead of adding the line.
#[test]
fn a_bank_record_waits_for_its_line() {
    let mut books = history();
    books.import_tiantian(export()).expect("imports");
    let before = books.transactions.len();

    // The two records waiting on 國泰 are verified; what the import inserts is
    // the 外幣 account's opening and the conversion no record claims.
    let bank = books.import_january();
    assert_eq!((bank.inserted, bank.counts.verified), (2, 2));
    assert!(bank.check.ok());
    assert_eq!(books.transactions.len(), before + 2);
    assert_eq!(
        books.legs_on("2026-01-20"),
        pairs(&[("Assets:Cathay:Savings", "-200"), ("Expenses:Food", "200")])
    );

    let again = books.import_tiantian(export()).expect("imports");
    assert_eq!(again.counts.known, 3);
    assert_eq!(again.counts.left_to_statements, 1);
    assert_eq!(books.transactions.len(), before + 2);
}

/// Recorded after its bank line was imported: the record relabels the line's
/// fallback leg, and adds nothing to the bank account.
#[test]
fn a_bank_record_relabels_the_line_already_imported() {
    let mut books = history();
    let bank = books.import_january();
    assert_eq!(bank.counts.uncategorised, 2);
    let before = books.transactions.len();
    // The transfer between the two statement accounts is theirs: both halves
    // are booked once, from the statements.
    assert_eq!(
        books.legs_on("2026-01-22"),
        pairs(&[
            ("Assets:Cathay:FX", "10.00"),
            ("Assets:Cathay:Savings", "-320"),
            ("Equity:Conversions", "320"),
            ("Equity:Conversions", "-10.00"),
        ])
    );

    let report = books.import_tiantian(export()).expect("imports");
    assert_eq!((report.counts.paired, report.counts.standalone), (2, 1));
    assert_eq!(report.counts.left_to_statements, 1);
    assert!(report.check.ok());
    assert_eq!(books.transactions.len(), before + 1);
    assert_eq!(
        books.legs_on("2026-01-20"),
        pairs(&[("Assets:Cathay:Savings", "-200"), ("Expenses:Food", "200")])
    );
    // The review queue says the category came from the matched record.
    assert_eq!(books.origin("2026-01-20", "Expenses:Food").as_deref(), Some("tiantian"));
    assert_eq!(books.origin("2026-01-20", "Assets:Cathay:Savings"), None);
    assert_eq!(
        books.legs_on("2026-01-21"),
        pairs(&[("Assets:Cash:TWD", "300"), ("Assets:Cathay:Savings", "-300")])
    );
    // Nothing of the cross-account transfer was booked by the record.
    assert_eq!(books.legs_on("2026-01-22").len(), 4);
    // Each record's own 備註 reaches the line it relabelled, beside what the
    // bank called it.
    assert_eq!(books.narration("2026-01-20").as_deref(), Some("咖啡"));
    assert_eq!(books.narration("2026-01-21").as_deref(), Some("無卡提款 · 領現"));

    let again = books.import_tiantian(export()).expect("imports");
    assert_eq!(again.counts.known, 3);
    assert_eq!(books.transactions.len(), before + 1);
    assert_eq!(books.balance("Assets:Cash:TWD", Currency::TWD), dec("730"));
    // Nothing was said twice by the second run.
    assert_eq!(books.narration("2026-01-20").as_deref(), Some("咖啡"));
    assert_eq!(books.narration("2026-01-21").as_deref(), Some("無卡提款 · 領現"));
}

/// A bank record on a day the statements cover, with no line for it, would
/// double-count or invent money: the import stops and writes nothing.
#[test]
fn a_bank_record_the_statement_contradicts_stops_the_import() {
    let mut books = history();
    books.import_january();
    let before = books.transactions.len();
    let mut entries = export();
    entries.push(flow("2026-01-12", "-999", "國泰", "U9", ""));
    let err = books.import_tiantian(entries).expect_err("no line explains U9");
    assert!(err.contains("U9"), "{err}");
    assert_eq!(books.transactions.len(), before);
}

/// Until the first count, cash is listed as never counted but passes; a
/// count the postings disagree with is refused, one they agree with holds.
#[test]
fn a_count_is_held_to_the_postings() {
    let mut books = history();
    let chart = daily_chart();
    let report = with_counts(&books.data(), &books.assertions, &vec![], &vec![], &chart)
        .expect("in range");
    assert!(report.ok());
    assert_eq!(report.uncounted, [("Assets:Cash:TWD".to_string(), Currency::TWD)]);

    let cash = "Assets:Cash:TWD";
    let held = vec![Currency::TWD];
    let on = day("2026-01-06");
    let wrong = counted::record(&chart, cash, on, dec("460"), None, &held).expect("a count");
    let mut tried = books.clone();
    tried.record(&wrong).expect("recorded");
    let err = tried.gate(Some(&chart)).expect_err("the ledger holds 450");
    assert!(err.contains("MISMATCH"), "{err}");

    let right = counted::record(&chart, cash, on, dec("450"), None, &held).expect("a count");
    books.record(&right).expect("recorded");
    let report = books.gate(Some(&chart)).expect("agrees");
    assert!(report.uncounted.is_empty());

    // Imports are held to it from now on.
    let imported = books.import_tiantian(export()).expect("imports");
    assert!(imported.check.ok());
    assert!(imported.check.uncounted.is_empty());

    let bank = counted::record(&chart, "Assets:Cathay:Savings", on, dec("900"), None, &held);
    assert!(bank.is_err(), "a bank account is checked by its statements");
}
