use ledger::amount::Amount;
use ledger::assertion::{AssertionSource, BalanceAssertion};
use ledger::currency::Currency;
use ledger::date::Date;
use ledger::db::account_status;
use ledger::db::assertions;
use ledger::db::broker;
use ledger::db::events::{edit_kind, event_of, snapshot, EventKind, HeaderRow, LegRow, Snapshot};
use ledger::db::hledger;
use ledger::db::holdings;
use ledger::db::import_batch::{self, verify, HeldRow, Record, TaggedLeg};
use ledger::db::journal::{account_of, escape_like, push_conditions, Filter, Piece};
use ledger::db::load::{guard_empty, plan, schema_type};
use ledger::db::pairing::{choose_record, stored_candidates, Ambiguity, ChoiceRow};
use ledger::db::query::AccountType;
use ledger::db::review::{self, Edit, LegEdit, Manual};
use ledger::journal::Posting;
use ledger::model::{Source, Verification};

fn dec(s: &str) -> Amount {
    Amount::parse(s).expect("an amount")
}

fn day(s: &str) -> Date {
    Date::from_iso(s).expect("a date")
}

fn assertion() -> BalanceAssertion {
    BalanceAssertion {
        source: AssertionSource::Statement,
        account: "Assets:Bank".into(),
        currency: Currency::TWD,
        period_start: Some(day("2026-01-01")),
        opening: Some(dec("10.50")),
        period_end: day("2026-01-31"),
        closing: dec("-3"),
    }
}

#[test]
fn an_assertion_is_stored_and_read_back() {
    let row = assertions::columns(&assertion());
    assert_eq!((row.source.as_str(), row.closing.as_str()), ("statement", "-3"));
    assert_eq!(row.read().expect("reads"), assertion());
    let bad = assertions::Row { closing: "three".into(), ..assertions::columns(&assertion()) };
    assert!(bad.read().is_err());
}

#[test]
fn an_assertion_that_contradicts_the_recorded_one_is_refused() {
    assert!(assertions::acceptable(&assertion()).is_ok());
    assert!(assertions::agrees(&assertion(), &assertion()).is_ok());
    let other = BalanceAssertion { closing: dec("-4"), ..assertion() };
    assert!(assertions::agrees(&other, &assertion()).is_err());
    // Recorded once; the same figures again are no news, others are refused.
    let none = vec![];
    assert!(assertions::insert(&none, &assertion()).expect("new"));
    let held = vec![assertion()];
    assert!(!assertions::insert(&held, &assertion()).expect("the same"));
    assert!(!assertions::insert(
        &held,
        &BalanceAssertion { closing: dec("-3.00"), ..assertion() }
    )
    .expect("the same value"));
    assert!(assertions::insert(&held, &other).is_err());
    let narrower = BalanceAssertion { period_start: None, opening: None, ..assertion() };
    assert!(assertions::insert(&held, &narrower).is_err());
    let half = BalanceAssertion { opening: None, ..assertion() };
    assert!(assertions::insert(&none, &half).is_err());
    let later = BalanceAssertion { period_end: day("2026-02-28"), ..assertion() };
    assert!(assertions::insert(&held, &later).expect("another day"));
}

fn sale() -> broker::Row {
    broker::Row {
        account: "Assets:Broker".into(),
        external_ref: "test:2026-03-04:sale".into(),
        kind: "sell".into(),
        trade_date: Some("2026-03-02".into()),
        settle_date: "2026-03-04".into(),
        executed_at: Some("2026-03-02T13:30:05Z".into()),
        symbol: Some("ZZA".into()),
        quantity: "-7".into(),
        price: "11.5".into(),
        amount: "80.5".into(),
        commission: "-0.25".into(),
        currency: "USD".into(),
        description: "an invented sale".into(),
    }
}

#[test]
fn a_record_round_trips_field_for_field() {
    let row = sale();
    let r = row.read().expect("reads");
    assert!(broker::is_trade(&r.kind) && broker::is_trade("buy") && !broker::is_trade("dividend"));
    assert_eq!(r.executed_at.as_deref(), Some("2026-03-02T13:30:05Z"));
    // A moment needs its time and its offset.
    for text in ["2026-03-02", "2026-03-02T13:30:05", "soon"] {
        let bad = broker::Row { executed_at: Some(text.into()), ..sale() };
        assert_eq!(
            bad.read().expect_err("no moment").text(),
            "invalid broker_record test:2026-03-04:sale"
        );
    }
    assert_eq!((r.trade_date, r.settle_date), (Some(day("2026-03-02")), day("2026-03-04")));
    assert_eq!((r.quantity, r.price, r.amount), (dec("-7"), dec("11.5"), dec("80.5")));
    assert_eq!(r.key, "test:2026-03-04:sale");
    assert_eq!(r.changes(&holdings::Commodity::Security("ZZA".into())), [dec("-7")]);
    assert_eq!(r.changes(&holdings::Commodity::Cash(Currency::USD)), [dec("80.5"), dec("-0.25")]);
    let bad = broker::Row { quantity: "eleven".into(), ..row };
    assert!(bad.read().expect_err("no number").text().contains("test:2026-03-04:sale"));
}

#[test]
fn a_commodity_is_read_back_from_its_kind_and_text() {
    for c in [holdings::Commodity::Cash(Currency::USD), holdings::Commodity::Security("ZZA".into())] {
        assert_eq!(holdings::Commodity::parse(c.kind(), &c.text()), Some(c));
    }
    assert_eq!(holdings::Commodity::parse("option", "ZZA"), None);
}

fn leg(path: &str, amount: &str) -> LegRow {
    LegRow {
        path: path.into(),
        amount: amount.into(),
        currency: "TWD".into(),
        tags: None,
        origin: None,
    }
}

fn snap(reviewed: bool, legs: &Vec<LegRow>) -> Snapshot {
    let header = HeaderRow {
        date: "2026-01-02".into(),
        payee: Some("Store".into()),
        narration: None,
        reviewed,
    };
    snapshot(7, Some(header), legs).expect("reads")
}

#[test]
fn an_event_says_what_changed() {
    let two = vec![leg("Assets:Cash", "-120"), leg("Expenses:Food", "120")];
    let three = vec![leg("Assets:Cash", "-120"), leg("Expenses:Food", "100"), leg("Expenses:Tax", "20")];
    let moved = vec![leg("Assets:Cash", "-120"), leg("Expenses:Fun", "120")];
    let before = snap(false, &two);
    assert!(before.same(&snap(false, &two)));
    assert_eq!(edit_kind(&before, &before), None);
    assert_eq!(edit_kind(&before, &snap(false, &three)), Some(EventKind::Split));
    assert_eq!(edit_kind(&before, &snap(false, &moved)), Some(EventKind::Edited));
    assert_eq!(edit_kind(&before, &snap(true, &two)), Some(EventKind::Edited));
    assert!(snapshot(7, None, &two).is_err());
    for k in [
        EventKind::Entered,
        EventKind::Edited,
        EventKind::Split,
        EventKind::Confirmed,
        EventKind::Paired,
        EventKind::Deleted,
    ] {
        assert_eq!(EventKind::parse(&k.text()), Some(k));
        let e = event_of("now".into(), &k.text(), "{}".into()).expect("an event");
        assert_eq!(e.kind, k);
    }
    assert!(event_of("now".into(), "guessed", "{}".into()).is_err());
}

#[test]
fn a_search_text_is_matched_for_itself() {
    assert_eq!(escape_like("50%_off\\"), "50\\%\\_off\\\\");
    assert_eq!(escape_like("plain"), "plain");
}

#[test]
fn a_filter_becomes_conditions() {
    let mut none: Vec<Piece> = Vec::new();
    push_conditions(&mut none, &Filter::all());
    let mut some: Vec<Piece> = Vec::new();
    let filter = Filter {
        from: Some(day("2026-01-01")),
        text: Some("50%".into()),
        ..Filter::all()
    };
    push_conditions(&mut some, &filter);
    assert!(some.len() > none.len());
    assert!(some.contains(&Piece::Text("2026-01-01".into())), "{some:?}");
    assert!(
        some.iter().any(|p| matches!(p, Piece::Text(t) if t.contains("50\\%"))),
        "{some:?}"
    );
}

#[test]
fn an_account_of_the_journal_has_a_type() {
    let a = account_of("Assets:Cash".into(), "現金".into(), "asset", false).expect("a type");
    assert_eq!(a.account_type, AccountType::Asset);
    assert!(account_of("Assets:Cash".into(), "現金".into(), "thing", false).is_err());
}

#[test]
fn refs_are_split_and_legs_grouped() {
    let sep = import_batch::SEPARATOR;
    assert_eq!(import_batch::split(&Some(format!("a{sep}b"))), ["a", "b"]);
    assert!(import_batch::split(&None).is_empty());
    let row = |t: i64, p: i64, account: &str, amount: &str| HeldRow {
        transaction_id: t,
        date: "2026-01-20".into(),
        external_ref: Some("cathay-bank:1".into()),
        posting_id: p,
        account: account.into(),
        amount: amount.into(),
        currency: "TWD".into(),
    };
    let held = import_batch::transactions_of(&vec![
        row(1, 10, "Assets:Bank", "-200"),
        row(1, 11, "Expenses:Uncategorized", "200"),
        row(2, 12, "Assets:Bank", "-5"),
    ])
    .expect("reads");
    assert_eq!(held.len(), 2);
    assert_eq!(held[0].postings.len(), 2);
    assert_eq!(held[0].postings[1].id, 11);
    assert!(import_batch::transactions_of(&vec![row(1, 10, "Assets:Bank", "ten")]).is_err());
}

#[test]
fn a_held_posting_names_its_refs_and_partners() {
    let sep = import_batch::SEPARATOR;
    let row = import_batch::Row {
        date: "2026-01-20".into(),
        amount: "-200".into(),
        external_ref: Some("tiantian:U6".into()),
        aliases: Some(format!("cathay-bank:1{sep}cathay-bank:2")),
        others: Some("Expenses:Food".into()),
        opening: false,
        transaction_id: 7,
        unverified: true,
    };
    let p = row.read().expect("reads");
    assert_eq!(p.refs, ["tiantian:U6", "cathay-bank:1", "cathay-bank:2"]);
    assert_eq!(p.other_accounts, ["Expenses:Food"]);
    assert!(p.unverified && !p.opening);
}

fn row(path: &str, id: i64, acct_type: &str, closed: bool) -> review::AccountRow {
    review::AccountRow { path: path.into(), id, acct_type: acct_type.into(), closed }
}

fn chart() -> Vec<review::AccountRow> {
    vec![
        row("Assets", 9, "asset", false),
        row("Assets:Cash", 1, "asset", false),
        row("Expenses:Food", 2, "expense", false),
        row("Income:Salary", 3, "income", false),
        row("Assets:Old", 4, "asset", true),
    ]
}

fn edited(id: Option<i64>, account: &str, amount: &str) -> LegEdit {
    LegEdit {
        posting_id: id,
        account: account.into(),
        amount: dec(amount),
        currency: Currency::TWD,
    }
}

fn stored(id: i64, path: &str, amount: &str) -> review::PostingRow {
    review::PostingRow {
        id,
        path: path.into(),
        amount: amount.into(),
        currency: "TWD".into(),
    }
}

#[test]
fn an_edit_rewrites_adds_and_removes_legs() {
    let rows = vec![stored(10, "Assets:Cash", "-120"), stored(11, "Expenses:Food", "120")];
    let to = Edit {
        narration: Some("  lunch ".into()),
        legs: vec![edited(Some(10), "Assets:Cash", "-120"), edited(None, "Expenses:Food", "120")],
        confirm: true,
    };
    let done = review::edit(&chart(), &rows, &to).expect("balances");
    assert_eq!(done.deletes, [11]);
    assert!(done.writes.iter().any(|w| w.posting_id.is_none() && w.account_id == 2));

    let refused = |legs: Vec<LegEdit>| {
        let to = Edit { narration: None, legs, confirm: false };
        review::edit(&chart(), &rows, &to).expect_err("refused").text()
    };
    let off = refused(vec![edited(Some(10), "Assets:Cash", "-120"), edited(Some(11), "Expenses:Food", "100")]);
    assert_eq!(off, "借貸不平衡，差 -20 TWD");
    assert_eq!(refused(vec![]), "交易沒有任何一筆");
    assert_eq!(refused(vec![edited(Some(10), "Assets:Cash", "0")]), "金額不可為 0");
    let unknown = refused(vec![
        edited(Some(10), "Assets:Cash", "-120"),
        edited(None, "Expenses:Fun", "120"),
    ]);
    assert_eq!(unknown, "查無帳戶：Expenses:Fun");
    let closed = refused(vec![
        edited(Some(10), "Assets:Cash", "-120"),
        edited(None, "Assets:Old", "120"),
    ]);
    assert_eq!(closed, "帳戶已結清：Assets:Old");
}

#[test]
fn an_entry_moves_money_from_its_account() {
    let manual = |category: Option<&str>| Manual {
        date: day("2026-01-02"),
        amount: dec("120"),
        currency: Currency::TWD,
        account: "Assets:Cash".into(),
        category: category.map(|c| c.to_string()),
        counter: None,
        note: None,
    };
    let spent = review::enter(&chart(), &manual(Some("Expenses:Food"))).expect("an entry");
    assert_eq!(spent.legs, [(1, dec("-120")), (2, dec("120"))]);
    let earned = review::enter(&chart(), &manual(Some("Income:Salary"))).expect("an entry");
    assert_eq!(earned.legs, [(1, dec("120")), (3, dec("-120"))]);
    assert!(review::enter(&chart(), &manual(None)).is_err());
}

#[test]
fn only_an_empty_account_is_closed() {
    let held = |amount: &str| {
        vec![account_status::PostingRow {
            path: "Assets:Cash".into(),
            amount: amount.into(),
            currency: "TWD".into(),
        }]
    };
    assert_eq!(account_status::close(&chart(), &held("0"), "Assets:Cash").expect("empty"), 1);
    let err = account_status::close(&chart(), &held("5"), "Assets:Cash").expect_err("5 left");
    assert!(err.text().contains("5 TWD"), "{}", err.text());
    assert!(account_status::close(&chart(), &held("0"), "Assets:None").is_err());
    let parent = account_status::close(&chart(), &held("0"), "Assets").expect_err("a root");
    assert_eq!(parent.text(), "這個帳戶不能結清：Assets");
    assert_eq!(account_status::reopen(&chart(), "Assets:Old").expect("closed"), [4]);
    let open = account_status::reopen(&chart(), "Assets:Cash").expect_err("open");
    assert_eq!(open.text(), "帳戶沒有結清：Assets:Cash");
}

fn journal_leg(group: u64, account: &str, amount: &str) -> Posting {
    Posting {
        group,
        source: Source::Import,
        date: day("2026-01-02"),
        payee: None,
        narration: "lunch".into(),
        external_ref: None,
        account: account.into(),
        amount: dec(amount),
        currency: Currency::TWD,
        tags: None,
    }
}

#[test]
fn a_journal_loads_as_balanced_transactions() {
    let loading = plan(&vec![
        journal_leg(0, "Assets:Bank:Savings", "-120"),
        journal_leg(0, "Expenses:Food", "120"),
        journal_leg(1, "Assets:Bank:Savings", "5"),
        journal_leg(1, "Income:Interest", "-5"),
    ])
    .expect("balances");
    assert_eq!(loading.transactions.len(), 2);
    assert_eq!(loading.transactions[0].legs, [0, 1]);
    let paths: Vec<&str> = loading.accounts.iter().map(|a| a.path.as_str()).collect();
    assert!(paths.contains(&"Assets") && paths.contains(&"Assets:Bank:Savings"), "{paths:?}");

    let err = plan(&vec![
        journal_leg(3, "Assets:Bank:Savings", "-120"),
        journal_leg(3, "Expenses:Food", "100"),
    ])
    .expect_err("off by 20");
    assert_eq!(err.text(), "journal transaction group 3 does not balance: -20 TWD left over");
    assert_eq!(schema_type("Expenses:Food").expect("a root"), AccountType::Expense);
    assert!(schema_type("Food").is_err());
    assert!(guard_empty(0).is_ok());
    assert!(guard_empty(1).is_err());
}

#[test]
fn an_export_holds_each_transaction_and_assertion() {
    let line = |id: i64, path: &str, amount: &str| hledger::PostingRow {
        transaction_id: id,
        date: "2026-01-02".into(),
        payee: Some("Store; \n two".into()),
        narration: None,
        path: path.into(),
        amount: amount.into(),
        currency: "TWD".into(),
        tags: Some("food".into()),
    };
    let out = hledger::export(
        &vec![line(1, "Assets:Bank", "-3"), line(1, "Expenses:Food", "3")],
        &vec![BalanceAssertion { period_start: None, opening: None, ..assertion() }],
        &vec!["Assets:Bank".to_string(), "Expenses:Food".to_string()],
    )
    .expect("exports");
    assert!(out.contains("Assets:Bank"), "{out}");
    assert!(out.contains("; tags: food"), "{out}");
    assert!(out.contains("2026-01-31"), "{out}");
    let cleaned = hledger::clean("a; b\nc");
    assert!(!cleaned.contains(';') && !cleaned.contains('\n'), "{cleaned}");
}

#[test]
fn a_choice_takes_one_of_its_candidates() {
    let row = ChoiceRow {
        id: 5,
        path: "Assets:Bank".into(),
        currency: "TWD".into(),
        statement_ref: "cathay-bank:1".into(),
        date: "2026-01-20".into(),
        amount: "-200".into(),
        description: "消費".into(),
        candidates: "[11,12]".into(),
        transaction_id: None,
    };
    let choice = row.read().expect("reads");
    assert_eq!(choice.ambiguity.candidates, [11, 12]);
    let pairing = choose_record(5, Some(choice.clone()), 12, false).expect("a candidate");
    assert_eq!(
        (pairing.statement_ref.as_str(), pairing.date, pairing.amount),
        ("cathay-bank:1", day("2026-01-20"), dec("-200"))
    );
    assert!(choose_record(5, Some(choice.clone()), 13, false).is_err());
    assert!(choose_record(5, Some(choice.clone()), 12, true).is_err());
    assert!(choose_record(5, None, 12, false).is_err());
    assert_eq!(stored_candidates(&choice.ambiguity), "[11,12]");
    let none = Ambiguity { candidates: vec![], ..choice.ambiguity };
    assert_eq!(stored_candidates(&none), "[]");
    assert!(ChoiceRow { candidates: "eleven".into(), ..row }.read().is_err());
}

const LINE: &str = "Assets:LineBank";
const OTHER: &str = "Assets:Cathay:Savings";

/// A transfer between two banks' accounts that neither has shown yet.
fn unverified_transfer() -> Record {
    let leg = |id: i64, account: &str, tags: &str| TaggedLeg {
        id,
        account: account.into(),
        tags: Some(tags.into()),
    };
    Record {
        date: day("2026-09-29"),
        refs: vec!["tiantian:1".into()],
        legs: vec![leg(1, LINE, "unverified"), leg(2, OTHER, "trip,unverified")],
    }
}

fn checked_by(statement_ref: &str, date: Option<&str>, unchecked: &[&str]) -> Verification {
    Verification {
        transaction_id: 1,
        date: date.map(day),
        statement_ref: statement_ref.into(),
        unchecked: unchecked.iter().map(|a| a.to_string()).collect(),
    }
}

fn tags(r: &Record) -> Vec<Option<&str>> {
    r.legs.iter().map(|l| l.tags.as_deref()).collect()
}

/// One bank's line vouches for its own leg only: the other account's leg, which
/// no statement has shown yet, keeps the tag.
#[test]
fn verifying_leaves_an_unchecked_leg_tagged() {
    let v = checked_by("line-bank:1", Some("2026-10-01"), &[OTHER]);
    let after = verify(unverified_transfer(), &v);
    assert_eq!(tags(&after), [None, Some("trip,unverified")]);
    // The record keeps the ref its own source dedups on, and stands for the
    // line as well.
    assert_eq!(after.date, day("2026-10-01"));
    assert_eq!(after.refs, ["tiantian:1", "line-bank:1"]);
}

/// With both banks' lines in one import, nothing is left unchecked.
#[test]
fn verifying_every_leg_clears_the_tag() {
    let mut after = unverified_transfer();
    for external_ref in ["line-bank:1", "cathay-bank:1"] {
        after = verify(after, &checked_by(external_ref, Some("2026-10-01"), &[]));
    }
    assert_eq!(tags(&after), [None, Some("trip")]);
}

/// Verifying with no date leaves the record where the bank that booked it
/// first put it, and still clears its leg's tag.
#[test]
fn verifying_without_a_date_moves_nothing() {
    let after = verify(unverified_transfer(), &checked_by("line-bank:1", None, &[OTHER]));
    assert_eq!(after.date, day("2026-09-29"));
    assert_eq!(tags(&after), [None, Some("trip,unverified")]);
}

#[test]
fn a_transaction_is_confirmed_once() {
    let legs = vec![leg("Assets:Bank", "-20"), leg("Expenses:Food", "20")];
    let change = review::confirm(snap(false, &legs)).expect("not reviewed yet");
    assert_eq!(change.before, Some(snap(false, &legs)));
    assert_eq!(change.after, snap(true, &legs));
    assert_eq!(review::confirm(change.after), None);
}

/// A note goes beside what is said, once, whatever its case.
#[test]
fn a_note_goes_beside_what_is_said() {
    let add = |held: Option<&str>, more: &str| {
        import_batch::append_narration(&held.map(String::from), more)
    };
    assert_eq!(add(Some("無卡提款"), "領現").as_deref(), Some("無卡提款 · 領現"));
    assert_eq!(add(Some("無卡提款 · 領現"), "領現"), None);
    assert_eq!(add(Some("Lunch at noon"), "lunch"), None);
    assert_eq!(add(None, "咖啡").as_deref(), Some("咖啡"));
    assert_eq!(add(Some(""), "咖啡").as_deref(), Some("咖啡"));
    assert_eq!(add(Some("咖啡"), ""), None);
    assert_eq!(add(None, ""), None);
    // A pattern's own signs stand for any text and any character.
    assert_eq!(add(Some("about 50 of it"), "50%it"), None);
    assert_eq!(add(Some("no 51"), "50%").as_deref(), Some("no 51 · 50%"));
    assert_eq!(add(Some("a-b"), "a_b"), None);
    assert_eq!(add(Some("ab"), "a_b").as_deref(), Some("ab · a_b"));
}

/// Only the unverified tag goes, and commas at the ends; an empty tag between
/// two others stays.
#[test]
fn a_checked_leg_keeps_its_other_tags() {
    let cleared = |text: &str| {
        let record = Record {
            date: day("2026-01-01"),
            refs: vec![],
            legs: vec![TaggedLeg { id: 1, account: "A".into(), tags: Some(text.into()) }],
        };
        let v = Verification {
            transaction_id: 1,
            date: None,
            statement_ref: "r".into(),
            unchecked: vec![],
        };
        verify(record, &v).legs.remove(0).tags
    };
    assert_eq!(cleared("a,,b").as_deref(), Some("a,,b"));
    assert_eq!(cleared("a,unverified,,b").as_deref(), Some("a,,b"));
    assert_eq!(cleared(",a,unverified,").as_deref(), Some("a"));
    assert_eq!(cleared("unverified,,"), None);
    assert_eq!(cleared(""), None);
}
