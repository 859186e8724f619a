use ledger::accounts::{in_subtree, levels_of, AccountType, Chart, Fallback, Institution};
use ledger::amount::Amount;
use ledger::currency::Currency;
use ledger::date::Date;
use ledger::keyed;
use ledger::names::{fallback_account, statement_account};
use ledger::sort::{order_of, sort, Key};
use ledger::summary::Summary;
use ledger::text;

fn dec(s: &str) -> Amount {
    Amount::parse(s).expect("an amount")
}

#[test]
fn amounts_are_decimals() {
    assert_eq!(dec("1.10").plus(&dec("2.2")), Some(dec("3.30")));
    assert_eq!(dec("1.10").plus(&dec("2.2")).unwrap().text(), "3.30");
    assert_eq!(dec("1").minus(&dec("2.25")).unwrap().text(), "-1.25");
    assert_eq!(dec("1.5").times(&dec("2.5")).unwrap().text(), "3.75");
    assert_eq!(dec("1").over(&dec("4")).unwrap().text(), "0.25");
    assert_eq!(dec("1").over(&dec("0")), None);
    assert_eq!(dec("1.500").normalized().text(), "1.5");
    assert_eq!(dec("0.00").normalized().text(), "0");
    // Values are compared, not how they are written.
    assert_eq!(dec("1.50"), dec("1.5"));
    assert!(dec("-2").less(&dec("1.9")));
    assert!(!dec("1.90").less(&dec("1.9")));
    assert_eq!(dec("-2").negated(), dec("2"));
    assert!(dec("0.00").is_zero());
    assert!(dec("-3").is_sign_negative());
    assert_eq!(Amount::parse("twelve"), None);
    assert_eq!(Amount::one().text(), "1");
}

/// Sums and differences keep the longer scale, a zero leaves the other as it
/// is written, and what cancels out has no sign.
#[test]
fn sums_are_written_in_the_common_scale() {
    let sum = |a: &str, b: &str| dec(a).plus(&dec(b)).unwrap().text();
    let difference = |a: &str, b: &str| dec(a).minus(&dec(b)).unwrap().text();
    assert_eq!(sum("1.50", "1.5"), "3.00");
    assert_eq!(sum("0.000", "1.5"), "1.5");
    assert_eq!(sum("1.5", "0.000"), "1.5");
    assert_eq!(sum("-1.50", "1.5"), "0.00");
    assert_eq!(sum("12345678901234567890.5", "0.25"), "12345678901234567890.75");
    assert_eq!(difference("1.5", "2.25"), "-0.75");
    assert_eq!(difference("0.000", "1.5"), "-1.5");
    assert_eq!(difference("0.000", "-1.5"), "1.5");
    assert_eq!(difference("1.5", "0.000"), "1.5");
    assert_eq!(difference("0", "0.00"), "0.00");
    assert_eq!(difference("1.5", "1.500"), "0.000");
}

#[test]
fn a_total_out_of_range_is_none() {
    let most = dec("79228162514264337593543950335");
    assert_eq!(most.plus(&dec("1")), None);
    assert_eq!(most.negated().minus(&dec("1")), None);
    assert_eq!(most.times(&dec("2")), None);
    assert_eq!(most.plus(&dec("-1")).unwrap().text(), "79228162514264337593543950334");
    assert!(Amount::parse("79228162514264337593543950336").is_none());
}

#[test]
fn amounts_have_parts() {
    assert_eq!(dec("-12.50").parts(), (true, 1250, 2));
    assert_eq!(Amount::from_parts(true, 1250, 2), Some(dec("-12.50")));
    assert_eq!(Amount::from_parts(false, 1, 29), None);
}

#[test]
fn days_are_counted_and_printed() {
    let day = Date::from_ymd_opt(2024, 2, 29).expect("a leap day");
    assert_eq!(day.text(), "2024-02-29");
    assert_eq!(day.ymd(), (2024, 2, 29));
    assert_eq!(day.succ_opt().unwrap().text(), "2024-03-01");
    assert_eq!(day.pred_opt().unwrap().text(), "2024-02-28");
    assert_eq!(Date::from_ymd_opt(2023, 2, 29), None);
    assert_eq!(Date::from_number(day.number()), Some(day));
    assert_eq!(Date::from_iso("2024-02-29"), Some(day));
    assert_eq!(Date::from_iso("2024/02/29"), None);
    assert_eq!(Date::parse("2024/02/29", "%Y/%m/%d"), Some(day));
    assert_eq!(Date::parse("2024-02-29", "%Y/%m/%d"), None);
    assert_eq!(Date::from_ymd_opt(1, 1, 1).unwrap().number(), 1);
    assert_eq!(Date::from_ymd_opt(1970, 1, 1).unwrap().number(), 719163);
}

#[test]
fn a_currency_is_read_back_from_its_code() {
    for c in [Currency::JPY, Currency::TWD, Currency::USD] {
        assert_eq!(Currency::parse(&c.text()), Some(c));
    }
    assert_eq!(Currency::parse("XXX"), None);
}

fn key(text: &str, n: i64) -> Key {
    Key { text: text.to_string(), numbers: (n, 0, 0, 0) }
}

#[test]
fn sorting_is_stable() {
    let sorted = sort(vec![(key("b", 1), 'w'), (key("a", 2), 'x'), (key("b", 1), 'y'), (key("a", 1), 'z')]);
    let order: String = sorted.into_iter().map(|(_, c)| c).collect();
    assert_eq!(order, "zxwy");
    assert_eq!(order_of(vec![key("b", 0), key("a", 0), key("b", 0)]), [1, 0, 2]);
}

#[test]
fn a_map_holds_one_value_under_a_key() {
    let mut m: Vec<(Key, u64)> = Vec::new();
    keyed::set(&mut m, key("b", 0), 1);
    keyed::set(&mut m, key("a", 0), 2);
    keyed::set(&mut m, key("b", 0), 3);
    assert_eq!(keyed::look(&m, &key("b", 0)), Some(&3));
    assert_eq!(keyed::look(&m, &key("a", 0)), Some(&2));
    assert_eq!(keyed::look(&m, &key("c", 0)), None);
    assert_eq!(m.len(), 2);
    assert_eq!(m[0].0.text, "a");
}

#[test]
fn accounts_are_under_their_roots() {
    assert!(in_subtree("Assets:Cash", "Assets:Cash"));
    assert!(in_subtree("Assets:Cash:TWD", "Assets:Cash"));
    assert!(!in_subtree("Assets:Cashier", "Assets:Cash"));
    assert_eq!(levels_of("Assets:Bank:Savings"), ["Assets", "Assets:Bank", "Assets:Bank:Savings"]);
    assert_eq!(AccountType::of_path("Expenses:Food"), Some(AccountType::Expenses));
    assert_eq!(AccountType::of_path("Food"), None);
}

fn chart() -> Chart {
    Chart {
        institution: Institution {
            app_account: "銀行".into(),
            primary: "Assets:Bank:Savings".into(),
            settlement: "Assets:Bank:Investment".into(),
            settlement_app_account: "證券".into(),
            clearing: "Assets:Bank:Clearing".into(),
            accounts: vec![("111".to_string(), "Assets:Bank:Savings".to_string())],
        },
        fallback: Fallback {
            income: "Income:Uncategorized".into(),
            expense: "Expenses:Uncategorized".into(),
            descriptions: vec![("手續費".to_string(), "Expenses:Fees".to_string())],
        },
        accounts: vec![("現金".to_string(), "Assets:Cash".to_string())],
        counted: vec!["Assets:Cash".to_string()],
    }
}

#[test]
fn a_number_stands_for_its_account() {
    let c = chart();
    assert_eq!(statement_account(&c, "111").expect("mapped"), "Assets:Bank:Savings");
    let unknown = statement_account(&c, "222").err().expect("unmapped");
    assert!(unknown.text().contains("222"), "{}", unknown.text());
    assert_eq!(c.account("現金").map(|a| a.as_str()), Some("Assets:Cash"));
    assert_eq!(c.account("郵局"), None);
    assert!(c.is_counted("Assets:Cash:TWD"));
    assert!(!c.is_counted("Assets:Bank"));
}

#[test]
fn an_unexplained_line_falls_back_by_its_wording_then_its_sign() {
    let c = chart();
    assert_eq!(fallback_account(&c, "手續費", dec("5")), "Expenses:Fees");
    assert_eq!(fallback_account(&c, "存入", dec("5")), "Income:Uncategorized");
    assert_eq!(fallback_account(&c, "提款", dec("-5")), "Expenses:Uncategorized");
}

#[test]
fn texts_are_cut_and_joined() {
    assert_eq!(text::split_words("  a  b\tc "), ["a", "b", "c"]);
    assert_eq!(text::split("a,b,,c", ','), ["a", "b", "", "c"]);
    assert_eq!(text::split_once("a:b:c", ":"), Some(("a".to_string(), "b:c".to_string())));
    assert_eq!(text::split_once_back("a:b:c", ":"), Some(("a:b".to_string(), "c".to_string())));
    assert_eq!(text::strip_prefix("abc", "ab").as_deref(), Some("c"));
    assert_eq!(text::strip_prefix("abc", "b"), None);
    assert!(text::contains("abc", "bc") && !text::contains("abc", "cb"));
    assert!(text::starts_with("abc", "ab") && text::ends_with("abc", "bc"));
    assert_eq!(text::join_all(&vec!["a".to_string(), "b".to_string()], ", "), "a, b");
    assert_eq!(text::number(1234567), "1234567");
    assert_eq!(text::signed_number(-45), "-45");
    assert_eq!(text::signed_number(i64::MIN), "-9223372036854775808");
    assert_eq!(text::split_lines("a\r\nb\n"), ["a", "b"]);
}

#[test]
fn a_summary_lists_what_a_build_did() {
    let s = Summary {
        output: Some("ledger.journal".into()),
        records_start: None,
        folded: 0,
        converted: 0,
        superseded_openings: Vec::new(),
        anchor: Date::from_ymd_opt(2026, 1, 2).unwrap(),
        backfilled: 0,
        categorised: 3,
        internal: 2,
        in_transit: 1,
        reversed: 0,
        uncategorised: 4,
        other_accounts: 5,
        balance_assertions: 6,
        unmatched_records: 0,
        carried: 0,
        unmapped: vec!["郵局".into()],
        stale_overrides: Vec::new(),
    };
    assert_eq!(
        s.text(),
        "wrote ledger.journal\n  3 categorised from 天天記帳, 2 internal transfers paired, 1 in \
         transit via clearing, 4 uncategorised\n  5 records for accounts with no statement, from \
         天天記帳\n  6 balance assertions checking the ledger against 天天記帳\n  unmapped names \
         in mapping.toml: {\"郵局\"}\n"
    );
}

#[test]
fn an_amount_reads_back_as_it_prints() {
    let all = [
        "0.00",
        "-12.340",
        "79228162514264337593543950335",
        "-7.9228162514264337593543950335",
        "0.0000000000000000000000000001",
        "1234567890123456789.5",
    ];
    for s in all {
        assert_eq!(Amount::parse(s).expect("an amount").text(), s);
    }
    // A zero loses its sign.
    let minus_nothing = Amount::zero().negated();
    assert_eq!(minus_nothing.text(), "-0");
    assert_eq!(Amount::parse("-0").expect("an amount").text(), "0");
}
