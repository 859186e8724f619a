use ledger::amount::Amount;
use ledger::currency::Currency;
use ledger::date::Date;
use ledger::statements::bank::StatementLine;
use ledger::statements::cathay;
use ledger::statements::cathay::{
    clean, info_names_account, load, opening_ref, parse_amount, parse_slash_date, BankStatement,
    Merged,
};

fn dec(s: &str) -> Amount {
    Amount::parse(s).expect("an amount")
}

fn on(year: i32, month: u32, day: u32) -> Date {
    Date::from_ymd_opt(year, month, day).expect("a date")
}

fn line(day: u32, description: &str, withdrawal: &str, info: &str) -> StatementLine {
    StatementLine {
        book_date: on(2026, 6, day),
        description: description.to_string(),
        withdrawal: dec(withdrawal),
        deposit: Amount::zero(),
        balance: Amount::zero(),
        info: info.to_string(),
        memo: String::new(),
    }
}

fn statement(lines: Vec<StatementLine>) -> BankStatement {
    BankStatement {
        account_no: "123456789012".to_string(),
        account_kind: "活存".to_string(),
        currency: Currency::TWD,
        period_end: None,
        lines,
    }
}

fn with_balance(mut l: StatementLine, balance: &str) -> StatementLine {
    l.balance = dec(balance);
    l
}

/// A 錯誤更正 cancels the debit to the same counterparty that day, and only
/// that one: a same-sized debit elsewhere, or on another day, is a real
/// movement and must still reach the matcher.
#[test]
fn a_reversal_pairs_with_the_debit_it_undoes() {
    let s = statement(vec![
        line(28, "電子轉出", "500", "(822)0000000000000001"),
        line(29, "電子轉出", "500", "(807)0000000000000002"),
        line(29, "電子轉出", "500", "(822)0000000000000001"),
        line(29, "錯誤更正", "-500", "(822)0000000000000001"),
    ]);

    assert_eq!(s.reversals(), vec![(2, 3)]);
    assert_eq!(s.lines[2].delta().plus(&s.lines[3].delta()), Some(Amount::zero()));
}

/// With nothing to cancel, the reversal is left for the ordinary fallback
/// rather than netted against an unrelated line.
#[test]
fn an_unmatched_reversal_stays_unpaired() {
    let s = statement(vec![
        line(29, "電子轉出", "300", "(822)0000000000000001"),
        line(29, "錯誤更正", "-500", "(822)0000000000000001"),
    ]);

    assert!(s.reversals().is_empty());
}

#[test]
fn dedup_refs_are_content_based() {
    let s = statement(vec![with_balance(line(29, "電子轉出", "500", ""), "1000")]);
    assert_eq!(s.dedup_refs(), vec!["cathay-bank:123456789012:2026-06-29:-500:1000"]);
}

/// Out, back, out again on one day: the first and third lines match on
/// date, amount and running balance, so only the suffix tells them apart.
#[test]
fn dedup_refs_disambiguate_out_and_back() {
    let s = statement(vec![
        with_balance(line(29, "網銀轉帳", "500", ""), "500"),
        with_balance(line(29, "網銀轉帳", "-500", ""), "1000"),
        with_balance(line(29, "自行提款", "500", ""), "500"),
    ]);
    assert_eq!(
        s.dedup_refs(),
        vec![
            "cathay-bank:123456789012:2026-06-29:-500:500",
            "cathay-bank:123456789012:2026-06-29:500:1000",
            "cathay-bank:123456789012:2026-06-29:-500:500:2",
        ]
    );
}

/// Other days in the file don't shift a day's keys, so re-splitting the
/// statements by year leaves them unchanged.
#[test]
fn dedup_refs_ignore_other_days() {
    let day = || {
        vec![
            with_balance(line(29, "網銀轉帳", "500", ""), "500"),
            with_balance(line(29, "自行提款", "500", ""), "500"),
        ]
    };
    let alone = statement(day()).dedup_refs();
    let mut lines = vec![with_balance(line(28, "網銀轉帳", "500", ""), "500")];
    lines.extend(day());
    let with_earlier_day = statement(lines).dedup_refs();
    assert_eq!(with_earlier_day[1..], alone[..]);
}

/// A third and a fourth repeat are numbered on.
#[test]
fn dedup_refs_number_every_repeat() {
    let same = || with_balance(line(29, "網銀轉帳", "500", ""), "500");
    let refs = statement(vec![same(), same(), same(), same()]).dedup_refs();
    let base = "cathay-bank:123456789012:2026-06-29:-500:500";
    assert_eq!(refs, [base.to_string(), format!("{base}:2"), format!("{base}:3"), format!("{base}:4")]);
}

const FOREIGN: &str = "\
\"123456789012 活存外幣\"
\"幣別：USD\"
\"交易日期\",\"帳務日期\",\"提出\",\"存入\",\"餘額\",\"成交匯率\",\"交易資訊\"
\"2024/06/11\",\"2024/06/11\",\"USD 1,000.50\",\"−\",\"USD 0.00\",\"−\",\"網銀轉\"
\"2024/06/07\",\"2024/06/07\",\"−\",\"USD 1,000.00\",\"USD 1,000.50\",\"32.1\",\"台幣存 \
                       999999999999TWD\"
\"提出\",\"USD 1,000.50 ( 共 1 筆 )\"
";

#[test]
fn a_foreign_currency_statement_loads_in_its_own_currency() {
    let s = load(FOREIGN.as_bytes(), "fx.csv").expect("loads");
    assert_eq!(s.currency, Currency::USD);
    assert_eq!(s.lines.len(), 2);
    assert_eq!(s.opening_balance(), dec("0.50"));
    assert_eq!(s.lines[1].delta(), dec("-1000.50"));
    assert_eq!(s.lines[0].info, "台幣存 999999999999TWD");
    assert!(s.lines[0].description.is_empty() && s.lines[0].memo.is_empty());
}

#[test]
fn an_amount_in_another_currency_is_rejected() {
    let text =
        FOREIGN.replace("USD 1,000.00\",\"USD 1,000.50", "JPY 1,000.00\",\"USD 1,000.50");
    let err = load(text.as_bytes(), "fx.csv").expect_err("a JPY amount on a USD statement");
    assert!(err.text().contains("not in the statement currency"), "{}", err.text());
}

fn year(y: u32, opening: u32, deposit: u32) -> String {
    format!(
        "123456789012 \
         活存\n幣別：TWD\n交易日期,帳務日期,說明,提出,存入,餘額,交易資訊,備註\n{y}/03/01,{y}/\
         03/01,存入,,{deposit},{},,\n",
        opening + deposit
    )
}

/// Reads and joins the files.
fn load_merged(files: &[(&str, String)]) -> Result<Vec<Merged>, String> {
    let files: Vec<(Vec<u8>, String)> =
        files.iter().map(|(path, text)| (text.as_bytes().to_vec(), path.to_string())).collect();
    cathay::load_merged(&files).map_err(|e| e.text())
}

#[test]
fn yearly_exports_merge_per_account_and_currency() {
    let merged = load_merged(&[
        ("2024.csv", year(2024, 100, 50)),
        ("2023.csv", year(2023, 0, 100)),
        ("fx.csv", FOREIGN.to_string()),
    ])
    .expect("merges");
    assert_eq!(merged.len(), 2);
    let twd = merged.iter().find(|m| m.statement.currency == Currency::TWD).expect("TWD");
    assert_eq!(twd.paths, ["2023.csv", "2024.csv"]);
    assert_eq!(twd.spans, [1, 1]);
    assert_eq!(twd.statement.lines.len(), 2);
    assert_eq!(twd.statement.opening_balance(), dec("0"));
    assert_eq!(twd.statement.closing_balance(), dec("150"));
}

#[test]
fn a_missing_export_is_a_gap_not_a_silent_jump() {
    let err =
        load_merged(&[("2023.csv", year(2023, 0, 100)), ("2025.csv", year(2025, 400, 50))])
            .err()
            .expect("a gap must fail");
    assert!(err.contains("an export is missing"), "{err}");
}

#[test]
fn overlapping_exports_are_rejected() {
    let files = [
        ("a.csv", export(None, &[("2023/03/01", 100, 100), ("2023/06/01", 50, 150)])),
        ("b.csv", export(None, &[("2023/04/01", 0, 150)])),
    ];
    assert!(load_merged(&files).is_err());
}

/// A late 12/31 trade booked on the next business day ends one export on
/// the date the next one starts; that is not an overlap.
#[test]
fn exports_may_share_a_boundary_book_date() {
    // Given newest first, so argument order can't be what joins them.
    let files = [
        ("2024.csv", export(None, &[("2024/01/02", 50, 150), ("2024/03/01", 5, 155)])),
        ("2023.csv", export(None, &[("2024/01/02", 100, 100)])),
    ];
    let merged = load_merged(&files).expect("merges");
    assert_eq!(merged[0].statement.closing_balance(), dec("155"));

    // Both only on the boundary date: the export period decides.
    let files = [
        ("b.csv", export(Some("2024/12/31"), &[("2024/01/02", 50, 150)])),
        ("a.csv", export(Some("2023/12/31"), &[("2024/01/02", 100, 100)])),
    ];
    let merged = load_merged(&files).expect("merges");
    assert_eq!(merged[0].statement.closing_balance(), dec("150"));
}

/// An export of deposits, given oldest first as (book date, deposit, balance).
fn export(period_end: Option<&str>, lines: &[(&str, u32, u32)]) -> String {
    let period = period_end.map(|end| format!("筆數,(自 2023/01/01 至 {end})\n"));
    let mut out = format!(
        "123456789012 活存\n{}幣別：TWD\n交易日期,帳務日期,說明,提出,存入,餘額,交易資訊,備註\n",
        period.unwrap_or_default()
    );
    for (date, deposit, balance) in lines.iter().rev() {
        out.push_str(&format!("{date},{date},存入,,{deposit},{balance},,\n"));
    }
    out
}

#[test]
fn trimming_folds_earlier_lines_into_the_opening() {
    let mut s = statement(vec![
        with_balance(line(1, "存入", "-100", ""), "100"),
        with_balance(line(3, "存入", "-20", ""), "120"),
    ]);
    let dropped = s.trim_before(on(2026, 6, 2));
    assert_eq!(dropped, 1);
    assert_eq!(s.opening_balance(), dec("100"));
}

#[test]
fn info_names_an_account_by_its_digits() {
    // Masked incoming rows, zero padding, and another digit run first.
    assert!(info_names_account("(013)0000123***789012", "123456789012"));
    assert!(info_names_account("(822)000999 0123456789012", "123456789012"));
    assert!(!info_names_account("(013)0000123456789013", "123456789012"));
    // An all-zero account number names nothing.
    assert!(!info_names_account("000000", "000"));
}

#[test]
fn a_dash_cell_reads_as_empty() {
    let text = "123456789012 \
         活存\n幣別：TWD\n交易日期,帳務日期,說明,提出,存入,餘額,交易資訊,備註\n2024/06/01,\
         2024/06/01,存入,,100,100,−,−\n";
    let s = load(text.as_bytes(), "savings.csv").expect("loads");
    assert!(s.lines[0].info.is_empty() && s.lines[0].memo.is_empty());
}

#[test]
fn a_statement_with_no_rows_is_rejected() {
    let text = "123456789012 活存\n幣別：TWD\n交易日期,帳務日期,說明,提出,存入,餘額,交易資訊,備註\n";
    let err = load(text.as_bytes(), "empty.csv").expect_err("a statement with no rows");
    assert!(err.text().contains("no statement rows"), "{}", err.text());
}

/// Like `export`, with signed amounts: (book date, delta, balance).
fn signed(period_end: Option<&str>, lines: &[(&str, i64, i64)]) -> String {
    let period = period_end.map(|end| format!("筆數,(自 2023/01/01 至 {end})\n"));
    let mut out = format!(
        "123456789012 活存\n{}幣別：TWD\n交易日期,帳務日期,說明,提出,存入,餘額,交易資訊,備註\n",
        period.unwrap_or_default()
    );
    for (date, delta, balance) in lines.iter().rev() {
        let (out_, in_) = match delta.is_negative() {
            true => (delta.abs().to_string(), String::new()),
            false => (String::new(), delta.to_string()),
        };
        out.push_str(&format!("{date},{date},轉帳,{out_},{in_},{balance},,\n"));
    }
    out
}

/// A download that stopped partway through a day, then the one that
/// re-covers the day, given together: the day is taken once, from the
/// later one. The partial one ends back on the day's opening balance, so
/// balance continuity alone would have joined them and counted twice.
#[test]
fn a_partial_download_and_its_replacement_merge_once() {
    let day = [("2024/03/05", -10, 90), ("2024/03/05", 10, 100)];
    let partial = [&[("2024/03/01", 100, 100)][..], &day].concat();
    let full = [&day[..], &[("2024/03/05", -30, 70), ("2024/04/01", 1, 71)]].concat();
    let merged = load_merged(&[
        ("full.csv", signed(Some("2024/12/31"), &full)),
        ("partial.csv", signed(None, &partial)),
    ])
    .expect("merges");
    let m = &merged[0];
    assert_eq!(m.statement.lines.len(), 5);
    assert_eq!(m.statement.closing_balance(), dec("71"));
    assert_eq!(m.paths, ["partial.csv", "full.csv"]);
    assert_eq!(m.spans, [1, 4]);
}

/// A full-year re-download supersedes the partial one it started with; a
/// download that another already holds entirely adds nothing.
#[test]
fn a_redownload_keeps_the_longer_of_the_two() {
    let lines = [("2024/03/01", 100, 100), ("2024/03/05", -10, 90), ("2024/04/01", 1, 91)];
    let merged = load_merged(&[
        ("partial.csv", signed(None, &lines[..1])),
        ("full.csv", signed(Some("2024/12/31"), &lines)),
        ("inner.csv", signed(None, &lines[1..2])),
    ])
    .expect("merges");
    let m = &merged[0];
    assert_eq!(m.statement.lines.len(), 3);
    assert_eq!(m.statement.period_end, Date::from_ymd_opt(2024, 12, 31));
    assert_eq!(m.spans.iter().sum::<usize>(), 3);
    assert_eq!(m.spans, [0, 3, 0]);
}

#[test]
fn an_overlap_that_disagrees_is_rejected() {
    let err = load_merged(&[
        ("a.csv", signed(None, &[("2024/03/01", 100, 100), ("2024/03/05", -10, 90)])),
        ("b.csv", signed(None, &[("2024/03/05", -20, 80)])),
    ])
    .err()
    .expect("a disagreeing overlap");
    assert!(err.contains("disagree"), "{err}");
}

fn day(d: u32) -> Date {
    on(2024, 3, d)
}

fn statement_of(period_end: Option<&str>, lines: &[(&str, i64, i64)]) -> BankStatement {
    load(signed(period_end, lines).as_bytes(), "s.csv").expect("loads")
}

/// A TWD download may have been made partway through the end of its range,
/// so the closing is the day before's.
#[test]
fn the_closing_is_the_day_before_the_download_could_have_been_made() {
    let lines = [("2024/03/01", 100, 100), ("2024/03/05", 10, 110), ("2024/03/05", 5, 115)];
    let before = day(1).pred_opt().unwrap();
    let closes = |period_end: Option<&str>| {
        let a = statement_of(period_end, &lines).assertion("A", before).unwrap();
        assert_eq!((a.period_start, a.opening), (Some(day(1)), Some(dec("0"))));
        (a.period_end, a.closing)
    };
    // Made during 3/05.
    assert_eq!(closes(Some("2024/03/05")), (day(4), dec("100")));
    // 外幣: no range, the last balance stands.
    assert_eq!(closes(None), (day(5), dec("115")));
    // Made at noon on 3/06, nothing posted yet that day.
    assert_eq!(closes(Some("2024/03/06")), (day(5), dec("115")));
    let year_end = on(2024, 12, 30);
    assert_eq!(closes(Some("2024/12/31")), (year_end, dec("115")));
}

/// Only one tracked day, not settled: all that is vouched for is the
/// balance it started from.
#[test]
fn a_single_unsettled_day_asserts_only_its_opening() {
    let lines = [("2024/03/05", 10, 110), ("2024/03/05", 5, 115)];
    let s = statement_of(Some("2024/03/05"), &lines);
    let a = s.assertion("A", day(1)).unwrap();
    assert_eq!((a.period_start, a.opening), (None, None));
    assert_eq!((a.period_end, a.closing), (day(4), dec("100")));
    assert!(s.assertion("A", day(5)).is_none());
}

#[test]
fn an_opening_ref_names_the_account_and_currency() {
    assert_eq!(
        opening_ref("Assets:Cathay:Savings", Currency::USD),
        "cathay-bank:opening:Assets:Cathay:Savings:USD"
    );
}

#[test]
fn cells_are_read_as_the_bank_writes_them() {
    assert_eq!(parse_amount(" 1,234.50 ", Currency::TWD).unwrap(), dec("1234.50"));
    assert_eq!(parse_amount("−", Currency::TWD).unwrap(), dec("0"));
    assert_eq!(parse_amount("", Currency::TWD).unwrap(), dec("0"));
    assert_eq!(parse_amount("USD 12", Currency::USD).unwrap(), dec("12"));
    assert!(parse_amount("XXX 12", Currency::USD).is_err());
    assert!(parse_amount("twelve", Currency::USD).is_err());
    assert_eq!(parse_slash_date("2024/06/11\n10:00").unwrap(), on(2024, 6, 11));
    assert!(parse_slash_date("11 June").is_err());
    assert_eq!(clean("  a \n b  "), "a b");
    assert_eq!(clean("−"), "");
}
