use ledger::amount::Amount;
use ledger::corrected::{frozen, load, Kind, Row, Status};
use ledger::currency::Currency;
use ledger::daily::Entry;
use ledger::date::Date;

fn dec(s: &str) -> Amount {
    Amount::parse(s).expect("an amount")
}

fn day(s: &str) -> Date {
    Date::from_iso(s).expect("a date")
}

fn row(status: &str, date: &str, kind: &str, amount: &str, id: &str) -> Row {
    Row {
        status: Status::parse(status).expect("a status"),
        date: day(date),
        kind: Kind::parse(kind).expect("a kind"),
        amount: dec(amount),
        currency: None,
        account: "錢包".into(),
        counter_account: String::new(),
        counter_amount: None,
        counter_currency: None,
        category: "飲食".into(),
        note: String::new(),
        source_id: id.into(),
    }
}

#[test]
fn reads_active_rows_and_skips_removed_ones() {
    let entries = load(&vec![
        Row { note: "午餐".into(), ..row("active", "2024-03-02", "expense", "120", "U1") },
        row("removed", "2024-03-01", "expense", "99", "U2"),
        Row {
            currency: Some(Currency::TWD),
            counter_account: "美金".into(),
            counter_amount: Some(dec("10")),
            counter_currency: Some(Currency::USD),
            category: String::new(),
            note: "換匯".into(),
            ..row("active", "2024-03-01", "transfer", "300", "U3")
        },
        Row {
            currency: Some(Currency::TWD),
            category: "利息".into(),
            ..row("active", "2024-03-02", "income", "50", "U4")
        },
    ]);
    assert_eq!(entries.len(), 3);
    assert!(matches!(
        &entries[0],
        Entry::Transfer { out, in_currency: Currency::USD, inn, .. }
            if *out == dec("300") && *inn == dec("10")
    ));
    assert!(matches!(
        &entries[1],
        Entry::Flow { amount, currency: Currency::TWD, id, category, .. }
            if *amount == dec("-120") && id == "U1" && category == "飲食"
    ));
    assert!(matches!(&entries[2], Entry::Flow { amount, .. } if *amount == dec("50")));
}

#[test]
fn frozen_names_removed_records_too() {
    let frozen = frozen(&vec![
        (day("2024-03-02"), "U1".to_string()),
        (day("2024-03-05"), "U2".to_string()),
    ]);
    assert_eq!(frozen.through, Date::from_ymd_opt(2024, 3, 5));
    assert_eq!(frozen.ids, ["U1", "U2"]);
}

#[test]
fn an_unknown_status_or_kind_is_an_error() {
    assert!(Status::parse("pending").is_none());
    assert!(Kind::parse("refund").is_none());
}

/// A transfer whose far side is left out moves nothing there.
#[test]
fn a_transfer_without_a_far_amount_brings_in_nothing() {
    let entries = load(&vec![Row {
        counter_account: "別間".into(),
        ..row("active", "2024-03-01", "transfer", "300", "U3")
    }]);
    assert!(matches!(
        &entries[0],
        Entry::Transfer { inn, in_currency: Currency::TWD, .. } if *inn == dec("0")
    ));
}
