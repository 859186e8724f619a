use ledger::valuation::AtCost;

#[test]
fn covers_the_listed_subtrees_only() {
    let at_cost = AtCost::parse("[at_cost]\naccounts = [\"Assets:Unlisted\"]\n").unwrap();
    assert!(at_cost.covers("Assets:Unlisted"));
    assert!(at_cost.covers("Assets:Unlisted:Alpha"));
    assert!(!at_cost.covers("Assets:Unlisted-Other"));
    assert!(!at_cost.covers("Assets:Cash"));
    assert!(!AtCost::default().covers("Assets:Unlisted"));
}

#[test]
fn a_holding_is_the_listed_account_or_its_child() {
    let at_cost = AtCost::parse("[at_cost]\naccounts = [\"Assets:Unlisted\"]\n").unwrap();
    assert_eq!(at_cost.holding("Assets:Unlisted").as_deref(), Some("Assets:Unlisted"));
    assert_eq!(at_cost.holding("Assets:Unlisted:Alpha").as_deref(), Some("Assets:Unlisted:Alpha"));
    assert_eq!(
        at_cost.holding("Assets:Unlisted:Alpha:Shares").as_deref(),
        Some("Assets:Unlisted:Alpha")
    );
    assert_eq!(at_cost.holding("Assets:Unlisted-Other"), None);
    assert_eq!(at_cost.holding("Assets:Cash"), None);
}

#[test]
fn a_misspelled_key_or_section_is_refused() {
    assert!(AtCost::parse("[at_cost]\naccount = [\"Assets:Unlisted\"]\n").is_err());
    assert!(AtCost::parse("[at-cost]\naccounts = [\"Assets:Unlisted\"]\n").is_err());
    assert!(AtCost::parse("[AtCost]\naccounts = [\"Assets:Unlisted\"]\n").is_err());
    // Fava's own sections stay allowed.
    assert!(AtCost::parse("[credit_limits]\n\"卡\" = 1\n").is_ok());
}

#[test]
fn a_config_without_the_section_covers_nothing() {
    assert!(!AtCost::parse("[display]\n\"Assets\" = \"資產\"\n").unwrap().covers("Assets"));
}

#[test]
fn a_text_that_is_no_toml_is_refused() {
    assert!(AtCost::parse("[at_cost\n").is_err());
}
