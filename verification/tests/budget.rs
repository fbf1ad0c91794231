use budget_tracker::format::format_cents;
use budget_tracker::ledger::BudgetItem;
use budget_tracker::ledger::Ledger;
use budget_tracker::parse::parse_amount;

fn seed_ledger() -> Ledger {
    let mut ledger = Ledger::new();
    ledger.append(BudgetItem::new("Coffee".to_string(), 450, "Food".to_string()));
    ledger.append(BudgetItem::new(
        "Netflix Subscription".to_string(),
        1599,
        "Entertainment".to_string(),
    ));
    ledger.append(BudgetItem::new(
        "Bus Fare".to_string(),
        275,
        "Transport".to_string(),
    ));
    ledger
}

#[test]
fn parse_two_decimals() {
    assert_eq!(parse_amount("12.00"), Some(1200));
}

#[test]
fn parse_whole_number() {
    assert_eq!(parse_amount("12"), Some(1200));
}

#[test]
fn parse_one_decimal() {
    assert_eq!(parse_amount("4.5"), Some(450));
}

#[test]
fn parse_negative() {
    assert_eq!(parse_amount("-3.05"), Some(-305));
}

#[test]
fn parse_explicit_plus() {
    assert_eq!(parse_amount("+2.75"), Some(275));
}

#[test]
fn parse_trailing_dot() {
    assert_eq!(parse_amount("5."), Some(500));
}

#[test]
fn parse_leading_dot() {
    assert_eq!(parse_amount(".5"), Some(50));
}

#[test]
fn parse_leading_zeros() {
    assert_eq!(parse_amount("007.50"), Some(750));
}

#[test]
fn parse_zero() {
    assert_eq!(parse_amount("0"), Some(0));
}

#[test]
fn parse_rejects_letters() {
    assert_eq!(parse_amount("abc"), None);
}

#[test]
fn parse_rejects_empty() {
    assert_eq!(parse_amount(""), None);
}

#[test]
fn parse_rejects_sign_alone() {
    assert_eq!(parse_amount("-"), None);
}

#[test]
fn parse_rejects_dot_alone() {
    assert_eq!(parse_amount("."), None);
}

#[test]
fn parse_rejects_two_dots() {
    assert_eq!(parse_amount("1.2.3"), None);
}

#[test]
fn parse_rejects_three_decimals() {
    assert_eq!(parse_amount("1.234"), None);
}

#[test]
fn parse_rejects_inner_space() {
    assert_eq!(parse_amount("1 2"), None);
}

#[test]
fn parse_extreme_values() {
    assert_eq!(parse_amount("92233720368547758.07"), Some(i64::MAX));
    assert_eq!(parse_amount("-92233720368547758.08"), Some(i64::MIN));
    assert_eq!(parse_amount("92233720368547758.08"), None);
    assert_eq!(parse_amount("-92233720368547758.09"), None);
    assert_eq!(parse_amount("99999999999999999999"), None);
}

#[test]
fn format_pads_to_two_decimals() {
    assert_eq!(format_cents(450), "4.50".to_string());
}

#[test]
fn format_whole_dollars() {
    assert_eq!(format_cents(1200), "12.00".to_string());
}

#[test]
fn format_zero() {
    assert_eq!(format_cents(0), "0.00".to_string());
}

#[test]
fn format_small_negative() {
    assert_eq!(format_cents(-305), "-3.05".to_string());
}

#[test]
fn format_cents_only() {
    assert_eq!(format_cents(7), "0.07".to_string());
}

#[test]
fn format_extreme_negative() {
    assert_eq!(format_cents(i64::MIN), "-92233720368547758.08".to_string());
}

#[test]
fn seed_total_is_23_24() {
    let ledger = seed_ledger();
    assert!(ledger.total_fits());
    assert_eq!(ledger.total(), 2324);
    assert_eq!(format_cents(ledger.total()), "23.24".to_string());
}

#[test]
fn post_append_total_is_35_24() {
    let mut ledger = seed_ledger();
    let cents = parse_amount("12.00").expect("a valid amount");
    let item = BudgetItem::new("Lunch".to_string(), cents, "Food".to_string());
    assert_eq!(item.display_string(), "Lunch: $12.00 (Food)".to_string());
    ledger.append(item);
    assert!(ledger.total_fits());
    assert_eq!(ledger.total(), 3524);
    assert_eq!(format_cents(ledger.total()), "35.24".to_string());
}

#[test]
fn append_keeps_insertion_order() {
    let ledger = seed_ledger();
    let numbered = ledger.iterate();
    assert_eq!(numbered.len(), 3);
    assert_eq!(numbered[0].0, 1);
    assert_eq!(numbered[0].1.name, "Coffee".to_string());
    assert_eq!(numbered[1].0, 2);
    assert_eq!(numbered[1].1.name, "Netflix Subscription".to_string());
    assert_eq!(numbered[2].0, 3);
    assert_eq!(numbered[2].1.name, "Bus Fare".to_string());
}

#[test]
fn total_is_idempotent() {
    let ledger = seed_ledger();
    let first = ledger.total();
    let second = ledger.total();
    assert_eq!(first, second);
}

#[test]
fn empty_ledger_totals_zero() {
    let ledger = Ledger::new();
    assert_eq!(ledger.len(), 0);
    assert!(ledger.total_fits());
    assert_eq!(ledger.total(), 0);
    assert_eq!(ledger.iterate().len(), 0);
}

#[test]
fn overflowing_total_is_reported() {
    let mut ledger = Ledger::new();
    ledger.append(BudgetItem::new("a".to_string(), i64::MAX, "x".to_string()));
    ledger.append(BudgetItem::new("b".to_string(), 1, "x".to_string()));
    assert!(!ledger.total_fits());
    ledger.append(BudgetItem::new("c".to_string(), -2, "x".to_string()));
    assert!(ledger.total_fits());
    assert_eq!(ledger.total(), i64::MAX - 1);
}

#[test]
fn display_line_shape() {
    let item = BudgetItem::new("Coffee".to_string(), 450, "Food".to_string());
    assert_eq!(item.display_string(), "Coffee: $4.50 (Food)".to_string());
}

#[test]
fn display_allows_empty_texts() {
    let item = BudgetItem::new(String::new(), 450, String::new());
    assert_eq!(item.display_string(), ": $4.50 ()".to_string());
}

#[test]
fn entries_keep_given_fields() {
    let ledger = seed_ledger();
    let entry = ledger.get(1);
    assert_eq!(entry.name, "Netflix Subscription".to_string());
    assert_eq!(entry.amount_cents, 1599);
    assert_eq!(entry.category, "Entertainment".to_string());
}

#[test]
fn negative_amounts_are_permitted() {
    let mut ledger = Ledger::new();
    let cents = parse_amount("-4.50").expect("a valid amount");
    ledger.append(BudgetItem::new("Refund".to_string(), cents, "Food".to_string()));
    assert_eq!(ledger.total(), -450);
    assert_eq!(format_cents(ledger.total()), "-4.50".to_string());
}

#[test]
fn parsed_amount_renders_padded() {
    let cents = parse_amount("4.5").expect("a valid amount");
    assert_eq!(format_cents(cents), "4.50".to_string());
}
