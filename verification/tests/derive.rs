use maestro::assess::OutOfRange;
use maestro::date::Date;
use maestro::derive::{
    checked_bill, derive_bill, is_group_marker, leading_u32, name_in_range, parse, parse_dueday, parse_freq, parse_money,
    parse_period_months, parse_scheme, BillName, DerivedBill, DueDay, Frequency, Parsed,
};

#[test]
fn derive_bill_handles_both_schemes() {
    assert_eq!(
        derive_bill("Auto / Car Payment / 450 / 28"),
        Some(DerivedBill {
            group: Some("Auto".into()),
            name: "Car Payment".into(),
            amount_cents: 45000,
            due_day: Some(28),
            frequency: Frequency::Month,
        })
    );
    assert_eq!(
        derive_bill("Electric (120) - 23rd ish"),
        Some(DerivedBill {
            group: None,
            name: "Electric".into(),
            amount_cents: 12000,
            due_day: Some(23),
            frequency: Frequency::Month,
        })
    );
    assert_eq!(derive_bill("Extra"), None);
}

#[test]
fn frequency_only_no_due_day() {
    // 4 fields where the last is a frequency word -> no due day.
    let b = parse_scheme("Home / Pest Control / 50 / annual").unwrap();
    assert_eq!(b.due_day, None);
    assert_eq!(b.frequency, Frequency::Year);
    assert_eq!(
        derive_bill("Home / Pest Control / 50 / annual")
            .unwrap()
            .due_day,
        None
    );
}

#[test]
fn keep_parses_with_aliases() {
    for kw in ["keep", "refill", "float"] {
        let b = parse_scheme(&format!("Misc / Game Credit / 25 / {kw}")).unwrap();
        assert_eq!(b.frequency, Frequency::Keep);
        assert_eq!(b.due_day, None);
        assert_eq!(b.amount_cents, 2_500);
    }
}

#[test]
fn parses_new_scheme() {
    assert_eq!(
        parse_scheme("Auto / Car Payment / 450 / 28"),
        Some(BillName {
            group: Some("Auto".into()),
            name: "Car Payment".into(),
            amount_cents: 45000,
            due_day: Some(DueDay::Day(28)),
            frequency: Frequency::Month,
        })
    );
    // Groupless (3 fields): standalone monthly lump, funded from the pool.
    assert_eq!(
        parse_scheme("Allowance / 1000 / month"),
        Some(BillName {
            group: None,
            name: "Allowance".into(),
            amount_cents: 100000,
            due_day: None,
            frequency: Frequency::Month,
        })
    );
    // Both forms work: "yearly" == "year"; default (omitted) -> Month.
    assert_eq!(
        parse_scheme("Memberships / Warehouse Club / 120 / 10 / yearly").map(|b| b.frequency),
        Some(Frequency::Year)
    );
    assert_eq!(
        parse_scheme("Memberships / Warehouse Club / 120 / 10 / year").map(|b| b.frequency),
        Some(Frequency::Year)
    );
    assert_eq!(
        parse_scheme("Utilities / Electric / 90 / last").and_then(|b| b.due_day),
        Some(DueDay::Last)
    );
    // Old-scheme / non-bill names don't match.
    assert_eq!(parse_scheme("Car Loan (450) - 28th"), None);
    assert_eq!(parse_scheme("Extra"), None);
}

#[test]
fn parses_standard_bill() {
    assert_eq!(
        parse("Phone Bill ($80) - 16th"),
        Parsed::Bill {
            name: "Phone Bill".into(),
            amount_cents: 8000,
            due_day: 16
        }
    );
}

#[test]
fn tolerates_ish_and_no_dollar_sign_and_slash_in_name() {
    assert_eq!(
        parse("Electric (120) - 23rd ish"),
        Parsed::Bill {
            name: "Electric".into(),
            amount_cents: 12000,
            due_day: 23
        }
    );
    assert_eq!(
        parse("Water/Sewer (90) - 1st"),
        Parsed::Bill {
            name: "Water/Sewer".into(),
            amount_cents: 9000,
            due_day: 1
        }
    );
}

#[test]
fn flags_bill_without_due_day() {
    assert_eq!(
        parse("Alarm (50)"),
        Parsed::BillNoDueDay {
            name: "Alarm".into(),
            amount_cents: 5000
        }
    );
}

#[test]
fn category_and_skip() {
    assert_eq!(
        parse("Auto (600/300)"),
        Parsed::Category {
            name: "Auto".into()
        }
    );
    assert_eq!(parse("Spending Account"), Parsed::Skip);
    assert_eq!(parse("Extra"), Parsed::Skip);
}

#[test]
fn explicit_group_marker() {
    // `G: Name` is the group pod for group "Name" (case-insensitive prefix).
    assert_eq!(
        parse("G: Home"),
        Parsed::Category {
            name: "Home".into()
        }
    );
    assert_eq!(
        parse("g: Auto"),
        Parsed::Category {
            name: "Auto".into()
        }
    );
    // Tolerate a half-migrated name with the old (total/half) suffix.
    assert_eq!(
        parse("G: Household (1000/500)"),
        Parsed::Category {
            name: "Household".into()
        }
    );
}

#[test]
fn period_parsing() {
    assert_eq!(parse_period_months("6mo"), Some(6));
    assert_eq!(parse_period_months("3m"), Some(3));
    assert_eq!(parse_period_months("1y"), Some(12));
    assert_eq!(parse_period_months("1y6mo"), Some(18));
    assert_eq!(parse_period_months("2y"), Some(24));
    assert_eq!(parse_period_months("5d"), None); // days rejected
    assert_eq!(parse_period_months("mo"), None); // no number
}

#[test]
fn parses_drawdown() {
    let b = parse_scheme("Health / Dentist / 600 / drawdown / 2026-08-26 / 6mo").unwrap();
    assert_eq!(b.group, Some("Health".into()));
    assert_eq!(b.name, "Dentist");
    assert_eq!(b.amount_cents, 60000);
    assert_eq!(
        b.frequency,
        Frequency::Drawdown {
            target: Date::from_ymd_opt(2026, 8, 26).unwrap(),
            period_months: 6,
        }
    );
    // groupless form
    assert_eq!(
        parse_scheme("Dentist / 600 / drawdown / 2026-08-26 / 6mo")
            .unwrap()
            .group,
        None
    );
    // missing period is rejected
    assert!(parse_scheme("Health / Dentist / 600 / drawdown / 2026-08-26").is_none());
}

#[test]
fn money_is_read_in_cents() {
    assert_eq!(parse_money("$1,234.5"), Some(123450));
    assert_eq!(parse_money("80"), Some(8000));
    assert_eq!(parse_money("12.34"), Some(1234));
    assert_eq!(parse_money("soon"), None);
}

#[test]
fn due_days_and_frequencies_are_words_of_the_grammar() {
    assert_eq!(parse_dueday("LAST"), Some(DueDay::Last));
    assert_eq!(parse_dueday("31"), Some(DueDay::Day(31)));
    assert_eq!(parse_dueday("0"), None);
    assert_eq!(parse_dueday("32"), None);
    assert_eq!(parse_freq("Quarterly"), Some(Frequency::Quarter));
    assert_eq!(parse_freq("topup"), Some(Frequency::Paycheck));
    assert_eq!(parse_freq("never"), None);
    assert_eq!(leading_u32(" 23rd"), Some(23));
    assert_eq!(leading_u32("rd"), None);
    assert!(is_group_marker("g: Auto"));
    assert!(!is_group_marker("Garden"));
}

#[test]
fn a_name_with_too_large_a_number_is_out_of_range() {
    assert!(name_in_range("Auto / Car Payment / 450 / 28"));
    assert!(!name_in_range("Auto / Car Payment / 999999999999999999 / 28"));
    assert!(name_in_range("Extra"));
    assert_eq!(checked_bill("Auto / Car Payment / 999999999999999999 / 28"), Err(OutOfRange));
    assert_eq!(checked_bill("Phone (999999999999999999)"), Err(OutOfRange));
    assert_eq!(checked_bill("Extra"), Ok(None));
    assert_eq!(checked_bill("Web / 40 / 24"), Ok(derive_bill("Web / 40 / 24")));
}

#[test]
fn only_the_numbers_that_are_read_must_fit() {
    // a group pod declares nothing, whatever stands in its parentheses
    let slashed = "Auto (999999999999999999/)";
    assert!(name_in_range(slashed));
    assert_eq!(parse(slashed), Parsed::Category { name: "Auto".into() });
    let marked = "G: Home (999999999999999999)";
    assert!(name_in_range(marked));
    assert_eq!(parse(marked), Parsed::Category { name: "Home".into() });
    assert_eq!(checked_bill(marked), Ok(None));
    // the new scheme decides before the parentheses are read
    let both = "Auto / Car (999999999999999999) / 450 / 28";
    assert_eq!(checked_bill(both).unwrap().unwrap().amount_cents, 45_000);
    // a period is read only behind a date
    assert!(!name_in_range("Vet / 600 / drawdown / 2026-08-26 / 400000000y"));
    assert_eq!(checked_bill("Vet / 600 / drawdown / someday / 400000000y"), Ok(None));
}
