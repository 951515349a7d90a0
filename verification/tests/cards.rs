use maestro::api::{Participant, Transaction, Transfer, TransferDirection, TransferStatus};
use maestro::cards::{
    ach_outflow_cents, declared_monthly_cents, monthly_run_rate_cents, native_from_monthly_cents, net_spend_cents,
    outflow_in_range, reserved_cents, round_up_to_dollar, uncleared_debit_cents,
};
use maestro::date::Date;
use maestro::derive::Frequency;
use maestro::fetch::{balances, next_page, outflow_cents, parse_date, settled};

fn txn(amount: i64, dir: TransferDirection, is_refund: bool) -> Transaction {
    Transaction {
        direction: dir,
        is_refund,
        status: TransferStatus::Complete,
        amount_in_cents: amount,
        description: "merchant".into(),
        created_at: "2026-06-01T00:00:00Z".into(),
    }
}

fn transfer(amount: i64, dir: TransferDirection) -> Transfer {
    Transfer {
        amount_in_cents: amount,
        direction: dir,
        source: None,
        destination: None,
        status: TransferStatus::Complete,
        created_at: "2026-06-01T00:00:00Z".into(),
    }
}

#[test]
fn net_spend_subtracts_refunds() {
    let txns = vec![
        txn(5000, TransferDirection::MoneyOut, false),
        txn(1500, TransferDirection::MoneyOut, false),
        txn(1000, TransferDirection::MoneyIn, true),
    ];
    assert_eq!(net_spend_cents(&txns), 5500); // 6500 purchases − 1000 refund
}

#[test]
fn outflow_excludes_failed_or_pending() {
    // a bounced ACH: attempted but never settled — must not count as spend OR
    // as the debit clearing (a retry often lands higher, with a return fee)
    let mut bounced = transfer(40_000, TransferDirection::MoneyOut);
    bounced.status = TransferStatus::Error;
    let settled = transfer(41_000, TransferDirection::MoneyOut); // Complete
    assert_eq!(ach_outflow_cents(&[bounced, settled]), 41_000);

    let mut pending = txn(5_000, TransferDirection::MoneyOut, false);
    pending.status = TransferStatus::Pending;
    assert_eq!(net_spend_cents(&[pending]), 0);
}

#[test]
fn ach_outflow_counts_only_external_money_out() {
    let ts = vec![
        transfer(50_000, TransferDirection::MoneyOut), // external payment
        transfer(20_000, TransferDirection::Internal), // inter-pod move — excluded
        transfer(10_000, TransferDirection::MoneyIn),  // inflow — excluded
        transfer(30_000, TransferDirection::MoneyOut),
    ];
    assert_eq!(ach_outflow_cents(&ts), 80_000);
}

#[test]
fn monthly_run_rate_projects_window() {
    assert_eq!(monthly_run_rate_cents(30_000, 30), 30_440);
    assert_eq!(monthly_run_rate_cents(30_000, 90), 10_146);
    assert_eq!(monthly_run_rate_cents(100, 0), 100);
}

#[test]
fn declared_monthly_by_frequency() {
    let ppm = 2;
    assert_eq!(
        declared_monthly_cents(12_000, &Frequency::Month, ppm),
        12_000
    );
    assert_eq!(declared_monthly_cents(12_000, &Frequency::Year, ppm), 1_000);
    assert_eq!(
        declared_monthly_cents(9_000, &Frequency::Quarter, ppm),
        3_000
    );
    assert_eq!(
        declared_monthly_cents(25_000, &Frequency::Paycheck, ppm),
        50_000
    );
    let dd = Frequency::Drawdown {
        target: Date::from_ymd_opt(2026, 12, 1).unwrap(),
        period_months: 6,
    };
    assert_eq!(declared_monthly_cents(60_000, &dd, ppm), 10_000);
}

#[test]
fn native_inverts_monthly() {
    let ppm = 2;
    assert_eq!(
        native_from_monthly_cents(1_000, &Frequency::Year, ppm),
        12_000
    );
    assert_eq!(
        native_from_monthly_cents(50_000, &Frequency::Paycheck, ppm),
        25_000
    );
    assert_eq!(
        native_from_monthly_cents(12_000, &Frequency::Month, ppm),
        12_000
    );
}

#[test]
fn a_drawdown_without_a_period_is_monthly_both_ways() {
    let dd = |period_months: u32| Frequency::Drawdown {
        target: Date::from_ymd_opt(2026, 12, 1).unwrap(),
        period_months,
    };
    assert_eq!(declared_monthly_cents(60_000, &dd(0), 2), 60_000);
    assert_eq!(native_from_monthly_cents(60_000, &dd(0), 2), 60_000);
    assert_eq!(native_from_monthly_cents(10_000, &dd(6), 2), 60_000);
}

#[test]
fn round_up_to_whole_dollar() {
    assert_eq!(round_up_to_dollar(58952), 59000); // $589.52 -> $590.00
    assert_eq!(round_up_to_dollar(2869), 2900); // $28.69 -> $29.00
    assert_eq!(round_up_to_dollar(59000), 59000); // already whole
}

#[test]
fn uncleared_reserves_until_debit_seen() {
    assert_eq!(uncleared_debit_cents(50_000, 0), 50_000); // nothing out -> reserve all
    assert_eq!(uncleared_debit_cents(50_000, 25_000), 0); // half out -> cleared
    assert_eq!(uncleared_debit_cents(50_000, 49_000), 0); // fully out -> cleared
    assert_eq!(uncleared_debit_cents(50_000, 10_000), 40_000); // partial -> reserve rest
}

#[test]
fn reserved_only_covers_surplus_over_target() {
    // money up to the target is this cycle's — not reserved (else need doubles)
    assert_eq!(reserved_cents(50_000, 0, 50_000, 50_000), 0); // at target (due day)
    assert_eq!(reserved_cents(50_000, 0, 45_000, 50_000), 0); // below target
                                                              // surplus above a low (just-rolled) target is the pending debit -> reserve it
    assert_eq!(reserved_cents(50_000, 0, 50_000, 0), 50_000);
    assert_eq!(reserved_cents(50_000, 0, 50_000, 8_000), 42_000);
    // debit already cleared (>= half seen) -> nothing, regardless of surplus
    assert_eq!(reserved_cents(50_000, 49_000, 50_000, 0), 0);
    // empty pod -> nothing to reserve
    assert_eq!(reserved_cents(50_000, 0, 0, 0), 0);
}

#[test]
fn rates_round_toward_zero() {
    assert_eq!(monthly_run_rate_cents(-100, 90), -33);
    assert_eq!(declared_monthly_cents(-100, &Frequency::Quarter, 1), -33);
    assert_eq!(declared_monthly_cents(500, &Frequency::Paycheck, 0), 500);
    assert_eq!(declared_monthly_cents(500, &Frequency::Keep, 3), 500);
}

#[test]
fn outflows_out_of_range_are_noticed() {
    let big = transfer(i64::MAX, TransferDirection::MoneyOut);
    let other = transfer(1, TransferDirection::MoneyOut);
    assert!(outflow_in_range(&[], &[big.clone()]));
    assert!(!outflow_in_range(&[], &[big, other]));
}

#[test]
fn total_outflow_adds_both_channels() {
    let card = vec![txn(2_000, TransferDirection::MoneyOut, false)];
    let ach = vec![transfer(3_000, TransferDirection::MoneyOut)];
    assert_eq!(outflow_cents(&card, &ach), 5_000);
}

#[test]
fn only_complete_transfers_are_settled() {
    let mut t = transfer(1, TransferDirection::MoneyIn);
    assert!(settled(&t));
    t.status = TransferStatus::Other { label: "Cancelled".into() };
    assert!(!settled(&t));
    t.source = Some(Participant { id: None, name: "Employer".into(), is_pod: false });
    assert!(!settled(&t));
}

#[test]
fn a_timestamp_starts_with_its_day() {
    assert_eq!(parse_date("2026-06-01T12:30:00Z"), Date::from_ymd_opt(2026, 6, 1));
    assert_eq!(parse_date("2026-06-01"), Date::from_ymd_opt(2026, 6, 1));
    assert_eq!(parse_date("2026-06"), None);
    assert_eq!(parse_date("2026-06-0é and more"), None);
    assert_eq!(parse_date(""), None);
}

#[test]
fn a_missing_balance_is_nothing() {
    let ids = vec!["a".to_string(), "b".to_string()];
    let found = balances(&ids, &vec![Some(500), None]);
    assert_eq!(found.get("a"), Some(500));
    assert_eq!(found.get("b"), Some(0));
    assert_eq!(found.get("c"), None);
    assert_eq!(found.amount("c"), 0);
}

#[test]
fn pages_go_on_while_there_are_more() {
    assert_eq!(next_page(1, true, 100), Some(2));
    assert_eq!(next_page(1, true, 0), None);
    assert_eq!(next_page(3, false, 100), None);
}
