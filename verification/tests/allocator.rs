use maestro::allocator::{
    allocate, bill_is_ready, bill_target, budget_is_ready, drawdown_on_track, drawdown_slice, minus_one_month, next_due,
    next_drawdown, period_bounds, plan, sort_due, target_accumulate, target_cents, target_for, FundingStrategy, Item,
    PlannedTransfer,
};
use maestro::date::{Date, Weekday};
use maestro::derive::Frequency;
use maestro::ledger::PodAmounts;
use maestro::model::{Bill, Budget, Category};
use maestro::schedule::PaySchedule;

fn d(y: i32, m: u32, day: u32) -> Date {
    Date::from_ymd_opt(y, m, day).unwrap()
}

fn semi() -> PaySchedule {
    PaySchedule::SemiMonthly { days: vec![15, -1] }
}

fn bill(name: &str, amount: i64, due_day: u32) -> Bill {
    Bill {
        name: name.into(),
        pod_id: format!("pod-{name}"),
        amount_cents: amount,
        due_day: Some(due_day),
        frequency: Frequency::Month,
    }
}

#[test]
fn target_is_half_after_first_payday_full_after_second() {
    // due 28th: funding paydays are Apr 30 + May 15
    let b = bill("rent", 100_000, 28);
    // May 1 — only Apr 30 passed -> 50%
    assert_eq!(target_cents(&b, d(2026, 5, 1), &semi()), 50_000);
    // May 16 — May 15 passed too -> 100%, ahead of the 28th
    assert_eq!(target_cents(&b, d(2026, 5, 16), &semi()), 100_000);
}

#[test]
fn bill_due_early_in_month_funds_from_prior_month_paydays() {
    // due 10th: both funding paydays are the prior month's
    let b = bill("car", 60_000, 10);
    // after May 15 only (one of two) -> 50%
    assert_eq!(target_cents(&b, d(2026, 5, 20), &semi()), 30_000);
    // after May 29 too -> 100% before the June 10th due date
    assert_eq!(target_cents(&b, d(2026, 6, 5), &semi()), 60_000);
}

#[test]
fn weekly_pay_spreads_a_bill_across_more_paydays() {
    // weekly pay: a bill due the 28th accrues across ~4 Fridays, not a hardcoded half
    let s = PaySchedule::Weekly {
        weekday: Weekday::Fri,
    };
    let b = bill("rent", 100_000, 28);
    // window Apr 28 -> May 28: Fridays May 1, 8, 15, 22; on May 2 one passed -> 25%
    assert_eq!(target_cents(&b, d(2026, 5, 2), &s), 25_000);
}

fn auto_budget(bills: Vec<Bill>) -> Budget {
    Budget {
        pool_pod_id: "pool".into(),
        categories: vec![Category {
            name: "auto".into(),
            pod_id: "cat-auto".into(),
            bills,
        }],
    }
}

#[test]
fn drawdown_is_a_constant_per_paycheck_slice() {
    let b = Bill {
        name: "lump".into(),
        pod_id: "pod-lump".into(),
        amount_cents: 80_000,
        due_day: None,
        frequency: Frequency::Drawdown {
            target: d(2026, 8, 26),
            period_months: 6,
        },
    };
    // 12 paychecks in the 6-month window -> a flat slice, SAME every cycle (no catch-up)
    let slice = 80_000 / 12;
    assert_eq!(bill_target(&b, d(2026, 5, 1), &semi()), slice);
    assert_eq!(bill_target(&b, d(2026, 5, 29), &semi()), slice);
    assert_eq!(bill_target(&b, d(2026, 8, 26), &semi()), slice);
    // on_track reflects how far along the window we are (for the "behind" note)
    assert_eq!(
        drawdown_on_track(80_000, d(2026, 8, 26), 6, d(2026, 8, 26), &semi()),
        80_000
    );
}

#[test]
fn plan_funds_pool_to_category_to_bills_with_no_leftover() {
    let budget = auto_budget(vec![bill("car", 60_000, 10), bill("insurance", 20_000, 10)]);
    let mut balances = PodAmounts::new();
    balances.insert("pool".to_string(), 80_000); // pool covers both
    let plan = plan(
        &budget,
        &balances,
        d(2026, 6, 5),
        &semi(),
        FundingStrategy::SoonestDue,
    );
    // pool->category (80k) then two category->bill (60k + 20k)
    assert_eq!(plan.len(), 3);
    assert_eq!(plan[0].from_pod, "pool");
    assert_eq!(plan[0].to_pod, "cat-auto");
    assert_eq!(plan[0].amount_cents, 80_000);
    let to_bills: i64 = plan[1..].iter().map(|t| t.amount_cents).sum();
    assert_eq!(to_bills, 80_000); // category nets to zero
}

#[test]
fn already_funded_pod_needs_nothing() {
    let budget = auto_budget(vec![bill("car", 60_000, 10)]);
    let mut balances = PodAmounts::new();
    balances.insert("pool".to_string(), 100_000);
    balances.insert("pod-car".to_string(), 60_000); // already at target
    let plan = plan(
        &budget,
        &balances,
        d(2026, 6, 5),
        &semi(),
        FundingStrategy::SoonestDue,
    );
    assert!(plan.is_empty());
}

#[test]
fn plan_bounded_by_pool_balance() {
    // pool can't cover both fully-due bills; only what's there moves
    let budget = auto_budget(vec![bill("car", 60_000, 10), bill("insurance", 20_000, 10)]);
    let mut balances = PodAmounts::new();
    balances.insert("pool".to_string(), 50_000); // short of the 80k needed
    let plan = plan(
        &budget,
        &balances,
        d(2026, 6, 5),
        &semi(),
        FundingStrategy::SoonestDue,
    );
    let moved: i64 = plan
        .iter()
        .filter(|t| t.from_pod == "pool")
        .map(|t| t.amount_cents)
        .sum();
    assert_eq!(moved, 50_000); // never overdraws the pool
}

#[test]
fn soonest_due_protects_the_nearer_bill_when_short() {
    // rent due 5th, sub due 20th; pool covers only one -> soonest-due funds rent first
    let budget = auto_budget(vec![bill("rent", 100_000, 5), bill("sub", 5_000, 20)]);
    let mut balances = PodAmounts::new();
    balances.insert("pool".to_string(), 100_000);
    let plan = plan(
        &budget,
        &balances,
        d(2026, 6, 5),
        &semi(),
        FundingStrategy::SoonestDue,
    );
    let rent = plan.iter().find(|t| t.to_pod == "pod-rent").unwrap();
    assert_eq!(rent.amount_cents, 100_000); // nearer due date wins
    assert!(plan.iter().all(|t| t.to_pod != "pod-sub")); // sub starved
}

#[test]
fn flush_month_funds_to_pace_not_to_100_percent() {
    // due 28th on May 1, pace = 50%; a flush pool must fund to pace, not 100%
    let budget = auto_budget(vec![bill("rent", 100_000, 28)]);
    let mut balances = PodAmounts::new();
    balances.insert("pool".to_string(), 200_000); // far more than the bill needs
    let plan = plan(
        &budget,
        &balances,
        d(2026, 5, 1),
        &semi(),
        FundingStrategy::SoonestDue,
    );
    let rent = plan.iter().find(|t| t.to_pod == "pod-rent").unwrap();
    assert_eq!(rent.amount_cents, 50_000); // paced, not 100k
    let moved: i64 = plan
        .iter()
        .filter(|t| t.from_pod == "pool")
        .map(|t| t.amount_cents)
        .sum();
    assert_eq!(moved, 50_000); // surplus stays in the pool
}

#[test]
fn strict_envelope_funds_to_100_percent_by_design() {
    // same bill/date as the pace test, but StrictEnvelope funds to 100% by design
    let budget = auto_budget(vec![bill("rent", 100_000, 28)]);
    let mut balances = PodAmounts::new();
    balances.insert("pool".to_string(), 200_000);
    let plan = plan(
        &budget,
        &balances,
        d(2026, 5, 1),
        &semi(),
        FundingStrategy::StrictEnvelope,
    );
    let rent = plan.iter().find(|t| t.to_pod == "pod-rent").unwrap();
    assert_eq!(rent.amount_cents, 100_000); // full, by design — not the 50k pace
}

#[test]
fn proportional_splits_a_short_pool_by_need() {
    // 30k pool, needs 60k+20k=80k -> 60/80 and 20/80 of 30k = 22_500 and 7_500
    let budget = auto_budget(vec![bill("car", 60_000, 10), bill("insurance", 20_000, 10)]);
    let mut balances = PodAmounts::new();
    balances.insert("pool".to_string(), 30_000);
    let plan = plan(
        &budget,
        &balances,
        d(2026, 6, 5),
        &semi(),
        FundingStrategy::Proportional,
    );
    let car = plan.iter().find(|t| t.to_pod == "pod-car").unwrap();
    let ins = plan.iter().find(|t| t.to_pod == "pod-insurance").unwrap();
    assert_eq!(car.amount_cents, 22_500);
    assert_eq!(ins.amount_cents, 7_500);
}

#[test]
fn due_dates_clamp_and_roll_over() {
    assert_eq!(next_due(d(2026, 2, 10), 31), d(2026, 2, 28));
    assert_eq!(next_due(d(2026, 12, 20), 15), d(2027, 1, 15));
    assert_eq!(next_due(d(2026, 5, 15), 15), d(2026, 5, 15));
    assert_eq!(minus_one_month(d(2026, 3, 31), 31), d(2026, 2, 28));
    assert_eq!(minus_one_month(d(2026, 2, 28), 31), d(2026, 1, 31));
    assert_eq!(minus_one_month(d(2026, 1, 10), 10), d(2025, 12, 10));
}

#[test]
fn a_bill_is_whole_on_its_due_date() {
    for due in [1, 10, 15, 28, 31] {
        let today = next_due(d(2026, 4, 2), due);
        assert_eq!(target_for(70_000, due, today, &semi()), 70_000);
    }
    // no paydays to spread across: fund it fully
    assert_eq!(target_for(70_000, 28, d(2026, 5, 1), &PaySchedule::Irregular), 70_000);
}

#[test]
fn a_bill_of_the_last_day_accrues_from_the_last_due_date() {
    // due Feb 28, last due Jan 31: the window's paydays are Feb 13 and Feb 27
    assert_eq!(target_for(100_000, 31, d(2026, 2, 14), &semi()), 50_000);
    assert_eq!(target_for(100_000, 31, d(2026, 2, 1), &semi()), 0);
    assert_eq!(target_for(100_000, 31, d(2026, 2, 27), &semi()), 100_000);
}

#[test]
fn drawdowns_roll_forward_by_their_period() {
    let anchor = d(2026, 8, 26);
    assert_eq!(next_drawdown(anchor, 6, d(2026, 5, 1)), anchor);
    assert_eq!(next_drawdown(anchor, 6, d(2026, 8, 27)), d(2027, 2, 26));
    assert_eq!(next_drawdown(anchor, 0, d(2027, 1, 1)), anchor);
    assert_eq!(drawdown_slice(80_000, anchor, 6, d(2026, 5, 1), &PaySchedule::Irregular), 80_000);
    // three of twelve paychecks into the window
    assert_eq!(drawdown_on_track(120_000, anchor, 6, d(2026, 4, 1), &semi()), 30_000);
}

#[test]
fn calendar_periods_hold_today() {
    assert_eq!(period_bounds(&Frequency::Month, d(2026, 2, 10)), (d(2026, 2, 1), d(2026, 2, 28)));
    assert_eq!(period_bounds(&Frequency::Quarter, d(2026, 5, 10)), (d(2026, 4, 1), d(2026, 6, 30)));
    assert_eq!(period_bounds(&Frequency::Year, d(2026, 5, 10)), (d(2026, 1, 1), d(2026, 12, 31)));
    assert_eq!(period_bounds(&Frequency::Keep, d(2026, 5, 10)), (d(2026, 5, 10), d(2026, 5, 10)));
    // one of two paydays of May has come
    assert_eq!(target_accumulate(50_000, &Frequency::Month, d(2026, 5, 20), &semi()), 25_000);
    // six of twenty-four paydays of the year
    assert_eq!(target_accumulate(24_000, &Frequency::Year, d(2026, 3, 31), &semi()), 6_000);
}

#[test]
fn kept_levels_and_top_ups_are_flat_and_due_now() {
    let mut b = bill("stash", 5_000, 1);
    b.due_day = None;
    b.frequency = Frequency::Keep;
    assert_eq!(bill_target(&b, d(2026, 5, 1), &semi()), 5_000);
    assert_eq!(sort_due(&b, d(2026, 5, 1)), d(2026, 5, 1));
    b.frequency = Frequency::Paycheck;
    assert_eq!(bill_target(&b, d(2026, 5, 1), &semi()), 5_000);
    assert_eq!(sort_due(&b, d(2026, 5, 1)), d(2026, 5, 1));
    // neither looks at the paydays
    let day_zero = PaySchedule::Monthly { day: 0 };
    assert!(bill_is_ready(&b, d(2026, 5, 1), &day_zero));
    assert_eq!(bill_target(&b, d(2026, 5, 1), &day_zero), 5_000);
    b.frequency = Frequency::Quarter;
    assert_eq!(sort_due(&b, d(2026, 5, 1)), d(2026, 6, 30));
    assert!(!bill_is_ready(&b, d(2026, 5, 1), &day_zero));
}

fn item(current: i64, target: i64, full: i64, due: Date) -> Item {
    Item { current, today_target: target, full, due }
}

#[test]
fn equal_due_dates_are_served_in_order() {
    let items = vec![
        item(0, 30, 30, d(2026, 5, 20)),
        item(0, 30, 30, d(2026, 5, 10)),
        item(0, 30, 30, d(2026, 5, 10)),
    ];
    assert_eq!(allocate(&items, 50, FundingStrategy::SoonestDue), vec![0, 30, 20]);
    assert_eq!(allocate(&items, 200, FundingStrategy::SoonestDue), vec![30, 30, 30]);
    assert_eq!(allocate(&items, 0, FundingStrategy::SoonestDue), vec![0, 0, 0]);
    assert_eq!(allocate(&items, 200, FundingStrategy::Proportional), vec![30, 30, 30]);
    assert_eq!(allocate(&items, 50, FundingStrategy::Proportional), vec![16, 16, 16]);
}

#[test]
fn an_overdrawn_pool_gives_nothing() {
    let items = vec![item(0, 30, 30, d(2026, 5, 20)), item(0, 30, 30, d(2026, 5, 10))];
    for strategy in [FundingStrategy::SoonestDue, FundingStrategy::Proportional, FundingStrategy::StrictEnvelope] {
        assert_eq!(allocate(&items, -10, strategy), vec![0, 0]);
        assert_eq!(allocate(&items, i64::MIN, strategy), vec![0, 0]);
        let mut balances = PodAmounts::new();
        balances.insert("pool".to_string(), -10_000);
        let budget = auto_budget(vec![bill("car", 60_000, 10), bill("insurance", 20_000, 10)]);
        assert!(plan(&budget, &balances, d(2026, 6, 5), &semi(), strategy).is_empty());
    }
}

/// The balances once the transfers are made.
fn after(balances: &PodAmounts, legs: &[PlannedTransfer], pods: &[&str]) -> PodAmounts {
    let mut moved = PodAmounts::new();
    for pod in pods {
        let inflow: i64 = legs.iter().filter(|t| t.to_pod == *pod).map(|t| t.amount_cents).sum();
        let outflow: i64 = legs.iter().filter(|t| t.from_pod == *pod).map(|t| t.amount_cents).sum();
        moved.insert(pod.to_string(), balances.get(pod).unwrap_or(0) + inflow - outflow);
    }
    moved
}

#[test]
fn a_funded_budget_is_not_funded_again_that_day() {
    let budget = auto_budget(vec![bill("car", 60_000, 10), bill("insurance", 20_000, 28)]);
    let pods = ["pool", budget.categories[0].pod_id.as_str(), "pod-car", "pod-insurance"];
    let mut balances = PodAmounts::new();
    balances.insert("pool".to_string(), 500_000);
    balances.insert("pod-car".to_string(), 1_000);
    for strategy in [FundingStrategy::SoonestDue, FundingStrategy::StrictEnvelope, FundingStrategy::Proportional] {
        let legs = plan(&budget, &balances, d(2026, 6, 5), &semi(), strategy);
        assert!(!legs.is_empty());
        let moved = after(&balances, &legs, &pods);
        // what is passed through the category's pod leaves it
        assert_eq!(moved.get(pods[1]), Some(0));
        assert_eq!(moved.get("pod-car"), Some(60_000));
        assert!(plan(&budget, &moved, d(2026, 6, 5), &semi(), strategy).is_empty());
    }
}

#[test]
fn extreme_amounts_do_not_overflow() {
    let items = vec![item(i64::MIN, i64::MAX, i64::MAX, d(2026, 5, 20)), item(0, i64::MAX, i64::MAX, d(2026, 5, 21))];
    assert_eq!(allocate(&items, i64::MAX, FundingStrategy::SoonestDue), vec![i64::MAX, 0]);
    let shares = allocate(&items, i64::MAX, FundingStrategy::Proportional);
    assert_eq!(shares, vec![6148914691236517204, 3074457345618258602]);
}

#[test]
fn ungrouped_bills_are_funded_straight_from_the_pool() {
    let budget = Budget {
        pool_pod_id: "pool".into(),
        categories: vec![
            Category { name: "(ungrouped)".into(), pod_id: "pool".into(), bills: vec![bill("car", 60_000, 10)] },
            Category { name: "Home".into(), pod_id: "pool".into(), bills: vec![bill("rent", 40_000, 10)] },
        ],
    };
    let mut balances = PodAmounts::new();
    balances.insert("pool".to_string(), 100_000);
    let legs = plan(&budget, &balances, d(2026, 6, 5), &semi(), FundingStrategy::SoonestDue);
    assert_eq!(
        legs,
        vec![
            PlannedTransfer {
                from_pod: "pool".into(),
                to_pod: "pod-car".into(),
                amount_cents: 60_000,
                reason: "fund bill car".into(),
            },
            PlannedTransfer {
                from_pod: "pool".into(),
                to_pod: "pod-rent".into(),
                amount_cents: 40_000,
                reason: "fund bill rent".into(),
            },
        ]
    );
}

#[test]
fn category_legs_say_why() {
    let budget = auto_budget(vec![bill("car", 60_000, 10)]);
    let mut balances = PodAmounts::new();
    balances.insert("pool".to_string(), 60_000);
    let legs = plan(&budget, &balances, d(2026, 6, 5), &semi(), FundingStrategy::default());
    assert_eq!(legs[0].reason, "fund category auto");
    assert_eq!(legs[1].reason, "fund bill car");
}

#[test]
fn what_cannot_be_dated_is_not_ready() {
    assert!(bill_is_ready(&bill("a", 1, 31), d(2026, 5, 1), &semi()));
    assert!(!bill_is_ready(&bill("a", 1, 0), d(2026, 5, 1), &semi()));
    assert!(!bill_is_ready(&bill("a", 1, 1), d(262142, 12, 30), &semi()));
    assert!(!budget_is_ready(&auto_budget(vec![bill("a", 1, 0)]), d(2026, 5, 1), &semi()));
    let mut b = bill("b", 1, 1);
    b.due_day = None;
    b.frequency = Frequency::Drawdown { target: d(2026, 8, 26), period_months: 4_000_000 };
    assert!(!bill_is_ready(&b, d(2027, 5, 1), &semi()));
}
