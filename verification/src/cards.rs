//! Spend aggregation: a pod's total money OUT, summed across the two functions the
//! API reports it through — card transactions (debit) and outgoing transfers (ACH).
//! Also normalizes a declared bill amount to monthly (and back) for right-sizing.

use crate::api::{Transaction, Transfer, TransferDirection, TransferStatus};
use crate::derive::{Frequency, FrequencyView};
use crate::money::{divide, quotient};
use vstd::prelude::*;

verus! {

/// The amount fits in the 64 bits that amounts are kept in.
pub open spec fn fits(cents: int) -> bool {
    i64::MIN <= cents <= i64::MAX
}

/// What a card transaction adds to the spend: only a completed one counts, and
/// anything but money out counts against it.
pub open spec fn spent(t: Transaction) -> int {
    if !(t.status is Complete) {
        0
    } else if t.direction == TransferDirection::MoneyOut {
        t.amount_in_cents as int
    } else {
        -t.amount_in_cents
    }
}

/// Net card spend.
pub open spec fn net_spend(txns: Seq<Transaction>) -> int
    decreases txns.len(),
{
    if txns.len() == 0 {
        0
    } else {
        net_spend(txns.drop_last()) + spent(txns.last())
    }
}

fn is_complete(status: &TransferStatus) -> (complete: bool)
    ensures
        complete == (*status is Complete),
{
    match status {
        TransferStatus::Complete => true,
        _ => false,
    }
}

fn net_spend_wide(txns: &[Transaction]) -> (cents: i128)
    ensures
        cents == net_spend(txns@),
        -0x8000_0000_0000_0000 * txns@.len() <= cents <= 0x8000_0000_0000_0000 * txns@.len(),
{
    let mut total: i128 = 0;
    let mut i: usize = 0;
    while i < txns.len()
        invariant
            i <= txns@.len(),
            total == net_spend(txns@.take(i as int)),
            -0x8000_0000_0000_0000 * i <= total <= 0x8000_0000_0000_0000 * i,
        decreases txns@.len() - i,
    {
        assert(txns@.take(i + 1).drop_last() == txns@.take(i as int));
        let t = &txns[i];
        let amount: i128 = t.amount_in_cents as i128;
        if is_complete(&t.status) {
            if t.direction == TransferDirection::MoneyOut {
                total = total + amount;
            } else {
                total = total - amount;
            }
        }
        i += 1;
    }
    assert(txns@.take(i as int) == txns@);
    total
}

/// Net CARD spend in cents from *completed* transactions: purchases (`MONEY_OUT`)
/// minus refunds (`MONEY_IN`). Pending/declined/failed don't count — money that
/// didn't actually move. Negative in a refund-heavy window.
pub fn net_spend_cents(txns: &[Transaction]) -> (cents: i64)
    requires
        fits(net_spend(txns@)),
    ensures
        cents == net_spend(txns@),
{
    net_spend_wide(txns) as i64
}

/// What a transfer takes out of the pod to the outside world: only a completed
/// one out counts.
pub open spec fn sent_out(t: Transfer) -> int {
    if t.direction == TransferDirection::MoneyOut && t.status is Complete {
        t.amount_in_cents as int
    } else {
        0
    }
}

/// External transfer outflow.
pub open spec fn ach_outflow(transfers: Seq<Transfer>) -> int
    decreases transfers.len(),
{
    if transfers.len() == 0 {
        0
    } else {
        ach_outflow(transfers.drop_last()) + sent_out(transfers.last())
    }
}

fn ach_outflow_wide(transfers: &[Transfer]) -> (cents: i128)
    ensures
        cents == ach_outflow(transfers@),
        -0x8000_0000_0000_0000 * transfers@.len() <= cents <= 0x8000_0000_0000_0000 * transfers@.len(),
{
    let mut total: i128 = 0;
    let mut i: usize = 0;
    while i < transfers.len()
        invariant
            i <= transfers@.len(),
            total == ach_outflow(transfers@.take(i as int)),
            -0x8000_0000_0000_0000 * i <= total <= 0x8000_0000_0000_0000 * i,
        decreases transfers@.len() - i,
    {
        assert(transfers@.take(i + 1).drop_last() == transfers@.take(i as int));
        let t = &transfers[i];
        if t.direction == TransferDirection::MoneyOut && is_complete(&t.status) {
            total = total + t.amount_in_cents as i128;
        }
        i += 1;
    }
    assert(transfers@.take(i as int) == transfers@);
    total
}

/// Total external ACH/transfer outflow in cents from *completed* transfers leaving
/// the pod to the outside world (`MONEY_OUT`). Excludes inter-pod (`INTERNAL`) moves
/// and inflows, and crucially anything not `Complete` — a bounced/returned/pending
/// payment never left the pod, so counting it would overstate spend and fool the
/// debit-cleared check into thinking a bill was paid when it failed.
pub fn ach_outflow_cents(transfers: &[Transfer]) -> (cents: i64)
    requires
        fits(ach_outflow(transfers@)),
    ensures
        cents == ach_outflow(transfers@),
{
    ach_outflow_wide(transfers) as i64
}

/// Whether a pod's card spend, its transfers out and their total all fit in 64 bits.
pub fn outflow_in_range(txns: &[Transaction], transfers: &[Transfer]) -> (in_range: bool)
    ensures
        in_range == (fits(net_spend(txns@)) && fits(ach_outflow(transfers@)) && fits(
            net_spend(txns@) + ach_outflow(transfers@),
        )),
{
    let card = net_spend_wide(txns);
    let ach = ach_outflow_wide(transfers);
    let low: i128 = i64::MIN as i128;
    let high: i128 = i64::MAX as i128;
    low <= card && card <= high && low <= ach && ach <= high && low <= card + ach && card + ach <= high
}

/// What is not complete does not count: neither as spend nor as a cleared debit.
pub proof fn lemma_unsettled_money_does_not_count(t: Transaction, u: Transfer)
    requires
        !(t.status is Complete),
        !(u.status is Complete) || u.direction != TransferDirection::MoneyOut,
    ensures
        net_spend(seq![t]) == 0,
        ach_outflow(seq![u]) == 0,
{
    reveal_with_fuel(net_spend, 2);
    reveal_with_fuel(ach_outflow, 2);
}

/// A window's net spend at a month of 30.44 days, rounded toward zero.
pub open spec fn run_rate(net: int, window_days: int) -> int {
    if window_days <= 0 {
        net
    } else {
        quotient(net * 3044, window_days * 100)
    }
}

/// Project a window's net spend to a monthly run-rate (avg 30.44 days/month).
pub fn monthly_run_rate_cents(net_cents: i64, window_days: i64) -> (cents: i64)
    ensures
        cents == run_rate(net_cents as int, window_days as int) as i64,
{
    if window_days <= 0 {
        return net_cents;
    }
    #[verifier::truncate]
    (divide(net_cents as i128 * 3044, window_days as i128 * 100) as i64)
}

/// A bill's amount per month.
pub open spec fn declared_monthly(amount: int, freq: FrequencyView, paydays_per_month: int) -> int {
    match freq {
        FrequencyView::Month => amount,
        FrequencyView::Quarter => quotient(amount, 3),
        FrequencyView::Year => quotient(amount, 12),
        FrequencyView::Drawdown { period_months, .. } => if period_months > 0 {
            quotient(amount, period_months)
        } else {
            amount
        },
        FrequencyView::Paycheck => amount * at_least_one(paydays_per_month),
        FrequencyView::Keep => amount,
    }
}

pub open spec fn at_least_one(n: int) -> int {
    if n < 1 {
        1
    } else {
        n
    }
}

/// Monthly-equivalent cost of a declared bill. `paydays_per_month` matters only
/// for per-paycheck top-ups.
pub fn declared_monthly_cents(amount_cents: i64, freq: &Frequency, paydays_per_month: i64) -> (cents: i64)
    requires
        fits(declared_monthly(amount_cents as int, freq@, paydays_per_month as int)),
    ensures
        cents == declared_monthly(amount_cents as int, freq@, paydays_per_month as int),
{
    declared_monthly_wide(amount_cents, freq, paydays_per_month) as i64
}

pub(crate) fn declared_monthly_wide(amount_cents: i64, freq: &Frequency, paydays_per_month: i64) -> (cents: i128)
    ensures
        cents == declared_monthly(amount_cents as int, freq@, paydays_per_month as int),
        -0x4000_0000_0000_0000_0000_0000_0000_0000 <= cents <= 0x4000_0000_0000_0000_0000_0000_0000_0000,
{
    let amount: i128 = amount_cents as i128;
    match freq {
        Frequency::Month => amount,
        Frequency::Quarter => divide(amount, 3),
        Frequency::Year => divide(amount, 12),
        Frequency::Drawdown { period_months, .. } => {
            if *period_months > 0 {
                divide(amount, *period_months as i128)
            } else {
                amount
            }
        },
        Frequency::Paycheck => times(amount_cents, if paydays_per_month < 1 { 1 } else { paydays_per_month }),
        // a kept level refills at most its own amount in a month
        Frequency::Keep => amount,
    }
}

/// The product of two amounts of 64 bits.
fn times(a: i64, b: i64) -> (product: i128)
    ensures
        product == a * b,
        -0x4000_0000_0000_0000_0000_0000_0000_0000 <= product <= 0x4000_0000_0000_0000_0000_0000_0000_0000,
{
    assert(-0x4000_0000_0000_0000_0000_0000_0000_0000 <= a * b <= 0x4000_0000_0000_0000_0000_0000_0000_0000)
        by (nonlinear_arith)
        requires
            -0x8000_0000_0000_0000 <= a <= 0x8000_0000_0000_0000,
            -0x8000_0000_0000_0000 <= b <= 0x8000_0000_0000_0000,
    ;
    a as i128 * b as i128
}

/// A monthly amount in the bill's own unit.
pub open spec fn native_from_monthly(monthly: int, freq: FrequencyView, paydays_per_month: int) -> int {
    match freq {
        FrequencyView::Month => monthly,
        FrequencyView::Quarter => monthly * 3,
        FrequencyView::Year => monthly * 12,
        FrequencyView::Drawdown { period_months, .. } => if period_months > 0 { monthly * period_months } else { monthly },
        FrequencyView::Paycheck => quotient(monthly, at_least_one(paydays_per_month)),
        FrequencyView::Keep => monthly,
    }
}

/// Inverse of [`declared_monthly_cents`]: a monthly figure expressed back in the
/// bill's native unit — i.e. what to put in the pod name.
pub fn native_from_monthly_cents(monthly_cents: i64, freq: &Frequency, paydays_per_month: i64) -> (cents: i64)
    requires
        fits(native_from_monthly(monthly_cents as int, freq@, paydays_per_month as int)),
    ensures
        cents == native_from_monthly(monthly_cents as int, freq@, paydays_per_month as int),
{
    native_from_monthly_wide(monthly_cents, freq, paydays_per_month) as i64
}

pub(crate) fn native_from_monthly_wide(monthly_cents: i64, freq: &Frequency, paydays_per_month: i64) -> (cents: i128)
    ensures
        cents == native_from_monthly(monthly_cents as int, freq@, paydays_per_month as int),
        -0x4000_0000_0000_0000_0000_0000_0000_0000 <= cents <= 0x4000_0000_0000_0000_0000_0000_0000_0000,
{
    let monthly: i128 = monthly_cents as i128;
    match freq {
        Frequency::Month => monthly,
        Frequency::Quarter => monthly * 3,
        Frequency::Year => monthly * 12,
        Frequency::Drawdown { period_months, .. } => if *period_months > 0 {
            times(monthly_cents, *period_months as i64)
        } else {
            monthly
        },
        Frequency::Paycheck => divide(monthly, if paydays_per_month < 1 { 1 } else { paydays_per_month as i128 }),
        Frequency::Keep => monthly,
    }
}

/// Turning a monthly figure into the bill's unit and back gives it again, for a
/// bill that comes less often than monthly; a per-paycheck amount comes back from
/// its monthly cost.
pub proof fn lemma_native_inverts_monthly(cents: int, freq: FrequencyView, paydays_per_month: int)
    ensures
        !(freq is Paycheck) ==> declared_monthly(
            native_from_monthly(cents, freq, paydays_per_month),
            freq,
            paydays_per_month,
        ) == cents,
        freq is Paycheck ==> native_from_monthly(
            declared_monthly(cents, freq, paydays_per_month),
            freq,
            paydays_per_month,
        ) == cents,
{
    match freq {
        FrequencyView::Drawdown { period_months, .. } => {
            if period_months > 0 {
                lemma_divide_product(cents, period_months);
            }
        },
        FrequencyView::Paycheck => {
            lemma_divide_product(cents, at_least_one(paydays_per_month));
        },
        _ => {},
    }
}

proof fn lemma_divide_product(a: int, b: int)
    requires
        b > 0,
    ensures
        quotient(a * b, b) == a,
{
    if a < 0 {
        assert((-(a * b)) / b == -a && a * b < 0) by (nonlinear_arith)
            requires
                b > 0,
                a < 0,
        ;
    } else {
        assert((a * b) / b == a && a * b >= 0) by (nonlinear_arith)
            requires
                b > 0,
                a >= 0,
        ;
    }
}

/// The whole-dollar amount in cents that `round_up_to_dollar` gives.
pub open spec fn rounded_up(cents: int) -> int {
    quotient(cents + 99, 100) * 100
}

/// Round a (positive) cents amount UP to a whole dollar — for a clean suggested
/// pod amount that never under-budgets the bill.
pub fn round_up_to_dollar(cents: i64) -> (rounded: i64)
    requires
        cents <= i64::MAX - 99,
    ensures
        rounded == rounded_up(cents as int),
{
    (divide(cents as i128 + 99, 100) * 100) as i64
}

/// Rounding up gives the least whole-dollar amount that covers the bill.
pub proof fn lemma_rounding_never_under_budgets(cents: int)
    requires
        cents >= 0,
    ensures
        cents <= rounded_up(cents) < cents + 100,
        rounded_up(cents) % 100 == 0,
{
}

/// What of a bill's debit has not cleared.
pub open spec fn uncleared(bill_amount: int, seen_outflow: int) -> int {
    if seen_outflow * 2 >= bill_amount {
        0
    } else if bill_amount > seen_outflow {
        bill_amount - seen_outflow
    } else {
        0
    }
}

/// Cents of a bill's scheduled debit not yet cleared this cycle, given how much
/// has actually gone out since the due date. If at least half the bill has left,
/// treat the debit as cleared (0); otherwise reserve the remainder so the pod
/// isn't mistaken for "full" before a slow/weekend debit hits.
pub fn uncleared_debit_cents(bill_amount: i64, seen_outflow: i64) -> (cents: i64)
    requires
        fits(uncleared(bill_amount as int, seen_outflow as int)),
    ensures
        cents == uncleared(bill_amount as int, seen_outflow as int),
{
    uncleared_wide(bill_amount, seen_outflow) as i64
}

fn uncleared_wide(bill_amount: i64, seen_outflow: i64) -> (cents: i128)
    ensures
        cents == uncleared(bill_amount as int, seen_outflow as int),
{
    let bill: i128 = bill_amount as i128;
    let seen: i128 = seen_outflow as i128;
    if seen * 2 >= bill || bill <= seen {
        0
    } else {
        bill - seen
    }
}

/// What is set aside in a pod: the uncleared debit as far as the balance exceeds the target.
pub open spec fn reserved(bill_amount: int, seen_outflow: int, balance: int, target: int) -> int {
    let surplus = if balance > target {
        balance - target
    } else {
        0
    };
    let debit = uncleared(bill_amount, seen_outflow);
    if debit <= surplus {
        debit
    } else {
        surplus
    }
}

/// Cents to actually reserve in a pod: the uncleared debit, but only the balance
/// held ABOVE the current paced `target`. Money up to the target is what this cycle
/// is supposed to hold for the bill — counting it as committed would double the
/// demand (target + reservation) and, on the due date itself, make the pod ask to
/// be funded twice over. Only the surplus is a just-rolled cycle's payment still
/// sitting there before its debit clears.
pub fn reserved_cents(bill_amount: i64, seen_outflow: i64, balance: i64, target: i64) -> (cents: i64)
    requires
        fits(reserved(bill_amount as int, seen_outflow as int, balance as int, target as int)),
    ensures
        cents == reserved(bill_amount as int, seen_outflow as int, balance as int, target as int),
{
    reserved_wide(bill_amount, seen_outflow, balance, target) as i64
}

pub(crate) fn reserved_wide(bill_amount: i64, seen_outflow: i64, balance: i64, target: i64) -> (cents: i128)
    ensures
        cents == reserved(bill_amount as int, seen_outflow as int, balance as int, target as int),
        0 <= cents,
{
    let surplus: i128 = if balance > target {
        balance as i128 - target as i128
    } else {
        0
    };
    let debit = uncleared_wide(bill_amount, seen_outflow);
    if debit <= surplus {
        debit
    } else {
        surplus
    }
}

/// A reservation never cuts into what the pod should hold this cycle, and never
/// exceeds the debit that it is for.
pub proof fn lemma_reservation_spares_the_target(bill_amount: int, seen_outflow: int, balance: int, target: int)
    ensures
        0 <= reserved(bill_amount, seen_outflow, balance, target) <= uncleared(bill_amount, seen_outflow),
        balance >= target ==> balance - reserved(bill_amount, seen_outflow, balance, target) >= target,
        balance <= target ==> reserved(bill_amount, seen_outflow, balance, target) == 0,
        seen_outflow * 2 >= bill_amount ==> reserved(bill_amount, seen_outflow, balance, target) == 0,
{
}

// ---- What adds up, and how ----

/// Card spend is added up row by row: a completed purchase counts, a completed row of
/// any other direction counts against it, and nothing else counts.
pub proof fn lemma_card_spend_adds_up(a: Seq<Transaction>, b: Seq<Transaction>)
    ensures
        net_spend(a + b) == net_spend(a) + net_spend(b),
        a.len() == 0 ==> net_spend(a) == 0,
        a.len() == 1 ==> {
            &&& a[0].status is Complete && a[0].direction is MoneyOut ==> net_spend(a) == a[0].amount_in_cents
            &&& a[0].status is Complete && !(a[0].direction is MoneyOut) ==> net_spend(a) == -a[0].amount_in_cents
            &&& !(a[0].status is Complete) ==> net_spend(a) == 0
        },
    decreases b.len(),
{
    reveal_with_fuel(net_spend, 2);
    if b.len() == 0 {
        assert(a + b == a);
    } else {
        assert((a + b).drop_last() == a + b.drop_last());
        lemma_card_spend_adds_up(a, b.drop_last());
    }
}

/// Transfers out are added up row by row: only completed ones that leave to the outside
/// world count.
pub proof fn lemma_transfers_out_add_up(a: Seq<Transfer>, b: Seq<Transfer>)
    ensures
        ach_outflow(a + b) == ach_outflow(a) + ach_outflow(b),
        a.len() == 0 ==> ach_outflow(a) == 0,
        a.len() == 1 ==> {
            &&& a[0].status is Complete && a[0].direction is MoneyOut ==> ach_outflow(a) == a[0].amount_in_cents
            &&& !(a[0].status is Complete && a[0].direction is MoneyOut) ==> ach_outflow(a) == 0
        },
    decreases b.len(),
{
    reveal_with_fuel(ach_outflow, 2);
    if b.len() == 0 {
        assert(a + b == a);
    } else {
        assert((a + b).drop_last() == a + b.drop_last());
        lemma_transfers_out_add_up(a, b.drop_last());
    }
}

proof fn lemma_quotient(a: int, b: int)
    requires
        b > 0,
    ensures
        a >= 0 ==> quotient(a, b) * b <= a < (quotient(a, b) + 1) * b,
        quotient(-a, b) == -quotient(a, b),
{
    assert(a >= 0 ==> (a / b) * b <= a < (a / b + 1) * b) by (nonlinear_arith)
        requires
            b > 0,
    ;
    assert(0int / b == 0) by (nonlinear_arith)
        requires
            b > 0,
    ;
}

/// A run-rate is the window's spend a day, times 30.44 days, to the cent and rounded
/// toward zero; without a window it is the spend itself. Net refunds project as the
/// same net spend does.
pub proof fn lemma_run_rate_is_a_month_of_the_window(net: int, window_days: int)
    ensures
        window_days <= 0 ==> run_rate(net, window_days) == net,
        window_days > 0 && net >= 0 ==> run_rate(net, window_days) * (window_days * 100) <= net * 3044 < (run_rate(
            net,
            window_days,
        ) + 1) * (window_days * 100),
        run_rate(-net, window_days) == -run_rate(net, window_days),
{
    if window_days > 0 {
        lemma_quotient(net * 3044, window_days * 100);
        assert((-net) * 3044 == -(net * 3044));
    }
}

/// A bill's cost in a month: a quarter holds three, a year twelve and a drawdown's
/// period as many as it says, each of at most that cost, to the cent; a top-up is paid
/// every payday, one at least; any other bill is monthly.
pub proof fn lemma_a_bill_costs_its_share_a_month(amount: int, freq: FrequencyView, paydays_per_month: int)
    requires
        amount >= 0,
    ensures
        ({
            let monthly = declared_monthly(amount, freq, paydays_per_month);
            match freq {
                FrequencyView::Quarter => 3 * monthly <= amount < 3 * (monthly + 1),
                FrequencyView::Year => 12 * monthly <= amount < 12 * (monthly + 1),
                FrequencyView::Drawdown { period_months, .. } => if period_months > 0 {
                    monthly * period_months <= amount < (monthly + 1) * period_months
                } else {
                    monthly == amount
                },
                FrequencyView::Paycheck => if paydays_per_month >= 1 {
                    monthly == amount * paydays_per_month
                } else {
                    monthly == amount
                },
                FrequencyView::Month => monthly == amount,
                FrequencyView::Keep => monthly == amount,
            }
        }),
{
    if let FrequencyView::Drawdown { period_months, .. } = freq {
        if period_months > 0 {
            lemma_quotient(amount, period_months);
        }
    }
}

/// A debit counts as cleared once half of the bill has gone out; until then what has
/// not gone out is waited for.
pub proof fn lemma_half_gone_is_cleared(bill_amount: int, seen_outflow: int)
    ensures
        2 * seen_outflow >= bill_amount ==> uncleared(bill_amount, seen_outflow) == 0,
        2 * seen_outflow < bill_amount && seen_outflow <= bill_amount ==> seen_outflow + uncleared(
            bill_amount,
            seen_outflow,
        ) == bill_amount,
        uncleared(bill_amount, seen_outflow) >= 0,
{
}

/// As much is set aside as can be: the whole debit that has not cleared, or all that
/// the pod holds above its target.
pub proof fn lemma_reservation_is_as_large_as_can_be(bill_amount: int, seen_outflow: int, balance: int, target: int)
    requires
        balance >= target,
    ensures
        reserved(bill_amount, seen_outflow, balance, target) == uncleared(bill_amount, seen_outflow) || balance - reserved(
            bill_amount,
            seen_outflow,
            balance,
            target,
        ) == target,
{
}

} // verus!
