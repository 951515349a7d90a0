//! The generated state: found once by `discover` (onboarding), then read back by
//! the engine each cycle. Not hand-edited — re-run `discover` to refresh it.

use crate::allocator::FundingStrategy;
use crate::date::Date;
use crate::schedule::PaySchedule;
use vstd::prelude::*;

verus! {

#[derive(Debug)]
pub struct State {
    pub discovered_at: Date,
    /// The canonical funding rhythm the allocator counts against.
    pub pay_schedule: PaySchedule,
    /// How to ration the pool on a short month (chosen at onboarding).
    pub funding_strategy: FundingStrategy,
    /// The pod(s) income flows into — the engine funds bills *from* these.
    /// Detected by tracing where each income source sends its money, ranked by
    /// how often money lands there.
    pub pools: Vec<PoolRef>,
    /// Where `rebalance` parks reclaimed surplus (the emergency / rainy-day fund).
    /// Detected at onboarding by pod name; override with `--to`.
    pub reclaim_pod: Option<String>,
    /// Full discovery detail, per income source.
    pub income_sources: Vec<IncomeSource>,
}

#[derive(Debug, Clone)]
pub struct PoolRef {
    pub pod_id: String,
    pub name: String,
    /// How many income transfers landed here (confidence / dominance signal).
    pub deposits_seen: u32,
}

#[derive(Debug)]
pub struct IncomeSource {
    pub name: String,
    pub classification: Classification,
    /// Detected cadence (absent for irregular sources).
    pub schedule: Option<PaySchedule>,
    /// Median of recent deposits; the regular floor and windfall threshold.
    /// `None` for irregular sources — nothing reliable to expect.
    pub typical_amount_cents: Option<i64>,
}

#[derive(Debug, Clone, Copy, PartialEq, Eq, Structural)]
pub enum Classification {
    Regular,
    Irregular,
}

} // verus!
