//! One funding cycle, end to end: from what was read of the live pods to the plan,
//! the accounting of every bill, and what may be executed of it.

use crate::allocator::{inflow, outflow, PlannedTransfer, PlannedTransferView};
use crate::cards::fits;
use crate::config::Phase;
use crate::date::Date;
use crate::ledger::{name_of, Names};
use crate::model::{texts, views};
use crate::money::{dollars, dollars_text, dollars_wide};
use crate::style::{put, put_plain, show, shown_as, spans, Span, Style};
use crate::text::{
    at_most, decimal, joined, joined_by, left, lemma_last_part_is_joined_last, push_decimal, right, same_text,
    take_at_most, to_left, to_right,
};
use vstd::prelude::*;
use vstd::string::StringExecFns;

verus! {

/// Which leg of the waterfall a transfer is, classified by its source. Drives
/// what each rollout phase is allowed to execute.
#[derive(Debug, Clone, Copy, PartialEq, Eq, Structural)]
pub enum Leg {
    /// Source is the Income Fund → a group pod or a standalone bill.
    TopLevel,
    /// Source is a group pod → a bill inside that group.
    WithinGroup,
}

/// Whether `phase` may execute a transfer on `leg`.
pub open spec fn executes(phase: Phase, leg: Leg) -> bool {
    phase == Phase::Full || (phase == Phase::Groups && leg == Leg::TopLevel)
}

/// Whether `phase` may execute a transfer on `leg`. (`Shadow` executes nothing,
/// `Groups` only top-level, `Full` everything.)
pub fn phase_executes(phase: Phase, leg: Leg) -> (may: bool)
    ensures
        may == executes(phase, leg),
{
    match phase {
        Phase::Shadow => false,
        Phase::Groups => leg == Leg::TopLevel,
        Phase::Full => true,
    }
}

/// How a bill is funded — drives both display and whether `rebalance` touches it.
#[derive(Debug, Clone, Copy, PartialEq, Eq, Structural)]
pub enum LineKind {
    /// Sinking fund, paced toward a due date/period. The only kind `rebalance` touches.
    Sinking,
    /// Per-paycheck top-up. Income-funded, so `rebalance` leaves it alone.
    Topup,
    /// Dated lump (drawdown). Income-funded, so `rebalance` leaves it alone.
    Drawdown,
    /// Flat level held on hand (`hold`) — refilled by funding, never rebalanced.
    Hold,
}

/// One bill's demand-vs-funded picture for this cycle.
#[derive(Debug)]
pub struct BillLine {
    pub group: String,
    pub name: String,
    pub pod_id: String,
    pub current: i64,
    pub target: i64,
    pub need: i64,
    pub give: i64,
    /// Money committed to a scheduled debit that hasn't cleared this cycle (a late
    /// ACH/weekend slip). Decisions use the effective balance `current - reserved`.
    pub reserved: i64,
    pub kind: LineKind,
}

pub ghost struct BillLineView {
    pub group: Seq<char>,
    pub name: Seq<char>,
    pub pod_id: Seq<char>,
    pub current: int,
    pub target: int,
    pub need: int,
    pub give: int,
    pub reserved: int,
    pub kind: LineKind,
}

impl View for BillLine {
    type V = BillLineView;

    open spec fn view(&self) -> BillLineView {
        BillLineView {
            group: self.group@,
            name: self.name@,
            pod_id: self.pod_id@,
            current: self.current as int,
            target: self.target as int,
            need: self.need as int,
            give: self.give as int,
            reserved: self.reserved as int,
            kind: self.kind,
        }
    }
}

impl BillLine {
    /// Income-funded (top-up/drawdown) or a kept level — never rebalanced.
    pub fn is_contribution(&self) -> (contribution: bool)
        ensures
            contribution == (self.kind != LineKind::Sinking),
    {
        self.kind != LineKind::Sinking
    }
}

#[derive(Debug)]
pub struct Report {
    pub today: Date,
    pub pool_pod_id: String,
    pub pool_balance: i64,
    pub transfers: Vec<PlannedTransfer>,
    pub lines: Vec<BillLine>,
    /// Recognized bills that can't be scheduled yet (name needs fixing).
    pub not_funded: Vec<String>,
    /// Funded, but still on the old naming.
    pub migrate: Vec<String>,
    /// Pods that aren't bills.
    pub ignored: Vec<String>,
    /// Informational notes (e.g. a drawdown pod that's behind pace).
    pub notes: Vec<String>,
    pub warnings: Vec<String>,
    pub executed: bool,
    /// pod id -> display name, for rendering the plan.
    pub names: Names,
}

pub ghost struct ReportView {
    pub today: int,
    pub pool_pod_id: Seq<char>,
    pub pool_balance: int,
    pub transfers: Seq<PlannedTransferView>,
    pub lines: Seq<BillLineView>,
    pub not_funded: Seq<Seq<char>>,
    pub migrate: Seq<Seq<char>>,
    pub ignored: Seq<Seq<char>>,
    pub notes: Seq<Seq<char>>,
    pub warnings: Seq<Seq<char>>,
    pub executed: bool,
    pub names: Map<Seq<char>, Seq<char>>,
}

impl View for Report {
    type V = ReportView;

    open spec fn view(&self) -> ReportView {
        ReportView {
            today: self.today@,
            pool_pod_id: self.pool_pod_id@,
            pool_balance: self.pool_balance as int,
            transfers: views(self.transfers@),
            lines: views(self.lines@),
            not_funded: texts(self.not_funded@),
            migrate: texts(self.migrate@),
            ignored: texts(self.ignored@),
            notes: texts(self.notes@),
            warnings: texts(self.warnings@),
            executed: self.executed,
            names: self.names@,
        }
    }
}

// ---- Rebalancing ----

/// How far a pod's uncommitted balance is ahead of its target (behind where negative).
pub open spec fn surplus(line: BillLineView) -> int {
    line.current - line.reserved - line.target
}

/// What is skimmed from a pod: a sinking fund's surplus of a dollar or more, not at
/// a cycle boundary.
pub open spec fn skim(line: BillLineView) -> Option<int> {
    if line.kind == LineKind::Sinking && line.target != 0 && surplus(line) >= 100 {
        Some(surplus(line))
    } else {
        None
    }
}

/// What fills a pod: what a sinking fund lacks, a dollar at least.
pub open spec fn fill(line: BillLineView) -> Option<int> {
    if line.kind == LineKind::Sinking && surplus(line) < 0 {
        Some(if -surplus(line) < 100 { 100 } else { -surplus(line) })
    } else {
        None
    }
}

/// The pod is at a cycle boundary: its target has just dropped to nothing and it
/// holds the money of a bill just due.
pub open spec fn at_boundary(line: BillLineView) -> bool {
    line.kind == LineKind::Sinking && line.target == 0 && surplus(line) >= 100
}

pub open spec fn skims_of(lines: Seq<BillLineView>) -> Seq<(Seq<char>, Seq<char>, int)>
    decreases lines.len(),
{
    if lines.len() == 0 {
        Seq::empty()
    } else {
        let line = lines.last();
        match skim(line) {
            Some(cents) => skims_of(lines.drop_last()).push((line.name, line.pod_id, cents)),
            None => skims_of(lines.drop_last()),
        }
    }
}

pub open spec fn fills_of(lines: Seq<BillLineView>) -> Seq<(Seq<char>, Seq<char>, int)>
    decreases lines.len(),
{
    if lines.len() == 0 {
        Seq::empty()
    } else {
        let line = lines.last();
        match fill(line) {
            Some(cents) => fills_of(lines.drop_last()).push((line.name, line.pod_id, cents)),
            None => fills_of(lines.drop_last()),
        }
    }
}

pub open spec fn boundaries(lines: Seq<BillLineView>) -> nat
    decreases lines.len(),
{
    if lines.len() == 0 {
        0
    } else {
        boundaries(lines.drop_last()) + if at_boundary(lines.last()) { 1nat } else { 0nat }
    }
}

/// What the moves amount to.
pub open spec fn total(moves: Seq<(Seq<char>, Seq<char>, int)>) -> int
    decreases moves.len(),
{
    if moves.len() == 0 {
        0
    } else {
        total(moves.drop_last()) + moves.last().2
    }
}

/// The amounts that a rebalance would move, and the count of pods it skips, fit in
/// machine numbers.
pub open spec fn lines_fit(lines: Seq<BillLineView>) -> bool {
    &&& forall|i: int| 0 <= i < lines.len() ==> line_fits(#[trigger] lines[i])
    &&& boundaries(lines) <= u32::MAX
}

pub open spec fn line_fits(line: BillLineView) -> bool {
    &&& skim(line) matches Some(cents) ==> fits(cents)
    &&& fill(line) matches Some(cents) ==> fits(cents)
}

/// What a rebalance would move, from a cycle's lines — the single source of truth
/// for "ahead/behind/net" so `run` and `rebalance` never disagree. Skims pods ahead
/// of pace, fills those behind; skips income-funded contributions and cycle-boundary
/// pods (target $0, holding a just-due bill). $1.00 transfer floor.
#[derive(Debug)]
pub struct RebalancePlan {
    /// (display name, pod id, amount) for each pod to skim into the reclaim pod.
    pub skims: Vec<(String, String, i64)>,
    /// (display name, pod id, amount) for each pod to top back up to pace.
    pub fills: Vec<(String, String, i64)>,
    /// Pods skipped because they're at a cycle boundary (just-due bill).
    pub boundary: u32,
}

/// The moves of a list.
pub open spec fn moves(s: Seq<(String, String, i64)>) -> Seq<(Seq<char>, Seq<char>, int)> {
    Seq::new(s.len(), |i: int| (s[i].0@, s[i].1@, s[i].2 as int))
}

fn total_wide(s: &Vec<(String, String, i64)>) -> (cents: i128)
    ensures
        cents == total(moves(s@)),
        -0x8000_0000_0000_0000 * s.len() <= cents <= 0x7fff_ffff_ffff_ffff * s.len(),
{
    let ghost all = moves(s@);
    let mut sum: i128 = 0;
    let mut i: usize = 0;
    while i < s.len()
        invariant
            i <= s.len(),
            all == moves(s@),
            sum == total(all.take(i as int)),
            -0x8000_0000_0000_0000 * i <= sum <= 0x7fff_ffff_ffff_ffff * i,
        decreases s.len() - i,
    {
        assert(all.take(i + 1).drop_last() == all.take(i as int));
        sum = sum + s[i].2 as i128;
        i += 1;
    }
    assert(all.take(i as int) == all);
    sum
}

impl RebalancePlan {
    pub fn skim_total(&self) -> (cents: i64)
        requires
            fits(total(moves(self.skims@))),
        ensures
            cents == total(moves(self.skims@)),
    {
        total_wide(&self.skims) as i64
    }

    pub fn fill_total(&self) -> (cents: i64)
        requires
            fits(total(moves(self.fills@))),
        ensures
            cents == total(moves(self.fills@)),
    {
        total_wide(&self.fills) as i64
    }

    /// Net surplus reclaimed (skims − fills). Negative means leveling to pace
    /// needs money *from* income.
    pub fn net(&self) -> (cents: i64)
        requires
            fits(total(moves(self.skims@))),
            fits(total(moves(self.fills@))),
            fits(total(moves(self.skims@)) - total(moves(self.fills@))),
        ensures
            cents == total(moves(self.skims@)) - total(moves(self.fills@)),
    {
        self.skim_total() - self.fill_total()
    }

    /// Whether the totals and the net fit in 64 bits.
    pub fn totals_in_range(&self) -> (in_range: bool)
        ensures
            in_range == (fits(total(moves(self.skims@))) && fits(total(moves(self.fills@))) && fits(
                total(moves(self.skims@)) - total(moves(self.fills@)),
            )),
    {
        let s = total_wide(&self.skims);
        let f = total_wide(&self.fills);
        let low: i128 = i64::MIN as i128;
        let high: i128 = i64::MAX as i128;
        low <= s && s <= high && low <= f && f <= high && low <= s - f && s - f <= high
    }
}

fn line_in_range(line: &BillLine) -> (in_range: bool)
    ensures
        in_range == line_fits(line@),
{
    if line.is_contribution() {
        return true;
    }
    let diff: i128 = line.current as i128 - line.reserved as i128 - line.target as i128;
    diff <= i64::MAX as i128 && -diff <= i64::MAX as i128 || (line.target == 0 && diff >= 100)
}

/// Whether the amounts that a rebalance would move fit in machine numbers.
pub fn lines_in_range(lines: &Vec<BillLine>) -> (in_range: bool)
    ensures
        in_range == lines_fit(views(lines@)),
{
    let ghost all = views(lines@);
    let mut held: usize = 0;
    let mut i: usize = 0;
    while i < lines.len()
        invariant
            i <= lines.len(),
            all == views(lines@),
            held <= i,
            held == boundaries(all.take(i as int)),
            forall|j: int| 0 <= j < i ==> line_fits(#[trigger] all[j]),
        decreases lines.len() - i,
    {
        let line = &lines[i];
        assert(all[i as int] == line@);
        assert(all.take(i + 1).drop_last() == all.take(i as int));
        if !line_in_range(line) {
            return false;
        }
        let diff: i128 = line.current as i128 - line.reserved as i128 - line.target as i128;
        if !line.is_contribution() && line.target == 0 && diff >= 100 {
            held += 1;
        }
        i += 1;
    }
    assert(all.take(i as int) == all);
    held <= u32::MAX as usize
}

pub fn rebalance_plan(report: &Report) -> (plan: RebalancePlan)
    requires
        lines_fit(report@.lines),
    ensures
        moves(plan.skims@) == skims_of(report@.lines),
        moves(plan.fills@) == fills_of(report@.lines),
        plan.boundary == boundaries(report@.lines),
{
    let ghost all = views(report.lines@);
    let mut skims: Vec<(String, String, i64)> = Vec::new();
    let mut fills: Vec<(String, String, i64)> = Vec::new();
    let mut boundary: u32 = 0;
    let mut i: usize = 0;
    assert(moves(skims@) == skims_of(all.take(0)));
    assert(moves(fills@) == fills_of(all.take(0)));
    while i < report.lines.len()
        invariant
            i <= report.lines@.len(),
            all == views(report.lines@),
            lines_fit(all),
            moves(skims@) == skims_of(all.take(i as int)),
            moves(fills@) == fills_of(all.take(i as int)),
            boundary == boundaries(all.take(i as int)),
        decreases report.lines@.len() - i,
    {
        let line = &report.lines[i];
        assert(all[i as int] == line@);
        assert(all.take(i + 1).drop_last() == all.take(i as int));
        proof {
            lemma_boundaries_grow(all, i + 1);
        }
        let ghost old_skims = skims@;
        let ghost old_fills = fills@;
        // contributions are income-funded — not ours to skim
        if !line.is_contribution() {
            let diff: i128 = line.current as i128 - line.reserved as i128 - line.target as i128;
            if line.target == 0 && diff >= 100 {
                boundary += 1;  // just-due: holding for the bill, don't drain
            } else if diff >= 100 {
                skims.push((line.name.clone(), line.pod_id.clone(), diff as i64));
                assert(moves(skims@) == moves(old_skims).push((line.name@, line.pod_id@, diff as int)));
            } else if diff < 0 {
                // behind pace — fill, floored to the $1.00 min transfer
                let cents: i64 = if -diff < 100 {
                    100
                } else {
                    (-diff) as i64
                };
                fills.push((line.name.clone(), line.pod_id.clone(), cents));
                assert(moves(fills@) == moves(old_fills).push((line.name@, line.pod_id@, cents as int)));
            }
        }
        i += 1;
    }
    assert(all.take(i as int) == all);
    RebalancePlan { skims, fills, boundary }
}

proof fn lemma_boundaries_grow(lines: Seq<BillLineView>, n: int)
    requires
        0 <= n <= lines.len(),
    ensures
        boundaries(lines.take(n)) <= boundaries(lines),
    decreases lines.len() - n,
{
    if n < lines.len() {
        assert(lines.take(n + 1).drop_last() == lines.take(n));
        lemma_boundaries_grow(lines, n + 1);
    } else {
        assert(lines.take(n) == lines);
    }
}

/// Contributions and kept levels are never rebalanced.
pub proof fn lemma_rebalance_leaves_contributions_alone(line: BillLineView)
    requires
        line.kind != LineKind::Sinking,
    ensures
        skim(line) is None,
        fill(line) is None,
        !at_boundary(line),
{
}

/// Every move of a rebalance is a dollar at least, a skim leaves the pod's target
/// and what is reserved untouched, and a pod at a cycle boundary is not drained.
pub proof fn lemma_rebalance_is_careful(line: BillLineView)
    ensures
        skim(line) matches Some(cents) ==> cents >= 100 && line.current - cents == line.target + line.reserved,
        fill(line) matches Some(cents) ==> cents >= 100 && line.current + cents >= line.target + line.reserved,
        at_boundary(line) ==> skim(line) is None && fill(line) is None,
        !(skim(line) is Some && fill(line) is Some),
{
}

/// Every skim and every fill is one of a line.
pub proof fn lemma_moves_come_from_lines(lines: Seq<BillLineView>)
    ensures
        forall|k: int|
            0 <= k < skims_of(lines).len() ==> exists|i: int|
                0 <= i < lines.len() && skim(#[trigger] lines[i]) == Some((#[trigger] skims_of(lines)[k]).2)
                    && skims_of(lines)[k].1 == lines[i].pod_id,
        forall|k: int|
            0 <= k < fills_of(lines).len() ==> exists|i: int|
                0 <= i < lines.len() && fill(#[trigger] lines[i]) == Some((#[trigger] fills_of(lines)[k]).2)
                    && fills_of(lines)[k].1 == lines[i].pod_id,
    decreases lines.len(),
{
    if lines.len() > 0 {
        let rest = lines.drop_last();
        lemma_moves_come_from_lines(rest);
        assert forall|k: int| 0 <= k < skims_of(lines).len() implies exists|i: int|
            0 <= i < lines.len() && skim(#[trigger] lines[i]) == Some((#[trigger] skims_of(lines)[k]).2)
                && skims_of(lines)[k].1 == lines[i].pod_id by {
            if k < skims_of(rest).len() {
                let i = choose|i: int|
                    0 <= i < rest.len() && skim(#[trigger] rest[i]) == Some(skims_of(rest)[k].2)
                        && skims_of(rest)[k].1 == rest[i].pod_id;
                assert(lines[i] == rest[i]);
                assert(skims_of(lines)[k] == skims_of(rest)[k]);
            } else {
                assert(lines[lines.len() - 1] == lines.last());
            }
        }
        assert forall|k: int| 0 <= k < fills_of(lines).len() implies exists|i: int|
            0 <= i < lines.len() && fill(#[trigger] lines[i]) == Some((#[trigger] fills_of(lines)[k]).2)
                && fills_of(lines)[k].1 == lines[i].pod_id by {
            if k < fills_of(rest).len() {
                let i = choose|i: int|
                    0 <= i < rest.len() && fill(#[trigger] rest[i]) == Some(fills_of(rest)[k].2)
                        && fills_of(rest)[k].1 == rest[i].pod_id;
                assert(lines[i] == rest[i]);
                assert(fills_of(lines)[k] == fills_of(rest)[k]);
            } else {
                assert(lines[lines.len() - 1] == lines.last());
            }
        }
    }
}

// ---- Rendering ----

/// The real balance's style: against the target, but for a top-up, which is spent down.
pub open spec fn have_style(line: BillLineView) -> Style {
    if line.kind == LineKind::Topup {
        Style::Plain
    } else if line.current < line.target {
        Style::Red
    } else if line.current > line.target {
        Style::Blue
    } else {
        Style::Green
    }
}

/// The remark at the end of a line.
pub open spec fn remark(line: BillLineView) -> Option<(Seq<char>, Style)> {
    if line.reserved > 0 {
        Some(("  [debit due — "@ + dollars_text(line.reserved) + " not yet cleared]"@, Style::Yellow))
    } else {
        match line.kind {
            LineKind::Topup => Some(
                if line.need > 0 {
                    ("  [top-up — owes this pay]"@, Style::Cyan)
                } else {
                    ("  [top-up — met this pay]"@, Style::Dimmed)
                },
            ),
            LineKind::Drawdown => Some(
                if line.need > 0 {
                    ("  [drawdown — behind pace, no catch-up]"@, Style::Yellow)
                } else {
                    ("  [drawdown — on pace]"@, Style::Dimmed)
                },
            ),
            LineKind::Hold => Some(
                if line.need > 0 {
                    ("  [hold — below level, refilling]"@, Style::Cyan)
                } else {
                    ("  [hold — at level]"@, Style::Dimmed)
                },
            ),
            LineKind::Sinking => if line.give < line.need {
                Some(("  <-- short"@, Style::RedBold))
            } else if line.current > line.target {
                Some(("  ahead "@ + dollars_text(line.current - line.target), Style::Blue))
            } else {
                None
            },
        }
    }
}

/// One line of the table: have, target, need, fund.
pub open spec fn line_spans(line: BillLineView) -> Seq<(Seq<char>, Style)> {
    let row = seq![
        ("  "@ + left(at_most(line.name, 22), 22) + " have "@, Style::Plain),
        (right(dollars_text(line.current), 9), have_style(line)),
        ("  target "@ + right(dollars_text(line.target), 9) + "  need "@, Style::Plain),
        (right(dollars_text(line.need), 9), if line.need > 0 { Style::RedBold } else { Style::Dimmed }),
        ("  fund "@ + right(dollars_text(line.give), 9), Style::Plain),
    ];
    (match remark(line) {
        Some(span) => row.push(span),
        None => row,
    }).push(("\n"@, Style::Plain))
}

/// The table: a heading where a new group starts, and a line for each bill.
pub open spec fn table(lines: Seq<BillLineView>) -> Seq<(Seq<char>, Style)>
    decreases lines.len(),
{
    if lines.len() == 0 {
        Seq::empty()
    } else {
        let rest = lines.drop_last();
        let line = lines.last();
        let group = if rest.len() == 0 {
            Seq::empty()
        } else {
            rest.last().group
        };
        (if line.group != group {
            table(rest).push(("=== "@ + line.group + " ==="@, Style::CyanBold)).push(("\n"@, Style::Plain))
        } else {
            table(rest)
        }) + line_spans(line)
    }
}

/// The rebalance view: what is ahead of pace and behind, and the net.
pub open spec fn rebalance_spans(lines: Seq<BillLineView>) -> Seq<(Seq<char>, Style)> {
    let ahead = total(skims_of(lines));
    let behind = total(fills_of(lines));
    let net = ahead - behind;
    let head = seq![
        ("\n"@, Style::Plain),
        ("ahead of pace "@ + dollars_text(ahead) + "  ·  behind "@ + dollars_text(behind), Style::Bold),
        ("\n"@, Style::Plain),
    ];
    let net_line = if net > 0 {
        seq![
            (
                "net "@ + dollars_text(net) + " reclaimable → reclaim pod (run `maestro rebalance`)"@,
                Style::Green,
            ),
            ("\n"@, Style::Plain),
        ]
    } else if net < 0 {
        seq![
            (
                "net "@ + dollars_text(net) + " short — needs "@ + dollars_text(-net) + " from income to level up"@,
                Style::Red,
            ),
            ("\n"@, Style::Plain),
        ]
    } else {
        Seq::empty()
    };
    let held = if boundaries(lines) > 0 {
        seq![
            (
                "("@ + decimal(boundaries(lines)) + " pod(s) at a cycle boundary, holding for a just-due bill)"@,
                Style::Dimmed,
            ),
            ("\n"@, Style::Plain),
        ]
    } else {
        Seq::empty()
    };
    head + net_line + held
}

/// Items one below the other, indented.
pub open spec fn item_spans(items: Seq<Seq<char>>, style: Style) -> Seq<(Seq<char>, Style)>
    decreases items.len(),
{
    if items.len() == 0 {
        Seq::empty()
    } else {
        item_spans(items.drop_last(), style).push(("    "@, Style::Plain)).push((items.last(), style)).push(
            ("\n"@, Style::Plain),
        )
    }
}

/// A section: a heading and its items, nothing where there are none.
pub open spec fn section(heading: Seq<char>, heading_style: Style, items: Seq<Seq<char>>, style: Style) -> Seq<
    (Seq<char>, Style),
> {
    if items.len() == 0 {
        Seq::empty()
    } else {
        seq![("\n"@, Style::Plain), (heading, heading_style), ("\n"@, Style::Plain)] + item_spans(items, style)
    }
}

/// Items on one line, with commas.
pub open spec fn comma_list(items: Seq<Seq<char>>) -> Seq<char>
    decreases items.len(),
{
    if items.len() == 0 {
        Seq::empty()
    } else if items.len() == 1 {
        items[0]
    } else {
        comma_list(items.drop_last()) + ", "@ + items.last()
    }
}

/// The pods that are no bills.
pub open spec fn ignored_spans(items: Seq<Seq<char>>) -> Seq<(Seq<char>, Style)> {
    if items.len() == 0 {
        Seq::empty()
    } else {
        seq![
            ("\n"@, Style::Plain),
            (
                "ignored — not bills ("@ + decimal(items.len()) + "): "@ + comma_list(items),
                Style::Dimmed,
            ),
            ("\n"@, Style::Plain),
        ]
    }
}

/// A cycle's accounting.
pub open spec fn rendered(report: ReportView) -> Seq<(Seq<char>, Style)> {
    table(report.lines) + rebalance_spans(report.lines) + section(
        "[!] NOT funded — fix the name:"@,
        Style::RedBold,
        report.not_funded,
        Style::Red,
    ) + section(
        "still on old naming ("@ + decimal(report.migrate.len()) + "):"@,
        Style::Yellow,
        report.migrate,
        Style::Plain,
    ) + section("notes:"@, Style::Cyan, report.notes, Style::Dimmed) + section(
        "[!] warnings:"@,
        Style::YellowBold,
        report.warnings,
        Style::Yellow,
    ) + ignored_spans(report.ignored)
}

fn put_remark(line: &BillLine, out: &mut Vec<Span>)
    ensures
        spans(final(out)@) == match remark(line@) {
            Some(span) => spans(old(out)@).push(span),
            None => spans(old(out)@),
        },
{
    if line.reserved > 0 {
        let mut text = "  [debit due — ".to_owned();
        text.append(dollars(line.reserved).as_str());
        text.append(" not yet cleared]");
        put(out, Style::Yellow, text);
        return;
    }
    match line.kind {
        LineKind::Topup => {
            if line.need > 0 {
                put(out, Style::Cyan, "  [top-up — owes this pay]".to_owned());
            } else {
                put(out, Style::Dimmed, "  [top-up — met this pay]".to_owned());
            }
        },
        LineKind::Drawdown => {
            if line.need > 0 {
                put(out, Style::Yellow, "  [drawdown — behind pace, no catch-up]".to_owned());
            } else {
                put(out, Style::Dimmed, "  [drawdown — on pace]".to_owned());
            }
        },
        LineKind::Hold => {
            if line.need > 0 {
                put(out, Style::Cyan, "  [hold — below level, refilling]".to_owned());
            } else {
                put(out, Style::Dimmed, "  [hold — at level]".to_owned());
            }
        },
        LineKind::Sinking => {
            if line.give < line.need {
                put(out, Style::RedBold, "  <-- short".to_owned());
            } else if line.current > line.target {
                let ahead = dollars_wide(line.current as i128 - line.target as i128);
                put(out, Style::Blue, joined("  ahead ", ahead.as_str()));
            }
        },
    }
}

/// An amount in a column of the table.
fn column(cents: i64) -> (text: String)
    ensures
        text@ == right(dollars_text(cents as int), 9),
{
    to_right(dollars(cents).as_str(), 9)
}

fn put_line(line: &BillLine, out: &mut Vec<Span>)
    ensures
        spans(final(out)@) == spans(old(out)@) + line_spans(line@),
{
    let ghost before = spans(out@);
    let mut name = "  ".to_owned();
    name.append(to_left(take_at_most(line.name.as_str(), 22).as_str(), 22).as_str());
    name.append(" have ");
    put(out, Style::Plain, name);
    // have = real balance; colored vs target for sinking/drawdown, plain for top-up (spent down)
    let style = if line.kind == LineKind::Topup {
        Style::Plain
    } else if line.current < line.target {
        Style::Red
    } else if line.current > line.target {
        Style::Blue
    } else {
        Style::Green
    };
    put(out, style, column(line.current));
    let mut target = "  target ".to_owned();
    target.append(column(line.target).as_str());
    target.append("  need ");
    put(out, Style::Plain, target);
    let need_style = if line.need > 0 {
        Style::RedBold
    } else {
        Style::Dimmed
    };
    put(out, need_style, column(line.need));
    put(out, Style::Plain, joined("  fund ", column(line.give).as_str()));
    put_remark(line, out);
    put_plain(out, "\n");
    assert(spans(out@) == before + line_spans(line@));
}

fn put_table(lines: &Vec<BillLine>, out: &mut Vec<Span>)
    ensures
        spans(final(out)@) == spans(old(out)@) + table(views(lines@)),
{
    let ghost all = views(lines@);
    let ghost before = spans(out@);
    let mut i: usize = 0;
    assert(before + table(all.take(0)) == before);
    while i < lines.len()
        invariant
            i <= lines@.len(),
            all == views(lines@),
            spans(out@) == before + table(all.take(i as int)),
        decreases lines@.len() - i,
    {
        let line = &lines[i];
        assert(all[i as int] == line@);
        assert(all.take(i + 1).drop_last() == all.take(i as int));
        let started = if i == 0 {
            !same_text(line.group.as_str(), String::new().as_str())
        } else {
            assert(all[i - 1] == lines@[i - 1]@);
            !same_text(line.group.as_str(), lines[i - 1].group.as_str())
        };
        if started {
            let mut heading = "=== ".to_owned();
            heading.append(line.group.as_str());
            heading.append(" ===");
            put(out, Style::CyanBold, heading);
            put_plain(out, "\n");
        }
        put_line(line, out);
        i += 1;
        assert(spans(out@) == before + table(all.take(i as int)));
    }
    assert(all.take(i as int) == all);
}

fn put_rebalance(report: &Report, out: &mut Vec<Span>)
    requires
        lines_fit(report@.lines),
    ensures
        spans(final(out)@) == spans(old(out)@) + rebalance_spans(report@.lines),
{
    let ghost before = spans(out@);
    let rb = rebalance_plan(report);
    let ahead = total_wide(&rb.skims);
    let behind = total_wide(&rb.fills);
    proof {
        lemma_totals_are_not_negative(report@.lines);
    }
    let net: i128 = ahead - behind;
    put_plain(out, "\n");
    let mut head = "ahead of pace ".to_owned();
    head.append(dollars_wide(ahead).as_str());
    head.append("  ·  behind ");
    head.append(dollars_wide(behind).as_str());
    put(out, Style::Bold, head);
    put_plain(out, "\n");
    if net > 0 {
        let mut text = "net ".to_owned();
        text.append(dollars_wide(net).as_str());
        text.append(" reclaimable → reclaim pod (run `maestro rebalance`)");
        put(out, Style::Green, text);
        put_plain(out, "\n");
    } else if net < 0 {
        let mut text = "net ".to_owned();
        text.append(dollars_wide(net).as_str());
        text.append(" short — needs ");
        text.append(dollars_wide(-net).as_str());
        text.append(" from income to level up");
        put(out, Style::Red, text);
        put_plain(out, "\n");
    }
    if rb.boundary > 0 {
        let mut text = "(".to_owned();
        push_decimal(&mut text, rb.boundary as u128);
        text.append(" pod(s) at a cycle boundary, holding for a just-due bill)");
        put(out, Style::Dimmed, text);
        put_plain(out, "\n");
    }
    assert(spans(out@) == before + rebalance_spans(report@.lines));
}

proof fn lemma_totals_are_not_negative(lines: Seq<BillLineView>)
    ensures
        total(skims_of(lines)) >= 0,
        total(fills_of(lines)) >= 0,
    decreases lines.len(),
{
    if lines.len() > 0 {
        let rest = lines.drop_last();
        lemma_totals_are_not_negative(rest);
        if skim(lines.last()) is Some {
            assert(skims_of(lines).drop_last() == skims_of(rest));
        }
        if fill(lines.last()) is Some {
            assert(fills_of(lines).drop_last() == fills_of(rest));
        }
    }
}

fn put_section(heading: String, heading_style: Style, items: &Vec<String>, style: Style, out: &mut Vec<Span>)
    ensures
        spans(final(out)@) == spans(old(out)@) + section(heading@, heading_style, texts(items@), style),
{
    let ghost all = texts(items@);
    let ghost before = spans(out@);
    if items.len() == 0 {
        assert(before + section(heading@, heading_style, all, style) == before);
        return;
    }
    put_plain(out, "\n");
    let ghost title = heading@;
    put(out, heading_style, heading);
    put_plain(out, "\n");
    let ghost head = spans(out@);
    let mut i: usize = 0;
    assert(head + item_spans(all.take(0), style) == head);
    while i < items.len()
        invariant
            i <= items@.len(),
            all == texts(items@),
            spans(out@) == head + item_spans(all.take(i as int), style),
        decreases items@.len() - i,
    {
        assert(all.take(i + 1).drop_last() == all.take(i as int));
        put_plain(out, "    ");
        put(out, style, items[i].clone());
        put_plain(out, "\n");
        i += 1;
        assert(spans(out@) == head + item_spans(all.take(i as int), style));
    }
    assert(all.take(i as int) == all);
    assert(spans(out@) == before + section(title, heading_style, all, style));
}

fn list_with_commas(items: &Vec<String>) -> (list: String)
    ensures
        list@ == comma_list(texts(items@)),
{
    let ghost all = texts(items@);
    let mut list = String::new();
    let mut i: usize = 0;
    while i < items.len()
        invariant
            i <= items@.len(),
            all == texts(items@),
            list@ == comma_list(all.take(i as int)),
        decreases items@.len() - i,
    {
        assert(all.take(i + 1).drop_last() == all.take(i as int));
        if i > 0 {
            list.append(", ");
        }
        list.append(items[i].as_str());
        assert(all.take(i + 1).last() == items@[i as int]@);
        if i == 0 {
            assert(list@ == items@[0]@);
        }
        i += 1;
    }
    assert(all.take(i as int) == all);
    list
}

fn put_ignored(items: &Vec<String>, out: &mut Vec<Span>)
    ensures
        spans(final(out)@) == spans(old(out)@) + ignored_spans(texts(items@)),
{
    let ghost before = spans(out@);
    if items.len() == 0 {
        assert(before + ignored_spans(texts(items@)) == before);
        return;
    }
    put_plain(out, "\n");
    let mut text = "ignored — not bills (".to_owned();
    push_decimal(&mut text, items.len() as u128);
    text.append("): ");
    text.append(list_with_commas(items).as_str());
    put(out, Style::Dimmed, text);
    put_plain(out, "\n");
    assert(spans(out@) == before + ignored_spans(texts(items@)));
}

/// A cycle's accounting — the have/target/need/fund table plus not-funded /
/// migrate / ignored — as spans.
pub fn render_spans(report: &Report) -> (out: Vec<Span>)
    requires
        lines_fit(report@.lines),
    ensures
        spans(out@) == rendered(report@),
{
    let mut out: Vec<Span> = Vec::new();
    assert(spans(out@) + table(report@.lines) == table(report@.lines));
    put_table(&report.lines, &mut out);
    // rebalance view — the same computation the `rebalance` command runs
    put_rebalance(report, &mut out);
    put_section(
        "[!] NOT funded — fix the name:".to_owned(),
        Style::RedBold,
        &report.not_funded,
        Style::Red,
        &mut out,
    );
    let mut old_names = "still on old naming (".to_owned();
    push_decimal(&mut old_names, report.migrate.len() as u128);
    old_names.append("):");
    put_section(old_names, Style::Yellow, &report.migrate, Style::Plain, &mut out);
    put_section("notes:".to_owned(), Style::Cyan, &report.notes, Style::Dimmed, &mut out);
    put_section("[!] warnings:".to_owned(), Style::YellowBold, &report.warnings, Style::Yellow, &mut out);
    put_ignored(&report.ignored, &mut out);
    out
}

/// Render a cycle's accounting — the have/target/need/fund table plus not-funded /
/// migrate / ignored. Shared by `run` and the daemon.
pub fn render(report: &Report) -> (text: String)
    requires
        lines_fit(report@.lines),
    ensures
        shown_as(rendered(report@), text@),
{
    show(&render_spans(report))
}

// ---- Running a cycle ----

/// One transfer of the plan, and whether it is carried out.
#[derive(Debug, Clone)]
pub struct Step {
    pub from_pod: String,
    pub to_pod: String,
    /// The display names of the two pods, for the log.
    pub from_name: String,
    pub to_name: String,
    pub amount_cents: i64,
    pub leg: Leg,
    /// Carried out, or only computed.
    pub execute: bool,
}

pub ghost struct StepView {
    pub from_pod: Seq<char>,
    pub to_pod: Seq<char>,
    pub from_name: Seq<char>,
    pub to_name: Seq<char>,
    pub amount_cents: int,
    pub leg: Leg,
    pub execute: bool,
}

impl View for Step {
    type V = StepView;

    open spec fn view(&self) -> StepView {
        StepView {
            from_pod: self.from_pod@,
            to_pod: self.to_pod@,
            from_name: self.from_name@,
            to_name: self.to_name@,
            amount_cents: self.amount_cents as int,
            leg: self.leg,
            execute: self.execute,
        }
    }
}

/// A transfer's leg, by its source.
pub open spec fn leg_of(t: PlannedTransferView, pool: Seq<char>) -> Leg {
    if t.from_pod == pool {
        Leg::TopLevel
    } else {
        Leg::WithinGroup
    }
}

/// The step that a transfer is: carried out only when not a dry run and the phase
/// covers its leg, and never below a dollar, the API's floor.
pub open spec fn step_of(
    t: PlannedTransferView,
    pool: Seq<char>,
    names: Map<Seq<char>, Seq<char>>,
    dry_run: bool,
    phase: Phase,
) -> StepView {
    StepView {
        from_pod: t.from_pod,
        to_pod: t.to_pod,
        from_name: name_of(names, t.from_pod),
        to_name: name_of(names, t.to_pod),
        amount_cents: t.amount_cents,
        leg: leg_of(t, pool),
        execute: !dry_run && t.amount_cents >= 100 && executes(phase, leg_of(t, pool)),
    }
}

/// The steps of a cycle: one for every transfer of the plan.
pub open spec fn steps_of(
    transfers: Seq<PlannedTransferView>,
    pool: Seq<char>,
    names: Map<Seq<char>, Seq<char>>,
    dry_run: bool,
    phase: Phase,
) -> Seq<StepView> {
    Seq::new(transfers.len(), |i: int| step_of(transfers[i], pool, names, dry_run, phase))
}

/// Some step is carried out.
pub open spec fn executes_any(steps: Seq<StepView>) -> bool {
    exists|i: int| 0 <= i < steps.len() && (#[trigger] steps[i]).execute
}

/// The report of a cycle once its steps are decided: marked executed where any moves.
pub open spec fn report_after(report: ReportView, dry_run: bool, phase: Phase) -> ReportView {
    ReportView {
        executed: executes_any(steps_of(report.transfers, report.pool_pod_id, report.names, dry_run, phase)),
        ..report
    }
}

/// What to do for a cycle, step by step: every leg is logged — `[EXEC]` when moved,
/// `[SHADOW]` when only computed — so the log is complete in all phases. A leg moves
/// only when not dry-run AND the phase covers it, and dust below the API's floor of a
/// dollar never does. The report is marked executed where any leg moves.
pub fn run_cycle(report: &mut Report, dry_run: bool, phase: Phase) -> (steps: Vec<Step>)
    ensures
        views(steps@) == steps_of(
            old(report)@.transfers,
            old(report)@.pool_pod_id,
            old(report)@.names,
            dry_run,
            phase,
        ),
        final(report)@ == report_after(old(report)@, dry_run, phase),
{
    let ghost before = report@;
    let ghost all = report@.transfers;
    let mut steps: Vec<Step> = Vec::new();
    let mut any_executed = false;
    let mut i: usize = 0;
    assert(views(steps@) == steps_of(all.take(0), before.pool_pod_id, before.names, dry_run, phase));
    while i < report.transfers.len()
        invariant
            i <= report.transfers@.len(),
            report@ == before,
            all == views(report.transfers@),
            views(steps@) == steps_of(all.take(i as int), before.pool_pod_id, before.names, dry_run, phase),
            any_executed == executes_any(views(steps@)),
        decreases report.transfers@.len() - i,
    {
        let t = &report.transfers[i];
        assert(all[i as int] == t@);
        let leg = if same_text(t.from_pod.as_str(), report.pool_pod_id.as_str()) {
            Leg::TopLevel
        } else {
            Leg::WithinGroup
        };
        // API floor is $1.00; dust stays
        let execute = !dry_run && t.amount_cents >= 100 && phase_executes(phase, leg);
        let step = Step {
            from_pod: t.from_pod.clone(),
            to_pod: t.to_pod.clone(),
            from_name: report.names.name(t.from_pod.as_str()),
            to_name: report.names.name(t.to_pod.as_str()),
            amount_cents: t.amount_cents,
            leg,
            execute,
        };
        let ghost held = views(steps@);
        steps.push(step);
        proof {
            assert(views(steps@) == held.push(step@));
            assert(views(steps@)[held.len() as int] == step@);
            if executes_any(held) {
                let k = choose|k: int| 0 <= k < held.len() && (#[trigger] held[k]).execute;
                assert(views(steps@)[k] == held[k]);
            }
            if executes_any(views(steps@)) && !execute {
                let k = choose|k: int| 0 <= k < views(steps@).len() && (#[trigger] views(steps@)[k]).execute;
                assert(held[k] == views(steps@)[k]);
            }
            assert(views(steps@) == steps_of(all.take(i + 1), before.pool_pod_id, before.names, dry_run, phase));
        }
        any_executed = any_executed || execute;
        i += 1;
    }
    assert(all.take(i as int) == all);
    report.executed = any_executed;
    steps
}

/// Every leg of the plan has its step, so the log is complete in all phases. A dry run
/// moves nothing, and neither does the shadow phase; the groups phase moves only money
/// that leaves the pool; and no phase moves less than a dollar.
pub proof fn lemma_phase_gates_what_moves(
    transfers: Seq<PlannedTransferView>,
    pool: Seq<char>,
    names: Map<Seq<char>, Seq<char>>,
    dry_run: bool,
    phase: Phase,
)
    ensures
        steps_of(transfers, pool, names, dry_run, phase).len() == transfers.len(),
        forall|i: int|
            0 <= i < transfers.len() ==> {
                let step = #[trigger] steps_of(transfers, pool, names, dry_run, phase)[i];
                &&& step.amount_cents == transfers[i].amount_cents
                &&& step.amount_cents < 100 ==> !step.execute
                &&& dry_run || phase == Phase::Shadow ==> !step.execute
                &&& phase == Phase::Groups && step.execute ==> step.from_pod == pool
                &&& !dry_run && phase == Phase::Full && step.amount_cents >= 100 ==> step.execute
            },
{
}

/// What is carried out never takes more out of the pool than the plan does.
pub proof fn lemma_steps_stay_within_the_plan(
    transfers: Seq<PlannedTransferView>,
    pool: Seq<char>,
    names: Map<Seq<char>, Seq<char>>,
    dry_run: bool,
    phase: Phase,
)
    requires
        forall|i: int| 0 <= i < transfers.len() ==> 0 < (#[trigger] transfers[i]).amount_cents,
    ensures
        0 <= moved_from(steps_of(transfers, pool, names, dry_run, phase), pool) <= outflow(transfers, pool),
    decreases transfers.len(),
{
    if transfers.len() > 0 {
        let rest = transfers.drop_last();
        assert forall|i: int| 0 <= i < rest.len() implies 0 < (#[trigger] rest[i]).amount_cents by {
            assert(rest[i] == transfers[i]);
        }
        lemma_steps_stay_within_the_plan(rest, pool, names, dry_run, phase);
        assert(transfers[transfers.len() - 1] == transfers.last());
        let steps = steps_of(transfers, pool, names, dry_run, phase);
        assert(steps.drop_last() == steps_of(rest, pool, names, dry_run, phase));
    }
}

/// What the steps that are carried out take out of a pod.
pub open spec fn moved_from(steps: Seq<StepView>, pod: Seq<char>) -> int
    decreases steps.len(),
{
    if steps.len() == 0 {
        0
    } else {
        moved_from(steps.drop_last(), pod) + if steps.last().execute && steps.last().from_pod == pod {
            steps.last().amount_cents
        } else {
            0
        }
    }
}

// ---- What a cycle moves ----

/// Every transfer of the plan has its step, in its place: from the same pod, to the
/// same pod, of the same amount, under the pods' display names (the id where a pod has
/// none). It is a top-level leg where it leaves the pool, else one within a group.
pub proof fn lemma_every_transfer_has_its_step(
    transfers: Seq<PlannedTransferView>,
    pool: Seq<char>,
    names: Map<Seq<char>, Seq<char>>,
    dry_run: bool,
    phase: Phase,
    i: int,
)
    requires
        0 <= i < transfers.len(),
    ensures
        ({
            let steps = steps_of(transfers, pool, names, dry_run, phase);
            let (step, t) = (steps[i], transfers[i]);
            &&& steps.len() == transfers.len()
            &&& step.from_pod == t.from_pod
            &&& step.to_pod == t.to_pod
            &&& step.amount_cents == t.amount_cents
            &&& step.from_name == if names.dom().contains(t.from_pod) { names[t.from_pod] } else { t.from_pod }
            &&& step.to_name == if names.dom().contains(t.to_pod) { names[t.to_pod] } else { t.to_pod }
            &&& step.leg is TopLevel <==> t.from_pod == pool
            &&& step.execute <==> !dry_run && t.amount_cents >= 100 && (phase is Full || phase is Groups && t.from_pod
                == pool)
        }),
{
}

/// What the steps that are carried out bring into a pod.
pub open spec fn moved_into(steps: Seq<StepView>, pod: Seq<char>) -> int
    decreases steps.len(),
{
    if steps.len() == 0 {
        0
    } else {
        moved_into(steps.drop_last(), pod) + if steps.last().execute && steps.last().to_pod == pod {
            steps.last().amount_cents
        } else {
            0
        }
    }
}

/// The full phase carries out the plan as a whole: where no transfer is below a
/// dollar, every pod gets and gives what the plan says.
pub proof fn lemma_the_full_phase_carries_out_the_plan(
    transfers: Seq<PlannedTransferView>,
    pool: Seq<char>,
    names: Map<Seq<char>, Seq<char>>,
    pod: Seq<char>,
)
    requires
        forall|i: int| 0 <= i < transfers.len() ==> 100 <= (#[trigger] transfers[i]).amount_cents,
    ensures
        moved_into(steps_of(transfers, pool, names, false, Phase::Full), pod) == inflow(transfers, pod),
        moved_from(steps_of(transfers, pool, names, false, Phase::Full), pod) == outflow(transfers, pod),
    decreases transfers.len(),
{
    if transfers.len() > 0 {
        let steps = steps_of(transfers, pool, names, false, Phase::Full);
        lemma_the_full_phase_carries_out_the_plan(transfers.drop_last(), pool, names, pod);
        assert(steps.drop_last() == steps_of(transfers.drop_last(), pool, names, false, Phase::Full));
        assert(100 <= transfers[transfers.len() - 1].amount_cents);
    }
}

/// The groups phase moves all that leaves the pool and nothing else, where no transfer
/// is below a dollar.
pub proof fn lemma_the_groups_phase_moves_what_leaves_the_pool(
    transfers: Seq<PlannedTransferView>,
    pool: Seq<char>,
    names: Map<Seq<char>, Seq<char>>,
    pod: Seq<char>,
)
    requires
        forall|i: int| 0 <= i < transfers.len() ==> 100 <= (#[trigger] transfers[i]).amount_cents,
    ensures
        moved_from(steps_of(transfers, pool, names, false, Phase::Groups), pod) == if pod == pool {
            outflow(transfers, pool)
        } else {
            0
        },
    decreases transfers.len(),
{
    if transfers.len() > 0 {
        let steps = steps_of(transfers, pool, names, false, Phase::Groups);
        lemma_the_groups_phase_moves_what_leaves_the_pool(transfers.drop_last(), pool, names, pod);
        assert(steps.drop_last() == steps_of(transfers.drop_last(), pool, names, false, Phase::Groups));
        assert(100 <= transfers[transfers.len() - 1].amount_cents);
    }
}

/// A cycle counts as executed where some transfer is moved: never in a dry run or the
/// shadow phase, and in the full phase where any transfer is a dollar or more.
pub proof fn lemma_executed_where_something_moves(
    transfers: Seq<PlannedTransferView>,
    pool: Seq<char>,
    names: Map<Seq<char>, Seq<char>>,
    dry_run: bool,
    phase: Phase,
)
    ensures
        executes_any(steps_of(transfers, pool, names, dry_run, phase)) <==> exists|i: int|
            0 <= i < transfers.len() && !dry_run && (#[trigger] transfers[i]).amount_cents >= 100 && (phase is Full
                || phase is Groups && transfers[i].from_pod == pool),
{
    let steps = steps_of(transfers, pool, names, dry_run, phase);
    if executes_any(steps) {
        let i = choose|i: int| 0 <= i < steps.len() && (#[trigger] steps[i]).execute;
        lemma_every_transfer_has_its_step(transfers, pool, names, dry_run, phase, i);
        assert(transfers[i].amount_cents >= 100);
    }
    if exists|i: int|
        0 <= i < transfers.len() && !dry_run && (#[trigger] transfers[i]).amount_cents >= 100 && (phase is Full
            || phase is Groups && transfers[i].from_pod == pool) {
        let i = choose|i: int|
            0 <= i < transfers.len() && !dry_run && (#[trigger] transfers[i]).amount_cents >= 100 && (phase is Full
                || phase is Groups && transfers[i].from_pod == pool);
        assert(steps[i].execute);
    }
}

/// Running a cycle changes nothing of its report but whether it was executed, and that
/// it was if and only if some transfer moves.
pub proof fn lemma_a_cycle_only_marks_its_report(report: ReportView, dry_run: bool, phase: Phase)
    ensures
        ({
            let after = report_after(report, dry_run, phase);
            &&& after == (ReportView { executed: after.executed, ..report })
            &&& dry_run || phase is Shadow ==> !after.executed
            &&& after.executed <==> exists|i: int|
                0 <= i < report.transfers.len() && !dry_run && (#[trigger] report.transfers[i]).amount_cents >= 100 && (
                phase is Full || phase is Groups && report.transfers[i].from_pod == report.pool_pod_id)
        }),
{
    lemma_executed_where_something_moves(report.transfers, report.pool_pod_id, report.names, dry_run, phase);
}

// ---- What a rebalance moves ----

/// The line is a sinking fund whose uncommitted balance is below its target.
pub open spec fn behind_pace(line: BillLineView) -> bool {
    line.kind is Sinking && line.current < line.target + line.reserved
}

/// The line is a sinking fund with a dollar or more above its target and what is reserved.
pub open spec fn ahead_of_pace(line: BillLineView) -> bool {
    line.kind is Sinking && line.current >= line.target + line.reserved + 100
}

/// How many of the lines meet a condition.
pub open spec fn how_many(lines: Seq<BillLineView>, p: spec_fn(BillLineView) -> bool) -> nat
    decreases lines.len(),
{
    if lines.len() == 0 {
        0
    } else {
        how_many(lines.drop_last(), p) + if p(lines.last()) { 1nat } else { 0nat }
    }
}

/// Every pod behind pace is filled, up to pace and by a dollar at least; every pod
/// ahead of pace that has a target is skimmed, down to pace; and every pod ahead of
/// pace without one is left, as at a cycle boundary.
pub proof fn lemma_no_pod_is_left_out(lines: Seq<BillLineView>, i: int)
    requires
        0 <= i < lines.len(),
    ensures
        ({
            let line = lines[i];
            let lack = line.target + line.reserved - line.current;
            &&& behind_pace(line) ==> fills_of(lines).contains(
                (line.name, line.pod_id, if lack < 100 { 100 } else { lack }),
            )
            &&& ahead_of_pace(line) && line.target != 0 ==> skims_of(lines).contains((line.name, line.pod_id, -lack))
        }),
    decreases lines.len(),
{
    let rest = lines.drop_last();
    let line = lines[i];
    let lack = line.target + line.reserved - line.current;
    let filled = (line.name, line.pod_id, if lack < 100 { 100 } else { lack });
    let skimmed = (line.name, line.pod_id, -lack);
    if i < rest.len() {
        lemma_no_pod_is_left_out(rest, i);
        assert(rest[i] == line);
        if fills_of(rest).contains(filled) {
            let k = choose|k: int| 0 <= k < fills_of(rest).len() && fills_of(rest)[k] == filled;
            assert(fills_of(lines)[k] == filled);
        }
        if skims_of(rest).contains(skimmed) {
            let k = choose|k: int| 0 <= k < skims_of(rest).len() && skims_of(rest)[k] == skimmed;
            assert(skims_of(lines)[k] == skimmed);
        }
    } else {
        if behind_pace(line) {
            assert(fills_of(lines)[fills_of(rest).len() as int] == filled);
        }
        if ahead_of_pace(line) && line.target != 0 {
            assert(skims_of(lines)[skims_of(rest).len() as int] == skimmed);
        }
    }
}

/// There are as many fills as pods behind pace, as many skims as pods ahead of pace
/// with a target, and as many pods at a cycle boundary as pods ahead of pace without.
pub proof fn lemma_moves_are_counted(lines: Seq<BillLineView>)
    ensures
        fills_of(lines).len() == how_many(lines, |line: BillLineView| behind_pace(line)),
        skims_of(lines).len() == how_many(lines, |line: BillLineView| ahead_of_pace(line) && line.target != 0),
        boundaries(lines) == how_many(lines, |line: BillLineView| ahead_of_pace(line) && line.target == 0),
    decreases lines.len(),
{
    if lines.len() > 0 {
        lemma_moves_are_counted(lines.drop_last());
    }
}

/// A rebalance of two lists of lines is that of the one and that of the other: no line
/// changes what is moved for another, and the moves stand in the order of the lines.
pub proof fn lemma_lines_are_rebalanced_one_by_one(a: Seq<BillLineView>, b: Seq<BillLineView>)
    ensures
        skims_of(a + b) == skims_of(a) + skims_of(b),
        fills_of(a + b) == fills_of(a) + fills_of(b),
        boundaries(a + b) == boundaries(a) + boundaries(b),
    decreases b.len(),
{
    if b.len() == 0 {
        assert(a + b == a);
    } else {
        assert((a + b).drop_last() == a + b.drop_last());
        lemma_lines_are_rebalanced_one_by_one(a, b.drop_last());
    }
}

/// What moves amount to is added up: the total of two lists is the sum of their
/// totals, that of one move its amount.
pub proof fn lemma_totals_add_up(a: Seq<(Seq<char>, Seq<char>, int)>, b: Seq<(Seq<char>, Seq<char>, int)>)
    ensures
        total(a + b) == total(a) + total(b),
        a.len() == 1 ==> total(a) == a[0].2,
        a.len() == 0 ==> total(a) == 0,
    decreases b.len(),
{
    reveal_with_fuel(total, 2);
    if b.len() == 0 {
        assert(a + b == a);
    } else {
        assert((a + b).drop_last() == a + b.drop_last());
        lemma_totals_add_up(a, b.drop_last());
    }
}

// ---- What a cycle shows ----

/// Every line has its row in the table, in order.
pub proof fn lemma_every_line_is_shown(lines: Seq<BillLineView>, i: int)
    requires
        0 <= i < lines.len(),
    ensures
        exists|at: int|
            0 <= at && at + line_spans(lines[i]).len() <= table(lines).len() && #[trigger] table(lines).subrange(
                at,
                at + line_spans(lines[i]).len(),
            ) == line_spans(lines[i]),
    decreases lines.len(),
{
    let rest = lines.drop_last();
    let row = line_spans(lines[i]);
    let all = table(lines);
    if i < rest.len() {
        lemma_every_line_is_shown(rest, i);
        assert(rest[i] == lines[i]);
        let at = choose|at: int|
            0 <= at && at + row.len() <= table(rest).len() && #[trigger] table(rest).subrange(at, at + row.len()) == row;
        assert(all.take(table(rest).len() as int) == table(rest));
        assert(all.subrange(at, at + row.len()) == table(rest).subrange(at, at + row.len()));
    } else {
        let at = all.len() - row.len();
        assert(all.subrange(at, at + row.len()) == row);
    }
}

/// The lines of one group stand under one heading: lines that go on with the group of
/// those before add only their rows, lines of another group start with its heading.
pub proof fn lemma_headings_start_groups(lines: Seq<BillLineView>, line: BillLineView)
    requires
        lines.len() > 0,
    ensures
        table(lines.push(line)) == table(lines) + (if line.group == lines.last().group {
            Seq::empty()
        } else {
            seq![("=== "@ + line.group + " ==="@, Style::CyanBold), ("\n"@, Style::Plain)]
        }) + line_spans(line),
{
    assert(lines.push(line).drop_last() == lines);
}

/// Every item of a section is shown on a line of its own.
pub proof fn lemma_every_item_is_shown(
    heading: Seq<char>,
    heading_style: Style,
    items: Seq<Seq<char>>,
    style: Style,
    i: int,
)
    requires
        0 <= i < items.len(),
    ensures
        section(heading, heading_style, items, style).len() == 3 + 3 * items.len(),
        section(heading, heading_style, items, style)[1] == (heading, heading_style),
        section(heading, heading_style, items, style)[3 + 3 * i + 1] == (items[i], style),
{
    lemma_items_are_listed(items, style, i);
}

proof fn lemma_items_are_listed(items: Seq<Seq<char>>, style: Style, i: int)
    requires
        0 <= i < items.len(),
    ensures
        item_spans(items, style).len() == 3 * items.len(),
        item_spans(items, style)[3 * i + 1] == (items[i], style),
    decreases items.len(),
{
    let rest = items.drop_last();
    if rest.len() == 0 {
        assert(item_spans(rest, style).len() == 0);
    } else {
        lemma_items_are_listed(rest, style, if i < rest.len() { i } else { 0 });
    }
}

/// A line is remarked on where money is set aside in its pod; else a sinking fund where
/// it goes short or, if not, where it holds more than its target; and every other line by
/// whether it still needs anything.
pub proof fn lemma_remarks_say_where_a_line_stands(line: BillLineView)
    ensures
        line.reserved > 0 ==> remark(line) == Some(
            ("  [debit due — "@ + dollars_text(line.reserved) + " not yet cleared]"@, Style::Yellow),
        ),
        line.reserved <= 0 && line.kind is Sinking ==> {
            &&& line.give < line.need ==> remark(line) == Some(("  <-- short"@, Style::RedBold))
            &&& line.give >= line.need && line.current > line.target ==> remark(line) == Some(
                ("  ahead "@ + dollars_text(line.current - line.target), Style::Blue),
            )
            &&& line.give >= line.need && line.current <= line.target ==> remark(line) is None
        },
        line.reserved <= 0 && !(line.kind is Sinking) ==> remark(line) is Some && (line.need <= 0 <==> (
        remark(line)->0).1 is Dimmed),
{
}

/// A row shows the balance, the target, the need and the funding of its line, each in
/// its column.
pub proof fn lemma_a_row_shows_its_line(line: BillLineView)
    ensures
        ({
            let row = line_spans(line);
            &&& row.len() == if remark(line) is Some { 7nat } else { 6nat }
            &&& row[1].0 == right(dollars_text(line.current), 9)
            &&& row[2].0 == "  target "@ + right(dollars_text(line.target), 9) + "  need "@
            &&& row[3].0 == right(dollars_text(line.need), 9)
            &&& row[4].0 == "  fund "@ + right(dollars_text(line.give), 9)
            &&& remark(line) matches Some(span) ==> row[5] == span
            &&& !(line.kind is Topup) && line.current < line.target ==> row[1].1 is Red
            &&& !(line.kind is Topup) && line.current > line.target ==> row[1].1 is Blue
            &&& !(line.kind is Topup) && line.current == line.target ==> row[1].1 is Green
            &&& line.kind is Topup ==> row[1].1 is Plain
        }),
{
}

/// The rebalance view shows what a rebalance would move: what is ahead, what is behind,
/// and the net where there is one.
pub proof fn lemma_the_view_shows_what_a_rebalance_moves(lines: Seq<BillLineView>)
    ensures
        ({
            let shown = rebalance_spans(lines);
            let (ahead, behind) = (total(skims_of(lines)), total(fills_of(lines)));
            let net = if ahead == behind { 0nat } else { 2nat };
            let held = if boundaries(lines) == 0 { 0nat } else { 2nat };
            &&& shown.len() == 3 + net + held
            &&& shown[1].0 == "ahead of pace "@ + dollars_text(ahead) + "  ·  behind "@ + dollars_text(behind)
            &&& ahead > behind ==> shown[3].1 is Green && shown[3].0 == "net "@ + dollars_text(ahead - behind)
                + " reclaimable → reclaim pod (run `maestro rebalance`)"@
            &&& ahead < behind ==> shown[3].1 is Red && shown[3].0 == "net "@ + dollars_text(ahead - behind)
                + " short — needs "@ + dollars_text(behind - ahead) + " from income to level up"@
        }),
{
    let (ahead, behind) = (total(skims_of(lines)), total(fills_of(lines)));
    assert(-(ahead - behind) == behind - ahead);
}

/// A report is shown whole: the table, the rebalance view, and a section for each list
/// that is not empty.
pub proof fn lemma_a_report_is_shown_whole(report: ReportView)
    ensures
        ({
            let listed = |n: nat| if n == 0 { 0nat } else { 3 + 3 * n };
            rendered(report).len() == table(report.lines).len() + rebalance_spans(report.lines).len() + listed(
                report.not_funded.len(),
            ) + listed(report.migrate.len()) + listed(report.notes.len()) + listed(report.warnings.len()) + (
            if report.ignored.len() == 0 {
                0nat
            } else {
                3nat
            })
        }),
{
    lemma_section_length(report.not_funded, Style::Red);
    lemma_section_length(report.migrate, Style::Plain);
    lemma_section_length(report.notes, Style::Dimmed);
    lemma_section_length(report.warnings, Style::Yellow);
}

proof fn lemma_section_length(items: Seq<Seq<char>>, style: Style)
    ensures
        item_spans(items, style).len() == 3 * items.len(),
{
    if items.len() > 0 {
        lemma_items_are_listed(items, style, 0);
    }
}

/// A list stands in an accounting at `at`: its heading, and each item on a line below it.
pub open spec fn listed_at(
    shown: Seq<(Seq<char>, Style)>,
    at: int,
    heading: (Seq<char>, Style),
    items: Seq<Seq<char>>,
    style: Style,
) -> bool {
    items.len() > 0 ==> {
        &&& shown[at + 1] == heading
        &&& forall|i: int| 0 <= i < items.len() ==> shown[at + 3 + 3 * i + 1] == (#[trigger] items[i], style)
    }
}

/// How many pieces a list takes.
pub open spec fn room(items: Seq<Seq<char>>) -> nat {
    if items.len() == 0 {
        0
    } else {
        3 + 3 * items.len()
    }
}

/// Below the table an accounting lists what is not funded, what is on old naming, the
/// notes and the warnings, each under its own heading, and last what is ignored.
#[verifier::spinoff_prover]
#[verifier::rlimit(50)]
pub proof fn lemma_lists_stand_under_their_headings(report: ReportView)
    ensures
        ({
            let shown = rendered(report);
            let a = (table(report.lines).len() + rebalance_spans(report.lines).len()) as int;
            let b = a + room(report.not_funded);
            let c = b + room(report.migrate);
            let d = c + room(report.notes);
            let e = d + room(report.warnings);
            &&& listed_at(
                shown,
                a,
                ("[!] NOT funded — fix the name:"@, Style::RedBold),
                report.not_funded,
                Style::Red,
            )
            &&& listed_at(
                shown,
                b,
                ("still on old naming ("@ + decimal(report.migrate.len()) + "):"@, Style::Yellow),
                report.migrate,
                Style::Plain,
            )
            &&& listed_at(shown, c, ("notes:"@, Style::Cyan), report.notes, Style::Dimmed)
            &&& listed_at(shown, d, ("[!] warnings:"@, Style::YellowBold), report.warnings, Style::Yellow)
            &&& report.ignored.len() > 0 ==> shown[e + 1] == (
                "ignored — not bills ("@ + decimal(report.ignored.len()) + "): "@ + joined_by(report.ignored, ", "@),
                Style::Dimmed,
            )
        }),
{
    let top = table(report.lines) + rebalance_spans(report.lines);
    let unfunded = section("[!] NOT funded — fix the name:"@, Style::RedBold, report.not_funded, Style::Red);
    let old = section(
        "still on old naming ("@ + decimal(report.migrate.len()) + "):"@,
        Style::Yellow,
        report.migrate,
        Style::Plain,
    );
    let notes = section("notes:"@, Style::Cyan, report.notes, Style::Dimmed);
    let warnings = section("[!] warnings:"@, Style::YellowBold, report.warnings, Style::Yellow);
    let ignored = ignored_spans(report.ignored);
    lemma_items_are_joined(report.ignored);
    lemma_a_list_stands_where_it_is_put(
        top,
        old + notes + warnings + ignored,
        ("[!] NOT funded — fix the name:"@, Style::RedBold),
        report.not_funded,
        Style::Red,
    );
    lemma_a_list_stands_where_it_is_put(
        top + unfunded,
        notes + warnings + ignored,
        ("still on old naming ("@ + decimal(report.migrate.len()) + "):"@, Style::Yellow),
        report.migrate,
        Style::Plain,
    );
    lemma_a_list_stands_where_it_is_put(
        top + unfunded + old,
        warnings + ignored,
        ("notes:"@, Style::Cyan),
        report.notes,
        Style::Dimmed,
    );
    lemma_a_list_stands_where_it_is_put(
        top + unfunded + old + notes,
        ignored,
        ("[!] warnings:"@, Style::YellowBold),
        report.warnings,
        Style::Yellow,
    );
    let shown = rendered(report);
    assert(shown == top + unfunded + (old + notes + warnings + ignored));
    assert(shown == top + unfunded + old + (notes + warnings + ignored));
    assert(shown == top + unfunded + old + notes + (warnings + ignored));
    assert(shown == top + unfunded + old + notes + warnings + ignored);
}

proof fn lemma_a_list_stands_where_it_is_put(
    before: Seq<(Seq<char>, Style)>,
    after: Seq<(Seq<char>, Style)>,
    heading: (Seq<char>, Style),
    items: Seq<Seq<char>>,
    style: Style,
)
    ensures
        listed_at(
            before + section(heading.0, heading.1, items, style) + after,
            before.len() as int,
            heading,
            items,
            style,
        ),
        section(heading.0, heading.1, items, style).len() == room(items),
{
    let own = section(heading.0, heading.1, items, style);
    let shown = before + own + after;
    let n = before.len() as int;
    if items.len() > 0 {
        lemma_every_item_is_shown(heading.0, heading.1, items, style, 0);
        assert(shown[n + 1] == own[1]);
        assert forall|i: int| 0 <= i < items.len() implies shown[n + 3 + 3 * i + 1] == (#[trigger] items[i], style) by {
            lemma_every_item_is_shown(heading.0, heading.1, items, style, i);
            assert(shown[n + 3 + 3 * i + 1] == own[3 + 3 * i + 1]);
        }
    }
}

proof fn lemma_items_are_joined(items: Seq<Seq<char>>)
    ensures
        comma_list(items) == joined_by(items, ", "@),
    decreases items.len(),
{
    if items.len() > 1 {
        lemma_items_are_joined(items.drop_last());
        lemma_last_part_is_joined_last(items, ", "@);
    }
}

} // verus!
