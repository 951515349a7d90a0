//! What the engine reads of the Sequence Platform, as plain values: accounts,
//! transfers, card transactions and rules.

use vstd::prelude::*;

verus! {

#[derive(Debug, Clone, Copy, PartialEq, Eq, Structural)]
pub enum AccountType {
    Pod,
    IncomeSource,
    /// Any other account: external, a liability, an investment.
    Other,
}

#[derive(Debug, Clone)]
pub struct AccountSummary {
    pub id: String,
    pub name: String,
    pub account_type: AccountType,
}

#[derive(Debug, Clone, Copy, PartialEq, Eq, Structural)]
pub enum TransferDirection {
    MoneyIn,
    MoneyOut,
    /// Between two pods.
    Internal,
}

/// How far a transfer or a card transaction has come.
#[derive(Debug, Clone, PartialEq, Eq)]
pub enum TransferStatus {
    /// The money has moved.
    Complete,
    Pending,
    Error,
    /// Any other status, by its name: it has not moved the money.
    Other { label: String },
}

/// One end of a transfer.
#[derive(Debug, Clone)]
pub struct Participant {
    pub id: Option<String>,
    pub name: String,
    pub is_pod: bool,
}

#[derive(Debug, Clone)]
pub struct Transfer {
    pub amount_in_cents: i64,
    pub direction: TransferDirection,
    pub source: Option<Participant>,
    pub destination: Option<Participant>,
    pub status: TransferStatus,
    pub created_at: String,
}

/// A card transaction.
#[derive(Debug, Clone)]
pub struct Transaction {
    pub amount_in_cents: i64,
    pub direction: TransferDirection,
    pub is_refund: bool,
    pub status: TransferStatus,
    pub description: String,
    pub created_at: String,
}

/// The account at one end of a rule's action.
#[derive(Debug, Clone)]
pub struct AccountNode {
    pub id: String,
    pub name: Option<String>,
}

#[derive(Debug, Clone, Copy, PartialEq, Eq, Structural)]
pub enum TransferCapPeriod {
    PerTransfer,
    PerWeek,
    PerMonth,
    PerYear,
}

#[derive(Debug, Clone, Copy, PartialEq, Eq, Structural)]
pub struct TransferCap {
    pub amount_in_cents: i64,
    pub period: TransferCapPeriod,
}

#[derive(Debug, Clone, Copy, PartialEq, Eq, Structural)]
pub enum PercentageTarget {
    IncomingAmount,
    SourceAccount,
}

/// What a rule's action moves.
#[derive(Debug, Clone)]
pub enum RuleActionKind {
    Fixed { amount_in_cents: i64 },
    /// A percentage, written out.
    Percentage { percentage: String, target: PercentageTarget },
    TopUp { amount_in_cents: Option<i64> },
    RoundDown { amount_in_cents: i64 },
    /// An amount that depends on more than the rule.
    Dynamic,
}

#[derive(Debug, Clone)]
pub struct RuleAction {
    pub source: AccountNode,
    pub destination: AccountNode,
    pub limit: Option<TransferCap>,
    pub kind: RuleActionKind,
}

#[derive(Debug, Clone)]
pub struct RuleStep {
    pub is_conditional: bool,
    pub actions: Vec<RuleAction>,
}

/// What sets a rule off.
#[derive(Debug, Clone)]
pub enum Trigger {
    OnFundsTransferred { account_id: String },
    /// On a schedule, by its name.
    Scheduled { schedule: String },
    Manual,
}

#[derive(Debug, Clone)]
pub struct Rule {
    pub name: Option<String>,
    pub enabled: bool,
    /// The rule's status, by its name.
    pub status: String,
    pub trigger: Trigger,
    pub steps: Vec<RuleStep>,
}

} // verus!
