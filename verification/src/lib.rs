//! Personal money-automation engine. The brain is a pure, stateless allocator
//! (declared budget + pod balances + today's date → transfers to fund each
//! bill toward its due date); a long-running daemon schedules and executes it.
//!
//! Everything here is verified: the calendar, the pay schedule, the pod-name
//! grammar, the allocator and the cycle's accounting. Reading the API, moving
//! the money and printing belong to the application around it.

pub mod allocator;
pub mod api;
pub mod assess;
pub mod budget;
pub mod cards;
pub mod commands;
pub mod config;
pub mod daemon;
pub mod date;
pub mod derive;
pub mod discover;
pub mod engine;
pub mod fetch;
pub mod ledger;
pub mod matching;
pub mod model;
pub mod money;
pub mod order;
pub mod rules;
pub mod schedule;
pub mod spend;
pub mod state;
pub mod style;
pub mod sums;
pub mod text;
