//! The budget model the allocator plans against: groups of bills. Built in code
//! from the live Sequence pods (see `derive`) — not loaded from a config file.

use crate::derive::{day_view, Frequency, FrequencyView};
use vstd::prelude::*;

verus! {

/// The views of a list's elements.
pub open spec fn views<T: View>(s: Seq<T>) -> Seq<T::V> {
    Seq::new(s.len(), |i: int| s[i]@)
}

/// The views of a list of strings.
pub open spec fn texts(s: Seq<String>) -> Seq<Seq<char>> {
    Seq::new(s.len(), |i: int| s[i]@)
}

#[derive(Debug, Clone)]
pub struct Budget {
    /// Where funds are pulled from (the income/pool pod).
    pub pool_pod_id: String,
    pub categories: Vec<Category>,
}

#[derive(Debug, Clone)]
pub struct Category {
    pub name: String,
    pub pod_id: String,
    pub bills: Vec<Bill>,
}

#[derive(Debug, Clone)]
pub struct Bill {
    pub name: String,
    pub pod_id: String,
    pub amount_cents: i64,
    /// `None` = no due date; fund by even accumulation over the frequency period.
    pub due_day: Option<u32>,
    pub frequency: Frequency,
}

pub ghost struct BudgetView {
    pub pool_pod_id: Seq<char>,
    pub categories: Seq<CategoryView>,
}

pub ghost struct CategoryView {
    pub name: Seq<char>,
    pub pod_id: Seq<char>,
    pub bills: Seq<BillView>,
}

pub ghost struct BillView {
    pub name: Seq<char>,
    pub pod_id: Seq<char>,
    pub amount_cents: int,
    pub due_day: Option<int>,
    pub frequency: FrequencyView,
}

impl View for Bill {
    type V = BillView;

    open spec fn view(&self) -> BillView {
        BillView {
            name: self.name@,
            pod_id: self.pod_id@,
            amount_cents: self.amount_cents as int,
            due_day: day_view(self.due_day),
            frequency: self.frequency@,
        }
    }
}

impl View for Category {
    type V = CategoryView;

    open spec fn view(&self) -> CategoryView {
        CategoryView { name: self.name@, pod_id: self.pod_id@, bills: views(self.bills@) }
    }
}

impl View for Budget {
    type V = BudgetView;

    open spec fn view(&self) -> BudgetView {
        BudgetView { pool_pod_id: self.pool_pod_id@, categories: views(self.categories@) }
    }
}

} // verus!
