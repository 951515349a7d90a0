//! Amounts and names kept per pod: balances, contributions, reservations.

use crate::text::same_text;
use vstd::prelude::*;

verus! {

/// An amount in cents for each of some pods, by pod id.
#[derive(Debug)]
pub struct PodAmounts {
    entries: Vec<(String, i64)>,
}

/// What the entries say: of two entries for one pod the later counts.
spec fn entries_map(entries: Seq<(String, i64)>) -> Map<Seq<char>, i64>
    decreases entries.len(),
{
    if entries.len() == 0 {
        Map::empty()
    } else {
        entries_map(entries.drop_last()).insert(entries.last().0@, entries.last().1)
    }
}

/// The amount of a pod, nothing where it has none.
pub open spec fn amount_of(amounts: Map<Seq<char>, i64>, pod: Seq<char>) -> i64 {
    if amounts.dom().contains(pod) {
        amounts[pod]
    } else {
        0
    }
}

impl View for PodAmounts {
    type V = Map<Seq<char>, i64>;

    closed spec fn view(&self) -> Map<Seq<char>, i64> {
        entries_map(self.entries@)
    }
}

impl PodAmounts {
    pub fn new() -> (amounts: PodAmounts)
        ensures
            amounts@ == Map::<Seq<char>, i64>::empty(),
    {
        PodAmounts { entries: Vec::new() }
    }

    /// Sets the amount of a pod.
    pub fn insert(&mut self, pod: String, cents: i64)
        ensures
            final(self)@ == old(self)@.insert(pod@, cents),
    {
        self.entries.push((pod, cents));
        assert(self.entries@.drop_last() == old(self).entries@);
    }

    pub fn get(&self, pod: &str) -> (cents: Option<i64>)
        ensures
            cents == if self@.dom().contains(pod@) {
                Some(self@[pod@])
            } else {
                None
            },
    {
        let mut n: usize = self.entries.len();
        assert(self.entries@.take(n as int) == self.entries@);
        while n > 0
            invariant
                n <= self.entries@.len(),
                self@.dom().contains(pod@) == entries_map(self.entries@.take(n as int)).dom().contains(pod@),
                self@.dom().contains(pod@) ==> self@[pod@] == entries_map(self.entries@.take(n as int))[pod@],
            decreases n,
        {
            assert(self.entries@.take(n as int).drop_last() == self.entries@.take(n - 1));
            if same_text(self.entries[n - 1].0.as_str(), pod) {
                return Some(self.entries[n - 1].1);
            }
            n -= 1;
        }
        None
    }

    /// The amount of a pod, nothing where it has none.
    pub fn amount(&self, pod: &str) -> (cents: i64)
        ensures
            cents == amount_of(self@, pod@),
    {
        match self.get(pod) {
            Some(cents) => cents,
            None => 0,
        }
    }

    /// A copy of its own.
    pub fn copy(&self) -> (other: PodAmounts)
        ensures
            other@ == self@,
    {
        let mut other = PodAmounts::new();
        let mut i: usize = 0;
        assert(self.entries@.take(0) == Seq::<(String, i64)>::empty());
        while i < self.entries.len()
            invariant
                i <= self.entries@.len(),
                other@ == entries_map(self.entries@.take(i as int)),
            decreases self.entries@.len() - i,
        {
            assert(self.entries@.take(i + 1).drop_last() == self.entries@.take(i as int));
            other.insert(self.entries[i].0.clone(), self.entries[i].1);
            i += 1;
        }
        assert(self.entries@.take(self.entries@.len() as int) == self.entries@);
        other
    }

    /// Takes over the amounts of others.
    pub fn merge(&mut self, others: &PodAmounts)
        ensures
            final(self)@ == old(self)@.union_prefer_right(others@),
    {
        let mut i: usize = 0;
        assert(others.entries@.take(0) == Seq::<(String, i64)>::empty());
        assert(self@ == old(self)@.union_prefer_right(entries_map(others.entries@.take(0))));
        while i < others.entries.len()
            invariant
                i <= others.entries@.len(),
                self@ == old(self)@.union_prefer_right(entries_map(others.entries@.take(i as int))),
            decreases others.entries@.len() - i,
        {
            assert(others.entries@.take(i + 1).drop_last() == others.entries@.take(i as int));
            self.insert(others.entries[i].0.clone(), others.entries[i].1);
            i += 1;
            assert(self@ == old(self)@.union_prefer_right(entries_map(others.entries@.take(i as int))));
        }
        assert(others.entries@.take(i as int) == others.entries@);
    }
}

/// What is left of the amounts when others are set aside: nothing less than nothing.
pub open spec fn after_reserving(amounts: Map<Seq<char>, i64>, reserved: Map<Seq<char>, i64>) -> Map<Seq<char>, i64> {
    Map::new(
        |pod: Seq<char>| amounts.dom().contains(pod) || reserved.dom().contains(pod),
        |pod: Seq<char>|
            if reserved.dom().contains(pod) {
                left_over(amount_of(amounts, pod), reserved[pod])
            } else {
                amounts[pod]
            },
    )
}

pub open spec fn left_over(cents: i64, reserved: i64) -> i64 {
    if cents - reserved > 0 {
        (cents - reserved) as i64
    } else {
        0
    }
}

impl PodAmounts {
    /// What is left when reserved amounts are set aside: nothing less than nothing.
    pub fn reserving(&self, reserved: &PodAmounts) -> (left: PodAmounts)
        requires
            forall|pod: Seq<char>| reserved@.dom().contains(pod) ==> 0 <= #[trigger] reserved@[pod],
        ensures
            left@ == after_reserving(self@, reserved@),
    {
        let mut left = self.copy();
        let mut i: usize = 0;
        let ghost all = reserved.entries@;
        assert(all.take(0) == Seq::<(String, i64)>::empty());
        assert(left@ == after_reserving(self@, reserved@.restrict(entries_map(all.take(0)).dom())));
        while i < reserved.entries.len()
            invariant
                i <= reserved.entries@.len(),
                all == reserved.entries@,
                forall|pod: Seq<char>| reserved@.dom().contains(pod) ==> 0 <= #[trigger] reserved@[pod],
                left@ == after_reserving(self@, reserved@.restrict(entries_map(all.take(i as int)).dom())),
            decreases reserved.entries@.len() - i,
        {
            let pod = reserved.entries[i].0.as_str();
            proof {
                lemma_entry_is_mapped(all, i as int);
                assert(all.take(i + 1).drop_last() == all.take(i as int));
            }
            let held: i128 = self.amount(pod) as i128;
            let set_aside: i128 = reserved.amount(pod) as i128;
            let rest: i64 = if held - set_aside > 0 {
                (held - set_aside) as i64
            } else {
                0
            };
            left.insert(reserved.entries[i].0.clone(), rest);
            i += 1;
            assert(left@ == after_reserving(self@, reserved@.restrict(entries_map(all.take(i as int)).dom())));
        }
        assert(all.take(i as int) == all);
        assert(reserved@.restrict(entries_map(all).dom()) == reserved@);
        left
    }
}

proof fn lemma_entry_is_mapped(entries: Seq<(String, i64)>, i: int)
    requires
        0 <= i < entries.len(),
    ensures
        entries_map(entries).dom().contains(entries[i].0@),
    decreases entries.len(),
{
    if i < entries.len() - 1 {
        lemma_entry_is_mapped(entries.drop_last(), i);
    }
}

/// The display names of accounts, by account id.
#[derive(Debug)]
pub struct Names {
    entries: Vec<(String, String)>,
}

/// What the entries say: of two entries for one account the later counts.
spec fn names_map(entries: Seq<(String, String)>) -> Map<Seq<char>, Seq<char>>
    decreases entries.len(),
{
    if entries.len() == 0 {
        Map::empty()
    } else {
        names_map(entries.drop_last()).insert(entries.last().0@, entries.last().1@)
    }
}

/// An account's name, or its id where it has none.
pub open spec fn name_of(names: Map<Seq<char>, Seq<char>>, id: Seq<char>) -> Seq<char> {
    if names.dom().contains(id) {
        names[id]
    } else {
        id
    }
}

impl View for Names {
    type V = Map<Seq<char>, Seq<char>>;

    closed spec fn view(&self) -> Map<Seq<char>, Seq<char>> {
        names_map(self.entries@)
    }
}

impl Names {
    pub fn new() -> (names: Names)
        ensures
            names@ == Map::<Seq<char>, Seq<char>>::empty(),
    {
        Names { entries: Vec::new() }
    }

    /// Names an account.
    pub fn insert(&mut self, id: String, name: String)
        ensures
            final(self)@ == old(self)@.insert(id@, name@),
    {
        self.entries.push((id, name));
        assert(self.entries@.drop_last() == old(self).entries@);
    }

    pub fn get(&self, id: &str) -> (name: Option<String>)
        ensures
            match name {
                Some(n) => self@.dom().contains(id@) && self@[id@] == n@,
                None => !self@.dom().contains(id@),
            },
    {
        let mut n: usize = self.entries.len();
        assert(self.entries@.take(n as int) == self.entries@);
        while n > 0
            invariant
                n <= self.entries@.len(),
                self@.dom().contains(id@) == names_map(self.entries@.take(n as int)).dom().contains(id@),
                self@.dom().contains(id@) ==> self@[id@] == names_map(self.entries@.take(n as int))[id@],
            decreases n,
        {
            assert(self.entries@.take(n as int).drop_last() == self.entries@.take(n - 1));
            if same_text(self.entries[n - 1].0.as_str(), id) {
                return Some(self.entries[n - 1].1.clone());
            }
            n -= 1;
        }
        None
    }

    /// An account's name, or its id where it has none.
    pub fn name(&self, id: &str) -> (name: String)
        ensures
            name@ == name_of(self@, id@),
    {
        match self.get(id) {
            Some(name) => name,
            None => id.to_owned(),
        }
    }

    /// The id of an account with this name, where there is one.
    pub fn find(&self, name: &str) -> (id: Option<String>)
        ensures
            match id {
                Some(id) => self@.dom().contains(id@) && self@[id@] == name@,
                None => forall|id: Seq<char>| self@.dom().contains(id) ==> #[trigger] self@[id] != name@,
            },
    {
        let mut i: usize = 0;
        while i < self.entries.len()
            invariant
                i <= self.entries@.len(),
                forall|id: Seq<char>|
                    named_before(self.entries@, i as int, id) && self@.dom().contains(id) ==> #[trigger] self@[id]
                        != name@,
            decreases self.entries@.len() - i,
        {
            let id = self.entries[i].0.as_str();
            if let Some(found) = self.get(id) {
                if same_text(found.as_str(), name) {
                    return Some(self.entries[i].0.clone());
                }
            }
            assert forall|other: Seq<char>|
                named_before(self.entries@, i + 1, other) && self@.dom().contains(other) implies #[trigger] self@[other]
                != name@ by {
                if !named_before(self.entries@, i as int, other) {
                    assert(other == self.entries@[i as int].0@);
                }
            }
            i += 1;
        }
        proof {
            assert forall|id: Seq<char>| self@.dom().contains(id) implies #[trigger] self@[id] != name@ by {
                lemma_named_somewhere(self.entries@, id);
            }
        }
        None
    }
}

spec fn named_before(entries: Seq<(String, String)>, n: int, id: Seq<char>) -> bool {
    exists|i: int| 0 <= i < n && (#[trigger] entries[i]).0@ == id
}

proof fn lemma_named_somewhere(entries: Seq<(String, String)>, id: Seq<char>)
    requires
        names_map(entries).dom().contains(id),
    ensures
        named_before(entries, entries.len() as int, id),
    decreases entries.len(),
{
    if entries.last().0@ == id {
        assert(entries[entries.len() - 1].0@ == id);
    } else {
        lemma_named_somewhere(entries.drop_last(), id);
        let i = choose|i: int| 0 <= i < entries.len() - 1 && (#[trigger] entries.drop_last()[i]).0@ == id;
        assert(entries[i].0@ == id);
    }
}

/// Setting amounts aside lowers each pod by its own, to nothing at the least, and
/// leaves every other pod as it is.
pub proof fn lemma_setting_aside_lowers_only_its_pod(
    amounts: Map<Seq<char>, i64>,
    reserved: Map<Seq<char>, i64>,
    pod: Seq<char>,
)
    requires
        forall|p: Seq<char>| reserved.dom().contains(p) ==> 0 <= #[trigger] reserved[p],
    ensures
        ({
            let left = amount_of(after_reserving(amounts, reserved), pod);
            &&& !reserved.dom().contains(pod) ==> left == amount_of(amounts, pod)
            &&& reserved.dom().contains(pod) ==> left == if amount_of(amounts, pod) > reserved[pod] {
                amount_of(amounts, pod) - reserved[pod]
            } else {
                0
            }
        }),
{
}

} // verus!
