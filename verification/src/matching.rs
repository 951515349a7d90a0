//! Matching by name, whatever the case: names in lower case, and which of them hold a word.

use crate::api::{AccountSummary, AccountType};
use crate::daemon::pairs;
use crate::derive::text_view;
use crate::model::texts;
use crate::text::{contains_text, holds, lowercase, to_lowercase};
use vstd::prelude::*;

verus! {

pub open spec fn lowercase_all(names: Seq<Seq<char>>) -> Seq<Seq<char>> {
    Seq::new(names.len(), |i: int| lowercase(names[i]))
}

/// Each name in lower case.
pub(crate) fn lower_all(names: &Vec<String>) -> (lower: Vec<String>)
    ensures
        texts(lower@) == lowercase_all(texts(names@)),
{
    let mut lower: Vec<String> = Vec::new();
    let mut i: usize = 0;
    while i < names.len()
        invariant
            i <= names@.len(),
            texts(lower@) == lowercase_all(texts(names@)).take(i as int),
        decreases names@.len() - i,
    {
        let ghost held = lower@;
        lower.push(to_lowercase(names[i].as_str()));
        assert(texts(lower@) == texts(held).push(lowercase(names@[i as int]@)));
        i += 1;
        assert(texts(lower@) == lowercase_all(texts(names@)).take(i as int));
    }
    assert(lowercase_all(texts(names@)).take(i as int) == lowercase_all(texts(names@)));
    lower
}

/// The names of the accounts.
pub open spec fn listed(accounts: Seq<AccountSummary>) -> Seq<Seq<char>> {
    Seq::new(accounts.len(), |i: int| accounts[i].name@)
}

pub(crate) fn list_names(accounts: &Vec<AccountSummary>) -> (names: Vec<String>)
    ensures
        texts(names@) == listed(accounts@),
{
    let mut names: Vec<String> = Vec::new();
    let mut i: usize = 0;
    while i < accounts.len()
        invariant
            i <= accounts@.len(),
            texts(names@) == listed(accounts@).take(i as int),
        decreases accounts@.len() - i,
    {
        let ghost held = names@;
        names.push(accounts[i].name.clone());
        assert(texts(names@) == texts(held).push(accounts@[i as int].name@));
        i += 1;
        assert(texts(names@) == listed(accounts@).take(i as int));
    }
    assert(listed(accounts@).take(i as int) == listed(accounts@));
    names
}

/// One of the names holds the word.
pub open spec fn one_holds(names: Seq<Seq<char>>, word: Seq<char>) -> bool {
    exists|i: int| 0 <= i < names.len() && contains_text(#[trigger] names[i], word)
}

/// Whether one of the names holds the word, in the case that they are written in.
pub fn any_holds(names: &Vec<String>, word: &str) -> (found: bool)
    ensures
        found == one_holds(texts(names@), word@),
{
    let mut i: usize = 0;
    while i < names.len()
        invariant
            i <= names@.len(),
            forall|j: int| 0 <= j < i ==> !contains_text(#[trigger] texts(names@)[j], word@),
        decreases names@.len() - i,
    {
        assert(texts(names@)[i as int] == names@[i as int]@);
        if holds(names[i].as_str(), word) {
            return true;
        }
        i += 1;
    }
    false
}

/// The first name that holds a word in its lower-case form.
pub open spec fn first_holding(names: Seq<Seq<char>>, lower: Seq<Seq<char>>, word: Seq<char>) -> Option<Seq<char>>
    decreases names.len(),
{
    if names.len() == 0 || lower.len() == 0 {
        None
    } else if contains_text(lower[0], word) {
        Some(names[0])
    } else {
        first_holding(names.drop_first(), lower.drop_first(), word)
    }
}

/// The first account whose name, in the lower-case form given for it, holds a word.
pub fn find_holding(accounts: &Vec<AccountSummary>, lower: &Vec<String>, word: &str) -> (name: Option<String>)
    requires
        lower@.len() == accounts@.len(),
    ensures
        text_view(name) == first_holding(listed(accounts@), texts(lower@), word@),
{
    let ghost names = listed(accounts@);
    let ghost forms = texts(lower@);
    let mut i: usize = 0;
    assert(names.skip(0) == names && forms.skip(0) == forms);
    while i < accounts.len()
        invariant
            i <= accounts@.len(),
            names == listed(accounts@),
            forms == texts(lower@),
            lower@.len() == accounts@.len(),
            first_holding(names, forms, word@) == first_holding(names.skip(i as int), forms.skip(i as int), word@),
        decreases accounts@.len() - i,
    {
        assert(names.skip(i as int)[0] == accounts@[i as int].name@);
        assert(forms.skip(i as int)[0] == lower@[i as int]@);
        assert(names.skip(i as int).drop_first() == names.skip(i + 1));
        assert(forms.skip(i as int).drop_first() == forms.skip(i + 1));
        if holds(lower[i].as_str(), word) {
            return Some(accounts[i].name.clone());
        }
        i += 1;
    }
    None
}

/// The ids and names of the pods whose lower-case name holds the word, in order.
pub open spec fn pods_holding(
    accounts: Seq<AccountSummary>,
    lower: Seq<Seq<char>>,
    word: Seq<char>,
) -> Seq<(Seq<char>, Seq<char>)>
    decreases accounts.len(),
{
    if accounts.len() == 0 || lower.len() == 0 {
        Seq::empty()
    } else {
        let before = pods_holding(accounts.drop_last(), lower.drop_last(), word);
        if accounts.last().account_type == AccountType::Pod && contains_text(lower.last(), word) {
            before.push((accounts.last().id@, accounts.last().name@))
        } else {
            before
        }
    }
}

/// The pods whose name, in the lower-case form given for it, holds a word: id and name.
pub fn pick_pods(accounts: &Vec<AccountSummary>, lower: &Vec<String>, word: &str) -> (found: Vec<(String, String)>)
    requires
        lower@.len() == accounts@.len(),
    ensures
        pairs(found@) == pods_holding(accounts@, texts(lower@), word@),
{
    let ghost forms = texts(lower@);
    let mut found: Vec<(String, String)> = Vec::new();
    let mut i: usize = 0;
    assert(pairs(found@) == pods_holding(accounts@.take(0), forms.take(0), word@));
    while i < accounts.len()
        invariant
            i <= accounts@.len(),
            forms == texts(lower@),
            lower@.len() == accounts@.len(),
            pairs(found@) == pods_holding(accounts@.take(i as int), forms.take(i as int), word@),
        decreases accounts@.len() - i,
    {
        let a = &accounts[i];
        assert(accounts@.take(i + 1).drop_last() == accounts@.take(i as int));
        assert(forms.take(i + 1).drop_last() == forms.take(i as int));
        assert(forms.take(i + 1).last() == lower@[i as int]@);
        if a.account_type == AccountType::Pod && holds(lower[i].as_str(), word) {
            let ghost held = found@;
            found.push((a.id.clone(), a.name.clone()));
            assert(pairs(found@) == pairs(held).push((a.id@, a.name@)));
        }
        i += 1;
    }
    assert(accounts@.take(i as int) == accounts@);
    assert(forms.take(i as int) == forms);
    found
}

/// The name found is the first whose lower-case form holds the word; none is found only
/// where none does.
pub proof fn lemma_the_first_name_counts(names: Seq<Seq<char>>, lower: Seq<Seq<char>>, word: Seq<char>)
    requires
        names.len() == lower.len(),
    ensures
        match first_holding(names, lower, word) {
            Some(name) => exists|i: int|
                {
                    &&& 0 <= i < names.len()
                    &&& names[i] == name
                    &&& contains_text(#[trigger] lower[i], word)
                    &&& forall|j: int| 0 <= j < i ==> !contains_text(#[trigger] lower[j], word)
                },
            None => forall|i: int| 0 <= i < lower.len() ==> !contains_text(#[trigger] lower[i], word),
        },
    decreases names.len(),
{
    if names.len() > 0 && !contains_text(lower[0], word) {
        let rest = lower.drop_first();
        lemma_the_first_name_counts(names.drop_first(), rest, word);
        match first_holding(names, lower, word) {
            Some(name) => {
                let i = choose|i: int|
                    {
                        &&& 0 <= i < rest.len()
                        &&& names.drop_first()[i] == name
                        &&& contains_text(#[trigger] rest[i], word)
                        &&& forall|j: int| 0 <= j < i ==> !contains_text(#[trigger] rest[j], word)
                    };
                assert(contains_text(lower[i + 1], word));
                assert forall|j: int| 0 <= j < i + 1 implies !contains_text(#[trigger] lower[j], word) by {
                    if j > 0 {
                        assert(!contains_text(rest[j - 1], word));
                    }
                }
            },
            None => {
                assert forall|i: int| 0 <= i < lower.len() implies !contains_text(#[trigger] lower[i], word) by {
                    if i > 0 {
                        assert(!contains_text(rest[i - 1], word));
                    }
                }
            },
        }
    }
}

/// Pods are picked one by one, in order: those whose lower-case name holds the word.
pub proof fn lemma_matching_pods_are_picked_one_by_one(
    a: Seq<AccountSummary>,
    b: Seq<AccountSummary>,
    lower_a: Seq<Seq<char>>,
    lower_b: Seq<Seq<char>>,
    word: Seq<char>,
)
    requires
        a.len() == lower_a.len(),
        b.len() == lower_b.len(),
    ensures
        pods_holding(a + b, lower_a + lower_b, word) == pods_holding(a, lower_a, word) + pods_holding(b, lower_b, word),
        a.len() == 0 ==> pods_holding(a, lower_a, word).len() == 0,
        a.len() == 1 ==> pods_holding(a, lower_a, word) == if a[0].account_type is Pod && contains_text(lower_a[0], word) {
            seq![(a[0].id@, a[0].name@)]
        } else {
            Seq::empty()
        },
    decreases b.len(),
{
    reveal_with_fuel(pods_holding, 2);
    if b.len() == 0 {
        assert(a + b == a);
        assert(lower_a + lower_b == lower_a);
    } else {
        assert((a + b).drop_last() == a + b.drop_last());
        assert((lower_a + lower_b).drop_last() == lower_a + lower_b.drop_last());
        lemma_matching_pods_are_picked_one_by_one(a, b.drop_last(), lower_a, lower_b.drop_last(), word);
    }
}

} // verus!
