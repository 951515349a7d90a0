//! Engine settings that decide what moves: the rollout phase, and the funding
//! rhythm and strategy that onboarding found.

use crate::allocator::FundingStrategy;
use crate::schedule::{PaySchedule, PayScheduleView};
use crate::state::State;
use crate::text::{ascii_lower, ascii_lower_chars, chars_of, spells, string_of, trim, trim_chars};
use vstd::prelude::*;
use vstd::string::StringExecFns;

verus! {

/// How much of the funding plan the engine is allowed to execute — the rollout
/// dial for handing transfers over from Sequence's rules to maestro one leg at a
/// time. The plan is computed in full regardless; this only gates what moves.
#[derive(Debug, Clone, Copy, PartialEq, Eq, Structural)]
pub enum Phase {
    /// Move nothing — compute and log the whole plan, Sequence does the work.
    Shadow,
    /// Execute only top-level transfers (Income Fund → group / standalone bill);
    /// leave within-group distribution to Sequence's rules.
    Groups,
    /// Execute every leg — maestro owns the whole flow.
    Full,
}

impl Default for Phase {
    fn default() -> (phase: Self)
        ensures
            phase == Phase::Shadow,
    {
        Phase::Shadow
    }
}

/// A setting as it is compared: without white space around it, in lower case.
pub open spec fn setting(s: Seq<char>) -> Seq<char> {
    ascii_lower(trim(s))
}

/// The phase that a setting names.
pub open spec fn phase_named(s: Seq<char>) -> Option<Phase> {
    if setting(s) == "shadow"@ {
        Some(Phase::Shadow)
    } else if setting(s) == "groups"@ || setting(s) == "group"@ {
        Some(Phase::Groups)
    } else if setting(s) == "full"@ {
        Some(Phase::Full)
    } else {
        None
    }
}

impl Phase {
    pub fn from_str(s: &str) -> (phase: Result<Phase, String>)
        ensures
            match phase {
                Ok(p) => phase_named(s@) == Some(p),
                Err(e) => phase_named(s@) is None && e@ == "unknown MAESTRO_PHASE '"@ + setting(s@)
                    + "' (use shadow|groups|full)"@,
            },
    {
        let word = ascii_lower_chars(&trim_chars(&chars_of(s)));
        if spells(&word, "shadow") {
            return Ok(Phase::Shadow);
        }
        if spells(&word, "groups") || spells(&word, "group") {
            return Ok(Phase::Groups);
        }
        if spells(&word, "full") {
            return Ok(Phase::Full);
        }
        let mut text = "unknown MAESTRO_PHASE '".to_owned();
        text.append(string_of(&word).as_str());
        text.append("' (use shadow|groups|full)");
        Err(text)
    }
}

/// The funding rhythm to plan against. Falls back to the semi-monthly
/// default (with a caller-visible flag) when no state file exists yet.
pub fn pay_schedule(file: Option<&State>) -> (found: (PaySchedule, bool))
    ensures
        found.1 == (file is Some),
        match file {
            Some(f) => found.0@ == f.pay_schedule@,
            None => found.0@ == (PayScheduleView::SemiMonthly { days: seq![15i32, -1i32] }),
        },
{
    match file {
        Some(f) => (f.pay_schedule.clone(), true),
        None => (PaySchedule::default(), false),
    }
}

/// The rationing strategy from the state file, or the default.
pub fn funding_strategy(file: Option<&State>) -> (strategy: FundingStrategy)
    ensures
        strategy == match file {
            Some(f) => f.funding_strategy,
            None => FundingStrategy::SoonestDue,
        },
{
    match file {
        Some(f) => f.funding_strategy,
        None => FundingStrategy::default(),
    }
}

/// A phase is named in any case and with any white space around it, and by its name
/// alone: a setting names the phase that its trimmed, lower-case form does.
pub proof fn lemma_phases_by_their_names(s: Seq<char>)
    ensures
        phase_named(s) == Some(Phase::Shadow) <==> setting(s) == "shadow"@,
        phase_named(s) == Some(Phase::Groups) <==> setting(s) == "groups"@ || setting(s) == "group"@,
        phase_named(s) == Some(Phase::Full) <==> setting(s) == "full"@,
        setting(s).len() == 0 ==> phase_named(s) is None,
{
    reveal_strlit("shadow");
    reveal_strlit("groups");
    reveal_strlit("group");
    reveal_strlit("full");
    assert("shadow"@.len() == 6 && "groups"@.len() == 6 && "group"@.len() == 5 && "full"@.len() == 4);
    assert("shadow"@[0] == 's' && "groups"@[0] == 'g');
}

} // verus!
