use vstd::prelude::*;

verus! {

/// What kind of event a proc rolls on.
#[derive(Debug, Clone, Copy, PartialEq, Eq, Structural)]
pub enum Trigger {
    /// Every completed cast.
    OnCast,
    /// Every damaging cast.
    OnHit,
    /// Every damaging cast whose hit crits.
    OnCrit,
}

/// Whether a completed cast presents a roll for `trigger`: every cast
/// rolls `OnCast`; only a damaging cast rolls `OnHit` and `OnCrit` (an
/// `OnCrit` roll is then weighted by, or gated on, the hit's crit).
pub fn trigger_rolls(trigger: Trigger, damaging: bool) -> (r: bool)
    ensures
        r == (trigger == Trigger::OnCast || damaging),
{
    match trigger {
        Trigger::OnCast => true,
        Trigger::OnHit | Trigger::OnCrit => damaging,
    }
}

/// How many rolls one qualifying cast presents to a proc.
#[derive(Debug, Clone, Copy, PartialEq, Eq, Structural)]
pub enum ProcRolls {
    /// One roll per cast, whatever the hit count.
    PerCast,
    /// One roll per measured hit.
    PerHit,
}

/// Whether a proc whose action filter is `filter` considers a cast of
/// `action`: no filter admits every action; a list admits exactly the
/// actions it names.
pub fn proc_considers(filter: &Option<Vec<usize>>, action: usize) -> (r: bool)
    ensures
        r == match filter {
            None => true,
            Some(list) => list@.contains(action),
        },
{
    match filter {
        None => true,
        Some(list) => {
            let mut k: usize = 0;
            while k < list.len()
                invariant
                    filter matches Some(l) && l@ == list@,
                    0 <= k <= list@.len(),
                    forall|j: int| 0 <= j < k ==> list@[j] != action,
                decreases list@.len() - k,
            {
                if list[k] == action {
                    assert(list@[k as int] == action);
                    assert(list@.contains(action));
                    return true;
                }
                k = k + 1;
            }
            false
        },
    }
}

/// How many rolls a proc presents for one qualifying event: the measured
/// whole hit count under `PerHit` when the event carries one, else one.
pub fn roll_count(rolls: ProcRolls, hits: Option<u64>) -> (r: u64)
    ensures
        r == match (rolls, hits) {
            (ProcRolls::PerHit, Some(h)) => h,
            _ => 1,
        },
{
    match (rolls, hits) {
        (ProcRolls::PerHit, Some(h)) => h,
        _ => 1,
    }
}

/// Whether a proc that rolls on `proc_trigger`, with action filter
/// `filter`, is offered the `event` roll of a cast of `action`: its
/// trigger must be the event's, and its filter must admit the action.
pub fn proc_offered(
    proc_trigger: Trigger,
    event: Trigger,
    filter: &Option<Vec<usize>>,
    action: usize,
) -> (r: bool)
    ensures
        r == (proc_trigger == event && match filter {
            None => true,
            Some(list) => list@.contains(action),
        }),
{
    if proc_trigger != event {
        return false;
    }
    proc_considers(filter, action)
}

} // verus!
