use vstd::prelude::*;

verus! {

/// What one pass over an action's cost map found at a decision instant.
#[derive(Debug, Clone, Copy, PartialEq, Eq, Structural)]
pub enum Afford {
    /// Every cost is payable right now.
    Now,
    /// Not payable yet; linear regen affords the whole map at this time
    /// key, strictly after the decision instant.
    At(u64),
    /// Never payable from here.
    Never,
}

/// What one cost entry found at a decision instant.
#[derive(Debug, Clone, Copy, PartialEq, Eq, Structural)]
pub enum CostCheck {
    /// The resource already holds the amount.
    Covered,
    /// Short, with zero or negative regen, or the amount exceeds the cap.
    Unreachable,
    /// Short; linear regen reaches the amount at this time key.
    ReadyAt(u64),
}

/// The latest instant at which the entries of `s` are all payable, never
/// earlier than `now` (unreachable entries ignored).
pub open spec fn latest_ready(now: u64, s: Seq<CostCheck>) -> u64
    decreases s.len(),
{
    if s.len() == 0 {
        now
    } else {
        let l = latest_ready(now, s.drop_last());
        match s.last() {
            CostCheck::ReadyAt(t) => if t > l {
                t
            } else {
                l
            },
            _ => l,
        }
    }
}

/// `latest_ready` is the largest of `now` and every ready time among the
/// entries: no smaller than any of them, and equal to `now` or to one of
/// them.
pub proof fn lemma_latest_ready_is_the_maximum(now: u64, s: Seq<CostCheck>)
    ensures
        latest_ready(now, s) >= now,
        forall|i: int|
            0 <= i < s.len() ==> (#[trigger] s[i] matches CostCheck::ReadyAt(t) ==> latest_ready(
                now,
                s,
            ) >= t),
        latest_ready(now, s) == now || exists|i: int|
            0 <= i < s.len() && #[trigger] s[i] == CostCheck::ReadyAt(latest_ready(now, s)),
    decreases s.len(),
{
    if s.len() > 0 {
        let d = s.drop_last();
        lemma_latest_ready_is_the_maximum(now, d);
        assert forall|i: int| 0 <= i < d.len() implies d[i] == s[i] by {}
        let l = latest_ready(now, d);
        if latest_ready(now, s) != now {
            if latest_ready(now, s) == l {
                let i = choose|i: int| 0 <= i < d.len() && #[trigger] d[i] == CostCheck::ReadyAt(l);
                assert(s[i] == CostCheck::ReadyAt(l));
            } else {
                assert(s[s.len() - 1] == CostCheck::ReadyAt(latest_ready(now, s)));
            }
        }
    }
}

/// Some entry of `s` can never be paid.
pub open spec fn any_unreachable(s: Seq<CostCheck>) -> bool {
    exists|i: int| 0 <= i < s.len() && s[i] == CostCheck::Unreachable
}

/// The affordability of a whole cost map from its entries.
pub open spec fn afford_of(now: u64, s: Seq<CostCheck>) -> Afford {
    if any_unreachable(s) {
        Afford::Never
    } else if latest_ready(now, s) > now {
        Afford::At(latest_ready(now, s))
    } else {
        Afford::Now
    }
}

/// A cost map is never payable if some entry is unreachable; otherwise it
/// is payable now exactly when no entry becomes ready after now, and else
/// at the latest instant any entry becomes ready.
pub proof fn lemma_affordability_is_the_latest_ready_time(now: u64, s: Seq<CostCheck>)
    ensures
        (exists|i: int| 0 <= i < s.len() && s[i] == CostCheck::Unreachable) ==> afford_of(now, s)
            == Afford::Never,
        !(exists|i: int| 0 <= i < s.len() && s[i] == CostCheck::Unreachable) ==> {
            &&& (afford_of(now, s) == Afford::Now) <==> (forall|i: int|
                0 <= i < s.len() ==> (#[trigger] s[i] matches CostCheck::ReadyAt(t) ==> t <= now))
            &&& afford_of(now, s) matches Afford::At(m) ==> m > now && (exists|i: int|
                0 <= i < s.len() && #[trigger] s[i] == CostCheck::ReadyAt(m)) && forall|i: int|
                0 <= i < s.len() ==> (#[trigger] s[i] matches CostCheck::ReadyAt(t) ==> t <= m)
            &&& afford_of(now, s) != Afford::Never
        },
{
    lemma_latest_ready_is_the_maximum(now, s);
    let l = latest_ready(now, s);
    if !(exists|i: int| 0 <= i < s.len() && s[i] == CostCheck::Unreachable) {
        assert(!any_unreachable(s));
        if l > now {
            let i = choose|i: int| 0 <= i < s.len() && #[trigger] s[i] == CostCheck::ReadyAt(l);
            assert(s[i] matches CostCheck::ReadyAt(t) && t > now);
        } else {
            assert forall|i: int| 0 <= i < s.len() implies (#[trigger] s[i] matches CostCheck::ReadyAt(
                t,
            ) ==> t <= now) by {}
        }
    } else {
        let i = choose|i: int| 0 <= i < s.len() && s[i] == CostCheck::Unreachable;
        assert(any_unreachable(s));
    }
}

/// Combine one action's per-entry cost checks at the instant `now`: never
/// payable if any entry is unreachable, else payable at the latest
/// instant any entry becomes payable, which is "now" when none lies in the
/// future.
pub fn combine_costs(now: u64, checks: &Vec<CostCheck>) -> (r: Afford)
    ensures
        r == afford_of(now, checks@),
        r matches Afford::At(t) ==> t > now,
        (exists|i: int| 0 <= i < checks@.len() && checks@[i] == CostCheck::Unreachable) ==> r
            == Afford::Never,
        !(exists|i: int| 0 <= i < checks@.len() && checks@[i] == CostCheck::Unreachable) ==> {
            &&& (r == Afford::Now) <==> (forall|i: int|
                0 <= i < checks@.len() ==> (#[trigger] checks@[i] matches CostCheck::ReadyAt(t)
                    ==> t <= now))
            &&& r matches Afford::At(m) ==> (exists|i: int|
                0 <= i < checks@.len() && #[trigger] checks@[i] == CostCheck::ReadyAt(m)) && forall|
                i: int,
            |
                0 <= i < checks@.len() ==> (#[trigger] checks@[i] matches CostCheck::ReadyAt(t) ==> t
                    <= m)
            &&& r != Afford::Never
        },
{
    let mut latest = now;
    let mut never = false;
    let mut k: usize = 0;
    while k < checks.len()
        invariant
            0 <= k <= checks@.len(),
            latest == latest_ready(now, checks@.take(k as int)),
            never == any_unreachable(checks@.take(k as int)),
        decreases checks@.len() - k,
    {
        let ghost p = checks@.take(k as int);
        let ghost q = checks@.take(k + 1);
        assert(q.drop_last() =~= p);
        assert(q.last() == checks@[k as int]);
        match checks[k] {
            CostCheck::Covered => {},
            CostCheck::Unreachable => {
                never = true;
            },
            CostCheck::ReadyAt(t) => {
                if t > latest {
                    latest = t;
                }
            },
        }
        proof {
            if any_unreachable(q) {
                let i = choose|i: int| 0 <= i < q.len() && q[i] == CostCheck::Unreachable;
                if i < k {
                    assert(p[i] == q[i]);
                }
            }
            if any_unreachable(p) {
                let i = choose|i: int| 0 <= i < p.len() && p[i] == CostCheck::Unreachable;
                assert(q[i] == p[i]);
            }
            if checks@[k as int] == CostCheck::Unreachable {
                assert(q[k as int] == CostCheck::Unreachable);
            }
        }
        k = k + 1;
    }
    assert(checks@.take(checks@.len() as int) =~= checks@);
    proof {
        lemma_affordability_is_the_latest_ready_time(now, checks@);
    }
    if never {
        Afford::Never
    } else if latest > now {
        Afford::At(latest)
    } else {
        Afford::Now
    }
}

/// One rotation rule as a decision instant sees it.
#[derive(Debug, Clone, Copy, PartialEq, Eq, Structural)]
pub enum RuleCheck {
    /// The rule's `when` gate is closed: the rule is skipped.
    Gated,
    /// The rule's gate is open (or absent).
    Open {
        /// The action the rule casts.
        action: usize,
        /// Time key at which the action comes off cooldown.
        cooldown_ready: u64,
        /// Whether its cost is payable.
        afford: Afford,
    },
}

/// What one decision instant does.
#[derive(Debug, Clone, Copy, PartialEq, Eq, Structural)]
pub enum Decision {
    /// Begin casting `action` now.
    Cast { action: usize },
    /// Nothing castable now; re-decide at time key `at`, when rule `rule`
    /// becomes castable. `starved` says the rule is already off cooldown,
    /// so only its cost holds it back (resource starvation).
    Wake { at: u64, rule: usize, starved: bool },
    /// Nothing castable now or ever from here.
    Idle,
}

/// Rule `c` can be cast at `now`.
pub open spec fn castable(now: u64, c: RuleCheck) -> bool {
    c matches RuleCheck::Open { cooldown_ready, afford, .. } && cooldown_ready <= now && afford
        == Afford::Now
}

/// The earliest instant rule `c` could be cast, if it ever can.
pub open spec fn candidate(now: u64, c: RuleCheck) -> Option<u64> {
    match c {
        RuleCheck::Gated => None,
        RuleCheck::Open { cooldown_ready, afford, .. } => match afford {
            Afford::Now => Some(if now >= cooldown_ready {
                now
            } else {
                cooldown_ready
            }),
            Afford::At(t) => Some(if t >= cooldown_ready {
                t
            } else {
                cooldown_ready
            }),
            Afford::Never => None,
        },
    }
}

/// The earliest candidate among the rules of `s`, the first rule among
/// ties: `(instant, rule index)`.
pub open spec fn best_wake(now: u64, s: Seq<RuleCheck>) -> Option<(u64, int)>
    decreases s.len(),
{
    if s.len() == 0 {
        None
    } else {
        let b = best_wake(now, s.drop_last());
        match candidate(now, s.last()) {
            Some(c) => match b {
                Some((bt, _)) => if c < bt {
                    Some((c, s.len() - 1))
                } else {
                    b
                },
                None => Some((c, s.len() - 1)),
            },
            None => b,
        }
    }
}

/// The index of the first castable rule of `s`, if any.
pub open spec fn first_castable(now: u64, s: Seq<RuleCheck>) -> Option<int> {
    if exists|i: int| 0 <= i < s.len() && castable(now, #[trigger] s[i]) {
        Some(
            choose|i: int|
                0 <= i < s.len() && castable(now, #[trigger] s[i]) && forall|j: int|
                    0 <= j < i ==> !castable(now, #[trigger] s[j]),
        )
    } else {
        None
    }
}

/// The decision the rotation walk takes at `now` over the rules `s`, in
/// priority order.
pub open spec fn decision_of(now: u64, s: Seq<RuleCheck>) -> Decision {
    match first_castable(now, s) {
        Some(i) => Decision::Cast { action: s[i]->action },
        None => match best_wake(now, s) {
            Some((at, rule)) => Decision::Wake {
                at,
                rule: rule as usize,
                starved: s[rule]->cooldown_ready <= now,
            },
            None => Decision::Idle,
        },
    }
}

/// Every `Afford::At` among the rules lies strictly after `now`.
pub open spec fn affords_are_future(now: u64, s: Seq<RuleCheck>) -> bool {
    forall|i: int|
        0 <= i < s.len() ==> (#[trigger] s[i] matches RuleCheck::Open { afford, .. } && (
        afford matches Afford::At(t) ==> t > now))
}

proof fn lemma_first_castable(now: u64, s: Seq<RuleCheck>, i: int)
    requires
        0 <= i < s.len(),
        castable(now, s[i]),
        forall|j: int| 0 <= j < i ==> !castable(now, #[trigger] s[j]),
    ensures
        first_castable(now, s) == Some(i),
{
    let k = choose|k: int|
        0 <= k < s.len() && castable(now, #[trigger] s[k]) && forall|j: int|
            0 <= j < k ==> !castable(now, #[trigger] s[j]);
    assert(castable(now, s[i]));
    if k < i {
        assert(!castable(now, s[k]));
    } else if i < k {
        assert(!castable(now, s[i]));
    }
}

/// Rule `c` can be cast at the instant `x`: it is open, off cooldown by
/// `x`, and its cost is payable by `x` (now, for a cost payable now).
pub open spec fn ready_by(now: u64, c: RuleCheck, x: u64) -> bool {
    match c {
        RuleCheck::Gated => false,
        RuleCheck::Open { cooldown_ready, afford, .. } => cooldown_ready <= x && match afford {
            Afford::Now => now <= x,
            Afford::At(t) => t <= x,
            Afford::Never => false,
        },
    }
}

proof fn lemma_candidate_is_the_first_ready_instant(now: u64, c: RuleCheck)
    ensures
        candidate(now, c) matches Some(a) ==> ready_by(now, c, a) && forall|x: u64|
            #[trigger] ready_by(now, c, x) ==> a <= x,
        candidate(now, c) is None ==> forall|x: u64| !#[trigger] ready_by(now, c, x),
{
}

proof fn lemma_a_first_castable_exists(now: u64, s: Seq<RuleCheck>, i: int)
    requires
        0 <= i < s.len(),
        castable(now, s[i]),
    ensures
        exists|k: int|
            0 <= k < s.len() && castable(now, #[trigger] s[k]) && forall|j: int|
                0 <= j < k ==> !castable(now, #[trigger] s[j]),
    decreases i,
{
    if exists|j: int| 0 <= j < i && castable(now, #[trigger] s[j]) {
        let j = choose|j: int| 0 <= j < i && castable(now, #[trigger] s[j]);
        lemma_a_first_castable_exists(now, s, j);
    } else {
        assert(castable(now, s[i]) && forall|j: int| 0 <= j < i ==> !castable(now, #[trigger] s[j]));
    }
}

/// What the rotation walk decides, in terms of the rules alone: it casts
/// the first rule that is off cooldown with its cost payable now; when no
/// rule is, it wakes at the earliest instant some rule can be cast (off
/// cooldown AND payable), for the first such rule, flagging starvation
/// exactly when that rule is already off cooldown; when no rule can ever
/// be cast, it idles.
pub proof fn lemma_the_walk_casts_first_and_wakes_earliest(now: u64, s: Seq<RuleCheck>)
    requires
        s.len() <= usize::MAX,
    ensures
        decision_of(now, s) matches Decision::Cast { action } ==> exists|i: int|
            0 <= i < s.len() && (#[trigger] s[i] matches RuleCheck::Open {
                action: a,
                cooldown_ready: c,
                afford,
            } && a == action && c <= now && afford == Afford::Now) && forall|j: int|
                0 <= j < i ==> !(#[trigger] s[j] matches RuleCheck::Open {
                    cooldown_ready: c2,
                    afford: f2,
                    ..
                } && c2 <= now && f2 == Afford::Now),
        !(decision_of(now, s) is Cast) ==> forall|j: int|
            0 <= j < s.len() ==> !(#[trigger] s[j] matches RuleCheck::Open {
                cooldown_ready: c,
                afford,
                ..
            } && c <= now && afford == Afford::Now),
        decision_of(now, s) matches Decision::Wake { at, rule, starved } ==> {
            &&& 0 <= rule < s.len()
            &&& ready_by(now, s[rule as int], at)
            &&& starved == (s[rule as int]->cooldown_ready <= now)
            &&& forall|j: int, x: u64|
                0 <= j < s.len() && x < at ==> !#[trigger] ready_by(now, s[j], x)
            &&& forall|j: int| 0 <= j < rule ==> !#[trigger] ready_by(now, s[j], at)
        },
        decision_of(now, s) is Idle ==> forall|j: int, x: u64| 0 <= j < s.len() ==> !#[trigger] ready_by(now, s[j], x),
{
    let d = decision_of(now, s);
    lemma_wake_is_the_earliest_candidate(now, s);
    if exists|i: int| 0 <= i < s.len() && castable(now, #[trigger] s[i]) {
        let i0 = choose|i: int| 0 <= i < s.len() && castable(now, #[trigger] s[i]);
        lemma_a_first_castable_exists(now, s, i0);
        let i = first_castable(now, s)->0;
        assert(castable(now, s[i]));
    } else {
        assert forall|j: int| 0 <= j < s.len() implies !(#[trigger] s[j] matches RuleCheck::Open {
            cooldown_ready: c,
            afford,
            ..
        } && c <= now && afford == Afford::Now) by {
            assert(!castable(now, s[j]));
        }
        match best_wake(now, s) {
            Some((at, rule)) => {
                lemma_candidate_is_the_first_ready_instant(now, s[rule]);
                assert forall|j: int, x: u64|
                    0 <= j < s.len() && x < at implies !#[trigger] ready_by(now, s[j], x) by {
                    lemma_candidate_is_the_first_ready_instant(now, s[j]);
                }
                assert forall|j: int| 0 <= j < rule implies !#[trigger] ready_by(now, s[j], at) by {
                    lemma_candidate_is_the_first_ready_instant(now, s[j]);
                }
            },
            None => {
                assert forall|j: int, x: u64| 0 <= j < s.len() implies !#[trigger] ready_by(
                    now,
                    s[j],
                    x,
                ) by {
                    lemma_candidate_is_the_first_ready_instant(now, s[j]);
                }
            },
        }
    }
}

/// Walk the rotation's rules in priority order at the instant `now`: cast
/// the first rule that is off cooldown and affordable; otherwise wake at
/// the earliest instant some rule becomes castable (the first rule among
/// ties); otherwise do nothing.
pub fn decide(now: u64, rules: &Vec<RuleCheck>) -> (r: Decision)
    ensures
        r == decision_of(now, rules@),
        affords_are_future(now, rules@) ==> (r matches Decision::Wake { at, rule, .. } ==> at > now
            && (rule as int) < rules@.len()),
        r matches Decision::Cast { action } ==> exists|i: int|
            0 <= i < rules@.len() && (#[trigger] rules@[i] matches RuleCheck::Open {
                action: a,
                cooldown_ready: c,
                afford,
            } && a == action && c <= now && afford == Afford::Now) && forall|j: int|
                0 <= j < i ==> !(#[trigger] rules@[j] matches RuleCheck::Open {
                    cooldown_ready: c2,
                    afford: f2,
                    ..
                } && c2 <= now && f2 == Afford::Now),
        !(r is Cast) ==> forall|j: int|
            0 <= j < rules@.len() ==> !(#[trigger] rules@[j] matches RuleCheck::Open {
                cooldown_ready: c,
                afford,
                ..
            } && c <= now && afford == Afford::Now),
        r matches Decision::Wake { at, rule, starved } ==> {
            &&& 0 <= rule < rules@.len()
            &&& ready_by(now, rules@[rule as int], at)
            &&& starved == (rules@[rule as int]->cooldown_ready <= now)
            &&& forall|j: int, x: u64|
                0 <= j < rules@.len() && x < at ==> !#[trigger] ready_by(now, rules@[j], x)
            &&& forall|j: int| 0 <= j < rule ==> !#[trigger] ready_by(now, rules@[j], at)
        },
        r is Idle ==> forall|j: int, x: u64| 0 <= j < rules@.len() ==> !#[trigger] ready_by(now, rules@[j], x),
{
    let n = rules.len();
    let mut wake: Option<(u64, usize)> = None;
    let mut k: usize = 0;
    while k < n
        invariant
            n == rules@.len(),
            0 <= k <= n,
            forall|j: int| 0 <= j < k ==> !castable(now, #[trigger] rules@[j]),
            wake matches Some((t, i)) ==> best_wake(now, rules@.take(k as int)) == Some(
                (t, i as int),
            ),
            wake is None ==> best_wake(now, rules@.take(k as int)) is None,
            affords_are_future(now, rules@) ==> (wake matches Some((t, i)) ==> t > now && i < k),
        decreases n - k,
    {
        let ghost p = rules@.take(k as int);
        let ghost q = rules@.take(k + 1);
        assert(q.drop_last() =~= p);
        assert(q.last() == rules@[k as int]);
        match rules[k] {
            RuleCheck::Gated => {},
            RuleCheck::Open { action, cooldown_ready, afford } => {
                if cooldown_ready <= now && afford == Afford::Now {
                    proof {
                        lemma_first_castable(now, rules@, k as int);
                        lemma_the_walk_casts_first_and_wakes_earliest(now, rules@);
                    }
                    return Decision::Cast { action };
                }
                let resource_time = match afford {
                    Afford::Now => Some(now),
                    Afford::At(t) => Some(t),
                    Afford::Never => None,
                };
                match resource_time {
                    Some(rt) => {
                        let c = if rt >= cooldown_ready {
                            rt
                        } else {
                            cooldown_ready
                        };
                        let better = match wake {
                            None => true,
                            Some((t, _)) => c < t,
                        };
                        if better {
                            wake = Some((c, k));
                        }
                    },
                    None => {},
                }
            },
        }
        k = k + 1;
    }
    assert(rules@.take(n as int) =~= rules@);
    assert(first_castable(now, rules@) is None);
    proof {
        lemma_the_walk_casts_first_and_wakes_earliest(now, rules@);
    }
    match wake {
        Some((t, i)) => {
            proof {
                lemma_wake_is_the_earliest_candidate(now, rules@);
            }
            let starved = match rules[i] {
                RuleCheck::Open { cooldown_ready, .. } => cooldown_ready <= now,
                RuleCheck::Gated => false,
            };
            Decision::Wake { at: t, rule: i, starved }
        },
        None => Decision::Idle,
    }
}

/// The wake the walk schedules is the earliest instant any rule becomes
/// castable, and among rules tied at that instant the one listed first.
pub proof fn lemma_wake_is_the_earliest_candidate(now: u64, s: Seq<RuleCheck>)
    ensures
        best_wake(now, s) matches Some((at, i)) ==> {
            &&& 0 <= i < s.len()
            &&& candidate(now, s[i]) == Some(at)
            &&& forall|j: int|
                0 <= j < s.len() ==> (#[trigger] candidate(now, s[j]) matches Some(c) ==> at <= c)
            &&& forall|j: int|
                0 <= j < i ==> (#[trigger] candidate(now, s[j]) matches Some(c) ==> at < c)
        },
        best_wake(now, s) is None ==> forall|j: int|
            0 <= j < s.len() ==> #[trigger] candidate(now, s[j]) is None,
    decreases s.len(),
{
    if s.len() > 0 {
        let d = s.drop_last();
        lemma_wake_is_the_earliest_candidate(now, d);
        assert forall|j: int| 0 <= j < d.len() implies d[j] == s[j] by {}
    }
}

/// Most zero-time casts one decision instant may chain before the walk
/// fails closed: a config that can recast forever without time advancing
/// has no finite dps.
pub const INSTANT_CHAIN_LIMIT: u32 = 10_000;

/// More than [`INSTANT_CHAIN_LIMIT`] zero-time casts chained at one
/// instant.
#[derive(Debug, Clone, Copy, PartialEq, Eq, Structural)]
pub struct InstantChainExceeded;

/// Count one more zero-time cast completed at the current decision
/// instant, `chain` having completed already: fail closed once the count
/// would exceed [`INSTANT_CHAIN_LIMIT`].
pub fn instant_chain_step(chain: u32) -> (r: Result<u32, InstantChainExceeded>)
    ensures
        chain < INSTANT_CHAIN_LIMIT ==> r == Ok::<u32, InstantChainExceeded>((chain + 1) as u32),
        chain >= INSTANT_CHAIN_LIMIT ==> r == Err::<u32, InstantChainExceeded>(InstantChainExceeded),
{
    if chain >= INSTANT_CHAIN_LIMIT {
        Err(InstantChainExceeded)
    } else {
        Ok(chain + 1)
    }
}

} // verus!
