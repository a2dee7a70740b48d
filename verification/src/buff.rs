use vstd::prelude::*;

verus! {

/// How a buff collapses a reapplication into its instance list.
#[derive(Debug, Clone, Copy, PartialEq, Eq, Structural)]
pub enum ReapplyPolicy {
    /// One instance; a reapplication replaces it.
    Refresh,
    /// Stack up to the cap; every application resets every expiry.
    AddRefreshAll,
    /// Stack up to the cap, each on its own clock; at the cap the
    /// earliest-expiring instance is evicted.
    AddIndependent,
    /// One instance, replaced only by a strictly higher snapshot rate.
    Strongest,
}

/// One live application of a buff: the order key of the instant it
/// expires, and the order key of the tick rate it captured.
#[derive(Debug, Clone, Copy, PartialEq, Eq, Structural)]
pub struct BuffInstance {
    pub expire_at: u64,
    pub rate: u64,
}

/// The abstract state of a [`BuffRuntime`].
pub ghost struct BuffView {
    /// Every live instance, in application order.
    pub instances: Seq<BuffInstance>,
    /// Bumped on every application.
    pub generation: u64,
}

/// `i` is the earliest-expiring instance of `s`, the oldest among ties.
pub open spec fn is_earliest(s: Seq<BuffInstance>, i: int) -> bool {
    &&& 0 <= i < s.len()
    &&& forall|j: int| 0 <= j < s.len() ==> s[i].expire_at <= #[trigger] s[j].expire_at
    &&& forall|j: int| 0 <= j < i ==> s[i].expire_at < #[trigger] s[j].expire_at
}

/// The index of the earliest-expiring instance of a non-empty `s`.
pub open spec fn earliest_index(s: Seq<BuffInstance>) -> int {
    choose|i: int| is_earliest(s, i)
}

/// `s` has reached `max_stacks` (`0` is unbounded, never at the cap).
pub open spec fn at_cap(s: Seq<BuffInstance>, max_stacks: u32) -> bool {
    max_stacks != 0 && s.len() >= max_stacks
}

/// The instance list after one application of `fresh` to `s`.
pub open spec fn applied(
    policy: ReapplyPolicy,
    s: Seq<BuffInstance>,
    max_stacks: u32,
    fresh: BuffInstance,
) -> Seq<BuffInstance> {
    match policy {
        ReapplyPolicy::Refresh => seq![fresh],
        ReapplyPolicy::AddRefreshAll => {
            let t = if at_cap(s, max_stacks) {
                s
            } else {
                s.push(fresh)
            };
            Seq::new(t.len(), |i: int| BuffInstance { expire_at: fresh.expire_at, rate: t[i].rate })
        },
        ReapplyPolicy::AddIndependent => if at_cap(s, max_stacks) {
            s.remove(earliest_index(s)).push(fresh)
        } else {
            s.push(fresh)
        },
        ReapplyPolicy::Strongest => if s.len() == 0 || fresh.rate > s[0].rate {
            seq![fresh]
        } else {
            s
        },
    }
}

/// Whether one application moves the instance COUNT (decided before the
/// list is touched).
pub open spec fn count_moves(policy: ReapplyPolicy, s: Seq<BuffInstance>, max_stacks: u32) -> bool {
    match policy {
        ReapplyPolicy::Refresh => s.len() != 1,
        ReapplyPolicy::AddRefreshAll | ReapplyPolicy::AddIndependent => !at_cap(s, max_stacks),
        ReapplyPolicy::Strongest => s.len() == 0,
    }
}

/// Whether one application swaps the instance SET of a snapshot-ticking
/// buff under a standing count (which moves its summed tick rate).
pub open spec fn snapshot_set_moves(
    policy: ReapplyPolicy,
    snapshot: bool,
    s: Seq<BuffInstance>,
    max_stacks: u32,
    fresh: BuffInstance,
) -> bool {
    snapshot && match policy {
        ReapplyPolicy::Refresh => s.len() == 1,
        ReapplyPolicy::AddRefreshAll => false,
        ReapplyPolicy::AddIndependent => at_cap(s, max_stacks),
        ReapplyPolicy::Strongest => s.len() == 1 && fresh.rate > s[0].rate,
    }
}

/// What one application does to the instance list, policy by policy,
/// stated over the list and the incoming instance alone: `refresh`
/// replaces the list with the incoming instance (its expiry AND its rate);
/// `add_refresh_all` adds it below the cap and moves every expiry to the
/// incoming one while every standing instance keeps its rate;
/// `add_independent` appends it, first evicting the earliest-expiring
/// instance (the oldest among ties) at the cap; `strongest` takes it only
/// when nothing stands or its rate is strictly higher than the incumbent's.
pub proof fn lemma_application_by_policy(
    policy: ReapplyPolicy,
    s: Seq<BuffInstance>,
    max_stacks: u32,
    expire_at: u64,
    rate: u64,
)
    ensures
        policy == ReapplyPolicy::Refresh ==> applied(policy, s, max_stacks, BuffInstance { expire_at, rate }) == seq![BuffInstance { expire_at, rate }],
        policy == ReapplyPolicy::AddRefreshAll ==> {
            &&& applied(policy, s, max_stacks, BuffInstance { expire_at, rate }).len() == if max_stacks != 0 && s.len() >= max_stacks {
                s.len()
            } else {
                s.len() + 1
            }
            &&& forall|i: int| 0 <= i < applied(policy, s, max_stacks, BuffInstance { expire_at, rate }).len() ==> (#[trigger] applied(policy, s, max_stacks, BuffInstance { expire_at, rate })[i]).expire_at == expire_at
            &&& forall|i: int| 0 <= i < s.len() ==> (#[trigger] applied(policy, s, max_stacks, BuffInstance { expire_at, rate })[i]).rate == s[i].rate
            &&& applied(policy, s, max_stacks, BuffInstance { expire_at, rate }).len() > s.len() ==> applied(policy, s, max_stacks, BuffInstance { expire_at, rate })[s.len() as int].rate == rate
        },
        policy == ReapplyPolicy::AddIndependent ==> if max_stacks != 0 && s.len() >= max_stacks {
            exists|k: int|
                #![trigger s[k]]
                0 <= k < s.len() && (forall|j: int|
                    0 <= j < s.len() ==> s[k].expire_at <= #[trigger] s[j].expire_at) && (forall|
                    j: int,
                |
                    0 <= j < k ==> s[k].expire_at < #[trigger] s[j].expire_at) && applied(policy, s, max_stacks, BuffInstance { expire_at, rate }).len()
                    == s.len() && applied(policy, s, max_stacks, BuffInstance { expire_at, rate })[applied(policy, s, max_stacks, BuffInstance { expire_at, rate }).len() - 1] == (BuffInstance { expire_at, rate }) && (forall|
                    i: int,
                | 0 <= i < k ==> #[trigger] applied(policy, s, max_stacks, BuffInstance { expire_at, rate })[i] == s[i]) && (forall|i: int|
                    k <= i < s.len() - 1 ==> #[trigger] applied(policy, s, max_stacks, BuffInstance { expire_at, rate })[i] == s[i + 1])
        } else {
            applied(policy, s, max_stacks, BuffInstance { expire_at, rate }) == s.push(BuffInstance { expire_at, rate })
        },
        policy == ReapplyPolicy::Strongest ==> if s.len() == 0 || rate > s[0].rate {
            applied(policy, s, max_stacks, BuffInstance { expire_at, rate }) == seq![BuffInstance { expire_at, rate }]
        } else {
            applied(policy, s, max_stacks, BuffInstance { expire_at, rate }) == s
        },
{
    let fresh = BuffInstance { expire_at, rate };
    let t = applied(policy, s, max_stacks, fresh);
    if policy == ReapplyPolicy::Refresh {
        assert(t =~= seq![fresh]);
    }
    if policy == ReapplyPolicy::AddIndependent && at_cap(s, max_stacks) {
        lemma_earliest_exists(s);
        let k = earliest_index(s);
        assert(s[k] == s[k]);
        assert(forall|i: int| 0 <= i < k ==> #[trigger] t[i] == s[i]);
        assert(forall|i: int| k <= i < s.len() - 1 ==> #[trigger] t[i] == s[i + 1]);
    }
    if policy == ReapplyPolicy::Strongest && (s.len() == 0 || rate > s[0].rate) {
        assert(t =~= seq![fresh]);
    }
}

/// What one application asks of the surrounding run.
#[derive(Debug, Clone, Copy, PartialEq, Eq, Structural)]
pub struct Applied {
    /// The instance count moved.
    pub count_changed: bool,
    /// The effective state must be flushed and refolded around this
    /// application.
    pub refold: bool,
    /// The buff went from inactive to active.
    pub activated: bool,
    /// The generation the new expiry event carries.
    pub generation: u64,
    /// The time key the new expiry event is due at: the earliest live
    /// expiry.
    pub next_expiry: u64,
}

/// What one expiry sweep found.
#[derive(Debug, Clone, Copy, PartialEq, Eq, Structural)]
pub enum Swept {
    /// The expiry event was superseded by a later application: nothing
    /// happens.
    Stale,
    /// The sweep ran.
    Current {
        /// The instance count before the sweep (the count the elapsed
        /// span is integrated at).
        before: usize,
        /// At least one instance closed at `now` (flush and refold).
        expired: bool,
        /// No instance is left: the active span closes.
        emptied: bool,
        /// Where to reschedule the expiry event (same generation), if any
        /// instance survives.
        next_expiry: Option<u64>,
    },
}

/// The live instances of one buff and its expiry generation.
pub struct BuffRuntime {
    instances: Vec<BuffInstance>,
    generation: u64,
}

impl View for BuffRuntime {
    type V = BuffView;

    closed spec fn view(&self) -> BuffView {
        BuffView { instances: self.instances@, generation: self.generation }
    }
}

fn earliest_in(s: &Vec<BuffInstance>) -> (r: Option<(usize, u64)>)
    ensures
        r is None <==> s@.len() == 0,
        r matches Some((i, e)) ==> is_earliest(s@, i as int) && e == s@[i as int].expire_at,
{
    if s.len() == 0 {
        return None;
    }
    let mut best: usize = 0;
    let mut k: usize = 1;
    while k < s.len()
        invariant
            1 <= k <= s@.len(),
            best < k,
            forall|j: int| 0 <= j < k ==> s@[best as int].expire_at <= #[trigger] s@[j].expire_at,
            forall|j: int| 0 <= j < best ==> s@[best as int].expire_at < #[trigger] s@[j].expire_at,
        decreases s@.len() - k,
    {
        if s[k].expire_at < s[best].expire_at {
            best = k;
        }
        k = k + 1;
    }
    Some((best, s[best].expire_at))
}

proof fn lemma_earliest_unique(s: Seq<BuffInstance>, i: int)
    requires
        is_earliest(s, i),
    ensures
        earliest_index(s) == i,
{
    let k = earliest_index(s);
    assert(is_earliest(s, k));
    if k < i {
        assert(s[i].expire_at < s[k].expire_at);
    } else if i < k {
        assert(s[k].expire_at < s[i].expire_at);
    }
}

impl BuffRuntime {
    /// No live instance, generation zero.
    pub fn new() -> (b: BuffRuntime)
        ensures
            b@.instances == Seq::<BuffInstance>::empty(),
            b@.generation == 0,
    {
        BuffRuntime { instances: Vec::new(), generation: 0 }
    }

    /// The live instance count (what `stacks.<buff>` reads).
    pub fn stacks(&self) -> (n: usize)
        ensures
            n == self@.instances.len(),
    {
        self.instances.len()
    }

    /// Whether at least one instance is live (what `buff.<buff>` reads).
    pub fn is_active(&self) -> (b: bool)
        ensures
            b <==> self@.instances.len() > 0,
    {
        self.instances.len() > 0
    }

    /// The current generation.
    pub fn generation(&self) -> (g: u64)
        ensures
            g == self@.generation,
    {
        self.generation
    }

    /// The live instances, in application order.
    pub fn instances(&self) -> (v: Vec<BuffInstance>)
        ensures
            v@ == self@.instances,
    {
        self.instances.clone()
    }

    /// `(index, expiry)` of the earliest-expiring live instance, the
    /// oldest among ties; `None` when inactive.
    pub fn earliest_expiry(&self) -> (r: Option<(usize, u64)>)
        ensures
            r is None <==> self@.instances.len() == 0,
            r matches Some((i, e)) ==> is_earliest(self@.instances, i as int) && e
                == self@.instances[i as int].expire_at,
    {
        earliest_in(&self.instances)
    }

    /// The latest expiry among the live instances (the window
    /// `buff_remaining.<buff>` measures); `None` when inactive.
    pub fn latest_expiry(&self) -> (r: Option<u64>)
        ensures
            r is None <==> self@.instances.len() == 0,
            r matches Some(e) ==> (exists|i: int|
                0 <= i < self@.instances.len() && #[trigger] self@.instances[i].expire_at == e)
                && forall|i: int|
                0 <= i < self@.instances.len() ==> #[trigger] self@.instances[i].expire_at <= e,
    {
        let n = self.instances.len();
        if n == 0 {
            return None;
        }
        let mut best: u64 = self.instances[0].expire_at;
        let mut k: usize = 1;
        while k < n
            invariant
                n == self@.instances.len(),
                1 <= k <= n,
                exists|i: int| 0 <= i < k && #[trigger] self@.instances[i].expire_at == best,
                forall|i: int| 0 <= i < k ==> #[trigger] self@.instances[i].expire_at <= best,
            decreases n - k,
        {
            if self.instances[k].expire_at > best {
                best = self.instances[k].expire_at;
            }
            k = k + 1;
        }
        Some(best)
    }

    /// One application of the buff under `policy`, with the instance it
    /// would start expiring at `expire_at` and carrying the captured rate
    /// `rate`. `snapshot` says whether the buff ticks a snapshot rate.
    /// Bumps the generation (every expiry event already issued becomes
    /// stale) and reports where the one new expiry event goes.
    pub fn apply(
        &mut self,
        policy: ReapplyPolicy,
        max_stacks: u32,
        snapshot: bool,
        expire_at: u64,
        rate: u64,
    ) -> (r: Applied)
        requires
            old(self)@.generation < u64::MAX,
        ensures
            ({
                let s = old(self)@.instances;
                let fresh = BuffInstance { expire_at, rate };
                let t = applied(policy, s, max_stacks, fresh);
                &&& final(self)@.instances == t
                &&& final(self)@.generation == old(self)@.generation + 1
                &&& r.generation == final(self)@.generation
                &&& r.count_changed == count_moves(policy, s, max_stacks)
                &&& r.refold == (count_moves(policy, s, max_stacks) || snapshot_set_moves(
                    policy,
                    snapshot,
                    s,
                    max_stacks,
                    fresh,
                ))
                &&& r.activated == (s.len() == 0)
                &&& t.len() > 0
                &&& r.next_expiry == t[earliest_index(t)].expire_at
                &&& is_earliest(t, earliest_index(t))
                // The fold gate predicts the count movement exactly, and a
                // first application always refolds.
                &&& (policy != ReapplyPolicy::Strongest || s.len() <= 1) ==> r.count_changed == (
                s.len() != t.len())
                &&& r.activated ==> r.refold
                // Only a snapshot buff refolds without its count moving.
                &&& r.count_changed ==> r.refold
                &&& !snapshot ==> r.refold == r.count_changed
            }),
        policy == ReapplyPolicy::Refresh ==> final(self)@.instances == seq![BuffInstance { expire_at, rate }],
        policy == ReapplyPolicy::AddRefreshAll ==> {
            &&& final(self)@.instances.len() == if max_stacks != 0 && old(self)@.instances.len() >= max_stacks {
                old(self)@.instances.len()
            } else {
                old(self)@.instances.len() + 1
            }
            &&& forall|i: int| 0 <= i < final(self)@.instances.len() ==> (#[trigger] final(self)@.instances[i]).expire_at == expire_at
            &&& forall|i: int| 0 <= i < old(self)@.instances.len() ==> (#[trigger] final(self)@.instances[i]).rate == old(self)@.instances[i].rate
            &&& final(self)@.instances.len() > old(self)@.instances.len() ==> final(self)@.instances[old(self)@.instances.len() as int].rate == rate
        },
        policy == ReapplyPolicy::AddIndependent ==> if max_stacks != 0 && old(self)@.instances.len() >= max_stacks {
            exists|k: int|
                #![trigger old(self)@.instances[k]]
                0 <= k < old(self)@.instances.len() && (forall|j: int|
                    0 <= j < old(self)@.instances.len() ==> old(self)@.instances[k].expire_at <= #[trigger] old(self)@.instances[j].expire_at) && (forall|
                    j: int,
                |
                    0 <= j < k ==> old(self)@.instances[k].expire_at < #[trigger] old(self)@.instances[j].expire_at) && final(self)@.instances.len()
                    == old(self)@.instances.len() && final(self)@.instances[final(self)@.instances.len() - 1] == (BuffInstance { expire_at, rate }) && (forall|
                    i: int,
                | 0 <= i < k ==> #[trigger] final(self)@.instances[i] == old(self)@.instances[i]) && (forall|i: int|
                    k <= i < old(self)@.instances.len() - 1 ==> #[trigger] final(self)@.instances[i] == old(self)@.instances[i + 1])
        } else {
            final(self)@.instances == old(self)@.instances.push(BuffInstance { expire_at, rate })
        },
        policy == ReapplyPolicy::Strongest ==> if old(self)@.instances.len() == 0 || rate > old(self)@.instances[0].rate {
            final(self)@.instances == seq![BuffInstance { expire_at, rate }]
        } else {
            final(self)@.instances == old(self)@.instances
        },
        exists|i: int|
            0 <= i < final(self)@.instances.len() && #[trigger] final(self)@.instances[i].expire_at
                == r.next_expiry,
        forall|i: int|
            0 <= i < final(self)@.instances.len() ==> r.next_expiry
                <= #[trigger] final(self)@.instances[i].expire_at,
    {
        let ghost s = self.instances@;
        let fresh = BuffInstance { expire_at, rate };
        let before = self.instances.len();
        let strongest_wins = if before == 0 {
            true
        } else {
            rate > self.instances[0].rate
        };
        let cap = max_stacks != 0 && before >= max_stacks as usize;
        let count_changed = match policy {
            ReapplyPolicy::Refresh => before != 1,
            ReapplyPolicy::AddRefreshAll | ReapplyPolicy::AddIndependent => !cap,
            ReapplyPolicy::Strongest => before == 0,
        };
        let set_changed = snapshot && match policy {
            ReapplyPolicy::Refresh => before == 1,
            ReapplyPolicy::AddRefreshAll => false,
            ReapplyPolicy::AddIndependent => cap,
            ReapplyPolicy::Strongest => before == 1 && strongest_wins,
        };
        self.generation = self.generation + 1;
        match policy {
            ReapplyPolicy::Refresh => {
                self.instances.clear();
                self.instances.push(fresh);
                assert(self.instances@ =~= seq![fresh]);
            },
            ReapplyPolicy::AddRefreshAll => {
                if !cap {
                    self.instances.push(fresh);
                }
                let ghost t = self.instances@;
                let n = self.instances.len();
                let mut k: usize = 0;
                while k < n
                    invariant
                        self.generation == old(self).generation + 1,
                        n == self.instances@.len(),
                        n == t.len(),
                        0 <= k <= n,
                        forall|i: int|
                            0 <= i < k ==> #[trigger] self.instances@[i] == (BuffInstance {
                                expire_at,
                                rate: t[i].rate,
                            }),
                        forall|i: int| k <= i < n ==> #[trigger] self.instances@[i] == t[i],
                    decreases n - k,
                {
                    let old_rate = self.instances[k].rate;
                    self.instances.set(k, BuffInstance { expire_at, rate: old_rate });
                    k = k + 1;
                }
                assert(self.instances@ =~= Seq::new(
                    t.len(),
                    |i: int| BuffInstance { expire_at: fresh.expire_at, rate: t[i].rate },
                ));
            },
            ReapplyPolicy::AddIndependent => {
                if cap {
                    let e = earliest_in(&self.instances);
                    match e {
                        Some((victim, _)) => {
                            proof {
                                lemma_earliest_unique(s, victim as int);
                            }
                            self.instances.remove(victim);
                        },
                        None => {},
                    }
                }
                self.instances.push(fresh);
            },
            ReapplyPolicy::Strongest => {
                if strongest_wins {
                    self.instances.clear();
                    self.instances.push(fresh);
                    assert(self.instances@ =~= seq![fresh]);
                }
            },
        }
        let next = earliest_in(&self.instances);
        proof {
            lemma_application_by_policy(policy, s, max_stacks, expire_at, rate);
            if policy != ReapplyPolicy::Strongest || s.len() <= 1 {
                lemma_count_moves_exact(policy, s, max_stacks, fresh);
            }
        }
        match next {
            Some((i, e)) => {
                proof {
                    lemma_earliest_unique(self.instances@, i as int);
                    assert(self@.instances[i as int].expire_at == e);
                }
                Applied {
                    count_changed,
                    refold: count_changed || set_changed,
                    activated: before == 0,
                    generation: self.generation,
                    next_expiry: e,
                }
            },
            None => {
                // Unreachable: an application always leaves an instance.
                Applied {
                    count_changed,
                    refold: count_changed || set_changed,
                    activated: before == 0,
                    generation: self.generation,
                    next_expiry: 0,
                }
            },
        }
    }

    /// The expiry sweep for an event carrying `generation`, run at the
    /// instant `now`: stale if an application has happened since (or
    /// nothing is live); otherwise every instance whose window closed at
    /// or before `now` is dropped, and the event is rescheduled, with the
    /// same generation, at the new earliest expiry if any instance
    /// survives.
    pub fn sweep(&mut self, now: u64, generation: u64) -> (r: Swept)
        ensures
            ({
                let s = old(self)@.instances;
                if s.len() == 0 || generation != old(self)@.generation {
                    &&& r == Swept::Stale
                    &&& final(self)@ == old(self)@
                } else {
                    let t = s.filter(|i: BuffInstance| i.expire_at > now);
                    &&& final(self)@.instances == t
                    &&& final(self)@.generation == old(self)@.generation
                    &&& r matches Swept::Current { before, expired, emptied, next_expiry } && {
                        &&& before == s.len()
                        &&& expired == (t.len() < s.len())
                        &&& expired == (exists|i: int|
                            0 <= i < s.len() && #[trigger] s[i].expire_at <= now)
                        &&& emptied == (t.len() == 0)
                        &&& (next_expiry is None <==> t.len() == 0)
                        &&& (next_expiry matches Some(e) ==> e == t[earliest_index(t)].expire_at
                            && is_earliest(t, earliest_index(t)))
                        // A survivor's window is strictly open: the sweep
                        // never re-arms at or before `now`.
                        &&& (next_expiry matches Some(e) ==> e > now)
                    }
                }
            }),
    {
        if self.instances.len() == 0 || self.generation != generation {
            return Swept::Stale;
        }
        let ghost s = self.instances@;
        let ghost keep = |i: BuffInstance| i.expire_at > now;
        let n = self.instances.len();
        let mut kept: Vec<BuffInstance> = Vec::new();
        let mut k: usize = 0;
        let mut expired = false;
        while k < n
            invariant
                n == s.len(),
                s == self.instances@,
                keep == (|i: BuffInstance| i.expire_at > now),
                0 <= k <= n,
                kept@ == s.take(k as int).filter(keep),
                expired == (exists|i: int| 0 <= i < k && #[trigger] s[i].expire_at <= now),
            decreases n - k,
        {
            proof {
                assert(s.take(k + 1) =~= s.take(k as int).push(s[k as int]));
                s.take(k as int).lemma_filter_push(s[k as int], keep);
                assert(keep(s[k as int]) == (s[k as int].expire_at > now));
            }
            let inst = self.instances[k];
            if inst.expire_at > now {
                kept.push(inst);
            } else {
                expired = true;
            }
            k = k + 1;
        }
        assert(s.take(n as int) =~= s);
        let ghost t = s.filter(keep);
        proof {
            s.lemma_filter_len(keep);
            if expired {
                let i = choose|i: int| 0 <= i < n && #[trigger] s[i].expire_at <= now;
                lemma_filter_strict(s, keep, i);
            } else {
                lemma_filter_all(s, keep);
            }
        }
        self.instances = kept;
        let emptied = self.instances.len() == 0;
        let next = earliest_in(&self.instances);
        let next_expiry = match next {
            Some((i, e)) => {
                proof {
                    lemma_earliest_unique(t, i as int);
                    s.lemma_filter_pred(keep, i as int);
                }
                Some(e)
            },
            None => None,
        };
        Swept::Current { before: n, expired, emptied, next_expiry }
    }
}

/// Every non-empty instance list has an earliest-expiring instance.
pub proof fn lemma_earliest_exists(s: Seq<BuffInstance>)
    requires
        s.len() > 0,
    ensures
        is_earliest(s, earliest_index(s)),
    decreases s.len(),
{
    if s.len() == 1 {
        assert(is_earliest(s, 0));
    } else {
        let d = s.drop_last();
        lemma_earliest_exists(d);
        let k = earliest_index(d);
        assert forall|j: int| 0 <= j < d.len() implies d[j] == s[j] by {}
        if s.last().expire_at < s[k].expire_at {
            assert(is_earliest(s, s.len() - 1));
        } else {
            assert(is_earliest(s, k));
        }
    }
}

/// The fold gate predicts the count movement of every policy, given the
/// one-instance bound a `strongest` buff always keeps.
proof fn lemma_count_moves_exact(
    policy: ReapplyPolicy,
    s: Seq<BuffInstance>,
    max_stacks: u32,
    fresh: BuffInstance,
)
    requires
        policy != ReapplyPolicy::Strongest || s.len() <= 1,
    ensures
        count_moves(policy, s, max_stacks) == (s.len() != applied(
            policy,
            s,
            max_stacks,
            fresh,
        ).len()),
{
    if policy == ReapplyPolicy::AddIndependent && at_cap(s, max_stacks) {
        lemma_earliest_exists(s);
    }
}

/// Filtering away an element that fails the predicate shortens the
/// sequence.
proof fn lemma_filter_strict(s: Seq<BuffInstance>, p: spec_fn(BuffInstance) -> bool, i: int)
    requires
        0 <= i < s.len(),
        !p(s[i]),
    ensures
        s.filter(p).len() < s.len(),
    decreases s.len(),
{
    reveal_with_fuel(Seq::filter, 1);
    let l = s.len() - 1;
    s.drop_last().lemma_filter_len(p);
    if i < l {
        assert(s.drop_last()[i] == s[i]);
        lemma_filter_strict(s.drop_last(), p, i);
    }
}

/// Filtering by a predicate every element meets keeps the sequence.
proof fn lemma_filter_all(s: Seq<BuffInstance>, p: spec_fn(BuffInstance) -> bool)
    requires
        forall|i: int| 0 <= i < s.len() ==> p(#[trigger] s[i]),
    ensures
        s.filter(p) == s,
    decreases s.len(),
{
    reveal_with_fuel(Seq::filter, 1);
    if s.len() > 0 {
        assert forall|i: int| 0 <= i < s.drop_last().len() implies p(#[trigger] s.drop_last()[i]) by {
            assert(s.drop_last()[i] == s[i]);
        }
        lemma_filter_all(s.drop_last(), p);
        assert(s.drop_last().push(s.last()) =~= s);
    } else {
        assert(s.filter(p) =~= s);
    }
}

/// `add_refresh_all` runs the whole stack on one shared clock: after an
/// application every instance expires at the new expiry, while every
/// instance keeps the rate it captured.
pub proof fn lemma_add_refresh_all_shares_one_clock(
    s: Seq<BuffInstance>,
    max_stacks: u32,
    fresh: BuffInstance,
)
    ensures
        ({
            let t = applied(ReapplyPolicy::AddRefreshAll, s, max_stacks, fresh);
            &&& forall|i: int| 0 <= i < t.len() ==> (#[trigger] t[i]).expire_at == fresh.expire_at
            &&& forall|i: int| 0 <= i < s.len() ==> (#[trigger] t[i]).rate == s[i].rate
        }),
{
}

/// No policy lets a capped buff grow past `max_stacks`.
pub proof fn lemma_stack_cap_is_kept(
    policy: ReapplyPolicy,
    s: Seq<BuffInstance>,
    max_stacks: u32,
    fresh: BuffInstance,
)
    requires
        max_stacks != 0,
        s.len() <= max_stacks,
        policy != ReapplyPolicy::Strongest || s.len() <= 1,
    ensures
        applied(policy, s, max_stacks, fresh).len() <= max_stacks,
{
    if policy == ReapplyPolicy::AddIndependent && at_cap(s, max_stacks) {
        lemma_earliest_exists(s);
    }
}

/// A `strongest` application that is not strictly stronger than the
/// incumbent leaves the instance list exactly as it was: neither the rate
/// nor the expiry moves.
pub proof fn lemma_strongest_loser_changes_nothing(
    s: Seq<BuffInstance>,
    max_stacks: u32,
    fresh: BuffInstance,
)
    requires
        s.len() > 0,
        fresh.rate <= s[0].rate,
    ensures
        applied(ReapplyPolicy::Strongest, s, max_stacks, fresh) == s,
{
}

/// At the cap, `add_independent` evicts exactly one instance — the
/// earliest-expiring one, the oldest among ties — and appends the new one.
pub proof fn lemma_add_independent_evicts_the_earliest(
    s: Seq<BuffInstance>,
    max_stacks: u32,
    fresh: BuffInstance,
)
    requires
        at_cap(s, max_stacks),
    ensures
        ({
            let t = applied(ReapplyPolicy::AddIndependent, s, max_stacks, fresh);
            let k = earliest_index(s);
            &&& is_earliest(s, k)
            &&& t.len() == s.len()
            &&& t.last() == fresh
            &&& forall|i: int| 0 <= i < k ==> #[trigger] t[i] == s[i]
            &&& forall|i: int| k <= i < s.len() - 1 ==> #[trigger] t[i] == s[i + 1]
        }),
{
    lemma_earliest_exists(s);
}

/// An application bumps the generation, so every expiry event issued
/// before it is stale afterwards.
pub proof fn lemma_application_cancels_earlier_expiries(
    before: BuffView,
    after: BuffView,
    issued: u64,
)
    requires
        after.generation == before.generation + 1,
        issued <= before.generation,
    ensures
        issued != after.generation,
{
}

} // verus!
