use vstd::prelude::*;
use crate::buff::{
    applied, count_moves, earliest_index, is_earliest, snapshot_set_moves, Applied, BuffInstance,
    BuffRuntime, BuffView, ReapplyPolicy, Swept,
};
use crate::condition::ActiveSet;
use crate::queue::{
    is_next, next_of, rank_of, timeline_inv, Event, EventOrder, HorizonDrainExceeded,
    item_before, QueueItem, Timeline, TimelineView, HORIZON_DRAIN_LIMIT,
};

verus! {

/// The abstract state of an [`EventLoop`].
pub ghost struct EventLoopView {
    pub timeline: TimelineView,
    pub buffs: Seq<BuffView>,
    pub active: Set<usize>,
    /// A cast is in flight (its completion is pending).
    pub casting: bool,
}

/// The expiry event of buff `bi` issued at generation `g`.
pub open spec fn expire_event(bi: usize, g: u64) -> Event {
    Event::BuffExpire { buff: bi, generation: g }
}

/// The earliest expiry among the instances `s` (non-empty).
pub open spec fn min_expiry(s: Seq<BuffInstance>) -> u64 {
    s[earliest_index(s)].expire_at
}

/// `x` is an expiry event of buff `bi` (of any generation).
pub open spec fn expires_buff(x: QueueItem, bi: usize) -> bool {
    x.event matches Event::BuffExpire { buff, .. } && buff == bi
}

/// Buff `bi`'s bookkeeping agrees with the queue: every expiry event of
/// it carries a generation no later than the buff's; while the buff is
/// active EXACTLY ONE pending expiry event carries its current generation
/// (the live one), due at its earliest instance expiry; while inactive,
/// none does; and no instance expires before the current instant.
pub open spec fn buff_tracked(v: EventLoopView, bi: usize) -> bool {
    let b = v.buffs[bi as int];
    let pending = v.timeline.pending;
    &&& forall|x: QueueItem|
        #[trigger] pending.contains(x) && expires_buff(x, bi) ==> x.event->generation
            <= b.generation
    &&& b.instances.len() > 0 ==> exists|x: QueueItem|
        #[trigger] pending.contains(x) && x.event == expire_event(bi, b.generation) && x.time
            == min_expiry(b.instances)
    &&& forall|x: QueueItem, y: QueueItem|
        #[trigger] pending.contains(x) && #[trigger] pending.contains(y) && x.event
            == expire_event(bi, b.generation) && y.event == expire_event(bi, b.generation) ==> x
            == y
    &&& b.instances.len() == 0 ==> forall|x: QueueItem|
        #[trigger] pending.contains(x) ==> x.event != expire_event(bi, b.generation)
    &&& forall|i: int|
        0 <= i < b.instances.len() ==> (#[trigger] b.instances[i]).expire_at >= v.timeline.clock
}

/// At most one cast is in flight: while casting, exactly one completion
/// is pending; otherwise none is.
pub open spec fn cast_tracked(pending: Set<QueueItem>, casting: bool) -> bool {
    &&& casting ==> exists|x: QueueItem|
        #[trigger] pending.contains(x) && x.event is CastComplete && forall|y: QueueItem|
            #[trigger] pending.contains(y) && y.event is CastComplete ==> y == x
    &&& !casting ==> forall|x: QueueItem| #[trigger] pending.contains(x) ==> !(x.event is CastComplete)
}

/// What always holds of an event loop: the queue's own invariant, every
/// buff tracked, every expiry event naming a real buff, the active set
/// being exactly the buffs with a live instance, and at most one cast in
/// flight.
pub open spec fn loop_inv(v: EventLoopView) -> bool {
    &&& timeline_inv(v.timeline)
    &&& cast_tracked(v.timeline.pending, v.casting)
    &&& forall|bi: usize| 0 <= bi < v.buffs.len() ==> #[trigger] buff_tracked(v, bi)
    &&& forall|x: QueueItem|
        #[trigger] v.timeline.pending.contains(x) && x.event is BuffExpire ==> x.event->buff
            < v.buffs.len()
    &&& forall|bi: usize|
        #[trigger] v.active.contains(bi) <==> (bi < v.buffs.len()
            && v.buffs[bi as int].instances.len() > 0)
}

/// One step of the loop.
#[derive(Debug, Clone, Copy, PartialEq, Eq, Structural)]
pub enum Step {
    /// Nothing left to resolve at or before the horizon.
    Finished,
    /// One event was resolved. A buff expiry comes with its sweep, which
    /// the loop has already applied (instances dropped, active set and
    /// rescheduled expiry updated).
    Resolved { event: Event, at_horizon: bool, sweep: Option<Swept> },
}

/// The event queue together with the instance runtime of every buff and
/// the active-buff set: the executor's bookkeeping, with buff expiries
/// resolved internally.
pub struct EventLoop {
    timeline: Timeline,
    buffs: Vec<BuffRuntime>,
    active: ActiveSet,
    casting: bool,
}

impl View for EventLoop {
    type V = EventLoopView;

    closed spec fn view(&self) -> EventLoopView {
        EventLoopView {
            timeline: self.timeline@,
            buffs: Seq::new(self.buffs@.len(), |i: int| self.buffs@[i]@),
            active: self.active@,
            casting: self.casting,
        }
    }
}

impl EventLoop {
    /// Well-formedness.
    pub closed spec fn wf(&self) -> bool {
        &&& self.timeline.wf()
        &&& self.active.wf()
        &&& loop_inv(self@)
    }

    /// The order key of the current instant.
    pub fn clock(&self) -> (c: u64)
        ensures
            c == self@.timeline.clock,
    {
        self.timeline.clock()
    }

    /// The `seq` of the most recently scheduled event.
    pub fn last_seq(&self) -> (q: u64)
        ensures
            q == self@.timeline.seq,
    {
        self.timeline.last_seq()
    }

    /// The number of buffs.
    pub fn buff_count(&self) -> (n: usize)
        ensures
            n == self@.buffs.len(),
    {
        self.buffs.len()
    }

    /// Buff `bi`'s live instances, in application order.
    pub fn buff_instances(&self, bi: usize) -> (v: Vec<BuffInstance>)
        requires
            bi < self@.buffs.len(),
        ensures
            v@ == self@.buffs[bi as int].instances,
    {
        self.buffs[bi].instances()
    }

    /// Buff `bi`'s live instance count (`stacks.<buff>`).
    pub fn buff_stacks(&self, bi: usize) -> (n: usize)
        requires
            bi < self@.buffs.len(),
        ensures
            n == self@.buffs[bi as int].instances.len(),
    {
        self.buffs[bi].stacks()
    }

    /// Buff `bi`'s current generation.
    pub fn buff_generation(&self, bi: usize) -> (g: u64)
        requires
            bi < self@.buffs.len(),
        ensures
            g == self@.buffs[bi as int].generation,
    {
        self.buffs[bi].generation()
    }

    /// The latest expiry among buff `bi`'s live instances, `None` when it
    /// is inactive.
    pub fn buff_latest_expiry(&self, bi: usize) -> (r: Option<u64>)
        requires
            bi < self@.buffs.len(),
        ensures
            ({
                let s = self@.buffs[bi as int].instances;
                &&& r is None <==> s.len() == 0
                &&& r matches Some(e) ==> (exists|i: int|
                    0 <= i < s.len() && #[trigger] s[i].expire_at == e) && forall|i: int|
                    0 <= i < s.len() ==> #[trigger] s[i].expire_at <= e
            }),
    {
        self.buffs[bi].latest_expiry()
    }

    /// The active buffs, ascending.
    pub fn active_buffs(&self) -> (v: Vec<usize>)
        requires
            self.wf(),
        ensures
            crate::condition::strictly_ascending(v@),
            forall|x: usize| #[trigger] v@.contains(x) <==> self@.active.contains(x),
    {
        self.active.members()
    }

    /// The active buff driving a condition (`drives[b]` says whether buff
    /// `b` drives it): the lowest-indexed active driver, or `None`.
    pub fn condition_driver(&self, drives: &Vec<bool>) -> (r: Option<usize>)
        requires
            self.wf(),
        ensures
            r matches Some(b) ==> self@.active.contains(b) && b < drives@.len() && drives@[b as int]
                && forall|c: usize|
                #[trigger] self@.active.contains(c) && c < drives@.len() && drives@[c as int] ==> b
                    <= c,
            r is None ==> forall|c: usize|
                #[trigger] self@.active.contains(c) && c < drives@.len() ==> !drives@[c as int],
    {
        self.active.driver(drives)
    }

    /// A well-formed loop satisfies [`loop_inv`].
    pub proof fn lemma_wf_inv(&self)
        requires
            self.wf(),
        ensures
            loop_inv(self@),
    {
    }

    /// An empty queue at instant zero under `order` with its horizon at
    /// `duration`, and `n_buffs` inactive buffs.
    pub fn new(order: EventOrder, duration: u64, n_buffs: usize) -> (l: EventLoop)
        ensures
            l.wf(),
            l@.timeline.order == order,
            l@.timeline.seq == 0,
            l@.timeline.clock == 0,
            l@.timeline.duration == duration,
            l@.timeline.horizon_events == 0,
            l@.timeline.pending == Set::<QueueItem>::empty(),
            l@.buffs.len() == n_buffs,
            forall|i: int|
                0 <= i < n_buffs ==> (#[trigger] l@.buffs[i]).instances.len() == 0
                    && l@.buffs[i].generation == 0,
            l@.active == Set::<usize>::empty(),
            !l@.casting,
    {
        let timeline = Timeline::new(order, duration);
        let mut buffs: Vec<BuffRuntime> = Vec::new();
        let mut k: usize = 0;
        while k < n_buffs
            invariant
                0 <= k <= n_buffs,
                buffs@.len() == k,
                forall|i: int|
                    0 <= i < k ==> (#[trigger] buffs@[i])@.instances.len() == 0
                        && buffs@[i]@.generation == 0,
            decreases n_buffs - k,
        {
            buffs.push(BuffRuntime::new());
            k = k + 1;
        }
        let active = ActiveSet::new();
        let l = EventLoop { timeline, buffs, active, casting: false };
        proof {
            timeline.lemma_wf_inv();
            let v = l@;
            assert forall|bi: usize| 0 <= bi < v.buffs.len() implies #[trigger] buff_tracked(v, bi) by {
                assert(v.buffs[bi as int] == l.buffs@[bi as int]@);
            }
            assert forall|bi: usize| #[trigger] v.active.contains(bi) <==> (bi < v.buffs.len()
                && v.buffs[bi as int].instances.len() > 0) by {
                if bi < v.buffs.len() {
                    assert(v.buffs[bi as int] == l.buffs@[bi as int]@);
                }
            }
        }
        l
    }

    /// Schedule a phase boundary or a wake at time key `time`, no earlier
    /// than the current instant.
    pub fn schedule(&mut self, time: u64, event: Event)
        requires
            old(self).wf(),
            event is PhaseBoundary || event is Wake,
            time >= old(self)@.timeline.clock,
            old(self)@.timeline.seq < u64::MAX,
        ensures
            final(self).wf(),
            final(self)@.buffs == old(self)@.buffs,
            final(self)@.active == old(self)@.active,
            final(self)@.casting == old(self)@.casting,
            final(self)@.timeline == (TimelineView {
                seq: (old(self)@.timeline.seq + 1) as u64,
                pending: old(self)@.timeline.pending.insert(
                    QueueItem {
                        time,
                        rank: rank_of(event, old(self)@.timeline.order),
                        seq: (old(self)@.timeline.seq + 1) as u64,
                        event,
                    },
                ),
                ..old(self)@.timeline
            }),
    {
        let ghost o = self@;
        self.timeline.schedule(time, event);
        proof {
            self.timeline.lemma_wf_inv();
            let v = self@;
            assert(v.buffs == o.buffs);
            let item = QueueItem { time, rank: rank_of(event, o.timeline.order), seq: (o.timeline.seq + 1) as u64, event };
            lemma_cast_insert(o.timeline.pending, o.casting, item);
            assert forall|bi: usize| 0 <= bi < v.buffs.len() implies #[trigger] buff_tracked(v, bi) by {
                assert(buff_tracked(o, bi));
                let b = v.buffs[bi as int];
                if b.instances.len() > 0 {
                    let x = choose|x: QueueItem|
                        #[trigger] o.timeline.pending.contains(x) && x.event == expire_event(bi, b.generation) && x.time
                            == min_expiry(b.instances);
                    assert(v.timeline.pending.contains(x));
                }
            }
            assert forall|bi: usize| #[trigger] v.active.contains(bi) <==> (bi < v.buffs.len()
                && v.buffs[bi as int].instances.len() > 0) by {
                assert(o.active.contains(bi) <==> (bi < o.buffs.len()
                    && o.buffs[bi as int].instances.len() > 0));
            }
        }
    }

    /// Whether a cast is in flight.
    pub fn is_casting(&self) -> (b: bool)
        ensures
            b == self@.casting,
    {
        self.casting
    }

    /// Whether the rotation may decide now: no cast is in flight and the
    /// clock is before the horizon (no new commitment is made at or after
    /// it). Exactly the state in which [`EventLoop::begin_cast`] may be
    /// called.
    pub fn may_decide(&self) -> (b: bool)
        ensures
            b == (!self@.casting && self@.timeline.clock < self@.timeline.duration),
    {
        !self.casting && self.timeline.clock() < self.timeline.duration()
    }

    /// Begin a timed cast of `action`, completing at time key
    /// `complete_at` (no earlier than the current instant). Only one cast
    /// can be in flight, and no cast begins at or after the horizon.
    pub fn begin_cast(&mut self, action: usize, complete_at: u64)
        requires
            old(self).wf(),
            !old(self)@.casting,
            old(self)@.timeline.clock < old(self)@.timeline.duration,
            complete_at >= old(self)@.timeline.clock,
            old(self)@.timeline.seq < u64::MAX,
        ensures
            final(self).wf(),
            final(self)@.casting,
            final(self)@.buffs == old(self)@.buffs,
            final(self)@.active == old(self)@.active,
            final(self)@.timeline == (TimelineView {
                seq: (old(self)@.timeline.seq + 1) as u64,
                pending: old(self)@.timeline.pending.insert(
                    QueueItem {
                        time: complete_at,
                        rank: rank_of(Event::CastComplete { action }, old(self)@.timeline.order),
                        seq: (old(self)@.timeline.seq + 1) as u64,
                        event: Event::CastComplete { action },
                    },
                ),
                ..old(self)@.timeline
            }),
    {
        let ghost o = self@;
        let event = Event::CastComplete { action };
        self.timeline.schedule(complete_at, event);
        self.casting = true;
        proof {
            self.timeline.lemma_wf_inv();
            let v = self@;
            let item = QueueItem {
                time: complete_at,
                rank: rank_of(event, o.timeline.order),
                seq: (o.timeline.seq + 1) as u64,
                event,
            };
            assert(v.timeline.pending.contains(item));
            assert forall|y: QueueItem|
                #[trigger] v.timeline.pending.contains(y) && y.event is CastComplete implies y == item by {
                if y != item {
                    assert(o.timeline.pending.contains(y));
                }
            }
            assert forall|bi: usize| 0 <= bi < v.buffs.len() implies #[trigger] buff_tracked(v, bi) by {
                assert(buff_tracked(o, bi));
                let b = v.buffs[bi as int];
                if b.instances.len() > 0 {
                    let x = choose|x: QueueItem|
                        #[trigger] o.timeline.pending.contains(x) && x.event == expire_event(bi, b.generation) && x.time
                            == min_expiry(b.instances);
                    assert(v.timeline.pending.contains(x));
                }
            }
            assert forall|bi: usize| #[trigger] v.active.contains(bi) <==> (bi < v.buffs.len()
                && v.buffs[bi as int].instances.len() > 0) by {
                assert(o.active.contains(bi) <==> (bi < o.buffs.len()
                    && o.buffs[bi as int].instances.len() > 0));
            }
        }
    }

    /// Schedule the boundary INTO every phase after the first: `ends[i]`
    /// is the time key at which phase `i` ends (its cumulative weight), so
    /// phase `i + 1` begins there. The last phase's end is the horizon and
    /// needs no event.
    pub fn schedule_phase_boundaries(&mut self, ends: &Vec<u64>)
        requires
            old(self).wf(),
            forall|i: int| 0 <= i < ends@.len() ==> #[trigger] ends@[i] >= old(self)@.timeline.clock,
            old(self)@.timeline.seq + ends@.len() <= u64::MAX,
        ensures
            final(self).wf(),
            final(self)@.buffs == old(self)@.buffs,
            final(self)@.active == old(self)@.active,
            final(self)@.casting == old(self)@.casting,
            ({
                let o = old(self)@.timeline;
                let k: int = if ends@.len() == 0 {
                    0
                } else {
                    ends@.len() - 1
                };
                &&& final(self)@.timeline.seq == o.seq + k
                &&& final(self)@.timeline.clock == o.clock
                &&& final(self)@.timeline.duration == o.duration
                &&& final(self)@.timeline.order == o.order
                &&& final(self)@.timeline.horizon_events == o.horizon_events
                &&& forall|x: QueueItem| #[trigger]
                    final(self)@.timeline.pending.contains(x) <==> (o.pending.contains(x) || exists|
                        i: int,
                    |
                        0 <= i < k && x == (QueueItem {
                            time: #[trigger] ends@[i],
                            rank: rank_of(Event::PhaseBoundary { phase: (i + 1) as usize }, o.order),
                            seq: (o.seq + i + 1) as u64,
                            event: Event::PhaseBoundary { phase: (i + 1) as usize },
                        }))
            }),
    {
        let ghost o = self@;
        let n = ends.len();
        if n == 0 {
            return;
        }
        let mut i: usize = 0;
        while i + 1 < n
            invariant
                self.wf(),
                n == ends@.len(),
                0 <= i < n,
                forall|j: int| 0 <= j < ends@.len() ==> #[trigger] ends@[j] >= o.timeline.clock,
                o.timeline.seq + n <= u64::MAX,
                self@.buffs == o.buffs,
                self@.active == o.active,
                self@.casting == o.casting,
                self@.timeline.seq == o.timeline.seq + i,
                self@.timeline.clock == o.timeline.clock,
                self@.timeline.duration == o.timeline.duration,
                self@.timeline.order == o.timeline.order,
                self@.timeline.horizon_events == o.timeline.horizon_events,
                forall|x: QueueItem| #[trigger]
                    self@.timeline.pending.contains(x) <==> (o.timeline.pending.contains(x) || exists|
                        j: int,
                    |
                        0 <= j < i && x == (QueueItem {
                            time: #[trigger] ends@[j],
                            rank: rank_of(Event::PhaseBoundary { phase: (j + 1) as usize }, o.timeline.order),
                            seq: (o.timeline.seq + j + 1) as u64,
                            event: Event::PhaseBoundary { phase: (j + 1) as usize },
                        })),
            decreases n - i,
        {
            let ghost before = self@.timeline.pending;
            self.schedule(ends[i], Event::PhaseBoundary { phase: i + 1 });
            let ghost item = QueueItem {
                time: ends@[i as int],
                rank: rank_of(Event::PhaseBoundary { phase: (i + 1) as usize }, o.timeline.order),
                seq: (o.timeline.seq + i + 1) as u64,
                event: Event::PhaseBoundary { phase: (i + 1) as usize },
            };
            proof {
                assert(self@.timeline.pending == before.insert(item));
                assert forall|x: QueueItem| #[trigger]
                    self@.timeline.pending.contains(x) <==> (o.timeline.pending.contains(x) || exists|
                        j: int,
                    |
                        0 <= j < i + 1 && x == (QueueItem {
                            time: #[trigger] ends@[j],
                            rank: rank_of(Event::PhaseBoundary { phase: (j + 1) as usize }, o.timeline.order),
                            seq: (o.timeline.seq + j + 1) as u64,
                            event: Event::PhaseBoundary { phase: (j + 1) as usize },
                        })) by {
                    if x == item {
                        assert(ends@[i as int] == item.time);
                    } else if before.contains(x) {
                    }
                }
            }
            i = i + 1;
        }
    }

    /// One application of buff `bi` (see [`BuffRuntime::apply`]), whose
    /// fresh instance would expire at `expire_at` (no earlier than the
    /// current instant) with captured rate `rate`. The buff joins the
    /// active set on its first instance, and its one live expiry event is
    /// (re)issued at its earliest expiry under the new generation.
    pub fn apply_buff(
        &mut self,
        bi: usize,
        policy: ReapplyPolicy,
        max_stacks: u32,
        snapshot: bool,
        expire_at: u64,
        rate: u64,
    ) -> (r: Applied)
        requires
            old(self).wf(),
            bi < old(self)@.buffs.len(),
            expire_at >= old(self)@.timeline.clock,
            old(self)@.buffs[bi as int].generation < u64::MAX,
            old(self)@.timeline.seq < u64::MAX,
        ensures
            final(self).wf(),
            ({
                let o = old(self)@;
                let b = o.buffs[bi as int];
                let fresh = BuffInstance { expire_at, rate };
                let t = applied(policy, b.instances, max_stacks, fresh);
                let g = (b.generation + 1) as u64;
                &&& final(self)@.buffs == o.buffs.update(
                    bi as int,
                    BuffView { instances: t, generation: g },
                )
                &&& r.generation == g
                &&& r.count_changed == count_moves(policy, b.instances, max_stacks)
                &&& r.refold == (count_moves(policy, b.instances, max_stacks) || snapshot_set_moves(
                    policy,
                    snapshot,
                    b.instances,
                    max_stacks,
                    fresh,
                ))
                &&& r.activated == (b.instances.len() == 0)
                &&& r.next_expiry == min_expiry(t)
                &&& final(self)@.active == o.active.insert(bi)
                &&& final(self)@.casting == o.casting
                // The one expiry event carrying the new generation is the
                // one just issued; every other expiry event of the buff is
                // stale.
                &&& forall|x: QueueItem|
                    #[trigger] final(self)@.timeline.pending.contains(x) && x.event == expire_event(
                        bi,
                        g,
                    ) ==> x.time == r.next_expiry && x.seq == o.timeline.seq + 1
                &&& forall|x: QueueItem|
                    #[trigger] final(self)@.timeline.pending.contains(x) && expires_buff(x, bi)
                        && x.event != expire_event(bi, g) ==> x.event->generation < g
                &&& final(self)@.timeline == (TimelineView {
                    seq: (o.timeline.seq + 1) as u64,
                    pending: o.timeline.pending.insert(
                        QueueItem {
                            time: r.next_expiry,
                            rank: rank_of(expire_event(bi, g), o.timeline.order),
                            seq: (o.timeline.seq + 1) as u64,
                            event: expire_event(bi, g),
                        },
                    ),
                    ..o.timeline
                })
            }),
    {
        let ghost o = self@;
        proof {
            assert(o.buffs[bi as int] == self.buffs@[bi as int]@);
            assert(buff_tracked(o, bi));
        }
        let mut b = self.buffs.remove(bi);
        let r = b.apply(policy, max_stacks, snapshot, expire_at, rate);
        self.buffs.insert(bi, b);
        proof {
            let ob = o.buffs[bi as int];
            lemma_applied_not_before(
                policy,
                ob.instances,
                max_stacks,
                BuffInstance { expire_at, rate },
                o.timeline.clock,
            );
            assert(self@.buffs =~= o.buffs.update(bi as int, b@));
        }
        if r.activated {
            self.active.insert(bi);
        }
        proof {
            assert(self@.active =~= o.active.insert(bi)) by {
                if !r.activated {
                    assert(o.active.contains(bi));
                }
            }
        }
        self.timeline.schedule(r.next_expiry, Event::BuffExpire { buff: bi, generation: r.generation });
        proof {
            self.timeline.lemma_wf_inv();
            let v = self@;
            let item = QueueItem {
                time: r.next_expiry,
                rank: rank_of(expire_event(bi, r.generation), o.timeline.order),
                seq: (o.timeline.seq + 1) as u64,
                event: expire_event(bi, r.generation),
            };
            assert(v.timeline.pending == o.timeline.pending.insert(item));
            lemma_cast_insert(o.timeline.pending, o.casting, item);
            let g = r.generation;
            assert forall|x: QueueItem|
                #[trigger] v.timeline.pending.contains(x) && x.event == expire_event(bi, g) implies x.time
                    == r.next_expiry && x.seq == o.timeline.seq + 1 by {
                if x != item {
                    assert(o.timeline.pending.contains(x));
                    assert(expires_buff(x, bi));
                }
            }
            assert forall|x: QueueItem|
                #[trigger] v.timeline.pending.contains(x) && expires_buff(x, bi) && x.event
                    != expire_event(bi, g) implies x.event->generation < g by {
                if x != item {
                    assert(o.timeline.pending.contains(x));
                } else {
                    assert(false);
                }
            }
            assert forall|c: usize| 0 <= c < v.buffs.len() implies #[trigger] buff_tracked(v, c) by {
                assert(buff_tracked(o, c));
                let nb = v.buffs[c as int];
                let ob = o.buffs[c as int];
                if c == bi {
                    assert forall|x: QueueItem|
                        #[trigger] v.timeline.pending.contains(x) && expires_buff(x, c) implies x.event->generation
                            <= nb.generation by {
                        if x != item {
                            assert(o.timeline.pending.contains(x));
                        }
                    }
                    assert(v.timeline.pending.contains(item));
                    assert forall|x: QueueItem, y: QueueItem|
                        #[trigger] v.timeline.pending.contains(x) && #[trigger] v.timeline.pending.contains(y) && x.event
                            == expire_event(c, nb.generation) && y.event == expire_event(c, nb.generation) implies x
                            == y by {
                        if x != item {
                            assert(o.timeline.pending.contains(x));
                            assert(expires_buff(x, c));
                        }
                        if y != item {
                            assert(o.timeline.pending.contains(y));
                            assert(expires_buff(y, c));
                        }
                    }
                } else {
                    assert(nb == ob);
                    if nb.instances.len() > 0 {
                        let x = choose|x: QueueItem|
                            #[trigger] o.timeline.pending.contains(x) && x.event == expire_event(c, ob.generation) && x.time
                                == min_expiry(ob.instances);
                        assert(v.timeline.pending.contains(x));
                    }
                    assert forall|x: QueueItem, y: QueueItem|
                        #[trigger] v.timeline.pending.contains(x) && #[trigger] v.timeline.pending.contains(y) && x.event
                            == expire_event(c, nb.generation) && y.event == expire_event(c, nb.generation) implies x
                            == y by {
                        assert(x != item && y != item);
                        assert(o.timeline.pending.contains(x) && o.timeline.pending.contains(y));
                    }
                    assert forall|x: QueueItem|
                        #[trigger] v.timeline.pending.contains(x) && expires_buff(x, c) implies x.event->generation
                            <= nb.generation by {
                        assert(x != item);
                        assert(o.timeline.pending.contains(x));
                    }
                    if nb.instances.len() == 0 {
                        assert forall|x: QueueItem| #[trigger] v.timeline.pending.contains(x) implies x.event
                            != expire_event(c, nb.generation) by {
                            if x != item {
                                assert(o.timeline.pending.contains(x));
                            }
                        }
                    }
                }
            }
            assert forall|x: QueueItem|
                #[trigger] v.timeline.pending.contains(x) && x.event is BuffExpire implies x.event->buff
                    < v.buffs.len() by {
                if x != item {
                    assert(o.timeline.pending.contains(x));
                }
            }
            assert forall|c: usize| #[trigger] v.active.contains(c) <==> (c < v.buffs.len()
                && v.buffs[c as int].instances.len() > 0) by {
                assert(o.active.contains(c) <==> (c < o.buffs.len()
                    && o.buffs[c as int].instances.len() > 0));
            }
        }
        r
    }

    /// Resolve the next event, if one is due at or before the horizon
    /// (see [`Timeline::advance`]). A buff expiry is handled here: a stale
    /// one (superseded by a later application) does nothing; a current one
    /// drops every instance whose window has closed, takes the buff out of
    /// the active set when none survives, and reissues the expiry event,
    /// same generation, at the earliest surviving expiry.
    pub fn next(&mut self) -> (r: Result<Step, HorizonDrainExceeded>)
        requires
            old(self).wf(),
            old(self)@.timeline.seq < u64::MAX,
        ensures
            r is Ok ==> final(self).wf(),
            final(self)@.timeline.clock >= old(self)@.timeline.clock,
            ({
                let o = old(self)@;
                let m = next_of(o.timeline.pending);
                let at_h = m.time >= o.timeline.duration;
                let base = TimelineView {
                    clock: m.time,
                    horizon_events: if at_h {
                        (o.timeline.horizon_events + 1) as u32
                    } else {
                        o.timeline.horizon_events
                    },
                    pending: o.timeline.pending.remove(m),
                    ..o.timeline
                };
                if o.timeline.pending == Set::<QueueItem>::empty() || m.time > o.timeline.duration {
                    &&& r == Ok::<Step, HorizonDrainExceeded>(Step::Finished)
                    &&& final(self)@ == o
                } else if at_h && o.timeline.horizon_events >= HORIZON_DRAIN_LIMIT {
                    &&& is_next(o.timeline.pending, m)
                    &&& r == Err::<Step, HorizonDrainExceeded>(
                        HorizonDrainExceeded { event: m.event, time: m.time },
                    )
                    &&& final(self)@ == (EventLoopView {
                        timeline: TimelineView {
                            clock: m.time,
                            pending: o.timeline.pending.remove(m),
                            ..o.timeline
                        },
                        ..o
                    })
                } else {
                    &&& is_next(o.timeline.pending, m)
                    &&& match m.event {
                        Event::BuffExpire { buff, generation } => {
                            let b = o.buffs[buff as int];
                            if b.instances.len() == 0 || generation != b.generation {
                                &&& r == Ok::<Step, HorizonDrainExceeded>(
                                    Step::Resolved {
                                        event: m.event,
                                        at_horizon: at_h,
                                        sweep: Some(Swept::Stale),
                                    },
                                )
                                &&& final(self)@ == (EventLoopView { timeline: base, ..o })
                            } else {
                                let t = b.instances.filter(|i: BuffInstance| i.expire_at > m.time);
                                &&& r == Ok::<Step, HorizonDrainExceeded>(
                                    Step::Resolved {
                                        event: m.event,
                                        at_horizon: at_h,
                                        sweep: Some(
                                            Swept::Current {
                                                before: b.instances.len() as usize,
                                                expired: t.len() < b.instances.len(),
                                                emptied: t.len() == 0,
                                                next_expiry: if t.len() == 0 {
                                                    None
                                                } else {
                                                    Some(min_expiry(t))
                                                },
                                            },
                                        ),
                                    },
                                )
                                &&& final(self)@.buffs == o.buffs.update(
                                    buff as int,
                                    BuffView { instances: t, generation },
                                )
                                &&& final(self)@.active == if t.len() == 0 {
                                    o.active.remove(buff)
                                } else {
                                    o.active
                                }
                                &&& final(self)@.casting == o.casting
                                &&& final(self)@.timeline == if t.len() == 0 {
                                    base
                                } else {
                                    TimelineView {
                                        seq: (o.timeline.seq + 1) as u64,
                                        pending: base.pending.insert(
                                            QueueItem {
                                                time: min_expiry(t),
                                                rank: m.rank,
                                                seq: (o.timeline.seq + 1) as u64,
                                                event: m.event,
                                            },
                                        ),
                                        ..base
                                    }
                                }
                            }
                        },
                        _ => {
                            &&& r == Ok::<Step, HorizonDrainExceeded>(
                                Step::Resolved { event: m.event, at_horizon: at_h, sweep: None },
                            )
                            &&& final(self)@ == (EventLoopView {
                                timeline: base,
                                casting: if m.event is CastComplete {
                                    false
                                } else {
                                    o.casting
                                },
                                ..o
                            })
                        },
                    }
                }
            }),
    {
        let ghost o = self@;
        proof {
            self.timeline.lemma_wf_inv();
        }
        let a = self.timeline.advance();
        proof {
            self.timeline.lemma_wf_inv();
        }
        match a {
            Err(e) => Err(e),
            Ok(None) => Ok(Step::Finished),
            Ok(Some(d)) => {
                let ghost m = next_of(o.timeline.pending);
                let ghost v1 = self@;
                match d.event {
                    Event::BuffExpire { buff, generation } => {
                        let now = self.timeline.clock();
                        proof {
                            assert(o.timeline.pending.contains(m));
                            assert(buff < o.buffs.len());
                            assert(self.buffs@[buff as int]@ == o.buffs[buff as int]);
                        }
                        let mut b = self.buffs.remove(buff);
                        let sw = b.sweep(now, generation);
                        self.buffs.insert(buff, b);
                        proof {
                            assert(self@.buffs =~= v1.buffs.update(buff as int, b@));
                        }
                        match sw {
                            Swept::Current { emptied, next_expiry, .. } => {
                                if emptied {
                                    self.active.remove(buff);
                                }
                                match next_expiry {
                                    Some(t) => {
                                        self.timeline.schedule(
                                            t,
                                            Event::BuffExpire { buff, generation },
                                        );
                                    },
                                    None => {},
                                }
                                proof {
                                    self.timeline.lemma_wf_inv();
                                    lemma_sweep_keeps_tracking(o, self@, m);
                                }
                            },
                            Swept::Stale => {
                                proof {
                                    assert(self@.buffs =~= o.buffs);
                                    lemma_pop_keeps_tracking(o, self@, m);
                                }
                            },
                        }
                        Ok(Step::Resolved { event: d.event, at_horizon: d.at_horizon, sweep: Some(sw) })
                    },
                    Event::CastComplete { .. } => {
                        self.casting = false;
                        proof {
                            lemma_pop_keeps_tracking(o, self@, m);
                        }
                        Ok(Step::Resolved { event: d.event, at_horizon: d.at_horizon, sweep: None })
                    },
                    _ => {
                        proof {
                            lemma_pop_keeps_tracking(o, self@, m);
                        }
                        Ok(Step::Resolved { event: d.event, at_horizon: d.at_horizon, sweep: None })
                    },
                }
            },
        }
    }
}

/// Resolving the next event `m` without touching any buff keeps every
/// buff tracked — provided `m` is not the live expiry of a buff.
proof fn lemma_pop_keeps_tracking(o: EventLoopView, v: EventLoopView, m: QueueItem)
    requires
        loop_inv(o),
        is_next(o.timeline.pending, m),
        timeline_inv(v.timeline),
        v.timeline.pending == o.timeline.pending.remove(m),
        v.timeline.clock == m.time,
        v.buffs == o.buffs,
        v.active == o.active,
        v.casting == if m.event is CastComplete {
            false
        } else {
            o.casting
        },
        !(m.event is BuffExpire && m.event->buff < o.buffs.len() && m.event->generation
            == o.buffs[m.event->buff as int].generation && o.buffs[m.event->buff as int].instances.len()
            > 0),
    ensures
        loop_inv(v),
{
    lemma_cast_remove(o.timeline.pending, o.casting, m);
    assert forall|c: usize| 0 <= c < v.buffs.len() implies #[trigger] buff_tracked(v, c) by {
        assert(buff_tracked(o, c));
        let b = o.buffs[c as int];
        if b.instances.len() > 0 {
            let x = choose|x: QueueItem|
                #[trigger] o.timeline.pending.contains(x) && x.event == expire_event(c, b.generation)
                    && x.time == min_expiry(b.instances);
            assert(x != m);
            assert(v.timeline.pending.contains(x));
            assert(item_before(m, x));
            crate::buff::lemma_earliest_exists(b.instances);
            assert forall|i: int| 0 <= i < b.instances.len() implies (#[trigger] b.instances[i]).expire_at
                >= v.timeline.clock by {
                assert(b.instances[earliest_index(b.instances)].expire_at <= b.instances[i].expire_at);
            }
        }
        assert forall|x: QueueItem|
            #[trigger] v.timeline.pending.contains(x) && expires_buff(x, c) implies x.event->generation
                <= b.generation by {
            assert(o.timeline.pending.contains(x));
        }
        assert forall|x: QueueItem, y: QueueItem|
            #[trigger] v.timeline.pending.contains(x) && #[trigger] v.timeline.pending.contains(y)
                && x.event == expire_event(c, b.generation) && y.event == expire_event(c, b.generation)
                implies x == y by {
            assert(o.timeline.pending.contains(x) && o.timeline.pending.contains(y));
        }
        if b.instances.len() == 0 {
            assert forall|x: QueueItem| #[trigger] v.timeline.pending.contains(x) implies x.event
                != expire_event(c, b.generation) by {
                assert(o.timeline.pending.contains(x));
            }
        }
    }
    assert forall|x: QueueItem|
        #[trigger] v.timeline.pending.contains(x) && x.event is BuffExpire implies x.event->buff
            < v.buffs.len() by {
        assert(o.timeline.pending.contains(x));
    }
    assert forall|c: usize| #[trigger] v.active.contains(c) <==> (c < v.buffs.len()
        && v.buffs[c as int].instances.len() > 0) by {
        assert(o.active.contains(c) <==> (c < o.buffs.len() && o.buffs[c as int].instances.len() > 0));
    }
}

/// Resolving the live expiry event `m` of a buff, sweeping that buff and
/// reissuing its expiry keeps every buff tracked.
proof fn lemma_sweep_keeps_tracking(o: EventLoopView, v: EventLoopView, m: QueueItem)
    requires
        loop_inv(o),
        is_next(o.timeline.pending, m),
        m.event is BuffExpire,
        m.event->buff < o.buffs.len(),
        m.event->generation == o.buffs[m.event->buff as int].generation,
        o.buffs[m.event->buff as int].instances.len() > 0,
        timeline_inv(v.timeline),
        v.timeline.clock == m.time,
        v.casting == o.casting,
        ({
            let bi = m.event->buff;
            let b = o.buffs[bi as int];
            let t = b.instances.filter(|i: BuffInstance| i.expire_at > m.time);
            &&& v.buffs == o.buffs.update(bi as int, BuffView { instances: t, generation: b.generation })
            &&& v.active == if t.len() == 0 {
                o.active.remove(bi)
            } else {
                o.active
            }
            &&& if t.len() == 0 {
                v.timeline.pending == o.timeline.pending.remove(m)
            } else {
                &&& is_earliest(t, earliest_index(t))
                &&& v.timeline.pending == o.timeline.pending.remove(m).insert(
                    QueueItem {
                        time: min_expiry(t),
                        rank: rank_of(m.event, o.timeline.order),
                        seq: (o.timeline.seq + 1) as u64,
                        event: m.event,
                    },
                )
                &&& o.timeline.seq < u64::MAX
            }
        }),
    ensures
        loop_inv(v),
{
    let bi = m.event->buff;
    let b = o.buffs[bi as int];
    let keep = |i: BuffInstance| i.expire_at > m.time;
    let t = b.instances.filter(keep);
    let item = QueueItem {
        time: min_expiry(t),
        rank: rank_of(m.event, o.timeline.order),
        seq: (o.timeline.seq + 1) as u64,
        event: m.event,
    };
    assert(m.event == expire_event(bi, b.generation));
    lemma_cast_remove(o.timeline.pending, o.casting, m);
    if t.len() > 0 {
        lemma_cast_insert(o.timeline.pending.remove(m), o.casting, item);
    }
    assert forall|c: usize| 0 <= c < v.buffs.len() implies #[trigger] buff_tracked(v, c) by {
        assert(buff_tracked(o, c));
        let ob = o.buffs[c as int];
        let nb = v.buffs[c as int];
        if c == bi {
            assert(nb.instances == t);
            assert(nb.generation == b.generation);
            assert forall|x: QueueItem|
                #[trigger] v.timeline.pending.contains(x) && expires_buff(x, c) implies x.event->generation
                    <= nb.generation by {
                if t.len() == 0 || x != item {
                    assert(o.timeline.pending.contains(x));
                }
            }
            assert forall|x: QueueItem, y: QueueItem|
                #[trigger] v.timeline.pending.contains(x) && #[trigger] v.timeline.pending.contains(y)
                    && x.event == expire_event(c, nb.generation) && y.event == expire_event(c, nb.generation)
                    implies x == y by {
                if t.len() == 0 || x != item {
                    assert(o.timeline.pending.contains(x));
                    assert(x == m);
                }
                if t.len() == 0 || y != item {
                    assert(o.timeline.pending.contains(y));
                    assert(y == m);
                }
            }
            if t.len() == 0 {
                assert forall|x: QueueItem| #[trigger] v.timeline.pending.contains(x) implies x.event
                    != expire_event(c, nb.generation) by {
                    assert(o.timeline.pending.contains(x));
                    if x.event == expire_event(c, nb.generation) {
                        assert(x == m);
                    }
                }
            } else {
                assert(v.timeline.pending.contains(item));
            }
            assert forall|i: int| 0 <= i < t.len() implies (#[trigger] t[i]).expire_at >= v.timeline.clock by {
                b.instances.lemma_filter_pred(keep, i);
            }
        } else {
            assert(nb == ob);
            if ob.instances.len() > 0 {
                let x = choose|x: QueueItem|
                    #[trigger] o.timeline.pending.contains(x) && x.event == expire_event(c, ob.generation)
                        && x.time == min_expiry(ob.instances);
                assert(x != m);
                assert(v.timeline.pending.contains(x));
                assert(item_before(m, x));
                crate::buff::lemma_earliest_exists(ob.instances);
                assert forall|i: int| 0 <= i < ob.instances.len() implies (#[trigger] ob.instances[i]).expire_at
                    >= v.timeline.clock by {
                    assert(ob.instances[earliest_index(ob.instances)].expire_at <= ob.instances[i].expire_at);
                }
            }
            assert forall|x: QueueItem|
                #[trigger] v.timeline.pending.contains(x) && expires_buff(x, c) implies x.event->generation
                    <= nb.generation by {
                assert(t.len() == 0 || x != item);
                assert(o.timeline.pending.contains(x));
            }
            assert forall|x: QueueItem, y: QueueItem|
                #[trigger] v.timeline.pending.contains(x) && #[trigger] v.timeline.pending.contains(y)
                    && x.event == expire_event(c, nb.generation) && y.event == expire_event(c, nb.generation)
                    implies x == y by {
                assert(t.len() == 0 || (x != item && y != item));
                assert(o.timeline.pending.contains(x) && o.timeline.pending.contains(y));
            }
            if nb.instances.len() == 0 {
                assert forall|x: QueueItem| #[trigger] v.timeline.pending.contains(x) implies x.event
                    != expire_event(c, nb.generation) by {
                    if t.len() == 0 || x != item {
                        assert(o.timeline.pending.contains(x));
                    }
                }
            }
        }
    }
    assert forall|x: QueueItem|
        #[trigger] v.timeline.pending.contains(x) && x.event is BuffExpire implies x.event->buff
            < v.buffs.len() by {
        if t.len() == 0 || x != item {
            assert(o.timeline.pending.contains(x));
        }
    }
    assert forall|c: usize| #[trigger] v.active.contains(c) <==> (c < v.buffs.len()
        && v.buffs[c as int].instances.len() > 0) by {
        assert(o.active.contains(c) <==> (c < o.buffs.len() && o.buffs[c as int].instances.len() > 0));
    }
}

/// Every instance an application leaves expires no earlier than `clock`,
/// given the incoming instance and every standing one do not.
proof fn lemma_applied_not_before(
    policy: ReapplyPolicy,
    s: Seq<BuffInstance>,
    max_stacks: u32,
    fresh: BuffInstance,
    clock: u64,
)
    requires
        fresh.expire_at >= clock,
        forall|i: int| 0 <= i < s.len() ==> (#[trigger] s[i]).expire_at >= clock,
    ensures
        ({
            let t = applied(policy, s, max_stacks, fresh);
            forall|i: int| 0 <= i < t.len() ==> (#[trigger] t[i]).expire_at >= clock
        }),
{
    let t = applied(policy, s, max_stacks, fresh);
    if policy == ReapplyPolicy::AddIndependent && crate::buff::at_cap(s, max_stacks) {
        crate::buff::lemma_earliest_exists(s);
        let k = earliest_index(s);
        let r = s.remove(k);
        assert forall|i: int| 0 <= i < r.len() implies (#[trigger] r[i]).expire_at >= clock by {
            if i < k {
                assert(r[i] == s[i]);
            } else {
                assert(r[i] == s[i + 1]);
            }
        }
    }
}

/// `x` is a pending expiry event of buff `bi` carrying its current
/// generation: the buff's live expiry.
pub open spec fn is_live_expiry(v: EventLoopView, bi: usize, x: QueueItem) -> bool {
    v.timeline.pending.contains(x) && x.event == expire_event(bi, v.buffs[bi as int].generation)
}

/// At every point of a run, each ACTIVE buff has exactly one live
/// (current-generation) expiry event pending, due at its earliest instance
/// expiry, and an inactive buff has none; every other pending expiry
/// event of the buff is stale and is ignored when resolved.
pub proof fn lemma_one_live_expiry_per_buff(v: EventLoopView, bi: usize)
    requires
        loop_inv(v),
        bi < v.buffs.len(),
    ensures
        ({
            let b = v.buffs[bi as int];
            &&& b.instances.len() > 0 ==> exists|x: QueueItem|
                #[trigger] is_live_expiry(v, bi, x) && x.time == min_expiry(b.instances) && forall|
                    y: QueueItem,
                | #[trigger] is_live_expiry(v, bi, y) ==> y == x
            &&& b.instances.len() == 0 ==> forall|x: QueueItem| !#[trigger] is_live_expiry(v, bi, x)
            &&& forall|x: QueueItem|
                #[trigger] v.timeline.pending.contains(x) && expires_buff(x, bi) && !is_live_expiry(
                    v,
                    bi,
                    x,
                ) ==> x.event->generation < b.generation
            &&& v.active.contains(bi) <==> b.instances.len() > 0
        }),
{
    assert(buff_tracked(v, bi));
    let b = v.buffs[bi as int];
    if b.instances.len() > 0 {
        let x = choose|x: QueueItem|
            #[trigger] v.timeline.pending.contains(x) && x.event == expire_event(bi, b.generation)
                && x.time == min_expiry(b.instances);
        assert forall|y: QueueItem| #[trigger] is_live_expiry(v, bi, y) implies y == x by {}
        assert(is_live_expiry(v, bi, x));
    }
    assert forall|x: QueueItem|
        #[trigger] v.timeline.pending.contains(x) && expires_buff(x, bi) && !is_live_expiry(v, bi, x)
            implies x.event->generation < b.generation by {
        assert(x.event->generation <= b.generation);
    }
}

/// Scheduling anything but a cast completion leaves the cast bookkeeping
/// as it was.
proof fn lemma_cast_insert(p: Set<QueueItem>, casting: bool, item: QueueItem)
    requires
        cast_tracked(p, casting),
        !(item.event is CastComplete),
    ensures
        cast_tracked(p.insert(item), casting),
{
    let q = p.insert(item);
    if casting {
        let x = choose|x: QueueItem|
            #[trigger] p.contains(x) && x.event is CastComplete && forall|y: QueueItem|
                #[trigger] p.contains(y) && y.event is CastComplete ==> y == x;
        assert(q.contains(x));
        assert forall|y: QueueItem| #[trigger] q.contains(y) && y.event is CastComplete implies y == x by {
            assert(p.contains(y));
        }
    } else {
        assert forall|x: QueueItem| #[trigger] q.contains(x) implies !(x.event is CastComplete) by {
            if x != item {
                assert(p.contains(x));
            }
        }
    }
}

/// Resolving an event ends the cast in flight exactly when it is that
/// cast's completion.
proof fn lemma_cast_remove(p: Set<QueueItem>, casting: bool, m: QueueItem)
    requires
        cast_tracked(p, casting),
        p.contains(m),
    ensures
        cast_tracked(
            p.remove(m),
            if m.event is CastComplete {
                false
            } else {
                casting
            },
        ),
{
    let q = p.remove(m);
    if casting {
        let x = choose|x: QueueItem|
            #[trigger] p.contains(x) && x.event is CastComplete && forall|y: QueueItem|
                #[trigger] p.contains(y) && y.event is CastComplete ==> y == x;
        if m.event is CastComplete {
            assert(m == x);
            assert forall|z: QueueItem| #[trigger] q.contains(z) implies !(z.event is CastComplete) by {
                assert(p.contains(z));
            }
        } else {
            assert(q.contains(x));
            assert forall|y: QueueItem| #[trigger] q.contains(y) && y.event is CastComplete implies y
                == x by {
                assert(p.contains(y));
            }
        }
    } else {
        assert forall|z: QueueItem| #[trigger] q.contains(z) implies !(z.event is CastComplete) by {
            assert(p.contains(z));
        }
    }
}

/// While a cast is in flight exactly one completion is pending, and
/// while none is, no completion is pending: the rotation never has two
/// casts under way.
pub proof fn lemma_at_most_one_cast_in_flight(v: EventLoopView, x: QueueItem, y: QueueItem)
    requires
        loop_inv(v),
        v.timeline.pending.contains(x),
        v.timeline.pending.contains(y),
        x.event is CastComplete,
        y.event is CastComplete,
    ensures
        v.casting,
        x == y,
{
}

} // verus!
