use vstd::prelude::*;

verus! {

/// How coincident events (same instant) are ordered before `seq` decides.
#[derive(Debug, Clone, Copy, PartialEq, Eq, Structural)]
pub enum EventOrder {
    /// Scheduling order: one constant class, so `seq` alone decides.
    Scheduled,
    /// A `CastComplete` outranks every other coincident event.
    CompletionsFirst,
}

/// One entry the discrete-event queue can hold.
#[derive(Debug, Clone, Copy, PartialEq, Eq, Structural)]
pub enum Event {
    /// `action`'s in-flight cast finishes.
    CastComplete { action: usize },
    /// `buff`'s earliest live instance expires, if the buff is still at
    /// `generation`.
    BuffExpire { buff: usize, generation: u64 },
    /// The scenario crosses into phase index `phase`.
    PhaseBoundary { phase: usize },
    /// A bare re-decision marker.
    Wake,
}

/// The ordering class of `event` under `order`.
pub open spec fn rank_of(event: Event, order: EventOrder) -> u8 {
    match order {
        EventOrder::Scheduled => 0,
        EventOrder::CompletionsFirst => match event {
            Event::CastComplete { .. } => 0,
            _ => 1,
        },
    }
}

/// The ordering class of `event` under `order` — the middle key of the
/// queue's `(time, class, seq)` order.
pub fn class_rank(event: &Event, order: EventOrder) -> (r: u8)
    ensures
        r == rank_of(*event, order),
{
    match order {
        EventOrder::Scheduled => 0,
        EventOrder::CompletionsFirst => match event {
            Event::CastComplete { .. } => 0,
            Event::BuffExpire { .. } | Event::PhaseBoundary { .. } | Event::Wake => 1,
        },
    }
}

} // verus!

verus! {

/// A queue entry: `(time, class, seq, event)`. `time` is the order key of
/// the instant the event is due at.
#[derive(Debug, Clone, Copy, PartialEq, Eq, Structural)]
pub struct QueueItem {
    pub time: u64,
    pub rank: u8,
    pub seq: u64,
    pub event: Event,
}

/// `a` is processed before `b`: earliest time first, then lowest class,
/// then lowest `seq`.
pub open spec fn item_before(a: QueueItem, b: QueueItem) -> bool {
    ||| a.time < b.time
    ||| (a.time == b.time && a.rank < b.rank)
    ||| (a.time == b.time && a.rank == b.rank && a.seq < b.seq)
}

/// Most events one run may resolve at the fight horizon before failing
/// closed.
pub const HORIZON_DRAIN_LIMIT: u32 = 10_000;

/// The abstract state of a [`Timeline`].
pub ghost struct TimelineView {
    pub order: EventOrder,
    /// The `seq` handed to the most recently scheduled event (0 before any).
    pub seq: u64,
    /// The order key of the current instant.
    pub clock: u64,
    /// The order key of the fight horizon.
    pub duration: u64,
    /// Events already resolved at the horizon.
    pub horizon_events: u32,
    /// Every event scheduled and not yet resolved.
    pub pending: Set<QueueItem>,
}

/// `m` is the event the queue resolves next.
pub open spec fn is_next(pending: Set<QueueItem>, m: QueueItem) -> bool {
    &&& pending.contains(m)
    &&& forall|y: QueueItem| #[trigger] pending.contains(y) && y != m ==> item_before(m, y)
}

/// The event the queue resolves next (meaningful when `pending` is
/// non-empty).
pub open spec fn next_of(pending: Set<QueueItem>) -> QueueItem {
    choose|m: QueueItem| is_next(pending, m)
}

/// What always holds of a timeline.
pub open spec fn timeline_inv(v: TimelineView) -> bool {
    &&& v.pending.finite()
    &&& v.horizon_events <= HORIZON_DRAIN_LIMIT
    &&& forall|x: QueueItem| #[trigger] v.pending.contains(x) ==> {
        &&& x.seq <= v.seq
        &&& x.rank == rank_of(x.event, v.order)
        &&& x.time >= v.clock
    }
    &&& forall|x: QueueItem, y: QueueItem|
        #[trigger] v.pending.contains(x) && #[trigger] v.pending.contains(y) && x != y
            ==> x.seq != y.seq
}

/// One resolved event, as the run loop dispatches it.
#[derive(Debug, Clone, Copy, PartialEq, Eq, Structural)]
pub struct Dispatched {
    pub event: Event,
    /// The clock has reached the horizon: no new cast may begin.
    pub at_horizon: bool,
}

/// More than [`HORIZON_DRAIN_LIMIT`] events piled onto the horizon.
#[derive(Debug, Clone, Copy, PartialEq, Eq, Structural)]
pub struct HorizonDrainExceeded {
    /// The event whose resolution would have exceeded the bound.
    pub event: Event,
    /// Its time key (the horizon).
    pub time: u64,
}

/// The discrete-event queue and clock of one run.
pub struct Timeline {
    order: EventOrder,
    seq: u64,
    clock: u64,
    duration: u64,
    horizon_events: u32,
    /// Sorted so that the LAST entry is resolved first.
    items: Vec<QueueItem>,
}

impl View for Timeline {
    type V = TimelineView;

    closed spec fn view(&self) -> TimelineView {
        TimelineView {
            order: self.order,
            seq: self.seq,
            clock: self.clock,
            duration: self.duration,
            horizon_events: self.horizon_events,
            pending: Set::new(|x: QueueItem| self.items@.contains(x)),
        }
    }
}

fn precedes(a: &QueueItem, b: &QueueItem) -> (r: bool)
    ensures
        r == item_before(*a, *b),
{
    a.time < b.time || (a.time == b.time && a.rank < b.rank) || (a.time == b.time && a.rank
        == b.rank && a.seq < b.seq)
}

impl Timeline {
    /// The storage is strictly sorted, last-resolved first, and every
    /// entry carries the bookkeeping [`timeline_inv`] states.
    closed spec fn sorted(&self) -> bool {
        &&& forall|i: int, j: int|
            0 <= i < j < self.items@.len() ==> item_before(
                #[trigger] self.items@[j],
                #[trigger] self.items@[i],
            )
        &&& forall|i: int|
            0 <= i < self.items@.len() ==> {
                &&& (#[trigger] self.items@[i]).seq <= self.seq
                &&& self.items@[i].rank == rank_of(self.items@[i].event, self.order)
                &&& self.items@[i].time >= self.clock
            }
        &&& forall|i: int, j: int|
            0 <= i < j < self.items@.len() ==> (#[trigger] self.items@[i]).seq
                != (#[trigger] self.items@[j]).seq
        &&& self.horizon_events <= HORIZON_DRAIN_LIMIT
    }

    /// Well-formedness.
    pub closed spec fn wf(&self) -> bool {
        self.sorted()
    }

    /// A well-formed timeline's abstract state satisfies [`timeline_inv`].
    pub proof fn lemma_wf_inv(&self)
        requires
            self.wf(),
        ensures
            timeline_inv(self@),
    {
        let s = self.items@;
        assert(self@.pending =~= s.to_set()) by {
            assert forall|x: QueueItem| self@.pending.contains(x) <==> s.to_set().contains(x) by {
            }
        }
        vstd::seq_lib::seq_to_set_is_finite(s);
        assert forall|x: QueueItem| #[trigger] self@.pending.contains(x) implies {
            &&& x.seq <= self@.seq
            &&& x.rank == rank_of(x.event, self@.order)
            &&& x.time >= self@.clock
        } by {
            let i = choose|i: int| 0 <= i < s.len() && s[i] == x;
            assert(s[i] == x);
        }
        assert forall|x: QueueItem, y: QueueItem|
            #[trigger] self@.pending.contains(x) && #[trigger] self@.pending.contains(y) && x
                != y implies x.seq != y.seq by {
            let i = choose|i: int| 0 <= i < s.len() && s[i] == x;
            let j = choose|j: int| 0 <= j < s.len() && s[j] == y;
            assert(s[i] == x && s[j] == y);
            assert(i != j);
        }
    }

    /// An empty queue at instant zero, resolving coincident events under
    /// `order`, with its horizon at `duration`.
    pub fn new(order: EventOrder, duration: u64) -> (t: Timeline)
        ensures
            t.wf(),
            t@.order == order,
            t@.seq == 0,
            t@.clock == 0,
            t@.duration == duration,
            t@.horizon_events == 0,
            t@.pending == Set::<QueueItem>::empty(),
    {
        let t = Timeline { order, seq: 0, clock: 0, duration, horizon_events: 0, items: Vec::new() };
        assert(t@.pending =~= Set::<QueueItem>::empty());
        t
    }

    /// The order key of the current instant.
    pub fn clock(&self) -> (c: u64)
        ensures
            c == self@.clock,
    {
        self.clock
    }

    /// The order key of the fight horizon.
    pub fn duration(&self) -> (d: u64)
        ensures
            d == self@.duration,
    {
        self.duration
    }

    /// The `seq` of the most recently scheduled event.
    pub fn last_seq(&self) -> (q: u64)
        ensures
            q == self@.seq,
    {
        self.seq
    }

    /// Whether nothing is scheduled.
    pub fn is_empty(&self) -> (b: bool)
        requires
            self.wf(),
        ensures
            b <==> self@.pending == Set::<QueueItem>::empty(),
    {
        proof {
            if self.items@.len() > 0 {
                assert(self@.pending.contains(self.items@[0]));
            } else {
                assert(self@.pending =~= Set::<QueueItem>::empty());
            }
        }
        self.items.len() == 0
    }

    /// Schedule `event` at time key `time`: it gets the next `seq` and its
    /// class under the timeline's order.
    pub fn schedule(&mut self, time: u64, event: Event)
        requires
            old(self).wf(),
            time >= old(self)@.clock,
            old(self)@.seq < u64::MAX,
        ensures
            final(self).wf(),
            final(self)@ == (TimelineView {
                seq: (old(self)@.seq + 1) as u64,
                pending: old(self)@.pending.insert(
                    QueueItem {
                        time,
                        rank: rank_of(event, old(self)@.order),
                        seq: (old(self)@.seq + 1) as u64,
                        event,
                    },
                ),
                ..old(self)@
            }),
    {
        self.seq = self.seq + 1;
        let item = QueueItem { time, rank: class_rank(&event, self.order), seq: self.seq, event };
        let mut k: usize = 0;
        let n = self.items.len();
        while k < n && precedes(&item, &self.items[k])
            invariant
                0 <= k <= n,
                n == self.items@.len(),
                forall|i: int| 0 <= i < k ==> item_before(item, #[trigger] self.items@[i]),
            decreases n - k,
        {
            k = k + 1;
        }
        let ghost old_items = self.items@;
        proof {
            // `item` is later than every entry from `k` on: its `seq` is new.
            assert forall|i: int| k <= i < n implies item_before(
                #[trigger] old_items[i],
                item,
            ) by {
                if i > k {
                    assert(item_before(old_items[i], old_items[k as int]));
                }
                assert(old_items[i].seq < item.seq);
            }
        }
        self.items.insert(k, item);
        proof {
            let s = self.items@;
            assert(s == old_items.insert(k as int, item));
            assert forall|i: int, j: int| 0 <= i < j < s.len() implies item_before(
                #[trigger] s[j],
                #[trigger] s[i],
            ) by {
                if j < k {
                    assert(s[i] == old_items[i] && s[j] == old_items[j]);
                } else if j == k {
                    assert(s[i] == old_items[i]);
                } else if i == k {
                    assert(s[j] == old_items[j - 1]);
                } else if i < k {
                    assert(s[i] == old_items[i] && s[j] == old_items[j - 1]);
                    assert(item_before(item, old_items[i]));
                    assert(item_before(old_items[j - 1], item));
                } else {
                    assert(s[i] == old_items[i - 1] && s[j] == old_items[j - 1]);
                }
            }
            assert forall|i: int, j: int| 0 <= i < j < s.len() implies (#[trigger] s[i]).seq
                != (#[trigger] s[j]).seq by {
                if i == k {
                    assert(s[j] == old_items[j - 1]);
                } else if j == k {
                    assert(s[i] == old_items[i]);
                } else {
                    let a = if i < k { i } else { i - 1 };
                    let b = if j < k { j } else { j - 1 };
                    assert(s[i] == old_items[a] && s[j] == old_items[b]);
                }
            }
            assert forall|i: int| 0 <= i < s.len() implies {
                &&& (#[trigger] s[i]).seq <= self.seq
                &&& s[i].rank == rank_of(s[i].event, self.order)
                &&& s[i].time >= self.clock
            } by {
                if i < k {
                    assert(s[i] == old_items[i]);
                } else if i > k {
                    assert(s[i] == old_items[i - 1]);
                }
            }
            assert forall|x: QueueItem| #[trigger] s.contains(x) <==> (old_items.contains(x)
                || x == item) by {
                if s.contains(x) {
                    let i = choose|i: int| 0 <= i < s.len() && s[i] == x;
                    if i < k {
                        assert(old_items[i] == x);
                    } else if i > k {
                        assert(old_items[i - 1] == x);
                    }
                }
                if old_items.contains(x) {
                    let i = choose|i: int| 0 <= i < old_items.len() && old_items[i] == x;
                    if i < k {
                        assert(s[i] == x);
                    } else {
                        assert(s[i + 1] == x);
                    }
                }
                if x == item {
                    assert(s[k as int] == x);
                }
            }
            assert(self@.pending =~= old(self)@.pending.insert(item));
        }
    }

    /// One step of the run loop: resolve the next event unless the queue
    /// is empty or its next event lies strictly past the horizon. Every
    /// event AT the horizon is resolved, up to [`HORIZON_DRAIN_LIMIT`] of
    /// them.
    pub fn advance(&mut self) -> (r: Result<Option<Dispatched>, HorizonDrainExceeded>)
        requires
            old(self).wf(),
        ensures
            final(self).wf(),
            final(self)@.clock >= old(self)@.clock,
            ({
                let o = old(self)@;
                let m = next_of(o.pending);
                if o.pending == Set::<QueueItem>::empty() || m.time > o.duration {
                    &&& r == Ok::<Option<Dispatched>, HorizonDrainExceeded>(None)
                    &&& final(self)@ == o
                } else if m.time >= o.duration {
                    &&& is_next(o.pending, m)
                    &&& if o.horizon_events >= HORIZON_DRAIN_LIMIT {
                        &&& r == Err::<Option<Dispatched>, HorizonDrainExceeded>(
                            HorizonDrainExceeded { event: m.event, time: m.time },
                        )
                        &&& final(self)@ == (TimelineView {
                            clock: m.time,
                            pending: o.pending.remove(m),
                            ..o
                        })
                    } else {
                        &&& r == Ok::<Option<Dispatched>, HorizonDrainExceeded>(
                            Some(Dispatched { event: m.event, at_horizon: true }),
                        )
                        &&& final(self)@ == (TimelineView {
                            clock: m.time,
                            horizon_events: (o.horizon_events + 1) as u32,
                            pending: o.pending.remove(m),
                            ..o
                        })
                    }
                } else {
                    &&& is_next(o.pending, m)
                    &&& r == Ok::<Option<Dispatched>, HorizonDrainExceeded>(
                        Some(Dispatched { event: m.event, at_horizon: false }),
                    )
                    &&& final(self)@ == (TimelineView {
                        clock: m.time,
                        pending: o.pending.remove(m),
                        ..o
                    })
                }
            }),
    {
        let ghost o = self@;
        let n = self.items.len();
        if n == 0 {
            assert(o.pending =~= Set::<QueueItem>::empty());
            return Ok(None);
        }
        let top = self.items[n - 1];
        let ghost s = self.items@;
        proof {
            assert(s[n - 1] == top);
            assert(o.pending.contains(top));
            assert forall|y: QueueItem| #[trigger] o.pending.contains(y) && y != top implies item_before(
                top,
                y,
            ) by {
                let i = choose|i: int| 0 <= i < s.len() && s[i] == y;
                if i < n - 1 {
                    assert(item_before(s[n - 1], s[i]));
                }
            }
            assert(is_next(o.pending, top));
            let m = next_of(o.pending);
            assert(is_next(o.pending, m));
            if m != top {
                assert(item_before(top, m));
                assert(item_before(m, top));
                assert(false);
            }
            assert(o.pending != Set::<QueueItem>::empty());
        }
        if top.time > self.duration {
            return Ok(None);
        }
        self.items.pop();
        self.clock = top.time;
        proof {
            let t = self.items@;
            assert(t == s.subrange(0, n - 1));
            assert forall|x: QueueItem| #[trigger] t.contains(x) <==> (s.contains(x) && x != top) by {
                if t.contains(x) {
                    let i = choose|i: int| 0 <= i < t.len() && t[i] == x;
                    assert(s[i] == x);
                    assert(item_before(s[n - 1], s[i]));
                }
                if s.contains(x) && x != top {
                    let i = choose|i: int| 0 <= i < s.len() && s[i] == x;
                    assert(i != n - 1);
                    assert(t[i] == x);
                }
            }
            assert(self@.pending =~= o.pending.remove(top));
            assert forall|i: int| 0 <= i < t.len() implies (#[trigger] t[i]).time >= self.clock by {
                assert(t[i] == s[i]);
                assert(item_before(s[n - 1], s[i]));
            }
        }
        let at_horizon = top.time >= self.duration;
        if at_horizon {
            if self.horizon_events >= HORIZON_DRAIN_LIMIT {
                return Err(HorizonDrainExceeded { event: top.event, time: top.time });
            }
            self.horizon_events = self.horizon_events + 1;
        }
        Ok(Some(Dispatched { event: top.event, at_horizon }))
    }
}

/// Under [`EventOrder::Scheduled`], coincident events are resolved in the
/// order they were scheduled.
pub proof fn lemma_scheduled_order_is_first_scheduled_first(
    v: TimelineView,
    x: QueueItem,
    y: QueueItem,
)
    requires
        timeline_inv(v),
        v.order == EventOrder::Scheduled,
        v.pending.contains(x),
        v.pending.contains(y),
        x.time == y.time,
        x.seq < y.seq,
    ensures
        item_before(x, y),
{
}

/// Under [`EventOrder::CompletionsFirst`], a cast completion is resolved
/// before every other event due at the same instant, whatever their `seq`.
pub proof fn lemma_completion_outranks_coincident_events(
    v: TimelineView,
    x: QueueItem,
    y: QueueItem,
)
    requires
        timeline_inv(v),
        v.order == EventOrder::CompletionsFirst,
        v.pending.contains(x),
        v.pending.contains(y),
        x.time == y.time,
        x.event is CastComplete,
        !(y.event is CastComplete),
    ensures
        item_before(x, y),
{
}

/// Under either order, two coincident events of the same kind class are
/// resolved in scheduling order: within the non-completion class, `seq`
/// still decides.
pub proof fn lemma_same_class_resolves_by_seq(v: TimelineView, x: QueueItem, y: QueueItem)
    requires
        timeline_inv(v),
        v.pending.contains(x),
        v.pending.contains(y),
        x.time == y.time,
        (x.event is CastComplete) == (y.event is CastComplete),
        x.seq < y.seq,
    ensures
        item_before(x, y),
{
}

/// Every non-empty set of pending events, with distinct `seq`s, has
/// exactly one event that is resolved next.
pub proof fn lemma_next_exists(pending: Set<QueueItem>)
    requires
        pending.finite(),
        pending != Set::<QueueItem>::empty(),
        forall|x: QueueItem, y: QueueItem|
            #[trigger] pending.contains(x) && #[trigger] pending.contains(y) && x != y
                ==> x.seq != y.seq,
    ensures
        is_next(pending, next_of(pending)),
        forall|m: QueueItem| is_next(pending, m) ==> m == next_of(pending),
    decreases pending.len(),
{
    let a = pending.choose();
    let rest = pending.remove(a);
    assert(pending.len() > 0) by {
        if pending.len() == 0 {
            assert(pending =~= Set::<QueueItem>::empty());
        }
    }
    let w: QueueItem = if rest == Set::<QueueItem>::empty() {
        assert forall|y: QueueItem| #[trigger] pending.contains(y) && y != a implies item_before(
            a,
            y,
        ) by {
            assert(rest.contains(y));
        }
        a
    } else {
        lemma_next_exists(rest);
        let m = next_of(rest);
        if item_before(a, m) {
            assert forall|y: QueueItem| #[trigger] pending.contains(y) && y != a implies item_before(
                a,
                y,
            ) by {
                assert(rest.contains(y));
                if y != m {
                    assert(item_before(m, y));
                }
            }
            a
        } else {
            assert(a.seq != m.seq);
            assert(item_before(m, a));
            m
        }
    };
    assert(is_next(pending, w));
    assert forall|m: QueueItem| is_next(pending, m) implies m == w by {
        if m != w {
            assert(item_before(m, w));
            assert(item_before(w, m));
        }
    }
}

/// The next event of a non-empty, well-formed timeline is never due
/// before the current instant, so resolving it never moves the clock back.
pub proof fn lemma_next_event_is_not_in_the_past(v: TimelineView)
    requires
        timeline_inv(v),
        v.pending != Set::<QueueItem>::empty(),
    ensures
        v.pending.contains(next_of(v.pending)),
        next_of(v.pending).time >= v.clock,
{
    lemma_next_exists(v.pending);
}

} // verus!
