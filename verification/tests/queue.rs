use rtce::queue::{class_rank, Dispatched, Event, EventOrder, HorizonDrainExceeded, Timeline, HORIZON_DRAIN_LIMIT};

#[test]
fn class_rank_is_constant_under_scheduled_order() {
    for e in [
        Event::CastComplete { action: 0 },
        Event::BuffExpire { buff: 1, generation: 2 },
        Event::PhaseBoundary { phase: 1 },
        Event::Wake,
    ] {
        assert_eq!(class_rank(&e, EventOrder::Scheduled), 0);
    }
}

#[test]
fn completions_first_puts_cast_completions_in_their_own_class() {
    assert_eq!(class_rank(&Event::CastComplete { action: 3 }, EventOrder::CompletionsFirst), 0);
    assert_eq!(class_rank(&Event::BuffExpire { buff: 0, generation: 1 }, EventOrder::CompletionsFirst), 1);
    assert_eq!(class_rank(&Event::PhaseBoundary { phase: 2 }, EventOrder::CompletionsFirst), 1);
    assert_eq!(class_rank(&Event::Wake, EventOrder::CompletionsFirst), 1);
}

fn drain(t: &mut Timeline) -> Vec<Event> {
    let mut out = Vec::new();
    while let Ok(Some(Dispatched { event, .. })) = t.advance() {
        out.push(event);
    }
    out
}

#[test]
fn earliest_time_resolves_first() {
    let mut t = Timeline::new(EventOrder::Scheduled, 100);
    t.schedule(30, Event::Wake);
    t.schedule(10, Event::CastComplete { action: 1 });
    t.schedule(20, Event::PhaseBoundary { phase: 1 });
    assert_eq!(
        drain(&mut t),
        vec![Event::CastComplete { action: 1 }, Event::PhaseBoundary { phase: 1 }, Event::Wake]
    );
    assert_eq!(t.clock(), 30);
}

#[test]
fn coincident_events_resolve_in_scheduling_order_by_default() {
    let mut t = Timeline::new(EventOrder::Scheduled, 100);
    t.schedule(20, Event::BuffExpire { buff: 0, generation: 1 });
    t.schedule(20, Event::CastComplete { action: 0 });
    assert_eq!(
        drain(&mut t),
        vec![Event::BuffExpire { buff: 0, generation: 1 }, Event::CastComplete { action: 0 }]
    );
}

#[test]
fn completions_first_lets_the_cast_complete_before_a_coincident_expiry() {
    let mut t = Timeline::new(EventOrder::CompletionsFirst, 100);
    t.schedule(20, Event::BuffExpire { buff: 0, generation: 1 });
    t.schedule(20, Event::Wake);
    t.schedule(20, Event::CastComplete { action: 0 });
    // The rest class still resolves by seq: expiry before wake.
    assert_eq!(
        drain(&mut t),
        vec![
            Event::CastComplete { action: 0 },
            Event::BuffExpire { buff: 0, generation: 1 },
            Event::Wake
        ]
    );
}

#[test]
fn events_past_the_horizon_are_never_resolved_but_events_at_it_all_are() {
    let mut t = Timeline::new(EventOrder::Scheduled, 50);
    t.schedule(50, Event::BuffExpire { buff: 0, generation: 1 });
    t.schedule(50, Event::CastComplete { action: 0 });
    t.schedule(51, Event::Wake);
    assert_eq!(t.advance(), Ok(Some(Dispatched { event: Event::BuffExpire { buff: 0, generation: 1 }, at_horizon: true })));
    assert_eq!(t.advance(), Ok(Some(Dispatched { event: Event::CastComplete { action: 0 }, at_horizon: true })));
    assert_eq!(t.advance(), Ok(None));
    assert_eq!(t.clock(), 50);
    assert!(!t.is_empty());
}

#[test]
fn events_before_the_horizon_are_not_at_the_horizon() {
    let mut t = Timeline::new(EventOrder::Scheduled, 50);
    t.schedule(49, Event::Wake);
    assert_eq!(t.advance(), Ok(Some(Dispatched { event: Event::Wake, at_horizon: false })));
    assert_eq!(t.advance(), Ok(None));
    assert!(t.is_empty());
}

#[test]
fn too_many_events_at_the_horizon_fail_closed() {
    let mut t = Timeline::new(EventOrder::Scheduled, 7);
    let n = HORIZON_DRAIN_LIMIT as usize + 1;
    for i in 0..n {
        t.schedule(7, Event::PhaseBoundary { phase: i + 1 });
    }
    for _ in 0..HORIZON_DRAIN_LIMIT {
        assert!(matches!(t.advance(), Ok(Some(Dispatched { at_horizon: true, .. }))));
    }
    assert_eq!(
        t.advance(),
        Err(HorizonDrainExceeded { event: Event::PhaseBoundary { phase: n }, time: 7 })
    );
}

#[test]
fn seq_counts_every_scheduled_event() {
    let mut t = Timeline::new(EventOrder::Scheduled, 9);
    assert_eq!(t.last_seq(), 0);
    t.schedule(1, Event::Wake);
    t.schedule(1, Event::Wake);
    assert_eq!(t.last_seq(), 2);
}
