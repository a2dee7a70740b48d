use rtce::buff::{ReapplyPolicy, Swept};
use rtce::engine::{EventLoop, Step};
use rtce::queue::{Event, EventOrder, HorizonDrainExceeded};

#[test]
fn an_application_issues_one_live_expiry_and_supersedes_the_old_one() {
    let mut l = EventLoop::new(EventOrder::Scheduled, 100, 1);
    l.apply_buff(0, ReapplyPolicy::Refresh, 1, false, 20, 0);
    assert_eq!(l.active_buffs(), vec![0]);
    l.apply_buff(0, ReapplyPolicy::Refresh, 1, false, 30, 0);
    // The generation-1 expiry at 20 resolves as stale.
    assert_eq!(
        l.next(),
        Ok(Step::Resolved {
            event: Event::BuffExpire { buff: 0, generation: 1 },
            at_horizon: false,
            sweep: Some(Swept::Stale)
        })
    );
    assert_eq!(l.buff_stacks(0), 1);
    assert_eq!(
        l.next(),
        Ok(Step::Resolved {
            event: Event::BuffExpire { buff: 0, generation: 2 },
            at_horizon: false,
            sweep: Some(Swept::Current { before: 1, expired: true, emptied: true, next_expiry: None })
        })
    );
    assert_eq!(l.buff_stacks(0), 0);
    assert_eq!(l.active_buffs(), Vec::<usize>::new());
    assert_eq!(l.next(), Ok(Step::Finished));
    assert_eq!(l.clock(), 30);
}

#[test]
fn a_partial_sweep_reissues_the_expiry_at_the_next_window() {
    let mut l = EventLoop::new(EventOrder::Scheduled, 100, 2);
    l.apply_buff(1, ReapplyPolicy::AddIndependent, 0, false, 20, 0);
    l.apply_buff(1, ReapplyPolicy::AddIndependent, 0, false, 50, 0);
    // Generation 1's event (at 20) is stale; generation 2's is live at 20.
    assert_eq!(
        l.next(),
        Ok(Step::Resolved {
            event: Event::BuffExpire { buff: 1, generation: 1 },
            at_horizon: false,
            sweep: Some(Swept::Stale)
        })
    );
    assert_eq!(
        l.next(),
        Ok(Step::Resolved {
            event: Event::BuffExpire { buff: 1, generation: 2 },
            at_horizon: false,
            sweep: Some(Swept::Current { before: 2, expired: true, emptied: false, next_expiry: Some(50) })
        })
    );
    assert_eq!(l.active_buffs(), vec![1]);
    assert_eq!(
        l.next(),
        Ok(Step::Resolved {
            event: Event::BuffExpire { buff: 1, generation: 2 },
            at_horizon: false,
            sweep: Some(Swept::Current { before: 1, expired: true, emptied: true, next_expiry: None })
        })
    );
    assert_eq!(l.next(), Ok(Step::Finished));
}

#[test]
fn a_cast_completing_at_the_horizon_is_resolved_even_beside_an_expiry() {
    let mut l = EventLoop::new(EventOrder::Scheduled, 100, 1);
    l.apply_buff(0, ReapplyPolicy::Refresh, 1, false, 100, 0);
    l.begin_cast(0, 100);
    assert_eq!(
        l.next(),
        Ok(Step::Resolved {
            event: Event::BuffExpire { buff: 0, generation: 1 },
            at_horizon: true,
            sweep: Some(Swept::Current { before: 1, expired: true, emptied: true, next_expiry: None })
        })
    );
    assert_eq!(
        l.next(),
        Ok(Step::Resolved { event: Event::CastComplete { action: 0 }, at_horizon: true, sweep: None })
    );
    assert_eq!(l.next(), Ok(Step::Finished));
}

#[test]
fn completions_first_resolves_the_completion_while_the_buff_is_still_up() {
    let mut l = EventLoop::new(EventOrder::CompletionsFirst, 100, 1);
    l.apply_buff(0, ReapplyPolicy::Refresh, 1, false, 40, 0);
    l.begin_cast(0, 40);
    assert_eq!(
        l.next(),
        Ok(Step::Resolved { event: Event::CastComplete { action: 0 }, at_horizon: false, sweep: None })
    );
    assert_eq!(l.buff_stacks(0), 1);
    // The completing cast refreshes the buff: the pending expiry is stale.
    l.apply_buff(0, ReapplyPolicy::Refresh, 1, false, 80, 0);
    assert_eq!(
        l.next(),
        Ok(Step::Resolved {
            event: Event::BuffExpire { buff: 0, generation: 1 },
            at_horizon: false,
            sweep: Some(Swept::Stale)
        })
    );
    assert_eq!(l.buff_stacks(0), 1);
}

#[test]
fn phase_boundaries_are_scheduled_between_phases_only() {
    let mut l = EventLoop::new(EventOrder::Scheduled, 30, 0);
    l.schedule_phase_boundaries(&vec![10, 20, 30]);
    assert_eq!(l.last_seq(), 2);
    assert_eq!(
        l.next(),
        Ok(Step::Resolved { event: Event::PhaseBoundary { phase: 1 }, at_horizon: false, sweep: None })
    );
    assert_eq!(
        l.next(),
        Ok(Step::Resolved { event: Event::PhaseBoundary { phase: 2 }, at_horizon: false, sweep: None })
    );
    assert_eq!(l.next(), Ok(Step::Finished));
}

#[test]
fn trailing_zero_weight_phases_pile_their_boundaries_onto_the_horizon() {
    let mut l = EventLoop::new(EventOrder::Scheduled, 10, 0);
    l.schedule_phase_boundaries(&vec![10, 10, 10]);
    assert_eq!(
        l.next(),
        Ok(Step::Resolved { event: Event::PhaseBoundary { phase: 1 }, at_horizon: true, sweep: None })
    );
    assert_eq!(
        l.next(),
        Ok(Step::Resolved { event: Event::PhaseBoundary { phase: 2 }, at_horizon: true, sweep: None })
    );
    assert_eq!(l.next(), Ok(Step::Finished));
}

#[test]
fn too_many_zero_weight_phases_at_the_horizon_fail_closed() {
    let mut l = EventLoop::new(EventOrder::Scheduled, 5, 0);
    let ends = vec![5u64; 10_002];
    l.schedule_phase_boundaries(&ends);
    for _ in 0..10_000 {
        assert!(matches!(l.next(), Ok(Step::Resolved { at_horizon: true, .. })));
    }
    assert_eq!(
        l.next(),
        Err(HorizonDrainExceeded { event: Event::PhaseBoundary { phase: 10_001 }, time: 5 })
    );
}

#[test]
fn the_lowest_indexed_active_buff_drives_a_condition() {
    let mut l = EventLoop::new(EventOrder::Scheduled, 100, 3);
    l.apply_buff(2, ReapplyPolicy::Refresh, 1, false, 50, 0);
    l.apply_buff(1, ReapplyPolicy::Refresh, 1, false, 60, 0);
    assert_eq!(l.active_buffs(), vec![1, 2]);
    assert_eq!(l.condition_driver(&vec![true, true, true]), Some(1));
    assert_eq!(l.condition_driver(&vec![true, false, true]), Some(2));
    assert_eq!(l.condition_driver(&vec![true, false, false]), None);
}

#[test]
fn buff_remaining_reads_the_latest_window() {
    let mut l = EventLoop::new(EventOrder::Scheduled, 100, 1);
    assert_eq!(l.buff_latest_expiry(0), None);
    l.apply_buff(0, ReapplyPolicy::AddIndependent, 0, false, 70, 0);
    l.apply_buff(0, ReapplyPolicy::AddIndependent, 0, false, 40, 0);
    assert_eq!(l.buff_latest_expiry(0), Some(70));
    assert_eq!(l.buff_generation(0), 2);
    assert_eq!(l.buff_count(), 1);
}

#[test]
fn a_completion_ends_the_cast_in_flight() {
    let mut l = EventLoop::new(EventOrder::Scheduled, 100, 0);
    assert!(!l.is_casting());
    l.begin_cast(3, 15);
    assert!(l.is_casting());
    l.schedule(10, Event::Wake);
    assert_eq!(l.next(), Ok(Step::Resolved { event: Event::Wake, at_horizon: false, sweep: None }));
    assert!(l.is_casting());
    assert_eq!(
        l.next(),
        Ok(Step::Resolved { event: Event::CastComplete { action: 3 }, at_horizon: false, sweep: None })
    );
    assert!(!l.is_casting());
    assert_eq!(l.clock(), 15);
}

#[test]
fn exactly_the_drain_bound_of_horizon_events_still_completes() {
    let mut l = EventLoop::new(EventOrder::Scheduled, 10, 0);
    // One real phase, then `HORIZON_DRAIN_LIMIT - 1` zero-weight phases.
    let mut ends = vec![10u64; 10_000];
    ends[0] = 10;
    l.schedule_phase_boundaries(&ends);
    l.begin_cast(0, 10);
    let mut resolved = 0;
    let mut casts = 0;
    loop {
        match l.next() {
            Ok(Step::Resolved { event, at_horizon, .. }) => {
                assert!(at_horizon);
                resolved += 1;
                if event == (Event::CastComplete { action: 0 }) {
                    casts += 1;
                }
            }
            Ok(Step::Finished) => break,
            Err(e) => panic!("the drain must complete at its bound: {e:?}"),
        }
    }
    assert_eq!(resolved, 10_000);
    assert_eq!(casts, 1);
}

#[test]
fn the_rotation_decides_only_between_casts_and_before_the_horizon() {
    let mut l = EventLoop::new(EventOrder::Scheduled, 20, 0);
    assert!(l.may_decide());
    l.begin_cast(0, 20);
    assert!(!l.may_decide());
    assert!(matches!(l.next(), Ok(Step::Resolved { at_horizon: true, .. })));
    assert!(!l.is_casting());
    assert!(!l.may_decide());
}
