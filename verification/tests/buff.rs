use rtce::buff::{Applied, BuffInstance, BuffRuntime, ReapplyPolicy, Swept};

fn inst(expire_at: u64, rate: u64) -> BuffInstance {
    BuffInstance { expire_at, rate }
}

#[test]
fn first_refresh_application_activates_and_refolds() {
    let mut b = BuffRuntime::new();
    let r = b.apply(ReapplyPolicy::Refresh, 1, false, 40, 0);
    assert_eq!(
        r,
        Applied { count_changed: true, refold: true, activated: true, generation: 1, next_expiry: 40 }
    );
    assert_eq!(b.stacks(), 1);
    assert!(b.is_active());
}

#[test]
fn refresh_of_a_live_buff_moves_only_the_expiry() {
    let mut b = BuffRuntime::new();
    b.apply(ReapplyPolicy::Refresh, 1, false, 40, 0);
    let r = b.apply(ReapplyPolicy::Refresh, 1, false, 55, 0);
    assert!(!r.count_changed);
    assert!(!r.refold);
    assert!(!r.activated);
    assert_eq!(r.generation, 2);
    assert_eq!(r.next_expiry, 55);
    assert_eq!(b.instances(), vec![inst(55, 0)]);
}

#[test]
fn refresh_of_a_snapshot_buff_recaptures_and_refolds() {
    let mut b = BuffRuntime::new();
    b.apply(ReapplyPolicy::Refresh, 1, true, 40, 7);
    let r = b.apply(ReapplyPolicy::Refresh, 1, true, 45, 9);
    assert!(!r.count_changed);
    assert!(r.refold);
    assert_eq!(b.instances(), vec![inst(45, 9)]);
}

#[test]
fn add_refresh_all_instances_share_one_expiry_key() {
    let mut b = BuffRuntime::new();
    b.apply(ReapplyPolicy::AddRefreshAll, 3, true, 10, 1);
    b.apply(ReapplyPolicy::AddRefreshAll, 3, true, 12, 2);
    let r = b.apply(ReapplyPolicy::AddRefreshAll, 3, true, 14, 3);
    assert!(r.count_changed);
    assert_eq!(b.instances(), vec![inst(14, 1), inst(14, 2), inst(14, 3)]);
    // At the cap: no new instance, the rate is discarded, every expiry moves.
    let r = b.apply(ReapplyPolicy::AddRefreshAll, 3, true, 20, 99);
    assert!(!r.count_changed);
    assert!(!r.refold);
    assert_eq!(r.next_expiry, 20);
    assert_eq!(b.instances(), vec![inst(20, 1), inst(20, 2), inst(20, 3)]);
}

#[test]
fn add_independent_at_the_cap_drops_the_earliest_instance() {
    let mut b = BuffRuntime::new();
    b.apply(ReapplyPolicy::AddIndependent, 2, false, 30, 0);
    b.apply(ReapplyPolicy::AddIndependent, 2, false, 25, 0);
    assert_eq!(b.earliest_expiry(), Some((1, 25)));
    let r = b.apply(ReapplyPolicy::AddIndependent, 2, false, 40, 0);
    assert!(!r.count_changed);
    assert!(!r.refold);
    assert_eq!(b.instances(), vec![inst(30, 0), inst(40, 0)]);
    assert_eq!(r.next_expiry, 30);
}

#[test]
fn add_independent_eviction_moves_a_snapshot_buffs_set() {
    let mut b = BuffRuntime::new();
    b.apply(ReapplyPolicy::AddIndependent, 1, true, 30, 4);
    let r = b.apply(ReapplyPolicy::AddIndependent, 1, true, 35, 6);
    assert!(!r.count_changed);
    assert!(r.refold);
    assert_eq!(b.instances(), vec![inst(35, 6)]);
}

#[test]
fn add_independent_ties_evict_the_oldest() {
    let mut b = BuffRuntime::new();
    b.apply(ReapplyPolicy::AddIndependent, 2, false, 30, 1);
    b.apply(ReapplyPolicy::AddIndependent, 2, false, 30, 2);
    b.apply(ReapplyPolicy::AddIndependent, 2, false, 31, 3);
    assert_eq!(b.instances(), vec![inst(30, 2), inst(31, 3)]);
}

#[test]
fn zero_max_stacks_is_unbounded() {
    let mut b = BuffRuntime::new();
    for i in 0..50u64 {
        let r = b.apply(ReapplyPolicy::AddIndependent, 0, false, 100 + i, 0);
        assert!(r.count_changed);
    }
    assert_eq!(b.stacks(), 50);
}

#[test]
fn strongest_replaces_only_on_a_strictly_higher_rate() {
    let mut b = BuffRuntime::new();
    b.apply(ReapplyPolicy::Strongest, 1, true, 30, 10);
    // Equal rate: the incumbent stays, expiry and all.
    let r = b.apply(ReapplyPolicy::Strongest, 1, true, 90, 10);
    assert!(!r.refold);
    assert_eq!(r.next_expiry, 30);
    assert_eq!(b.instances(), vec![inst(30, 10)]);
    // Weaker: also discarded.
    b.apply(ReapplyPolicy::Strongest, 1, true, 90, 3);
    assert_eq!(b.instances(), vec![inst(30, 10)]);
    // Stronger: replaces, window and all.
    let r = b.apply(ReapplyPolicy::Strongest, 1, true, 20, 11);
    assert!(r.refold);
    assert!(!r.count_changed);
    assert_eq!(b.instances(), vec![inst(20, 11)]);
    assert_eq!(b.generation(), 4);
}

#[test]
fn a_sweep_with_an_old_generation_is_stale() {
    let mut b = BuffRuntime::new();
    b.apply(ReapplyPolicy::Refresh, 1, false, 40, 0);
    b.apply(ReapplyPolicy::Refresh, 1, false, 50, 0);
    assert_eq!(b.sweep(40, 1), Swept::Stale);
    assert_eq!(b.instances(), vec![inst(50, 0)]);
}

#[test]
fn a_sweep_of_an_inactive_buff_is_stale() {
    let mut b = BuffRuntime::new();
    assert_eq!(b.sweep(40, 0), Swept::Stale);
}

#[test]
fn a_current_sweep_drops_closed_windows_and_reschedules_the_rest() {
    let mut b = BuffRuntime::new();
    b.apply(ReapplyPolicy::AddIndependent, 0, false, 20, 0);
    b.apply(ReapplyPolicy::AddIndependent, 0, false, 35, 0);
    b.apply(ReapplyPolicy::AddIndependent, 0, false, 20, 0);
    let g = b.generation();
    assert_eq!(
        b.sweep(20, g),
        Swept::Current { before: 3, expired: true, emptied: false, next_expiry: Some(35) }
    );
    assert_eq!(b.instances(), vec![inst(35, 0)]);
    assert_eq!(b.generation(), g);
    assert_eq!(
        b.sweep(35, g),
        Swept::Current { before: 1, expired: true, emptied: true, next_expiry: None }
    );
    assert!(!b.is_active());
}

#[test]
fn latest_expiry_is_the_longest_window() {
    let mut b = BuffRuntime::new();
    assert_eq!(b.latest_expiry(), None);
    b.apply(ReapplyPolicy::AddIndependent, 0, false, 20, 0);
    b.apply(ReapplyPolicy::AddIndependent, 0, false, 35, 0);
    b.apply(ReapplyPolicy::AddIndependent, 0, false, 25, 0);
    assert_eq!(b.latest_expiry(), Some(35));
    assert_eq!(b.earliest_expiry(), Some((0, 20)));
}
