use rtce::condition::ActiveSet;
use rtce::mode::{validate_mode, Mode, ModeError};
use rtce::procs::{proc_considers, proc_offered, roll_count, trigger_rolls, ProcRolls, Trigger};
use rtce::slots::SlotLayout;
use rtce::stats::nearest_rank_index;

#[test]
fn expected_mode_is_runnable() {
    assert_eq!(validate_mode(Mode::Expected), Ok(()));
}

#[test]
fn monte_carlo_needs_at_least_one_iteration() {
    assert_eq!(validate_mode(Mode::MonteCarlo { iterations: 0, seed: 7 }), Err(ModeError::NoIterations));
    assert_eq!(validate_mode(Mode::MonteCarlo { iterations: 1, seed: 7 }), Ok(()));
}

#[test]
fn no_filter_considers_every_action() {
    assert!(proc_considers(&None, 0));
    assert!(proc_considers(&None, 99));
}

#[test]
fn a_filter_considers_exactly_the_listed_actions() {
    let f = Some(vec![1, 4]);
    assert!(proc_considers(&f, 1));
    assert!(proc_considers(&f, 4));
    assert!(!proc_considers(&f, 0));
    assert!(!proc_considers(&f, 2));
}

#[test]
fn per_cast_rolls_once_and_per_hit_rolls_per_measured_hit() {
    assert_eq!(roll_count(ProcRolls::PerCast, Some(5)), 1);
    assert_eq!(roll_count(ProcRolls::PerCast, None), 1);
    assert_eq!(roll_count(ProcRolls::PerHit, Some(5)), 5);
    assert_eq!(roll_count(ProcRolls::PerHit, Some(0)), 0);
    assert_eq!(roll_count(ProcRolls::PerHit, None), 1);
}

#[test]
fn nearest_rank_percentiles_of_ten_samples() {
    assert_eq!(nearest_rank_index(10, 10), 0);
    assert_eq!(nearest_rank_index(50, 10), 4);
    assert_eq!(nearest_rank_index(90, 10), 8);
    assert_eq!(nearest_rank_index(100, 10), 9);
}

#[test]
fn nearest_rank_clamps_into_the_sample() {
    assert_eq!(nearest_rank_index(0, 7), 0);
    assert_eq!(nearest_rank_index(10, 1), 0);
    assert_eq!(nearest_rank_index(90, 1), 0);
    assert_eq!(nearest_rank_index(50, 3), 1);
    assert_eq!(nearest_rank_index(10, 30), 2);
}

#[test]
fn the_active_set_stays_sorted() {
    let mut a = ActiveSet::new();
    a.insert(5);
    a.insert(1);
    a.insert(3);
    a.insert(3);
    assert_eq!(a.members(), vec![1, 3, 5]);
    a.remove(3);
    a.remove(9);
    assert_eq!(a.members(), vec![1, 5]);
    assert!(a.contains(5));
    assert!(!a.contains(3));
}

#[test]
fn slot_layout_follows_the_documented_order() {
    let l = SlotLayout { sim_base: 10, resources: 2, actions: 3, buffs: 2 };
    assert_eq!(l.time(), 10);
    assert_eq!(l.duration(), 11);
    assert_eq!(l.resource(0), 12);
    assert_eq!(l.resource(1), 13);
    assert_eq!(l.cooldown(0), 14);
    assert_eq!(l.cooldown(2), 16);
    assert_eq!(l.buff_flag(0), 17);
    assert_eq!(l.buff_remaining(0), 19);
    assert_eq!(l.casts(0), 21);
    assert_eq!(l.stacks(0), 24);
    assert_eq!(l.stacks(1), 25);
    assert_eq!(l.width(), 26);
}

#[test]
fn a_percentile_above_one_hundred_picks_the_last_sample() {
    assert_eq!(nearest_rank_index(101, 10), 9);
    assert_eq!(nearest_rank_index(250, 3), 2);
    assert_eq!(nearest_rank_index(u64::MAX, 1), 0);
    assert_eq!(nearest_rank_index(u64::MAX, 7), 6);
}

#[test]
fn every_cast_rolls_on_cast_and_only_damaging_casts_roll_on_hit_and_on_crit() {
    assert!(trigger_rolls(Trigger::OnCast, false));
    assert!(trigger_rolls(Trigger::OnCast, true));
    assert!(!trigger_rolls(Trigger::OnHit, false));
    assert!(trigger_rolls(Trigger::OnHit, true));
    assert!(!trigger_rolls(Trigger::OnCrit, false));
    assert!(trigger_rolls(Trigger::OnCrit, true));
}

#[test]
fn a_proc_is_offered_only_its_own_trigger_for_an_admitted_action() {
    let f = Some(vec![2]);
    assert!(proc_offered(Trigger::OnHit, Trigger::OnHit, &f, 2));
    assert!(!proc_offered(Trigger::OnHit, Trigger::OnCast, &f, 2));
    assert!(!proc_offered(Trigger::OnHit, Trigger::OnHit, &f, 1));
    assert!(proc_offered(Trigger::OnCrit, Trigger::OnCrit, &None, 7));
}
