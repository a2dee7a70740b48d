use rtce::decide::{combine_costs, decide, instant_chain_step, Afford, CostCheck, Decision, InstantChainExceeded, RuleCheck, INSTANT_CHAIN_LIMIT};

#[test]
fn costs_already_covered_are_payable_now() {
    assert_eq!(combine_costs(10, &vec![CostCheck::Covered, CostCheck::Covered]), Afford::Now);
    assert_eq!(combine_costs(10, &vec![]), Afford::Now);
}

#[test]
fn a_cost_is_payable_at_the_latest_entry() {
    let c = vec![CostCheck::ReadyAt(15), CostCheck::Covered, CostCheck::ReadyAt(12)];
    assert_eq!(combine_costs(10, &c), Afford::At(15));
}

#[test]
fn an_unreachable_entry_makes_the_whole_map_never_payable() {
    let c = vec![CostCheck::ReadyAt(15), CostCheck::Unreachable, CostCheck::Covered];
    assert_eq!(combine_costs(10, &c), Afford::Never);
}

#[test]
fn a_crossing_that_lands_on_now_is_payable_now() {
    assert_eq!(combine_costs(10, &vec![CostCheck::ReadyAt(10)]), Afford::Now);
}

fn open(action: usize, cooldown_ready: u64, afford: Afford) -> RuleCheck {
    RuleCheck::Open { action, cooldown_ready, afford }
}

#[test]
fn the_first_castable_rule_wins() {
    let rules = vec![
        RuleCheck::Gated,
        open(4, 20, Afford::Now),
        open(2, 5, Afford::Now),
        open(3, 0, Afford::Now),
    ];
    assert_eq!(decide(10, &rules), Decision::Cast { action: 2 });
}

#[test]
fn with_nothing_castable_the_walk_wakes_at_the_earliest_candidate() {
    let rules = vec![
        open(0, 30, Afford::Now),
        open(1, 0, Afford::At(25)),
        open(2, 25, Afford::At(12)),
        open(3, 0, Afford::Never),
    ];
    assert_eq!(decide(10, &rules), Decision::Wake { at: 25, rule: 1, starved: true });
}

#[test]
fn a_starved_rule_wakes_when_regen_affords_it() {
    let rules = vec![open(0, 0, Afford::At(17))];
    assert_eq!(decide(10, &rules), Decision::Wake { at: 17, rule: 0, starved: true });
}

#[test]
fn nothing_ever_castable_is_idle() {
    let rules = vec![RuleCheck::Gated, open(0, 0, Afford::Never)];
    assert_eq!(decide(10, &rules), Decision::Idle);
    assert_eq!(decide(10, &vec![]), Decision::Idle);
}

#[test]
fn a_rule_waiting_on_its_cooldown_is_not_starved() {
    let rules = vec![open(0, 14, Afford::Now)];
    assert_eq!(decide(10, &rules), Decision::Wake { at: 14, rule: 0, starved: false });
}

#[test]
fn the_instant_chain_fails_closed_past_its_limit() {
    assert_eq!(instant_chain_step(0), Ok(1));
    assert_eq!(instant_chain_step(INSTANT_CHAIN_LIMIT - 1), Ok(INSTANT_CHAIN_LIMIT));
    assert_eq!(instant_chain_step(INSTANT_CHAIN_LIMIT), Err(InstantChainExceeded));
    let mut chain = 0;
    let mut admitted = 0;
    while let Ok(c) = instant_chain_step(chain) {
        chain = c;
        admitted += 1;
    }
    assert_eq!(admitted, 10_000);
}
