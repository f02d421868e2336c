use telic::planning::belief::BeliefIdSet;
use telic::planning::planner::ActionSpec;
use telic::planning::search::PartialPlan;

fn set(names: &[&str]) -> BeliefIdSet {
    let mut s = BeliefIdSet::new();
    for n in names {
        s.insert(n.to_string());
    }
    s
}

fn action(name: &str, rank: u64, pre: &[&str], eff: &[&str]) -> ActionSpec {
    ActionSpec { name: name.to_string(), cost_rank: rank, preconditions: set(pre), effects: set(eff) }
}

fn sword_actions() -> Vec<ActionSpec> {
    vec![
        action("gather_wood", 1, &[], &["has_wood"]),
        action("mine_iron", 1, &[], &["has_iron"]),
        action("forge_sword", 1, &["has_wood", "has_iron"], &["has_sword"]),
    ]
}

fn same_set(a: &BeliefIdSet, names: &[&str]) -> bool {
    a.len() == names.len() && names.iter().all(|n| a.contains(&n.to_string()))
}

#[test]
fn partial_plan_starts_empty() {
    let actions = sword_actions();
    let p = PartialPlan::start(&actions, &set(&["has_sword"]));
    assert!(p.chosen.is_empty());
    assert!(same_set(&p.unsatisfied, &["has_sword"]));
    assert_eq!(p.used, vec![false; 3]);
    assert!(p.plan_if_complete(&set(&[])).is_none());
    assert_eq!(p.plan_if_complete(&set(&["has_sword"])), Some(vec![]));
}

#[test]
fn partial_plan_grows_to_a_plan_in_run_order() {
    let actions = sword_actions();
    let facts = set(&[]);
    let root = PartialPlan::start(&actions, &set(&["has_sword"]));
    assert!(root.extend(&actions, &facts, 0).is_none());
    let forge = root.extend(&actions, &facts, 2).unwrap();
    assert_eq!(forge.chosen, vec![2]);
    assert!(same_set(&forge.unsatisfied, &["has_wood", "has_iron"]));
    assert_eq!(forge.used, vec![false, false, true]);
    assert!(forge.extend(&actions, &facts, 2).is_none());
    let wood = forge.extend(&actions, &facts, 0).unwrap();
    assert!(same_set(&wood.still_needed(&facts), &["has_iron"]));
    assert!(wood.plan_if_complete(&facts).is_none());
    let iron = wood.extend(&actions, &facts, 1).unwrap();
    assert_eq!(iron.chosen, vec![2, 0, 1]);
    assert_eq!(iron.plan_if_complete(&facts), Some(vec![1, 0, 2]));
}

#[test]
fn partial_plan_needs_only_preconditions_that_do_not_hold() {
    let actions = sword_actions();
    let facts = set(&["has_wood"]);
    let root = PartialPlan::start(&actions, &set(&["has_sword"]));
    let forge = root.extend(&actions, &facts, 2).unwrap();
    assert!(same_set(&forge.unsatisfied, &["has_iron"]));
    let iron = forge.extend(&actions, &facts, 1).unwrap();
    assert_eq!(iron.plan_if_complete(&facts), Some(vec![1, 2]));
}
