use telic::planning::belief::BeliefIdSet;
use telic::planning::bidirectional::BidirectionalFrontier;
use telic::planning::planner::ActionSpec;

fn set(names: &[&str]) -> BeliefIdSet {
    let mut s = BeliefIdSet::new();
    for n in names {
        s.insert(n.to_string());
    }
    s
}

fn action(name: &str, rank: u64, pre: &[&str], eff: &[&str]) -> ActionSpec {
    ActionSpec { name: name.to_string(), cost_rank: rank, preconditions: set(pre), effects: set(eff) }
}

fn sword_actions() -> Vec<ActionSpec> {
    vec![
        action("gather_wood", 1, &[], &["has_wood"]),
        action("mine_iron", 1, &[], &["has_iron"]),
        action("forge_sword", 1, &["has_wood", "has_iron"], &["has_sword"]),
    ]
}

fn same_set(a: &BeliefIdSet, names: &[&str]) -> bool {
    a.len() == names.len() && names.iter().all(|n| a.contains(&n.to_string()))
}

fn plan_of(fr: &BidirectionalFrontier, m: (Option<usize>, usize)) -> Vec<usize> {
    let mut plan = match m.0 {
        Some(f) => fr.forward[f].1.clone(),
        None => Vec::new(),
    };
    plan.extend(fr.backward[m.1].1.iter().rev().copied());
    plan
}

#[test]
fn frontier_starts_from_facts_and_goal() {
    let actions = sword_actions();
    let fr = BidirectionalFrontier::new(&actions, &set(&["has_wood", "unrelated"]), &set(&["has_sword"]));
    assert_eq!(fr.forward.len(), 1);
    assert!(same_set(&fr.forward[0].0, &["has_wood"]));
    assert!(fr.forward[0].1.is_empty());
    assert_eq!(fr.backward.len(), 1);
    assert!(same_set(&fr.backward[0].0, &["has_sword"]));
    assert_eq!(fr.forward_used, vec![false; 3]);
    assert_eq!(fr.backward_used, vec![false; 3]);
}

#[test]
fn frontier_grows_and_meets() {
    let actions = sword_actions();
    let facts = set(&[]);
    let mut fr = BidirectionalFrontier::new(&actions, &facts, &set(&["has_sword"]));

    fr.expand(&actions, &facts);
    assert_eq!(fr.forward.len(), 3);
    assert!(same_set(&fr.forward[1].0, &["has_wood"]));
    assert_eq!(fr.forward[1].1, vec![0]);
    assert!(same_set(&fr.forward[2].0, &["has_iron"]));
    assert_eq!(fr.forward[2].1, vec![1]);
    assert_eq!(fr.backward.len(), 2);
    assert!(same_set(&fr.backward[1].0, &["has_wood", "has_iron"]));
    assert_eq!(fr.backward[1].1, vec![2]);
    assert_eq!(fr.forward_used, vec![true, true, false]);
    assert_eq!(fr.backward_used, vec![false, false, true]);
    assert!(fr.meetings(&actions, &facts).is_empty());

    fr.expand(&actions, &facts);
    assert_eq!(fr.forward.len(), 3);
    assert_eq!(fr.backward.len(), 4);
    let meetings = fr.meetings(&actions, &facts);
    assert_eq!(meetings, vec![(Some(2), 2), (Some(1), 3)]);
    assert_eq!(plan_of(&fr, meetings[0]), vec![1, 0, 2]);
    assert_eq!(plan_of(&fr, meetings[1]), vec![0, 1, 2]);
}

#[test]
fn backward_entry_met_by_current_facts() {
    let actions = vec![action("forge_sword", 1, &["has_wood"], &["has_sword"])];
    let facts = set(&["has_wood"]);
    let mut fr = BidirectionalFrontier::new(&actions, &facts, &set(&["has_sword"]));
    fr.expand(&actions, &facts);
    let meetings = fr.meetings(&actions, &facts);
    // The backward entry needing nothing more holds now; the forward entry
    // that already forged the sword meets the goal entry directly.
    assert_eq!(meetings, vec![(Some(1), 0), (None, 1), (Some(0), 1), (Some(1), 1)]);
    assert_eq!(plan_of(&fr, (None, 1)), vec![0]);
    assert_eq!(plan_of(&fr, (Some(1), 0)), vec![0]);
}
