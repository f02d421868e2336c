use telic::planning::agent::{eligible_goals, should_interrupt, TickResult};
use telic::planning::belief::BeliefIdSet;
use telic::planning::goal::GoalBuilder;
use telic::planning::planner::{ActionSpec, GoapPlanner, SearchStrategy};

fn set(names: &[&str]) -> BeliefIdSet {
    let mut s = BeliefIdSet::new();
    for n in names {
        s.insert(n.to_string());
    }
    s
}

fn action(name: &str, rank: u64, pre: &[&str], eff: &[&str]) -> ActionSpec {
    ActionSpec { name: name.to_string(), cost_rank: rank, preconditions: set(pre), effects: set(eff) }
}

fn sword_actions() -> Vec<ActionSpec> {
    vec![
        action("gather_wood", 1, &[], &["has_wood"]),
        action("mine_iron", 1, &[], &["has_iron"]),
        action("forge_sword", 1, &["has_wood", "has_iron"], &["has_sword"]),
    ]
}

#[test]
fn belief_id_set_is_a_set() {
    let mut s = BeliefIdSet::new();
    assert!(s.is_empty());
    assert!(s.insert("a".to_string()));
    assert!(!s.insert("a".to_string()));
    assert!(s.insert("b".to_string()));
    assert_eq!(s.len(), 2);
    assert!(s.contains(&"a".to_string()));
    assert!(!s.contains(&"c".to_string()));
    let t = set(&["b", "c"]);
    assert!(s.intersects(&t));
    let d = s.difference(&t);
    assert_eq!(d.len(), 1);
    assert!(d.contains(&"a".to_string()));
    let mut u = s.clone();
    u.insert_all(&t);
    assert_eq!(u.len(), 3);
    assert!(set(&["a"]).is_subset_of(&s));
    assert!(!t.is_subset_of(&s));
}

#[test]
fn goal_builder_defaults_and_effects() {
    let g = GoalBuilder::new("get_sword").build();
    assert_eq!(g.name, "get_sword");
    assert_eq!(g.priority, 1);
    assert!(g.desired_effects.is_empty());
    let g = GoalBuilder::new("get_sword").priority(4).desired_effect("has_sword").desired_effect("has_sword").build();
    assert_eq!(g.priority, 4);
    assert_eq!(g.desired_effects.len(), 1);
    assert!(!g.is_achieved(&set(&[])));
    assert!(g.is_achieved(&set(&["has_sword", "other"])));
    let c = g.clone();
    assert_eq!(c.name, "get_sword");
    assert_eq!(c.priority, 4);
}

#[test]
fn dfs_finds_plan_in_run_order() {
    let actions = sword_actions();
    let plan = GoapPlanner::search_dfs(&set(&[]), &actions, &set(&["has_sword"])).unwrap();
    // forge_sword is chosen first, then gather_wood (cheapest, lowest index),
    // then mine_iron; they run in the reverse of that order.
    assert_eq!(plan, vec![1, 0, 2]);
    let forge = plan.iter().position(|&i| i == 2).unwrap();
    assert!(forge > plan.iter().position(|&i| i == 0).unwrap());
    assert!(forge > plan.iter().position(|&i| i == 1).unwrap());
}

#[test]
fn dfs_skips_satisfied_preconditions() {
    let actions = sword_actions();
    let plan = GoapPlanner::search_dfs(&set(&["has_wood"]), &actions, &set(&["has_sword"])).unwrap();
    assert_eq!(plan, vec![1, 2]);
}

#[test]
fn dfs_returns_none_when_no_plan_exists() {
    let actions = vec![action("forge_sword", 1, &["has_iron"], &["has_sword"])];
    assert_eq!(GoapPlanner::search_dfs(&set(&[]), &actions, &set(&["has_sword"])), None);
}

#[test]
fn dfs_prefers_cheaper_action() {
    let actions = vec![action("expensive", 5, &[], &["g"]), action("cheap", 2, &[], &["g"])];
    assert_eq!(GoapPlanner::search_dfs(&set(&[]), &actions, &set(&["g"])), Some(vec![1]));
}

#[test]
fn dfs_goal_already_true_gives_empty_plan() {
    let actions = sword_actions();
    assert_eq!(GoapPlanner::search_dfs(&set(&["has_sword"]), &actions, &set(&["has_sword"])), Some(vec![]));
}

#[test]
fn dfs_backtracks_from_dead_end() {
    // The cheap producer needs something nobody makes; the search backs up
    // and takes the dearer one.
    let actions = vec![
        action("cheap", 1, &["unobtainium"], &["g"]),
        action("dear", 3, &[], &["g"]),
    ];
    assert_eq!(GoapPlanner::search_dfs(&set(&[]), &actions, &set(&["g"])), Some(vec![1]));
}

#[test]
fn regress_through_computes_remaining_needs() {
    let a = action("forge_sword", 1, &["has_wood", "has_iron"], &["has_sword"]);
    let next = GoapPlanner::regress_through(&a, &set(&["has_sword", "x"]), &set(&["has_wood"])).unwrap();
    assert_eq!(next.len(), 2);
    assert!(next.contains(&"x".to_string()));
    assert!(next.contains(&"has_iron".to_string()));
    assert!(GoapPlanner::regress_through(&a, &set(&["y"]), &set(&[])).is_none());
}

#[test]
fn order_goals_by_priority_skipping_achieved() {
    let goals = vec![
        GoalBuilder::new("arm_up").priority(1).desired_effect("has_sword").build(),
        GoalBuilder::new("survive").priority(3).desired_effect("is_fed").build(),
        GoalBuilder::new("done").priority(9).desired_effect("ok").build(),
        GoalBuilder::new("also_one").priority(1).desired_effect("z").build(),
    ];
    let keys: Vec<u64> = goals.iter().map(|g| g.priority as u64).collect();
    let order = GoapPlanner::order_goals(&goals, &set(&["ok"]), &keys);
    assert_eq!(order, vec![1, 0, 3]);
}

#[test]
fn interrupt_and_eligibility() {
    let goals = vec![
        GoalBuilder::new("low").priority(1).desired_effect("a").build(),
        GoalBuilder::new("high").priority(5).desired_effect("b").build(),
    ];
    assert!(should_interrupt(&goals, 2, &set(&[])));
    assert!(!should_interrupt(&goals, 2, &set(&["b"])));
    assert!(!should_interrupt(&goals, 5, &set(&[])));
    let e = eligible_goals(&goals, 2);
    assert_eq!(e.len(), 1);
    assert_eq!(e[0].name, "high");
    assert_eq!(eligible_goals(&goals, 0).len(), 2);
    assert!(matches!(TickResult::ActionStarted("x".to_string()), TickResult::ActionStarted(_)));
    assert_eq!(SearchStrategy::Dfs, SearchStrategy::Dfs);
}
