use telic::planning::agent::{AgentProgress, NextStep, TickResult};
use telic::planning::goal::GoalBuilder;

fn strings(v: &[&str]) -> Vec<String> {
    v.iter().map(|s| s.to_string()).collect()
}

#[test]
fn progress_starts_idle() {
    let p = AgentProgress::new();
    assert!(p.current_goal.is_none());
    assert!(p.current_action_idx.is_none());
    assert!(p.action_queue.is_empty());
    assert!(p.last_goal_name.is_none());
    assert_eq!(p.current_priority(), 0);
}

#[test]
fn no_plan_ends_the_tick() {
    let mut p = AgentProgress::new();
    let step = p.take_plan(None, &strings(&["a"]));
    assert!(matches!(step, NextStep::Report(TickResult::NoPlan)));
    assert!(p.action_queue.is_empty());
}

#[test]
fn plan_queues_and_checks_first_action() {
    let mut p = AgentProgress::new();
    let names = strings(&["chop", "build", "chop"]);
    let step = p.take_plan(Some(strings(&["chop", "build"])), &names);
    match step {
        NextStep::Check { name, idx } => {
            assert_eq!(name, "chop");
            assert_eq!(idx, 0);
        }
        other => panic!("unexpected step {:?}", other),
    }
    assert_eq!(p.action_queue, strings(&["build"]));
    let r = p.start_checked("chop".to_string(), 0, true);
    assert!(matches!(r, TickResult::ActionStarted(ref n) if n == "chop"));
    assert_eq!(p.current_action_idx, Some(0));
}

#[test]
fn unknown_action_name_gives_no_plan() {
    let mut p = AgentProgress::new();
    let step = p.take_plan(Some(strings(&["fly", "land"])), &strings(&["walk"]));
    assert!(matches!(step, NextStep::Report(TickResult::NoPlan)));
    assert_eq!(p.action_queue, strings(&["land"]));
}

#[test]
fn failed_check_drops_the_plan() {
    let mut p = AgentProgress::new();
    p.current_goal = Some(GoalBuilder::new("g").priority(3).build());
    assert_eq!(p.current_priority(), 3);
    p.action_queue = strings(&["x", "y"]);
    let r = p.start_checked("w".to_string(), 2, false);
    assert!(matches!(r, TickResult::PreconditionFailed(ref n) if n == "w"));
    assert!(p.current_action_idx.is_none());
    assert!(p.current_goal.is_none());
    assert!(p.action_queue.is_empty());
}

#[test]
fn running_action_keeps_running_then_completes_plan() {
    let mut p = AgentProgress::new();
    p.current_goal = Some(GoalBuilder::new("eat").build());
    p.current_action_idx = Some(1);
    let names = strings(&["a", "b"]);
    let step = p.after_update(false, "b".to_string(), &names);
    assert!(matches!(step, NextStep::Report(TickResult::ActionRunning(ref n)) if n == "b"));
    assert_eq!(p.current_action_idx, Some(1));
    let step = p.after_update(true, "b".to_string(), &names);
    assert!(matches!(step, NextStep::Report(TickResult::PlanComplete)));
    assert_eq!(p.last_goal_name, Some("eat".to_string()));
    assert!(p.current_goal.is_none());
    assert!(p.current_action_idx.is_none());
}

#[test]
fn completed_action_takes_next_queued() {
    let mut p = AgentProgress::new();
    p.current_action_idx = Some(0);
    p.action_queue = strings(&["b"]);
    let step = p.after_update(true, "a".to_string(), &strings(&["a", "b"]));
    assert!(matches!(step, NextStep::Check { ref name, idx: 1 } if name == "b"));
    assert!(p.action_queue.is_empty());
}

#[test]
fn reset_keeps_last_goal_name() {
    let mut p = AgentProgress::new();
    p.current_action_idx = Some(4);
    p.action_queue = strings(&["q"]);
    p.last_goal_name = Some("old".to_string());
    p.reset();
    assert!(p.current_action_idx.is_none());
    assert!(p.action_queue.is_empty());
    assert_eq!(p.last_goal_name, Some("old".to_string()));
}
