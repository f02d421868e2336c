use telic::planning::belief::BeliefIdSet;
use telic::planning::htn::{Decomposition, DynamicOutcomes, MethodBuilder, Task, TaskBuilder};

fn no_answers() -> DynamicOutcomes {
    DynamicOutcomes { answers: Vec::new() }
}

fn facts(names: &[&str]) -> BeliefIdSet {
    let mut s = BeliefIdSet::new();
    for n in names {
        s.insert(n.to_string());
    }
    s
}

fn strings(v: &[&str]) -> Vec<String> {
    v.iter().map(|s| s.to_string()).collect()
}

fn finished(v: &[&str]) -> Decomposition<Vec<String>> {
    Decomposition::Finished(Some(strings(v)))
}

#[test]
fn htn_primitive_returns_action() {
    let tasks: Vec<Task<()>> = vec![TaskBuilder::primitive("do_thing", "action_name")];
    let beliefs = facts(&[]);
    let result = tasks[0].decompose(&beliefs, &tasks, &no_answers());
    assert_eq!(result, finished(&["action_name"]));
}

fn hungry_network() -> Vec<Task<()>> {
    vec![
        TaskBuilder::compound("root", vec![
            MethodBuilder::new("hungry_path").condition("is_hungry").subtask("eat").build(),
            MethodBuilder::new("default").subtask("idle").build(),
        ]),
        TaskBuilder::primitive("eat", "eat_action"),
        TaskBuilder::primitive("idle", "idle_action"),
    ]
}

#[test]
fn htn_compound_picks_first_valid_method() {
    let beliefs = facts(&["is_hungry"]);
    let tasks = hungry_network();
    let result = tasks[0].decompose(&beliefs, &tasks, &no_answers());
    assert_eq!(result, finished(&["eat_action"]));
}

#[test]
fn htn_compound_falls_through_to_default() {
    let beliefs = facts(&[]);
    let tasks = hungry_network();
    let result = tasks[0].decompose(&beliefs, &tasks, &no_answers());
    assert_eq!(result, finished(&["idle_action"]));
}

#[test]
fn htn_compound_multi_step_decomposition() {
    let beliefs = facts(&[]);
    let tasks: Vec<Task<()>> = vec![
        TaskBuilder::compound("root", vec![
            MethodBuilder::new("full_sequence").subtask("step_a").subtask("step_b").subtask("step_c").build(),
        ]),
        TaskBuilder::primitive("step_a", "action_a"),
        TaskBuilder::primitive("step_b", "action_b"),
        TaskBuilder::primitive("step_c", "action_c"),
    ];
    let result = tasks[0].decompose(&beliefs, &tasks, &no_answers());
    assert_eq!(result, finished(&["action_a", "action_b", "action_c"]));
}

#[test]
fn htn_unknown_subtask_is_kept_as_action_name() {
    let beliefs = facts(&[]);
    let tasks: Vec<Task<()>> = vec![TaskBuilder::compound("root", vec![
        MethodBuilder::new("m").subtask("walk").subtask("run").build(),
    ])];
    let result = tasks[0].decompose(&beliefs, &tasks, &no_answers());
    assert_eq!(result, finished(&["walk", "run"]));
}

#[test]
fn htn_no_applicable_method_gives_none() {
    let beliefs = facts(&[]);
    let tasks: Vec<Task<()>> = vec![TaskBuilder::compound("root", vec![
        MethodBuilder::new("m").condition("never").subtask("x").build(),
    ])];
    let result = tasks[0].decompose(&beliefs, &tasks, &no_answers());
    assert_eq!(result, Decomposition::Finished(None));
}

#[test]
fn htn_failed_subtask_falls_through_to_next_method() {
    // The first method applies but its subtask cannot decompose, so the
    // second method is used.
    let beliefs = facts(&[]);
    let tasks: Vec<Task<()>> = vec![
        TaskBuilder::compound("root", vec![
            MethodBuilder::new("first").subtask("blocked").build(),
            MethodBuilder::new("second").subtask("fallback").build(),
        ]),
        TaskBuilder::compound("blocked", vec![MethodBuilder::new("m").condition("nope").build()]),
        TaskBuilder::primitive("fallback", "fallback_action"),
    ];
    let result = tasks[0].decompose(&beliefs, &tasks, &no_answers());
    assert_eq!(result, finished(&["fallback_action"]));
}

#[test]
fn htn_dynamic_task_uses_its_outcome() {
    let beliefs = facts(&[]);
    let tasks: Vec<Task<u8>> = vec![
        TaskBuilder::compound("root", vec![
            MethodBuilder::new("m").subtask("plan_it").subtask("finish").build(),
        ]),
        Task::Dynamic { name: "plan_it".to_string(), resolver: 7u8 },
    ];
    let outcomes = DynamicOutcomes { answers: vec![Some(strings(&["a1", "a2"]))] };
    let result = tasks[0].decompose(&beliefs, &tasks, &outcomes);
    assert_eq!(result, finished(&["a1", "a2", "finish"]));
    // A dynamic task decomposed directly yields its own outcome.
    let own = DynamicOutcomes { answers: vec![Some(strings(&["z"]))] };
    assert_eq!(tasks[1].decompose(&beliefs, &tasks, &own), finished(&["z"]));
}

#[test]
fn htn_dynamic_task_without_answer_asks_for_it() {
    let beliefs = facts(&[]);
    let tasks: Vec<Task<u8>> = vec![
        TaskBuilder::compound("root", vec![
            MethodBuilder::new("m").subtask("plan_it").subtask("finish").build(),
        ]),
        Task::Dynamic { name: "plan_it".to_string(), resolver: 7u8 },
    ];
    let result = tasks[0].decompose(&beliefs, &tasks, &no_answers());
    assert_eq!(result, Decomposition::NeedsResolver(Some(1)));
    assert_eq!(tasks[1].decompose(&beliefs, &tasks, &no_answers()), Decomposition::NeedsResolver(None));
    // A resolver answering `None` makes the method fail.
    let refused = DynamicOutcomes { answers: vec![None] };
    assert_eq!(tasks[0].decompose(&beliefs, &tasks, &refused), Decomposition::Finished(None));
}

#[test]
fn htn_unreached_dynamic_task_is_not_asked() {
    // The first method applies and finishes, so the dynamic task of the
    // second method is never reached.
    let beliefs = facts(&["ready"]);
    let tasks: Vec<Task<u8>> = vec![
        TaskBuilder::compound("root", vec![
            MethodBuilder::new("direct").condition("ready").subtask("go").build(),
            MethodBuilder::new("planned").subtask("plan_it").build(),
        ]),
        Task::Dynamic { name: "plan_it".to_string(), resolver: 1u8 },
        TaskBuilder::primitive("go", "go_action"),
    ];
    let result = tasks[0].decompose(&beliefs, &tasks, &no_answers());
    assert_eq!(result, finished(&["go_action"]));
}

#[test]
fn htn_first_task_with_name_wins() {
    let beliefs = facts(&[]);
    let tasks: Vec<Task<()>> = vec![
        TaskBuilder::compound("root", vec![MethodBuilder::new("m").subtask("dup").build()]),
        TaskBuilder::primitive("dup", "first"),
        TaskBuilder::primitive("dup", "second"),
    ];
    let result = tasks[0].decompose(&beliefs, &tasks, &no_answers());
    assert_eq!(result, finished(&["first"]));
    assert_eq!(tasks[1].name(), "dup");
}

#[test]
fn htn_dynamic_task_is_asked_at_each_occurrence() {
    let beliefs = facts(&[]);
    let tasks: Vec<Task<u8>> = vec![
        TaskBuilder::compound("root", vec![
            MethodBuilder::new("m").subtask("plan_it").subtask("middle").subtask("plan_it").build(),
        ]),
        Task::Dynamic { name: "plan_it".to_string(), resolver: 3u8 },
    ];
    let one = DynamicOutcomes { answers: vec![Some(strings(&["first"]))] };
    assert_eq!(tasks[0].decompose(&beliefs, &tasks, &one), Decomposition::NeedsResolver(Some(1)));
    let two = DynamicOutcomes { answers: vec![Some(strings(&["first"])), Some(strings(&["second"]))] };
    assert_eq!(tasks[0].decompose(&beliefs, &tasks, &two), finished(&["first", "middle", "second"]));
}
