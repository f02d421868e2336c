//! Decisions of the planning agent: when to interrupt, which goals to plan
//! for, and how a tick moves through the plan. The caller plans, checks
//! and drives the actions; these functions decide what happens next.

use vstd::prelude::*;

use crate::planning::belief::BeliefIdSet;
use crate::planning::goal::Goal;

verus! {

/// What one update tick of an agent did.
#[derive(Debug, Clone)]
pub enum TickResult {
    NoPlan,
    Idle,
    ActionStarted(String),
    ActionRunning(String),
    PlanComplete,
    PreconditionFailed(String),
}

/// Some goal has a priority above `current_priority` and is not achieved:
/// the current plan should be interrupted.
pub fn should_interrupt(goals: &[Goal], current_priority: u32, facts: &BeliefIdSet) -> (b: bool)
    ensures
        b == exists|i: int| 0 <= i < goals@.len() && goals@[i].priority > current_priority && !#[trigger] goals@[i].achieved_in(facts@),
{
    let n = goals.len();
    let mut i: usize = 0;
    while i < n
        invariant
            n == goals@.len(),
            0 <= i <= n,
            forall|j: int| 0 <= j < i ==> !(goals@[j].priority > current_priority && !#[trigger] goals@[j].achieved_in(facts@)),
        decreases n - i,
    {
        if goals[i].priority > current_priority && !goals[i].is_achieved(facts) {
            return true;
        }
        i += 1;
    }
    false
}

/// The goals whose priority is at least `min_priority`, in order.
pub fn eligible_goals(goals: &[Goal], min_priority: u32) -> (r: Vec<Goal>)
    ensures
        r@.len() == goals@.filter(|g: Goal| g.priority >= min_priority).len(),
        forall|i: int| 0 <= i < r@.len() ==> {
            let g = goals@.filter(|g: Goal| g.priority >= min_priority)[i];
            &&& #[trigger] r@[i].name@ == g.name@
            &&& r@[i].priority == g.priority
            &&& r@[i].desired_effects@ == g.desired_effects@
        },
{
    let ghost pred = |g: Goal| g.priority >= min_priority;
    let mut r: Vec<Goal> = Vec::new();
    let n = goals.len();
    let mut i: usize = 0;
    while i < n
        invariant
            n == goals@.len(),
            0 <= i <= n,
            pred == (|g: Goal| g.priority >= min_priority),
            r@.len() == goals@.take(i as int).filter(pred).len(),
            forall|k: int| 0 <= k < r@.len() ==> {
                let g = goals@.take(i as int).filter(pred)[k];
                &&& #[trigger] r@[k].name@ == g.name@
                &&& r@[k].priority == g.priority
                &&& r@[k].desired_effects@ == g.desired_effects@
            },
        decreases n - i,
    {
        proof {
            assert(goals@.take(i + 1).drop_last() =~= goals@.take(i as int));
            reveal_with_fuel(Seq::filter, 1);
        }
        if goals[i].priority >= min_priority {
            r.push(goals[i].clone());
        }
        i += 1;
    }
    proof {
        assert(goals@.take(n as int) =~= goals@);
    }
    r
}

/// What a tick asks of its caller next.
#[derive(Debug)]
pub enum NextStep {
    /// The tick ends with this result.
    Report(TickResult),
    /// The action at `idx` of the agent's actions, named `name`, is next:
    /// it starts when its preconditions hold and it can perform
    /// (`AgentProgress::start_checked`).
    Check { name: String, idx: usize },
}

/// Where an agent is in carrying out its plan, from one tick to the next.
pub struct AgentProgress {
    /// The goal being pursued.
    pub current_goal: Option<Goal>,
    /// The index of the action being performed.
    pub current_action_idx: Option<usize>,
    /// The names of the actions still to perform, in order.
    pub action_queue: Vec<String>,
    /// The name of the goal whose plan completed last.
    pub last_goal_name: Option<String>,
}

/// Index of the first name equal to `name` at or after `from`, or the
/// number of names when there is none.
pub open spec fn first_position(names: Seq<String>, name: Seq<char>, from: int) -> int
    decreases names.len() - from,
{
    if from < 0 || from >= names.len() {
        names.len() as int
    } else if names[from]@ == name {
        from
    } else {
        first_position(names, name, from + 1)
    }
}

/// The name of an optional goal.
pub open spec fn goal_name(g: Option<Goal>) -> Option<Seq<char>> {
    match g {
        Some(g) => Some(g.name@),
        None => None,
    }
}

/// The view of an optional string.
pub open spec fn opt_string(s: Option<String>) -> Option<Seq<char>> {
    match s {
        Some(s) => Some(s@),
        None => None,
    }
}

/// `after` and `s` are what taking the next action of `queue` gives, from
/// progress `before`, when the agent's actions are named `names`: the first
/// name leaves the queue; when an action has that name (the first such),
/// it is to be checked, else the tick ends without a plan.
pub open spec fn advanced(before: AgentProgress, queue: Seq<String>, names: Seq<String>, after: AgentProgress, s: NextStep) -> bool {
    &&& after.current_goal == before.current_goal
    &&& after.current_action_idx == before.current_action_idx
    &&& after.last_goal_name == before.last_goal_name
    &&& if queue.len() == 0 {
        &&& after.action_queue@ == queue
        &&& s == NextStep::Report(TickResult::NoPlan)
    } else {
        let k = first_position(names, queue[0]@, 0);
        &&& after.action_queue@ == queue.drop_first()
        &&& if k < names.len() {
            s == NextStep::Check { name: queue[0], idx: k as usize }
        } else {
            s == NextStep::Report(TickResult::NoPlan)
        }
    }
}

proof fn lemma_first_position_skip(names: Seq<String>, name: Seq<char>, from: int, to: int)
    requires
        0 <= from <= to <= names.len(),
        forall|m: int| from <= m < to ==> names[m]@ != name,
    ensures
        first_position(names, name, from) == first_position(names, name, to),
    decreases to - from,
{
    if from < to {
        lemma_first_position_skip(names, name, from + 1, to);
    }
}

/// The index of the first of `names` equal to `name`, or the number of names.
fn position_of(names: &[String], name: &String) -> (k: usize)
    ensures
        k as int == first_position(names@, name@, 0),
{
    let n = names.len();
    let mut i: usize = 0;
    while i < n
        invariant
            n == names@.len(),
            0 <= i <= n,
            forall|m: int| 0 <= m < i ==> names@[m]@ != name@,
        decreases n - i,
    {
        if names[i] == *name {
            proof {
                lemma_first_position_skip(names@, name@, 0, i as int);
            }
            return i;
        }
        i += 1;
    }
    proof {
        lemma_first_position_skip(names@, name@, 0, n as int);
    }
    n
}

impl AgentProgress {
    /// No goal, no action, nothing queued, no goal completed.
    pub fn new() -> (p: Self)
        ensures
            p.current_goal is None,
            p.current_action_idx is None,
            p.action_queue@.len() == 0,
            p.last_goal_name is None,
    {
        AgentProgress { current_goal: None, current_action_idx: None, action_queue: Vec::new(), last_goal_name: None }
    }

    /// The priority of the goal being pursued; 0 when there is none.
    pub open spec fn priority_spec(&self) -> u32 {
        match self.current_goal {
            Some(g) => g.priority,
            None => 0,
        }
    }

    /// The priority of the goal being pursued; 0 when there is none.
    pub fn current_priority(&self) -> (p: u32)
        ensures
            p == self.priority_spec(),
    {
        match &self.current_goal {
            Some(g) => g.priority,
            None => 0,
        }
    }

    /// Take the next queued action: its name leaves the queue and is looked
    /// up among the agent's action names.
    pub fn advance(&mut self, action_names: &[String]) -> (s: NextStep)
        ensures
            advanced(*old(self), old(self).action_queue@, action_names@, *final(self), s),
    {
        if self.action_queue.len() == 0 {
            return NextStep::Report(TickResult::NoPlan);
        }
        let name = self.action_queue.remove(0);
        let k = position_of(action_names, &name);
        if k < action_names.len() {
            NextStep::Check { name, idx: k }
        } else {
            NextStep::Report(TickResult::NoPlan)
        }
    }

    /// A plan was asked for (no action is running): without one the tick
    /// ends with `NoPlan`; with one, its action names become the queue and
    /// the first is taken.
    pub fn take_plan(&mut self, plan: Option<Vec<String>>, action_names: &[String]) -> (s: NextStep)
        ensures
            match plan {
                Some(p) => advanced(*old(self), p@, action_names@, *final(self), s),
                None => *final(self) == *old(self) && s == NextStep::Report(TickResult::NoPlan),
            },
    {
        match plan {
            Some(p) => {
                self.action_queue = p;
                self.advance(action_names)
            },
            None => NextStep::Report(TickResult::NoPlan),
        }
    }

    /// The checked action `idx` (named `name`) starts when `ready` (its
    /// preconditions hold and it can perform); otherwise the plan is
    /// dropped: no action, no goal, nothing queued.
    pub fn start_checked(&mut self, name: String, idx: usize, ready: bool) -> (r: TickResult)
        ensures
            final(self).last_goal_name == old(self).last_goal_name,
            ready ==> {
                &&& r == TickResult::ActionStarted(name)
                &&& final(self).current_action_idx == Some(idx)
                &&& final(self).current_goal == old(self).current_goal
                &&& final(self).action_queue == old(self).action_queue
            },
            !ready ==> {
                &&& r == TickResult::PreconditionFailed(name)
                &&& final(self).current_action_idx is None
                &&& final(self).current_goal is None
                &&& final(self).action_queue@.len() == 0
            },
    {
        if ready {
            self.current_action_idx = Some(idx);
            TickResult::ActionStarted(name)
        } else {
            self.current_action_idx = None;
            self.current_goal = None;
            self.action_queue.clear();
            TickResult::PreconditionFailed(name)
        }
    }

    /// The running action (named `running`) was updated: unless it is
    /// `complete` it keeps running; once complete, the next queued action
    /// is taken, or, with none left, the plan completes: the goal's name is
    /// remembered and the agent is left without goal or action.
    pub fn after_update(&mut self, complete: bool, running: String, action_names: &[String]) -> (s: NextStep)
        ensures
            !complete ==> *final(self) == *old(self) && s == NextStep::Report(TickResult::ActionRunning(running)),
            complete && old(self).action_queue@.len() == 0 ==> {
                &&& s == NextStep::Report(TickResult::PlanComplete)
                &&& opt_string(final(self).last_goal_name) == goal_name(old(self).current_goal)
                &&& final(self).current_goal is None
                &&& final(self).current_action_idx is None
                &&& final(self).action_queue == old(self).action_queue
            },
            complete && old(self).action_queue@.len() > 0 ==> advanced(
                *old(self),
                old(self).action_queue@,
                action_names@,
                *final(self),
                s,
            ),
    {
        if !complete {
            return NextStep::Report(TickResult::ActionRunning(running));
        }
        if self.action_queue.len() == 0 {
            self.last_goal_name = match &self.current_goal {
                Some(g) => Some(g.name.clone()),
                None => None,
            };
            self.current_goal = None;
            self.current_action_idx = None;
            NextStep::Report(TickResult::PlanComplete)
        } else {
            self.advance(action_names)
        }
    }

    /// Drop the plan: no action, no goal, nothing queued.
    pub fn reset(&mut self)
        ensures
            final(self).current_action_idx is None,
            final(self).current_goal is None,
            final(self).action_queue@.len() == 0,
            final(self).last_goal_name == old(self).last_goal_name,
    {
        self.current_action_idx = None;
        self.current_goal = None;
        self.action_queue.clear();
    }
}

} // verus!
