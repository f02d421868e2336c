//! Goals: a priority and the beliefs that should hold.

use vstd::prelude::*;

use crate::planning::belief::{BeliefId, BeliefIdSet};

verus! {

/// A goal the agent wants to achieve: a priority plus the set of beliefs
/// that should become true.
#[derive(Debug)]
pub struct Goal {
    pub name: String,
    pub priority: u32,
    pub desired_effects: BeliefIdSet,
}

impl Goal {
    /// True when every desired effect is among the beliefs that hold.
    pub open spec fn achieved_in(&self, facts: Set<Seq<char>>) -> bool {
        self.desired_effects@.subset_of(facts)
    }

    /// Whether every desired effect holds in `facts`.
    pub fn is_achieved(&self, facts: &BeliefIdSet) -> (b: bool)
        ensures
            b == self.achieved_in(facts@),
    {
        self.desired_effects.is_subset_of(facts)
    }
}

impl Clone for Goal {
    fn clone(&self) -> (res: Self)
        ensures
            res.name@ == self.name@,
            res.priority == self.priority,
            res.desired_effects@ == self.desired_effects@,
    {
        Goal {
            name: self.name.clone(),
            priority: self.priority,
            desired_effects: self.desired_effects.clone(),
        }
    }
}

/// Builder for constructing goals.
pub struct GoalBuilder {
    name: String,
    priority: u32,
    desired_effects: BeliefIdSet,
}

impl View for GoalBuilder {
    type V = (Seq<char>, u32, Set<Seq<char>>);

    closed spec fn view(&self) -> (Seq<char>, u32, Set<Seq<char>>) {
        (self.name@, self.priority, self.desired_effects@)
    }
}

impl GoalBuilder {
    /// A builder with priority 1 and no desired effect.
    pub fn new(name: &str) -> (b: Self)
        ensures
            b@ == (name@, 1u32, Set::<Seq<char>>::empty()),
    {
        GoalBuilder { name: name.to_owned(), priority: 1, desired_effects: BeliefIdSet::new() }
    }

    /// Set the priority.
    pub fn priority(self, priority: u32) -> (b: Self)
        ensures
            b@ == (self@.0, priority, self@.2),
    {
        let mut s = self;
        s.priority = priority;
        s
    }

    /// Add a belief that the goal wants to hold.
    pub fn desired_effect(self, belief: &str) -> (b: Self)
        ensures
            b@ == (self@.0, self@.1, self@.2.insert(belief@)),
    {
        let mut s = self;
        let id: BeliefId = belief.to_owned();
        s.desired_effects.insert(id);
        s
    }

    /// The goal described so far.
    pub fn build(self) -> (g: Goal)
        ensures
            g.name@ == self@.0,
            g.priority == self@.1,
            g.desired_effects@ == self@.2,
    {
        Goal { name: self.name, priority: self.priority, desired_effects: self.desired_effects }
    }
}

} // verus!
