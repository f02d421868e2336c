//! The partial plans of the best-first (A*) backward search: how a partial
//! plan grows by one action and when it is complete. Which partial plan is
//! explored next depends on summed costs and is left to the caller.

use vstd::prelude::*;

use crate::planning::belief::BeliefIdSet;
use crate::planning::bidirectional::{backward_sound, copy_plan, lemma_backward_step_sound};
use crate::planning::planner::{covers, distinct_actions, mark_used, produces_any, regress, runs_in_order, used_set, ActionSpec, GoapPlanner};

verus! {

/// A partial plan of the backward search: the actions chosen so far in the
/// order they were chosen (the action producing the goal first), the
/// beliefs they still need, and which actions are used.
pub struct PartialPlan {
    pub chosen: Vec<usize>,
    pub unsatisfied: BeliefIdSet,
    pub used: Vec<bool>,
}

impl PartialPlan {
    /// Once the beliefs still needed hold too, the chosen actions, run from
    /// the last chosen, run in order and achieve `goal`; no action is chosen
    /// twice, and `used` marks exactly the chosen actions.
    pub open spec fn sound(&self, acts: Seq<ActionSpec>, facts: Set<Seq<char>>, goal: Set<Seq<char>>) -> bool {
        &&& backward_sound(acts, facts, goal, (self.unsatisfied@, self.chosen@))
        &&& self.chosen@.no_duplicates()
        &&& self.used@.len() == acts.len()
        &&& used_set(self.used@) == self.chosen@.to_set()
    }

    /// The empty partial plan for a goal whose beliefs `goal_unsatisfied`
    /// do not hold yet: nothing chosen, nothing used.
    pub fn start(actions: &[ActionSpec], goal_unsatisfied: &BeliefIdSet) -> (p: Self)
        ensures
            p.chosen@ == Seq::<usize>::empty(),
            p.unsatisfied@ == goal_unsatisfied@,
            p.used@ == Seq::new(actions@.len(), |i: int| false),
            forall|facts: Set<Seq<char>>| #[trigger] p.sound(actions@, facts, goal_unsatisfied@),
    {
        let n = actions.len();
        let mut used: Vec<bool> = Vec::new();
        let mut i: usize = 0;
        while i < n
            invariant
                n == actions@.len(),
                0 <= i <= n,
                used@ == Seq::new(i as nat, |k: int| false),
            decreases n - i,
        {
            used.push(false);
            proof {
                assert(used@ =~= Seq::new((i + 1) as nat, |k: int| false));
            }
            i += 1;
        }
        let p = PartialPlan { chosen: Vec::new(), unsatisfied: goal_unsatisfied.clone(), used };
        proof {
            assert(used_set(p.used@) =~= p.chosen@.to_set());
            assert(p.chosen@.reverse() =~= Seq::<usize>::empty());
        }
        p
    }

    /// The beliefs still needed that do not hold now.
    pub fn still_needed(&self, facts: &BeliefIdSet) -> (s: BeliefIdSet)
        ensures
            s@ == self.unsatisfied@.difference(facts@),
    {
        self.unsatisfied.difference(facts)
    }

    /// The partial plan grown by action `idx`: `None` when the action is
    /// used or produces none of the beliefs still needed; otherwise the
    /// action is chosen and used, and what is needed becomes what is left
    /// after it (the needed beliefs it does not produce, plus its
    /// preconditions that do not hold now).
    pub fn extend(&self, actions: &[ActionSpec], facts: &BeliefIdSet, idx: usize) -> (r: Option<PartialPlan>)
        requires
            idx < actions@.len(),
            self.used@.len() == actions@.len(),
        ensures
            r is Some <==> !self.used@[idx as int] && produces_any(actions@[idx as int], self.unsatisfied@.difference(facts@)),
            r matches Some(q) ==> {
                &&& q.chosen@ == self.chosen@.push(idx)
                &&& q.unsatisfied@ == regress(actions@[idx as int], self.unsatisfied@.difference(facts@), facts@)
                &&& q.used@ == self.used@.update(idx as int, true)
            },
            r matches Some(q) ==> forall|goal: Set<Seq<char>>|
                self.sound(actions@, facts@, goal) ==> #[trigger] q.sound(actions@, facts@, goal),
    {
        if self.used[idx] {
            return None;
        }
        let needed = self.unsatisfied.difference(facts);
        match GoapPlanner::regress_through(&actions[idx], &needed, facts) {
            None => None,
            Some(next) => {
                let mut chosen = copy_plan(&self.chosen);
                chosen.push(idx);
                let used = mark_used(&self.used, idx);
                let q = PartialPlan { chosen, unsatisfied: next, used };
                proof {
                    assert forall|goal: Set<Seq<char>>| self.sound(actions@, facts@, goal) implies #[trigger] q.sound(actions@, facts@, goal) by {
                        let en = (self.unsatisfied@.difference(facts@), self.chosen@);
                        assert(facts@.union(en.0) =~= facts@.union(self.unsatisfied@));
                        lemma_backward_step_sound(actions@, facts@, goal, en, idx);
                        assert(!self.chosen@.contains(idx)) by {
                            if self.chosen@.contains(idx) {
                                assert(self.chosen@.to_set().contains(idx));
                            }
                        }
                        assert(q.chosen@.no_duplicates()) by {
                            assert forall|i: int, j: int| 0 <= i < q.chosen@.len() && 0 <= j < q.chosen@.len() && i != j
                                implies q.chosen@[i] != q.chosen@[j] by {
                                if i < self.chosen@.len() && j < self.chosen@.len() {
                                } else if i < self.chosen@.len() {
                                    assert(self.chosen@.contains(q.chosen@[i]));
                                } else if j < self.chosen@.len() {
                                    assert(self.chosen@.contains(q.chosen@[j]));
                                }
                            }
                        }
                        assert(used_set(q.used@) =~= q.chosen@.to_set()) by {
                            assert forall|x: usize| used_set(q.used@).contains(x) <==> q.chosen@.to_set().contains(x) by {
                                if x != idx {
                                    if q.chosen@.contains(x) {
                                        let k = choose|k: int| 0 <= k < q.chosen@.len() && q.chosen@[k] == x;
                                        assert(k < self.chosen@.len());
                                        assert(self.chosen@[k] == x);
                                        assert(self.chosen@.to_set().contains(x));
                                    }
                                    if self.chosen@.contains(x) {
                                        let k = choose|k: int| 0 <= k < self.chosen@.len() && self.chosen@[k] == x;
                                        assert(q.chosen@[k] == x);
                                    }
                                    assert(self.chosen@.to_set().contains(x) == self.chosen@.contains(x));
                                } else {
                                    assert(q.chosen@[self.chosen@.len() as int] == idx);
                                }
                            }
                        }
                    }
                }
                Some(q)
            },
        }
    }

    /// When every belief still needed holds now, the plan: the chosen
    /// actions in the order they run (the last chosen first). It runs in
    /// order from now, achieves the goal and uses no action twice.
    pub fn plan_if_complete(&self, facts: &BeliefIdSet) -> (r: Option<Vec<usize>>)
        ensures
            r is Some <==> self.unsatisfied@.subset_of(facts@),
            r matches Some(p) ==> p@ == self.chosen@.reverse(),
            r matches Some(p) ==> forall|acts: Seq<ActionSpec>, goal: Set<Seq<char>>| #[trigger] self.sound(acts, facts@, goal) ==> {
                &&& runs_in_order(acts, facts@, p@)
                &&& covers(acts, facts@, p@, goal)
                &&& distinct_actions(acts.len(), p@)
            },
    {
        if !self.unsatisfied.is_subset_of(facts) {
            return None;
        }
        let m = self.chosen.len();
        let mut out: Vec<usize> = Vec::new();
        let mut j: usize = 0;
        while j < m
            invariant
                m == self.chosen@.len(),
                0 <= j <= m,
                out@ == self.chosen@.reverse().take(j as int),
            decreases m - j,
        {
            out.push(self.chosen[m - 1 - j]);
            proof {
                assert(self.chosen@.reverse().take(j + 1) =~= self.chosen@.reverse().take(j as int).push(self.chosen@[m - 1 - j]));
            }
            j += 1;
        }
        proof {
            let p = self.chosen@.reverse();
            assert(p.take(m as int) =~= p);
            assert(facts@.union(self.unsatisfied@) =~= facts@);
            assert forall|acts: Seq<ActionSpec>, goal: Set<Seq<char>>| #[trigger] self.sound(acts, facts@, goal) implies {
                &&& runs_in_order(acts, facts@, p)
                &&& covers(acts, facts@, p, goal)
                &&& distinct_actions(acts.len(), p)
            } by {
                assert forall|i: int, j: int| 0 <= i < p.len() && 0 <= j < p.len() && i != j implies p[i] != p[j] by {
                    assert(p[i] == self.chosen@[m - 1 - i]);
                    assert(p[j] == self.chosen@[m - 1 - j]);
                }
                assert forall|i: int| 0 <= i < p.len() implies p[i] < acts.len() by {
                    assert(p[i] == self.chosen@[m - 1 - i]);
                }
            }
        }
        Some(out)
    }
}

} // verus!
