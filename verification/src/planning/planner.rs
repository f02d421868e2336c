//! GOAP planning: what the planner knows of each action, the order in which
//! goals are considered, and the depth-first backward-chaining search.

use vstd::prelude::*;

use crate::planning::belief::BeliefIdSet;
use crate::planning::goal::Goal;
use crate::ranking::{
    insert_by_key, insert_sorted, lemma_distinct_indices_len, lemma_insert_sorted, lemma_sorted_unique, precedes, sorted_by_key,
};

verus! {

/// What the planner reads of an action: its name, a key that orders actions
/// by cost (equal costs, equal keys), its preconditions and its effects.
#[derive(Debug)]
pub struct ActionSpec {
    pub name: String,
    pub cost_rank: u64,
    pub preconditions: BeliefIdSet,
    pub effects: BeliefIdSet,
}

/// Search strategy for the planner.
#[derive(Debug, Clone, Copy, PartialEq, Eq, Structural)]
pub enum SearchStrategy {
    /// Depth-first search: finds a plan quickly, not necessarily the cheapest.
    Dfs,
    /// A* search with a heuristic: finds the cheapest plan.
    Astar,
    /// Greedy best-first: follows the heuristic, may not be optimal.
    Greedy,
    /// Searches forward from the current state and backward from the goal.
    Bidirectional,
}

/// The GOAP planner.
pub struct GoapPlanner;

/// Heuristic that counts the unsatisfied beliefs.
#[derive(Debug)]
pub struct CountHeuristic;

/// Heuristic that sums, over the unsatisfied beliefs, the cheapest action
/// producing each.
#[derive(Debug)]
pub struct MinCostHeuristic;

/// The cost keys of the actions.
pub open spec fn cost_keys(acts: Seq<ActionSpec>) -> Seq<u64> {
    acts.map_values(|a: ActionSpec| a.cost_rank)
}

/// The indices below `n` that are not in `used`.
pub open spec fn unused_below(n: nat, used: Set<usize>) -> Set<usize> {
    Set::new(|i: usize| i < n && !used.contains(i))
}

/// `c` lists the unused actions, cheapest first, ties in index order.
pub open spec fn is_candidate_order(acts: Seq<ActionSpec>, used: Set<usize>, c: Seq<usize>) -> bool {
    &&& sorted_by_key(cost_keys(acts), c, false)
    &&& c.to_set() == unused_below(acts.len(), used)
}

/// The unused actions in the order the search tries them.
pub open spec fn candidate_order(acts: Seq<ActionSpec>, used: Set<usize>) -> Seq<usize> {
    choose|c: Seq<usize>| is_candidate_order(acts, used, c)
}

/// The set of indices marked in `u`.
pub open spec fn used_set(u: Seq<bool>) -> Set<usize> {
    Set::new(|i: usize| i < u.len() && u[i as int])
}

/// Some effect of `a` is in `needed`.
pub open spec fn produces_any(a: ActionSpec, needed: Set<Seq<char>>) -> bool {
    exists|x: Seq<char>| a.effects@.contains(x) && needed.contains(x)
}

/// What is still needed after choosing `a` to produce part of `needed`.
pub open spec fn regress(a: ActionSpec, needed: Set<Seq<char>>, facts: Set<Seq<char>>) -> Set<Seq<char>> {
    needed.difference(a.effects@).union(a.preconditions@.difference(facts))
}

/// Depth-first backward chaining. Returns the chosen actions with the last
/// chosen first (the order in which they run). `depth` bounds the nesting;
/// the search starts with `depth` equal to the number of actions, so it
/// never cuts the search short.
pub open spec fn dfs(
    acts: Seq<ActionSpec>,
    facts: Set<Seq<char>>,
    unsat: Set<Seq<char>>,
    used: Set<usize>,
    depth: nat,
) -> Option<Seq<usize>>
    decreases depth, 1nat, 0int,
{
    let needed = unsat.difference(facts);
    if needed == Set::<Seq<char>>::empty() {
        Some(Seq::empty())
    } else if depth == 0 {
        None
    } else {
        try_cands(acts, facts, needed, used, depth, candidate_order(acts, used), 0)
    }
}

/// Try the candidates from position `k` on.
pub open spec fn try_cands(
    acts: Seq<ActionSpec>,
    facts: Set<Seq<char>>,
    needed: Set<Seq<char>>,
    used: Set<usize>,
    depth: nat,
    cands: Seq<usize>,
    k: int,
) -> Option<Seq<usize>>
    decreases depth, 0nat, cands.len() - k,
{
    if depth == 0 || k < 0 || k >= cands.len() {
        None
    } else {
        let idx = cands[k];
        let a = acts[idx as int];
        if idx < acts.len() && !used.contains(idx) && produces_any(a, needed) {
            match dfs(acts, facts, regress(a, needed, facts), used.insert(idx), (depth - 1) as nat) {
                Some(p) => Some(p.push(idx)),
                None => try_cands(acts, facts, needed, used, depth, cands, k + 1),
            }
        } else {
            try_cands(acts, facts, needed, used, depth, cands, k + 1)
        }
    }
}

/// The plan the depth-first search returns, in the order the actions run:
/// the action chosen last (deepest in the chaining) first, the action
/// achieving the goal last.
pub open spec fn dfs_plan(acts: Seq<ActionSpec>, facts: Set<Seq<char>>, unsat: Set<Seq<char>>) -> Option<Seq<usize>> {
    dfs(acts, facts, unsat, Set::empty(), acts.len())
}

/// Every belief of `target` holds now or is an effect of some action of
/// `plan`.
pub open spec fn covers(acts: Seq<ActionSpec>, facts: Set<Seq<char>>, plan: Seq<usize>, target: Set<Seq<char>>) -> bool {
    forall|x: Seq<char>| #[trigger] target.contains(x) ==> facts.contains(x)
        || exists|j: int| 0 <= j < plan.len() && acts[plan[j] as int].effects@.contains(x)
}

/// Run in order, every precondition of each action holds now or is an
/// effect of an action that ran before it.
pub open spec fn runs_in_order(acts: Seq<ActionSpec>, facts: Set<Seq<char>>, plan: Seq<usize>) -> bool {
    forall|i: int, x: Seq<char>| 0 <= i < plan.len() && #[trigger] acts[plan[i] as int].preconditions@.contains(x)
        ==> facts.contains(x) || exists|j: int| 0 <= j < i && acts[plan[j] as int].effects@.contains(x)
}

/// Action `a` produces some belief that does not hold now.
pub open spec fn produces_new(a: ActionSpec, facts: Set<Seq<char>>) -> bool {
    exists|x: Seq<char>| a.effects@.contains(x) && !facts.contains(x)
}

/// Each action of `plan` produces some belief that does not hold now.
pub open spec fn each_produces_new(acts: Seq<ActionSpec>, facts: Set<Seq<char>>, plan: Seq<usize>) -> bool {
    forall|i: int| 0 <= i < plan.len() ==> produces_new(#[trigger] acts[plan[i] as int], facts)
}

/// Every index of `plan` names an action, once.
pub open spec fn distinct_actions(n: nat, plan: Seq<usize>) -> bool {
    &&& plan.no_duplicates()
    &&& forall|i: int| 0 <= i < plan.len() ==> plan[i] < n
}

proof fn lemma_dfs_sound(acts: Seq<ActionSpec>, facts: Set<Seq<char>>, unsat: Set<Seq<char>>, used: Set<usize>, depth: nat)
    requires
        dfs(acts, facts, unsat, used, depth) is Some,
    ensures
        ({
            let q = dfs(acts, facts, unsat, used, depth)->0;
            &&& runs_in_order(acts, facts, q)
            &&& covers(acts, facts, q, unsat)
            &&& distinct_actions(acts.len(), q)
            &&& each_produces_new(acts, facts, q)
            &&& forall|i: int| 0 <= i < q.len() ==> !used.contains(q[i])
        }),
    decreases depth, 1nat, 0int,
{
    let needed = unsat.difference(facts);
    if needed == Set::<Seq<char>>::empty() {
        assert forall|x: Seq<char>| #[trigger] unsat.contains(x) implies facts.contains(x) by {
            if !facts.contains(x) {
                assert(needed.contains(x));
            }
        }
    } else {
        lemma_try_sound(acts, facts, needed, used, depth, candidate_order(acts, used), 0);
        let q = dfs(acts, facts, unsat, used, depth)->0;
        assert forall|x: Seq<char>| #[trigger] unsat.contains(x) implies facts.contains(x)
            || exists|j: int| 0 <= j < q.len() && acts[q[j] as int].effects@.contains(x) by {
            if !facts.contains(x) {
                assert(needed.contains(x));
            }
        }
    }
}

proof fn lemma_try_sound(
    acts: Seq<ActionSpec>,
    facts: Set<Seq<char>>,
    needed: Set<Seq<char>>,
    used: Set<usize>,
    depth: nat,
    cands: Seq<usize>,
    k: int,
)
    requires
        try_cands(acts, facts, needed, used, depth, cands, k) is Some,
        forall|x: Seq<char>| #[trigger] needed.contains(x) ==> !facts.contains(x),
    ensures
        ({
            let q = try_cands(acts, facts, needed, used, depth, cands, k)->0;
            &&& runs_in_order(acts, facts, q)
            &&& covers(acts, facts, q, needed)
            &&& distinct_actions(acts.len(), q)
            &&& each_produces_new(acts, facts, q)
            &&& forall|i: int| 0 <= i < q.len() ==> !used.contains(q[i])
        }),
    decreases depth, 0nat, cands.len() - k,
{
    let idx = cands[k];
    let a = acts[idx as int];
    if idx < acts.len() && !used.contains(idx) && produces_any(a, needed) {
        let next = regress(a, needed, facts);
        let sub = dfs(acts, facts, next, used.insert(idx), (depth - 1) as nat);
        if sub is Some {
            lemma_dfs_sound(acts, facts, next, used.insert(idx), (depth - 1) as nat);
            let p = sub->0;
            let q = p.push(idx);
            assert(q == try_cands(acts, facts, needed, used, depth, cands, k)->0);
            assert forall|i: int| 0 <= i < q.len() implies !used.contains(q[i]) by {
                if i < p.len() {
                    assert(q[i] == p[i]);
                    assert(!used.insert(idx).contains(p[i]));
                }
            }
            assert(distinct_actions(acts.len(), q)) by {
                assert forall|i: int, j: int| 0 <= i < q.len() && 0 <= j < q.len() && i != j implies q[i] != q[j] by {
                    if i < p.len() && j < p.len() {
                        assert(q[i] == p[i] && q[j] == p[j]);
                    } else if i < p.len() {
                        assert(!used.insert(idx).contains(p[i]));
                    } else if j < p.len() {
                        assert(!used.insert(idx).contains(p[j]));
                    }
                }
            }
            assert forall|i: int, x: Seq<char>| 0 <= i < q.len() && #[trigger] acts[q[i] as int].preconditions@.contains(x)
                implies facts.contains(x) || exists|j: int| 0 <= j < i && acts[q[j] as int].effects@.contains(x) by {
                if i < p.len() {
                    assert(q[i] == p[i]);
                    if !facts.contains(x) {
                        let j = choose|j: int| 0 <= j < i && acts[p[j] as int].effects@.contains(x);
                        assert(q[j] == p[j]);
                    }
                } else {
                    if !facts.contains(x) {
                        assert(next.contains(x));
                        let j = choose|j: int| 0 <= j < p.len() && acts[p[j] as int].effects@.contains(x);
                        assert(q[j] == p[j]);
                    }
                }
            }
            assert forall|i: int| 0 <= i < q.len() implies produces_new(#[trigger] acts[q[i] as int], facts) by {
                if i < p.len() {
                    assert(q[i] == p[i]);
                } else {
                    let x = choose|x: Seq<char>| a.effects@.contains(x) && needed.contains(x);
                    assert(q[i] == idx);
                    assert(acts[q[i] as int].effects@.contains(x) && !facts.contains(x));
                }
            }
            assert forall|x: Seq<char>| #[trigger] needed.contains(x) implies facts.contains(x)
                || exists|j: int| 0 <= j < q.len() && acts[q[j] as int].effects@.contains(x) by {
                if !facts.contains(x) {
                    if a.effects@.contains(x) {
                        assert(q[p.len() as int] == idx);
                    } else {
                        assert(next.contains(x));
                        let j = choose|j: int| 0 <= j < p.len() && acts[p[j] as int].effects@.contains(x);
                        assert(q[j] == p[j]);
                    }
                }
            }
        } else {
            lemma_try_sound(acts, facts, needed, used, depth, cands, k + 1);
        }
    } else {
        lemma_try_sound(acts, facts, needed, used, depth, cands, k + 1);
    }
}

/// A plan found by depth-first search is sound: run in order, each
/// action's preconditions hold now or are produced by an action before it,
/// every goal belief holds now or is produced by some action of the plan,
/// no action occurs twice, and each action produces some belief that does
/// not hold now (an action whose effects all hold is never planned).
pub proof fn lemma_dfs_plan_sound(acts: Seq<ActionSpec>, facts: Set<Seq<char>>, unsat: Set<Seq<char>>)
    requires
        dfs_plan(acts, facts, unsat) is Some,
    ensures
        ({
            let p = dfs_plan(acts, facts, unsat)->0;
            &&& runs_in_order(acts, facts, p)
            &&& covers(acts, facts, p, unsat)
            &&& distinct_actions(acts.len(), p)
            &&& each_produces_new(acts, facts, p)
        }),
{
    lemma_dfs_sound(acts, facts, unsat, Set::empty(), acts.len());
}

/// The unused indices below `n`, cheapest first: each inserted at its place
/// in index order.
pub open spec fn unused_by_key(keys: Seq<u64>, n: nat, used: Set<usize>) -> Seq<usize>
    decreases n,
{
    if n == 0 {
        Seq::empty()
    } else {
        let c = unused_by_key(keys, (n - 1) as nat, used);
        if used.contains((n - 1) as usize) {
            c
        } else {
            insert_sorted(keys, c, (n - 1) as usize, false)
        }
    }
}

proof fn lemma_unused_by_key(keys: Seq<u64>, n: nat, used: Set<usize>)
    requires
        n <= keys.len(),
        keys.len() <= usize::MAX,
    ensures
        sorted_by_key(keys, unused_by_key(keys, n, used), false),
        unused_by_key(keys, n, used).to_set() == unused_below(n, used),
        forall|i: int| 0 <= i < unused_by_key(keys, n, used).len() ==> unused_by_key(keys, n, used)[i] < n,
    decreases n,
{
    if n == 0 {
        assert(unused_below(n, used) =~= Set::<usize>::empty());
        assert(unused_by_key(keys, n, used).to_set() =~= Set::<usize>::empty());
    } else {
        let m = (n - 1) as nat;
        let c = unused_by_key(keys, m, used);
        lemma_unused_by_key(keys, m, used);
        let x = m as usize;
        if used.contains(x) {
            assert(unused_below(n, used) =~= unused_below(m, used));
        } else {
            assert(!c.contains(x)) by {
                if c.contains(x) {
                    let k = choose|k: int| 0 <= k < c.len() && c[k] == x;
                    assert(c[k] < m);
                }
            }
            lemma_insert_sorted(keys, c, x, false);
            assert(unused_below(n, used) =~= unused_below(m, used).insert(x));
            let r = insert_sorted(keys, c, x, false);
            assert forall|i: int| 0 <= i < r.len() implies r[i] < n by {
                assert(r.to_set().contains(r[i]));
                if r[i] != x {
                    assert(c.to_set().contains(r[i]));
                    let k = choose|k: int| 0 <= k < c.len() && c[k] == r[i];
                    assert(c[k] < m);
                }
            }
        }
    }
}

/// There is an order of the unused actions, cheapest first: the one the
/// search tries is one.
proof fn lemma_candidate_order_exists(acts: Seq<ActionSpec>, used: Set<usize>)
    requires
        acts.len() <= usize::MAX,
    ensures
        is_candidate_order(acts, used, candidate_order(acts, used)),
{
    let keys = cost_keys(acts);
    lemma_unused_by_key(keys, acts.len(), used);
    assert(is_candidate_order(acts, used, unused_by_key(keys, acts.len(), used)));
}

/// If the candidate at position `k2` leads to a plan, trying the candidates
/// from `k` on finds one.
proof fn lemma_try_finds(
    acts: Seq<ActionSpec>,
    facts: Set<Seq<char>>,
    needed: Set<Seq<char>>,
    used: Set<usize>,
    depth: nat,
    cands: Seq<usize>,
    k: int,
    k2: int,
)
    requires
        0 <= k <= k2 < cands.len(),
        depth > 0,
        cands[k2] < acts.len(),
        !used.contains(cands[k2]),
        produces_any(acts[cands[k2] as int], needed),
        dfs(acts, facts, regress(acts[cands[k2] as int], needed, facts), used.insert(cands[k2]), (depth - 1) as nat) is Some,
    ensures
        try_cands(acts, facts, needed, used, depth, cands, k) is Some,
    decreases k2 - k,
{
    if k < k2 {
        lemma_try_finds(acts, facts, needed, used, depth, cands, k + 1, k2);
    }
}

/// The last action of `plan` before position `m` that produces a belief of
/// `needed`.
proof fn lemma_last_producer(acts: Seq<ActionSpec>, plan: Seq<usize>, needed: Set<Seq<char>>, m: int) -> (j: int)
    requires
        0 <= m <= plan.len(),
        exists|i: int| 0 <= i < m && produces_any(acts[plan[i] as int], needed),
    ensures
        0 <= j < m,
        produces_any(acts[plan[j] as int], needed),
        forall|i: int| j < i < m ==> !produces_any(acts[plan[i] as int], needed),
    decreases m,
{
    if produces_any(acts[plan[m - 1] as int], needed) {
        m - 1
    } else {
        lemma_last_producer(acts, plan, needed, m - 1)
    }
}

/// Backward chaining along `plan`: while every belief still needed is
/// produced by an action of `plan` before position `m`, none of which is
/// used, the search succeeds.
proof fn lemma_dfs_complete_from(
    acts: Seq<ActionSpec>,
    facts: Set<Seq<char>>,
    unsat: Set<Seq<char>>,
    used: Set<usize>,
    depth: nat,
    plan: Seq<usize>,
    m: int,
)
    requires
        acts.len() <= usize::MAX,
        distinct_actions(acts.len(), plan),
        runs_in_order(acts, facts, plan),
        0 <= m <= plan.len(),
        m <= depth,
        forall|x: Seq<char>| #[trigger] unsat.contains(x) && !facts.contains(x)
            ==> exists|i: int| 0 <= i < m && acts[plan[i] as int].effects@.contains(x),
        forall|i: int| 0 <= i < m ==> !used.contains(#[trigger] plan[i]),
    ensures
        dfs(acts, facts, unsat, used, depth) is Some,
    decreases m,
{
    let needed = unsat.difference(facts);
    if needed != Set::<Seq<char>>::empty() {
        assert(exists|x: Seq<char>| needed.contains(x)) by {
            if !(exists|x: Seq<char>| needed.contains(x)) {
                assert(needed =~= Set::<Seq<char>>::empty());
            }
        }
        let x0 = choose|x: Seq<char>| needed.contains(x);
        assert(unsat.contains(x0) && !facts.contains(x0));
        let i0 = choose|i: int| 0 <= i < m && acts[plan[i] as int].effects@.contains(x0);
        assert(produces_any(acts[plan[i0] as int], needed));
        let j = lemma_last_producer(acts, plan, needed, m);
        let idx = plan[j];
        let a = acts[idx as int];
        let next = regress(a, needed, facts);
        assert forall|x: Seq<char>| #[trigger] next.contains(x) && !facts.contains(x)
            implies exists|i: int| 0 <= i < j && acts[plan[i] as int].effects@.contains(x) by {
            if needed.contains(x) && !a.effects@.contains(x) {
                let i = choose|i: int| 0 <= i < m && acts[plan[i] as int].effects@.contains(x);
                assert(i != j);
                if i > j {
                    assert(produces_any(acts[plan[i] as int], needed));
                }
            } else {
                assert(a.preconditions@.contains(x));
            }
        }
        assert forall|i: int| 0 <= i < j implies !used.insert(idx).contains(#[trigger] plan[i]) by {
            assert(plan[i] != plan[j]);
        }
        lemma_dfs_complete_from(acts, facts, next, used.insert(idx), (depth - 1) as nat, plan, j);
        let cands = candidate_order(acts, used);
        lemma_candidate_order_exists(acts, used);
        assert(unused_below(acts.len(), used).contains(idx));
        assert(cands.to_set().contains(idx));
        let k2 = choose|k: int| 0 <= k < cands.len() && cands[k] == idx;
        lemma_try_finds(acts, facts, needed, used, depth, cands, 0, k2);
    }
}

/// If some plan runs in order from now, achieves every belief of `unsat`
/// and uses no action twice, the depth-first search finds a plan.
pub proof fn lemma_dfs_plan_complete(acts: Seq<ActionSpec>, facts: Set<Seq<char>>, unsat: Set<Seq<char>>, plan: Seq<usize>)
    requires
        acts.len() <= usize::MAX,
        distinct_actions(acts.len(), plan),
        runs_in_order(acts, facts, plan),
        covers(acts, facts, plan, unsat),
    ensures
        dfs_plan(acts, facts, unsat) is Some,
{
    lemma_distinct_indices_len(plan, acts.len());
    assert forall|x: Seq<char>| #[trigger] unsat.contains(x) && !facts.contains(x)
        implies exists|i: int| 0 <= i < plan.len() && acts[plan[i] as int].effects@.contains(x) by {
    }
    lemma_dfs_complete_from(acts, facts, unsat, Set::empty(), acts.len(), plan, plan.len() as int);
}

proof fn lemma_try_skip_to(
    acts: Seq<ActionSpec>,
    facts: Set<Seq<char>>,
    needed: Set<Seq<char>>,
    used: Set<usize>,
    depth: nat,
    cands: Seq<usize>,
    k: int,
    ka: int,
)
    requires
        0 <= k <= ka < cands.len(),
        depth > 0,
        forall|m: int| k <= m < ka ==> !produces_any(acts[#[trigger] cands[m] as int], needed),
    ensures
        try_cands(acts, facts, needed, used, depth, cands, k) == try_cands(acts, facts, needed, used, depth, cands, ka),
    decreases ka - k,
{
    if k < ka {
        lemma_try_skip_to(acts, facts, needed, used, depth, cands, k + 1, ka);
    }
}

/// The depth-first search tries the cheapest action first (ties: lowest
/// index): when the cheapest action `a` producing a needed belief ends
/// some plan that runs in order from now, achieves `unsat` and uses no
/// action twice, the plan found also ends in `a` (it is the first chosen).
pub proof fn lemma_dfs_prefers_cheapest(
    acts: Seq<ActionSpec>,
    facts: Set<Seq<char>>,
    unsat: Set<Seq<char>>,
    a: usize,
    plan: Seq<usize>,
)
    requires
        acts.len() <= usize::MAX,
        a < acts.len(),
        produces_any(acts[a as int], unsat.difference(facts)),
        forall|b: usize| b < acts.len() && b != a && #[trigger] produces_any(acts[b as int], unsat.difference(facts))
            ==> precedes(cost_keys(acts), a, b, false),
        distinct_actions(acts.len(), plan),
        runs_in_order(acts, facts, plan),
        covers(acts, facts, plan, unsat),
        plan.len() > 0,
        plan.last() == a,
    ensures
        dfs_plan(acts, facts, unsat) is Some,
        dfs_plan(acts, facts, unsat)->0.len() > 0,
        dfs_plan(acts, facts, unsat)->0.last() == a,
{
    let needed = unsat.difference(facts);
    let x0 = choose|x: Seq<char>| acts[a as int].effects@.contains(x) && needed.contains(x);
    assert(needed.contains(x0));
    assert(needed != Set::<Seq<char>>::empty());
    let n = acts.len();
    let empty = Set::<usize>::empty();
    lemma_candidate_order_exists(acts, empty);
    let cands = candidate_order(acts, empty);
    assert(unused_below(n, empty).contains(a));
    assert(cands.to_set().contains(a));
    let ka = choose|k: int| 0 <= k < cands.len() && cands[k] == a;
    assert forall|m: int| 0 <= m < ka implies !produces_any(acts[#[trigger] cands[m] as int], needed) by {
        assert(precedes(cost_keys(acts), cands[m], cands[ka], false));
        if produces_any(acts[cands[m] as int], needed) {
            assert(cands.to_set().contains(cands[m]));
            assert(cands[m] < n);
            assert(cands[m] != a);
            assert(precedes(cost_keys(acts), a, cands[m], false));
        }
    }
    lemma_try_skip_to(acts, facts, needed, empty, n, cands, 0, ka);
    // What remains after choosing `a` is achieved by the rest of the plan.
    let p = plan.drop_last();
    let last = plan.len() - 1;
    let next = regress(acts[a as int], needed, facts);
    lemma_distinct_indices_len(plan, n);
    assert forall|i: int, j: int| 0 <= i < p.len() && 0 <= j < p.len() && i != j implies p[i] != p[j] by {
        assert(p[i] == plan[i] && p[j] == plan[j]);
    }
    assert forall|i: int, x: Seq<char>| 0 <= i < p.len() && #[trigger] acts[p[i] as int].preconditions@.contains(x)
        implies facts.contains(x) || exists|j: int| 0 <= j < i && acts[p[j] as int].effects@.contains(x) by {
        assert(p[i] == plan[i]);
        if !facts.contains(x) {
            let j = choose|j: int| 0 <= j < i && acts[plan[j] as int].effects@.contains(x);
            assert(p[j] == plan[j]);
        }
    }
    assert forall|x: Seq<char>| #[trigger] next.contains(x) && !facts.contains(x)
        implies exists|i: int| 0 <= i < p.len() && acts[p[i] as int].effects@.contains(x) by {
        if needed.contains(x) && !acts[a as int].effects@.contains(x) {
            assert(unsat.contains(x));
            let j = choose|j: int| 0 <= j < plan.len() && acts[plan[j] as int].effects@.contains(x);
            assert(j != last);
            assert(p[j] == plan[j]);
        } else {
            assert(acts[plan[last] as int].preconditions@.contains(x));
            let j = choose|j: int| 0 <= j < last && acts[plan[j] as int].effects@.contains(x);
            assert(p[j] == plan[j]);
        }
    }
    assert forall|i: int| 0 <= i < p.len() implies !empty.insert(a).contains(#[trigger] p[i]) by {
        assert(p[i] == plan[i]);
        assert(plan[i] != plan[last]);
    }
    lemma_dfs_complete_from(acts, facts, next, empty.insert(a), (n - 1) as nat, p, p.len() as int);
}

/// The unused actions, cheapest first.
fn candidates(actions: &[ActionSpec], keys: &Vec<u64>, used: &Vec<bool>) -> (c: Vec<usize>)
    requires
        keys@ == cost_keys(actions@),
        used@.len() == actions@.len(),
    ensures
        c@ == candidate_order(actions@, used_set(used@)),
        forall|i: int| 0 <= i < c@.len() ==> c@[i] < actions@.len(),
        forall|i: int| 0 <= i < c@.len() ==> !used_set(used@).contains(#[trigger] c@[i]),
{
    let n = actions.len();
    let mut c: Vec<usize> = Vec::new();
    let mut i: usize = 0;
    while i < n
        invariant
            n == actions@.len(),
            keys@.len() == n,
            used@.len() == n,
            keys@ == cost_keys(actions@),
            0 <= i <= n,
            sorted_by_key(keys@, c@, false),
            c@.to_set() == Set::new(|j: usize| j < i && !used@[j as int]),
            forall|k: int| 0 <= k < c@.len() ==> c@[k] < i,
        decreases n - i,
    {
        if !used[i] {
            insert_by_key(&mut c, keys, i, false);
            proof {
                assert(c@.to_set() =~= Set::new(|j: usize| j < i + 1 && !used@[j as int]));
            }
        } else {
            proof {
                assert(c@.to_set() =~= Set::new(|j: usize| j < i + 1 && !used@[j as int]));
            }
        }
        i += 1;
    }
    proof {
        assert(c@.to_set() =~= unused_below(n as nat, used_set(used@)));
        assert(is_candidate_order(actions@, used_set(used@), c@));
        let d = candidate_order(actions@, used_set(used@));
        lemma_sorted_unique(keys@, c@, d, false);
        assert forall|k: int| 0 <= k < c@.len() implies c@[k] < actions@.len() && !used_set(used@).contains(#[trigger] c@[k]) by {
            assert(c@.to_set().contains(c@[k]));
        }
    }
    c
}

pub(crate) fn mark_used(used: &Vec<bool>, idx: usize) -> (r: Vec<bool>)
    requires
        idx < used@.len(),
    ensures
        r@ == used@.update(idx as int, true),
        used_set(r@) == used_set(used@).insert(idx),
{
    let mut r: Vec<bool> = Vec::new();
    let n = used.len();
    let mut i: usize = 0;
    while i < n
        invariant
            n == used@.len(),
            0 <= i <= n,
            r@ == used@.take(i as int),
        decreases n - i,
    {
        r.push(used[i]);
        proof {
            assert(used@.take(i + 1) =~= used@.take(i as int).push(used@[i as int]));
        }
        i += 1;
    }
    r.set(idx, true);
    proof {
        assert(used@.take(n as int) =~= used@);
        assert(used_set(r@) =~= used_set(used@).insert(idx));
    }
    r
}

fn dfs_recurse(
    facts: &BeliefIdSet,
    actions: &[ActionSpec],
    keys: &Vec<u64>,
    unsat: &BeliefIdSet,
    used: &Vec<bool>,
    depth: usize,
) -> (r: Option<Vec<usize>>)
    requires
        keys@ == cost_keys(actions@),
        used@.len() == actions@.len(),
    ensures
        match r {
            Some(p) => dfs(actions@, facts@, unsat@, used_set(used@), depth as nat) == Some(p@),
            None => dfs(actions@, facts@, unsat@, used_set(used@), depth as nat) is None,
        },
    decreases depth,
{
    let needed = unsat.difference(facts);
    if needed.is_empty() {
        let p: Vec<usize> = Vec::new();
        proof {
            assert(p@ =~= Seq::<usize>::empty());
        }
        return Some(p);
    }
    if depth == 0 {
        return None;
    }
    let cands = candidates(actions, keys, used);
    let ghost needed_v = needed@;
    let ghost uset = used_set(used@);
    let n = cands.len();
    let mut k: usize = 0;
    while k < n
        invariant
            n == cands@.len(),
            0 <= k <= n,
            depth > 0,
            keys@ == cost_keys(actions@),
            used@.len() == actions@.len(),
            needed_v == needed@,
            needed_v == unsat@.difference(facts@),
            uset == used_set(used@),
            cands@ == candidate_order(actions@, uset),
            forall|i: int| 0 <= i < cands@.len() ==> cands@[i] < actions@.len(),
            forall|i: int| 0 <= i < cands@.len() ==> !uset.contains(#[trigger] cands@[i]),
            dfs(actions@, facts@, unsat@, uset, depth as nat)
                == try_cands(actions@, facts@, needed_v, uset, depth as nat, cands@, k as int),
        decreases n - k,
    {
        let idx = cands[k];
        let a = &actions[idx];
        if let Some(next) = GoapPlanner::regress_through(a, &needed, facts) {
            let next_used = mark_used(used, idx);
            let sub = dfs_recurse(facts, actions, keys, &next, &next_used, depth - 1);
            match sub {
                Some(p) => {
                    let mut q = p;
                    q.push(idx);
                    return Some(q);
                },
                None => {},
            }
        }
        k += 1;
    }
    None
}

/// `order` lists the goals that are not achieved in `facts`, the highest
/// key first, equal keys in index order.
pub open spec fn is_goal_order(goals: Seq<Goal>, facts: Set<Seq<char>>, keys: Seq<u64>, order: Seq<usize>) -> bool {
    &&& sorted_by_key(keys, order, true)
    &&& order.to_set() == Set::new(|i: usize| i < goals.len() && !goals[i as int].achieved_in(facts))
}

impl GoapPlanner {
    /// One backward-chaining step: when action `a` produces a belief of
    /// `needed`, what is still needed once it is chosen (the needed beliefs
    /// it does not produce, plus its preconditions that do not hold now);
    /// `None` when it produces none of them.
    pub fn regress_through(a: &ActionSpec, needed: &BeliefIdSet, facts: &BeliefIdSet) -> (r: Option<BeliefIdSet>)
        ensures
            r is Some <==> produces_any(*a, needed@),
            r matches Some(s) ==> s@ == regress(*a, needed@, facts@),
    {
        if a.effects.intersects(needed) {
            let mut next = needed.difference(&a.effects);
            let pre = a.preconditions.difference(facts);
            next.insert_all(&pre);
            proof {
                assert(next@ =~= regress(*a, needed@, facts@));
            }
            Some(next)
        } else {
            None
        }
    }

    /// The goals worth planning for, in the order the planner tries them:
    /// those not yet achieved, by decreasing `priority_keys` (the effective
    /// priority of each goal), equal keys in the given order.
    pub fn order_goals(goals: &[Goal], facts: &BeliefIdSet, priority_keys: &Vec<u64>) -> (order: Vec<usize>)
        requires
            priority_keys@.len() == goals@.len(),
        ensures
            is_goal_order(goals@, facts@, priority_keys@, order@),
    {
        let n = goals.len();
        let mut order: Vec<usize> = Vec::new();
        let mut i: usize = 0;
        while i < n
            invariant
                n == goals@.len(),
                priority_keys@.len() == n,
                0 <= i <= n,
                sorted_by_key(priority_keys@, order@, true),
                order@.to_set() == Set::new(|j: usize| j < i && !goals@[j as int].achieved_in(facts@)),
                forall|k: int| 0 <= k < order@.len() ==> order@[k] < i,
            decreases n - i,
        {
            if !goals[i].is_achieved(facts) {
                insert_by_key(&mut order, priority_keys, i, true);
            }
            proof {
                assert(order@.to_set() =~= Set::new(|j: usize| j < i + 1 && !goals@[j as int].achieved_in(facts@)));
            }
            i += 1;
        }
        proof {
            assert(order@.to_set() =~= Set::new(|j: usize| j < goals@.len() && !goals@[j as int].achieved_in(facts@)));
        }
        order
    }

    /// Depth-first backward-chaining search for actions that make every
    /// belief of `initial_unsatisfied` hold, starting from the beliefs that
    /// hold now (`facts`). Each action is used at most once; at each step
    /// the cheapest unused action (ties: lowest index) producing a still
    /// needed belief is tried first. Returns action indices in the order
    /// they run: the action producing the goal comes last.
    pub fn search_dfs(facts: &BeliefIdSet, actions: &[ActionSpec], initial_unsatisfied: &BeliefIdSet) -> (r: Option<Vec<usize>>)
        ensures
            match r {
                Some(p) => dfs_plan(actions@, facts@, initial_unsatisfied@) == Some(p@),
                None => dfs_plan(actions@, facts@, initial_unsatisfied@) is None,
            },
    {
        let n = actions.len();
        let mut keys: Vec<u64> = Vec::new();
        let mut used: Vec<bool> = Vec::new();
        let mut i: usize = 0;
        while i < n
            invariant
                n == actions@.len(),
                0 <= i <= n,
                keys@ == cost_keys(actions@).take(i as int),
                used@.len() == i,
                forall|j: int| 0 <= j < i ==> !used@[j],
            decreases n - i,
        {
            keys.push(actions[i].cost_rank);
            used.push(false);
            proof {
                assert(cost_keys(actions@).take(i + 1) =~= cost_keys(actions@).take(i as int).push(actions@[i as int].cost_rank));
            }
            i += 1;
        }
        proof {
            assert(cost_keys(actions@).take(n as int) =~= cost_keys(actions@));
            assert(used_set(used@) =~= Set::<usize>::empty());
        }
        dfs_recurse(facts, actions, &keys, initial_unsatisfied, &used, n)
    }
}

} // verus!
